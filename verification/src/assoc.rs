//! Small association maps with unique integer keys, used for the
//! ephemeral-to-persistent identity table and the two domain index tables.
//! Each is a vector of entries with a `Map` view.

use vstd::prelude::*;

verus! {

/// The map described by an entry sequence, later entries winning.
pub open spec fn id_pairs_map(s: Seq<(u64, u64)>) -> Map<u64, u64>
    decreases s.len(),
{
    if s.len() == 0 {
        Map::empty()
    } else {
        id_pairs_map(s.drop_last()).insert(s.last().0, s.last().1)
    }
}

/// No key occurs twice.
pub open spec fn id_pairs_unique(s: Seq<(u64, u64)>) -> bool {
    forall|i: int, j: int| 0 <= i < j < s.len() ==> (#[trigger] s[i]).0 != (#[trigger] s[j]).0
}

/// Membership in `id_pairs_map` is witnessed by an entry.
proof fn lemma_id_pairs_membership(s: Seq<(u64, u64)>, k: u64)
    ensures
        id_pairs_map(s).contains_key(k) <==> exists|i: int| 0 <= i < s.len() && (#[trigger] s[i]).0 == k,
    decreases s.len(),
{
    if s.len() > 0 {
        lemma_id_pairs_membership(s.drop_last(), k);
        if s.last().0 == k {
            assert(s[s.len() - 1].0 == k);
        } else if id_pairs_map(s).contains_key(k) {
            let i = choose|i: int| 0 <= i < s.drop_last().len() && (#[trigger] s.drop_last()[i]).0 == k;
            assert(s[i].0 == k);
        } else {
            assert(forall|i: int| 0 <= i < s.len() - 1 ==> s.drop_last()[i] == s[i]);
        }
    }
}

/// With unique keys, any matching entry gives the map's value.
proof fn lemma_id_pairs_value(s: Seq<(u64, u64)>, i: int)
    requires
        id_pairs_unique(s),
        0 <= i < s.len(),
    ensures
        id_pairs_map(s).contains_key(s[i].0),
        id_pairs_map(s)[s[i].0] == s[i].1,
    decreases s.len(),
{
    if i == s.len() - 1 {
    } else {
        assert(forall|j: int| 0 <= j < s.len() - 1 ==> s.drop_last()[j] == s[j]);
        lemma_id_pairs_value(s.drop_last(), i);
        assert(s.last().0 != s[i].0);
    }
}

/// An identity- or index-table: a map from `u64` to `u64`.
pub struct IdMap {
    entries: Vec<(u64, u64)>,
}

impl View for IdMap {
    type V = Map<u64, u64>;

    closed spec fn view(&self) -> Map<u64, u64> {
        id_pairs_map(self.entries@)
    }
}

impl IdMap {
    /// The table's invariant: no key occurs twice.
    pub closed spec fn wf(&self) -> bool {
        id_pairs_unique(self.entries@)
    }

    /// An empty table.
    pub fn new() -> (r: IdMap)
        ensures
            r@ == Map::<u64, u64>::empty(),
            r.wf(),
    {
        IdMap { entries: Vec::new() }
    }

    /// The value stored under `k`, if any.
    pub fn get(&self, k: u64) -> (r: Option<u64>)
        requires
            self.wf(),
        ensures
            match r {
                Option::Some(v) => self@.contains_key(k) && self@[k] == v,
                Option::None => !self@.contains_key(k),
            },
    {
        let len = self.entries.len();
        let mut i: usize = 0;
        while i < len
            invariant
                0 <= i <= len,
                len == self.entries@.len(),
                self.wf(),
                forall|j: int| 0 <= j < i ==> (#[trigger] self.entries@[j]).0 != k,
            decreases len - i,
        {
            let (ek, ev) = self.entries[i];
            if ek == k {
                proof {
                    lemma_id_pairs_value(self.entries@, i as int);
                }
                return Option::Some(ev);
            }
            i = i + 1;
        }
        proof {
            lemma_id_pairs_membership(self.entries@, k);
        }
        Option::None
    }

    /// Stores `v` under `k`, overwriting any existing value.
    pub fn insert(&mut self, k: u64, v: u64)
        requires
            old(self).wf(),
        ensures
            final(self).wf(),
            final(self)@ == old(self)@.insert(k, v),
    {
        let len = self.entries.len();
        let mut i: usize = 0;
        while i < len
            invariant
                0 <= i <= len,
                len == self.entries@.len(),
                self == old(self),
                old(self).wf(),
                forall|j: int| 0 <= j < i ==> (#[trigger] self.entries@[j]).0 != k,
            decreases len - i,
        {
            let (ek, _) = self.entries[i];
            if ek == k {
                self.entries.set(i, (k, v));
                proof {
                    lemma_id_pairs_update(old(self).entries@, i as int, k, v);
                    assert(self.entries@ =~= old(self).entries@.update(i as int, (k, v)));
                    assert(forall|a: int, b: int|
                        0 <= a < b < self.entries@.len() ==> (#[trigger] self.entries@[a]).0 != (
                        #[trigger] self.entries@[b]).0) by {
                        assert(forall|a: int|
                            0 <= a < self.entries@.len() && a != i ==> self.entries@[a]
                                == old(self).entries@[a]);
                    }
                }
                return ;
            }
            i = i + 1;
        }
        self.entries.push((k, v));
        proof {
            assert(self.entries@.drop_last() =~= old(self).entries@);
            assert(forall|a: int, b: int|
                0 <= a < b < self.entries@.len() ==> (#[trigger] self.entries@[a]).0 != (
                #[trigger] self.entries@[b]).0) by {
                assert(forall|a: int|
                    0 <= a < old(self).entries@.len() ==> self.entries@[a] == old(self).entries@[a]);
                assert(self.entries@[self.entries@.len() - 1] == (k, v));
            }
        }
    }

    /// Removes the value stored under `k`, if any.
    pub fn remove(&mut self, k: u64)
        requires
            old(self).wf(),
        ensures
            final(self).wf(),
            final(self)@ == old(self)@.remove(k),
    {
        let len = self.entries.len();
        let mut i: usize = 0;
        while i < len
            invariant
                0 <= i <= len,
                len == self.entries@.len(),
                self == old(self),
                old(self).wf(),
                forall|j: int| 0 <= j < i ==> (#[trigger] self.entries@[j]).0 != k,
            decreases len - i,
        {
            let (ek, _) = self.entries[i];
            if ek == k {
                self.entries.remove(i);
                proof {
                    lemma_id_pairs_removed(old(self).entries@, i as int);
                    assert(self.entries@ =~= old(self).entries@.remove(i as int));
                    let r = old(self).entries@.remove(i as int);
                    assert(forall|a: int, b: int|
                        0 <= a < b < r.len() ==> (#[trigger] r[a]).0 != (#[trigger] r[b]).0) by {
                        assert(forall|a: int|
                            0 <= a < r.len() ==> r[a] == if a < i {
                                old(self).entries@[a]
                            } else {
                                old(self).entries@[a + 1]
                            });
                    }
                }
                return ;
            }
            i = i + 1;
        }
        proof {
            lemma_id_pairs_membership(self.entries@, k);
            assert(self@ =~= self@.remove(k));
        }
    }
}

/// Updating the entry holding key `k` updates the map's value at `k`.
proof fn lemma_id_pairs_update(s: Seq<(u64, u64)>, i: int, k: u64, v: u64)
    requires
        id_pairs_unique(s),
        0 <= i < s.len(),
        s[i].0 == k,
    ensures
        id_pairs_map(s.update(i, (k, v))) == id_pairs_map(s).insert(k, v),
    decreases s.len(),
{
    let t = s.update(i, (k, v));
    if i == s.len() - 1 {
        assert(t.drop_last() =~= s.drop_last());
        assert(id_pairs_map(t) == id_pairs_map(s.drop_last()).insert(k, v));
        assert(id_pairs_map(s.drop_last()).insert(s.last().0, s.last().1).insert(k, v)
            =~= id_pairs_map(s.drop_last()).insert(k, v));
    } else {
        assert(forall|j: int| 0 <= j < s.len() - 1 ==> s.drop_last()[j] == s[j]);
        assert(id_pairs_unique(s.drop_last()));
        lemma_id_pairs_update(s.drop_last(), i, k, v);
        assert(t.drop_last() =~= s.drop_last().update(i, (k, v)));
        assert(t.last() == s.last());
        assert(id_pairs_map(t) == id_pairs_map(s.drop_last()).insert(k, v).insert(
            s.last().0,
            s.last().1,
        ));
        assert(s.last().0 != k);
        assert(id_pairs_map(s.drop_last()).insert(k, v).insert(s.last().0, s.last().1)
            =~= id_pairs_map(s.drop_last()).insert(s.last().0, s.last().1).insert(k, v));
    }
}

/// Removing the entry holding key `k` removes `k` from the map.
proof fn lemma_id_pairs_removed(s: Seq<(u64, u64)>, i: int)
    requires
        id_pairs_unique(s),
        0 <= i < s.len(),
    ensures
        id_pairs_map(s.remove(i)) == id_pairs_map(s).remove(s[i].0),
    decreases s.len(),
{
    let k = s[i].0;
    if i == s.len() - 1 {
        assert(s.remove(i) =~= s.drop_last());
        lemma_id_pairs_membership(s.drop_last(), k);
        assert(forall|j: int| 0 <= j < s.len() - 1 ==> s.drop_last()[j] == s[j]);
        assert(!id_pairs_map(s.drop_last()).contains_key(k));
        assert(id_pairs_map(s.drop_last()) =~= id_pairs_map(s.drop_last()).insert(k, s[i].1).remove(
            k,
        ));
    } else {
        assert(forall|j: int| 0 <= j < s.len() - 1 ==> s.drop_last()[j] == s[j]);
        assert(id_pairs_unique(s.drop_last()));
        lemma_id_pairs_removed(s.drop_last(), i);
        assert(s.remove(i).drop_last() =~= s.drop_last().remove(i));
        assert(s.remove(i).last() == s.last());
        assert(id_pairs_map(s.remove(i)) == id_pairs_map(s.drop_last()).remove(k).insert(
            s.last().0,
            s.last().1,
        ));
        assert(s.last().0 != k);
        assert(id_pairs_map(s.drop_last()).remove(k).insert(s.last().0, s.last().1)
            =~= id_pairs_map(s.drop_last()).insert(s.last().0, s.last().1).remove(k));
    }
}

/// The map described by a triple sequence, keyed by the first two
/// components, later entries winning.
pub open spec fn frame_triples_map(s: Seq<(u64, u64, u64)>) -> Map<(u64, u64), u64>
    decreases s.len(),
{
    if s.len() == 0 {
        Map::empty()
    } else {
        frame_triples_map(s.drop_last()).insert((s.last().0, s.last().1), s.last().2)
    }
}

/// No key pair occurs twice.
pub open spec fn frame_triples_unique(s: Seq<(u64, u64, u64)>) -> bool {
    forall|i: int, j: int|
        0 <= i < j < s.len() ==> ((#[trigger] s[i]).0, s[i].1) != ((#[trigger] s[j]).0, s[j].1)
}

proof fn lemma_frame_triples_membership(s: Seq<(u64, u64, u64)>, k: (u64, u64))
    ensures
        frame_triples_map(s).contains_key(k) <==> exists|i: int|
            0 <= i < s.len() && ((#[trigger] s[i]).0, s[i].1) == k,
    decreases s.len(),
{
    if s.len() > 0 {
        lemma_frame_triples_membership(s.drop_last(), k);
        if (s.last().0, s.last().1) == k {
            assert((s[s.len() - 1].0, s[s.len() - 1].1) == k);
        } else if frame_triples_map(s).contains_key(k) {
            let i = choose|i: int|
                0 <= i < s.drop_last().len() && ((#[trigger] s.drop_last()[i]).0, s.drop_last()[i].1)
                    == k;
            assert((s[i].0, s[i].1) == k);
        } else {
            assert(forall|i: int| 0 <= i < s.len() - 1 ==> s.drop_last()[i] == s[i]);
        }
    }
}

proof fn lemma_frame_triples_value(s: Seq<(u64, u64, u64)>, i: int)
    requires
        frame_triples_unique(s),
        0 <= i < s.len(),
    ensures
        frame_triples_map(s).contains_key((s[i].0, s[i].1)),
        frame_triples_map(s)[(s[i].0, s[i].1)] == s[i].2,
    decreases s.len(),
{
    if i == s.len() - 1 {
    } else {
        assert(forall|j: int| 0 <= j < s.len() - 1 ==> s.drop_last()[j] == s[j]);
        lemma_frame_triples_value(s.drop_last(), i);
        assert((s.last().0, s.last().1) != (s[i].0, s[i].1));
    }
}

/// The composite-key index table: a map from `(u64, u64)` to `u64`.
pub struct FrameMap {
    entries: Vec<(u64, u64, u64)>,
}

impl View for FrameMap {
    type V = Map<(u64, u64), u64>;

    closed spec fn view(&self) -> Map<(u64, u64), u64> {
        frame_triples_map(self.entries@)
    }
}

impl FrameMap {
    /// The table's invariant: no key pair occurs twice.
    pub closed spec fn wf(&self) -> bool {
        frame_triples_unique(self.entries@)
    }

    /// An empty table.
    pub fn new() -> (r: FrameMap)
        ensures
            r@ == Map::<(u64, u64), u64>::empty(),
            r.wf(),
    {
        FrameMap { entries: Vec::new() }
    }

    /// The value stored under `(a, b)`, if any.
    pub fn get(&self, a: u64, b: u64) -> (r: Option<u64>)
        requires
            self.wf(),
        ensures
            match r {
                Option::Some(v) => self@.contains_key((a, b)) && self@[(a, b)] == v,
                Option::None => !self@.contains_key((a, b)),
            },
    {
        let len = self.entries.len();
        let mut i: usize = 0;
        while i < len
            invariant
                0 <= i <= len,
                len == self.entries@.len(),
                self.wf(),
                forall|j: int| 0 <= j < i ==> ((#[trigger] self.entries@[j]).0, self.entries@[j].1)
                    != (a, b),
            decreases len - i,
        {
            let (ea, eb, ev) = self.entries[i];
            if ea == a && eb == b {
                proof {
                    lemma_frame_triples_value(self.entries@, i as int);
                }
                return Option::Some(ev);
            }
            i = i + 1;
        }
        proof {
            lemma_frame_triples_membership(self.entries@, (a, b));
        }
        Option::None
    }

    /// Stores `v` under `(a, b)`, overwriting any existing value.
    pub fn insert(&mut self, a: u64, b: u64, v: u64)
        requires
            old(self).wf(),
        ensures
            final(self).wf(),
            final(self)@ == old(self)@.insert((a, b), v),
    {
        let len = self.entries.len();
        let mut i: usize = 0;
        while i < len
            invariant
                0 <= i <= len,
                len == self.entries@.len(),
                self == old(self),
                old(self).wf(),
                forall|j: int| 0 <= j < i ==> ((#[trigger] self.entries@[j]).0, self.entries@[j].1)
                    != (a, b),
            decreases len - i,
        {
            let (ea, eb, _) = self.entries[i];
            if ea == a && eb == b {
                self.entries.set(i, (a, b, v));
                proof {
                    lemma_frame_triples_update(old(self).entries@, i as int, a, b, v);
                    assert(self.entries@ =~= old(self).entries@.update(i as int, (a, b, v)));
                    assert(forall|p: int, q: int|
                        0 <= p < q < self.entries@.len() ==> ((#[trigger] self.entries@[p]).0,
                        self.entries@[p].1) != ((#[trigger] self.entries@[q]).0,
                        self.entries@[q].1)) by {
                        assert(forall|p: int|
                            0 <= p < self.entries@.len() && p != i ==> self.entries@[p]
                                == old(self).entries@[p]);
                    }
                }
                return ;
            }
            i = i + 1;
        }
        self.entries.push((a, b, v));
        proof {
            assert(self.entries@.drop_last() =~= old(self).entries@);
            assert(forall|p: int, q: int|
                0 <= p < q < self.entries@.len() ==> ((#[trigger] self.entries@[p]).0,
                self.entries@[p].1) != ((#[trigger] self.entries@[q]).0, self.entries@[q].1)) by {
                assert(forall|p: int|
                    0 <= p < old(self).entries@.len() ==> self.entries@[p] == old(self).entries@[p]);
                assert(self.entries@[self.entries@.len() - 1] == (a, b, v));
            }
        }
    }
}

proof fn lemma_frame_triples_update(s: Seq<(u64, u64, u64)>, i: int, a: u64, b: u64, v: u64)
    requires
        frame_triples_unique(s),
        0 <= i < s.len(),
        s[i].0 == a,
        s[i].1 == b,
    ensures
        frame_triples_map(s.update(i, (a, b, v))) == frame_triples_map(s).insert((a, b), v),
    decreases s.len(),
{
    let t = s.update(i, (a, b, v));
    if i == s.len() - 1 {
        assert(t.drop_last() =~= s.drop_last());
        assert(frame_triples_map(t) == frame_triples_map(s.drop_last()).insert((a, b), v));
        assert(frame_triples_map(s.drop_last()).insert((s.last().0, s.last().1), s.last().2).insert(
            (a, b),
            v,
        ) =~= frame_triples_map(s.drop_last()).insert((a, b), v));
    } else {
        assert(forall|j: int| 0 <= j < s.len() - 1 ==> s.drop_last()[j] == s[j]);
        assert(frame_triples_unique(s.drop_last()));
        lemma_frame_triples_update(s.drop_last(), i, a, b, v);
        assert(t.drop_last() =~= s.drop_last().update(i, (a, b, v)));
        assert(t.last() == s.last());
        assert(frame_triples_map(t) == frame_triples_map(s.drop_last()).insert((a, b), v).insert(
            (s.last().0, s.last().1),
            s.last().2,
        ));
        assert((s.last().0, s.last().1) != (a, b));
        assert(frame_triples_map(s.drop_last()).insert((a, b), v).insert(
            (s.last().0, s.last().1),
            s.last().2,
        ) =~= frame_triples_map(s.drop_last()).insert((s.last().0, s.last().1), s.last().2).insert(
            (a, b),
            v,
        ));
    }
}

} // verus!
