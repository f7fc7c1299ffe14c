//! Normalisation of heterogeneous attribute values into text, and the
//! sorted, unique-keyed field map every span and message carries.
//!
//! An attribute arrives as one of a closed set of shapes (signed or unsigned
//! integer, boolean, text, an error's display text, a debug rendering); it is
//! coerced to its character representation immediately and stored under its
//! attribute name.  Keys are kept in strictly increasing lexicographic order,
//! and inserting an existing key overwrites its value in place.

use vstd::prelude::*;

use crate::text::lex_lt;
use crate::text::lemma_lex_lt_connected;
use crate::text::lemma_lex_lt_transitive;
use crate::text::str_lt;
use crate::text::str_eq;
use crate::text::chars_to_string;

verus! {

/// The decimal digit character for `d`.
pub open spec fn digit_char(d: int) -> char {
    if d == 0 {
        '0'
    } else if d == 1 {
        '1'
    } else if d == 2 {
        '2'
    } else if d == 3 {
        '3'
    } else if d == 4 {
        '4'
    } else if d == 5 {
        '5'
    } else if d == 6 {
        '6'
    } else if d == 7 {
        '7'
    } else if d == 8 {
        '8'
    } else {
        '9'
    }
}

/// The decimal digit sequence of `n`, most significant digit first, with no
/// leading zeros (`0` itself is the single digit `0`).
pub open spec fn dec_digits(n: nat) -> Seq<char>
    decreases n,
{
    if n < 10 {
        seq![digit_char(n as int)]
    } else {
        dec_digits(n / 10).push(digit_char((n % 10) as int))
    }
}

/// The decimal rendering of a signed value: a minus sign before the digits
/// of the magnitude when negative.
pub open spec fn dec_signed(v: int) -> Seq<char> {
    if v >= 0 {
        dec_digits(v as nat)
    } else {
        seq!['-'] + dec_digits((-v) as nat)
    }
}

/// The text of a boolean, as its usual display form.
pub open spec fn bool_chars(b: bool) -> Seq<char> {
    if b {
        "true"@
    } else {
        "false"@
    }
}

fn exec_digit(d: u64) -> (c: char)
    requires
        d < 10,
    ensures
        c == digit_char(d as int),
{
    if d == 0 {
        '0'
    } else if d == 1 {
        '1'
    } else if d == 2 {
        '2'
    } else if d == 3 {
        '3'
    } else if d == 4 {
        '4'
    } else if d == 5 {
        '5'
    } else if d == 6 {
        '6'
    } else if d == 7 {
        '7'
    } else if d == 8 {
        '8'
    } else {
        '9'
    }
}

/// Renders `n` in decimal into a character buffer.
pub fn u64_digit_chars(n: u64) -> (r: Vec<char>)
    ensures
        r@ == dec_digits(n as nat),
{
    let mut rev: Vec<char> = Vec::new();
    let mut m: u64 = n;
    while m >= 10
        invariant
            dec_digits(n as nat) =~= dec_digits(m as nat) + rev@.reverse(),
        decreases m,
    {
        let d = exec_digit(m % 10);
        proof {
            assert(dec_digits(m as nat) == dec_digits((m as nat) / 10).push(
                digit_char(((m as nat) % 10) as int),
            ));
            assert(rev@.push(d).reverse() =~= seq![d] + rev@.reverse());
            assert(dec_digits((m as nat) / 10) + rev@.push(d).reverse() =~= dec_digits(
                (m as nat) / 10,
            ).push(d) + rev@.reverse());
        }
        rev.push(d);
        m = m / 10;
    }
    let d = exec_digit(m);
    proof {
        assert(dec_digits(m as nat) == seq![digit_char(m as int)]);
        assert(rev@.push(d).reverse() =~= seq![d] + rev@.reverse());
    }
    rev.push(d);
    let ghost target = dec_digits(n as nat);
    proof {
        assert(target =~= rev@.reverse());
    }
    let mut out: Vec<char> = Vec::new();
    let len = rev.len();
    let mut i: usize = 0;
    while i < len
        invariant
            0 <= i <= len,
            len == rev@.len(),
            target == rev@.reverse(),
            out@.len() == i,
            forall|j: int| 0 <= j < i ==> out@[j] == rev@[len - 1 - j],
        decreases len - i,
    {
        let c = rev[len - 1 - i];
        out.push(c);
        i = i + 1;
    }
    proof {
        assert(out@ =~= rev@.reverse());
    }
    out
}

/// Renders `n` in decimal.
pub fn format_u64(n: u64) -> (s: String)
    ensures
        s@ == dec_digits(n as nat),
{
    let v = u64_digit_chars(n);
    chars_to_string(&v)
}

/// Renders `v` in decimal, with a leading minus sign when negative.
pub fn format_i64(v: i64) -> (s: String)
    ensures
        s@ == dec_signed(v as int),
{
    if v >= 0 {
        format_u64(v as u64)
    } else {
        let mag: u64 = (-(v as i128)) as u64;
        let digits = u64_digit_chars(mag);
        let mut out: Vec<char> = Vec::new();
        out.push('-');
        let mut i: usize = 0;
        let len = digits.len();
        while i < len
            invariant
                0 <= i <= len,
                len == digits@.len(),
                out@ =~= seq!['-'] + digits@.take(i as int),
            decreases len - i,
        {
            let c = digits[i];
            out.push(c);
            proof {
                assert(digits@.take(i + 1) =~= digits@.take(i as int).push(digits@[i as int]));
            }
            i = i + 1;
        }
        proof {
            assert(digits@.take(len as int) =~= digits@);
        }
        chars_to_string(&out)
    }
}

/// Renders a boolean as `true` or `false`.
pub fn format_bool(b: bool) -> (s: String)
    ensures
        s@ == bool_chars(b),
{
    if b {
        "true".to_owned()
    } else {
        "false".to_owned()
    }
}

/// One attribute value, as handed over by the producer-side emission
/// interface.  Every shape is normalised to text on arrival; the error and
/// debug shapes carry the text their source already rendered.
pub enum FieldValue {
    Signed(i64),
    Unsigned(u64),
    Boolean(bool),
    Text(String),
    ErrorText(String),
    DebugText(String),
}

/// The character representation a value is stored under.
pub open spec fn value_chars(v: FieldValue) -> Seq<char> {
    match v {
        FieldValue::Signed(i) => dec_signed(i as int),
        FieldValue::Unsigned(u) => dec_digits(u as nat),
        FieldValue::Boolean(b) => bool_chars(b),
        FieldValue::Text(s) => s@,
        FieldValue::ErrorText(s) => s@,
        FieldValue::DebugText(s) => s@,
    }
}

/// Coerces a borrowed value to the text it is stored as.
pub fn coerce_value(v: &FieldValue) -> (s: String)
    ensures
        s@ == value_chars(*v),
{
    match v {
        FieldValue::Signed(i) => format_i64(*i),
        FieldValue::Unsigned(u) => format_u64(*u),
        FieldValue::Boolean(b) => format_bool(*b),
        FieldValue::Text(s) => s.clone(),
        FieldValue::ErrorText(s) => s.clone(),
        FieldValue::DebugText(s) => s.clone(),
    }
}

/// A text map with unique keys in strictly increasing lexicographic order.
pub struct FieldMap {
    entries: Vec<(String, String)>,
}

/// Insertion into a sorted entry sequence: an existing key's value is
/// overwritten in place, a new key enters at its ordered position.
pub open spec fn fm_insert_spec(
    s: Seq<(Seq<char>, Seq<char>)>,
    k: Seq<char>,
    v: Seq<char>,
) -> Seq<(Seq<char>, Seq<char>)>
    decreases s.len(),
{
    if s.len() == 0 {
        seq![(k, v)]
    } else if lex_lt(s[0].0, k) {
        seq![s[0]] + fm_insert_spec(s.skip(1), k, v)
    } else if lex_lt(k, s[0].0) {
        seq![(k, v)] + s
    } else {
        seq![(k, v)] + s.skip(1)
    }
}

/// The value stored under `k`, if any.
pub open spec fn fm_lookup_spec(s: Seq<(Seq<char>, Seq<char>)>, k: Seq<char>) -> Option<Seq<char>>
    decreases s.len(),
{
    if s.len() == 0 {
        Option::None
    } else if s[0].0 == k {
        Option::Some(s[0].1)
    } else {
        fm_lookup_spec(s.skip(1), k)
    }
}

/// Keys strictly increase along the sequence.
pub open spec fn fm_sorted(s: Seq<(Seq<char>, Seq<char>)>) -> bool {
    forall|i: int, j: int| 0 <= i < j < s.len() ==> lex_lt(#[trigger] s[i].0, #[trigger] s[j].0)
}

impl View for FieldMap {
    type V = Seq<(Seq<char>, Seq<char>)>;

    closed spec fn view(&self) -> Seq<(Seq<char>, Seq<char>)> {
        Seq::new(self.entries@.len(), |i: int| (self.entries@[i].0@, self.entries@[i].1@))
    }
}

impl FieldMap {
    /// The map's invariant: keys strictly increasing, hence unique.
    pub open spec fn wf(&self) -> bool {
        fm_sorted(self@)
    }

    /// An empty map.
    pub fn new() -> (r: FieldMap)
        ensures
            r@ =~= Seq::<(Seq<char>, Seq<char>)>::empty(),
            r.wf(),
    {
        FieldMap { entries: Vec::new() }
    }

    /// Inserts `v` under `k`, overwriting an existing value for `k`.
    pub fn insert(&mut self, k: String, v: String)
        requires
            old(self).wf(),
        ensures
            final(self).wf(),
            final(self)@ == fm_insert_spec(old(self)@, k@, v@),
    {
        let len = self.entries.len();
        let mut p: usize = 0;
        while p < len && str_lt(self.entries[p].0.as_str(), k.as_str())
            invariant
                0 <= p <= len,
                len == self.entries@.len(),
                self == old(self),
                forall|j: int| 0 <= j < p ==> lex_lt(#[trigger] self@[j].0, k@),
            decreases len - p,
        {
            p = p + 1;
        }
        proof {
            assert(p < len ==> !lex_lt(self@[p as int].0, k@));
        }
        if p < len && str_eq(self.entries[p].0.as_str(), k.as_str()) {
            proof {
                lemma_fm_insert_at(old(self)@, k@, v@, p as int);
            }
            self.entries.set(p, (k, v));
            proof {
                assert(self@ =~= old(self)@.update(p as int, (k@, v@)));
                lemma_fm_update_sorted(old(self)@, k@, v@, p as int);
            }
        } else {
            proof {
                if p < len {
                    lemma_lex_lt_connected_helper(self@[p as int].0, k@);
                }
                lemma_fm_insert_at(old(self)@, k@, v@, p as int);
            }
            self.entries.insert(p, (k, v));
            proof {
                assert(self@ =~= old(self)@.take(p as int) + seq![(k@, v@)] + old(self)@.skip(
                    p as int,
                ));
                lemma_fm_inserted_sorted(old(self)@, k@, v@, p as int);
            }
        }
    }

    /// Looks up the value stored under `k`.
    pub fn get<'a>(&'a self, k: &str) -> (r: Option<&'a String>)
        ensures
            match r {
                Option::Some(v) => fm_lookup_spec(self@, k@) == Option::Some(v@),
                Option::None => fm_lookup_spec(self@, k@) == Option::None::<Seq<char>>,
            },
    {
        let len = self.entries.len();
        let mut i: usize = 0;
        proof {
            assert(self@.skip(0) =~= self@);
        }
        while i < len
            invariant
                0 <= i <= len,
                len == self.entries@.len(),
                fm_lookup_spec(self@, k@) == fm_lookup_spec(self@.skip(i as int), k@),
            decreases len - i,
        {
            proof {
                assert(self@.skip(i as int)[0] == self@[i as int]);
            }
            if str_eq(self.entries[i].0.as_str(), k) {
                return Option::Some(&self.entries[i].1);
            }
            proof {
                assert(self@.skip(i as int).skip(1) =~= self@.skip(i + 1));
            }
            i = i + 1;
        }
        proof {
            assert(self@.skip(len as int).len() == 0);
        }
        Option::None
    }

    /// The number of entries.
    pub fn len(&self) -> (n: usize)
        ensures
            n == self@.len(),
    {
        self.entries.len()
    }

    /// The key at position `i`.
    pub fn key_at<'a>(&'a self, i: usize) -> (r: &'a String)
        requires
            i < self@.len(),
        ensures
            r@ == self@[i as int].0,
    {
        &self.entries[i].0
    }

    /// The value at position `i`.
    pub fn value_at<'a>(&'a self, i: usize) -> (r: &'a String)
        requires
            i < self@.len(),
        ensures
            r@ == self@[i as int].1,
    {
        &self.entries[i].1
    }
}

/// The entry sequence after coercing and inserting a list of attributes in
/// order, later values overwriting earlier ones under the same name.
pub open spec fn fm_apply_values(
    s: Seq<(Seq<char>, Seq<char>)>,
    values: Seq<(String, FieldValue)>,
) -> Seq<(Seq<char>, Seq<char>)>
    decreases values.len(),
{
    if values.len() == 0 {
        s
    } else {
        fm_apply_values(
            fm_insert_spec(s, values[0].0@, value_chars(values[0].1)),
            values.skip(1),
        )
    }
}

/// One step of the numeric-index capture: an attribute literally named
/// `idx` of unsigned shape replaces the current capture.
pub open spec fn capture_idx_step(cur: Option<u64>, k: Seq<char>, v: FieldValue) -> Option<u64> {
    if k == "idx"@ {
        match v {
            FieldValue::Unsigned(u) => Option::Some(u),
            _ => cur,
        }
    } else {
        cur
    }
}

/// The numeric index captured while walking an attribute list.
pub open spec fn capture_idx(cur: Option<u64>, values: Seq<(String, FieldValue)>) -> Option<u64>
    decreases values.len(),
{
    if values.len() == 0 {
        cur
    } else {
        capture_idx(capture_idx_step(cur, values[0].0@, values[0].1), values.skip(1))
    }
}

proof fn lemma_fm_apply_values_snoc(
    s: Seq<(Seq<char>, Seq<char>)>,
    vs: Seq<(String, FieldValue)>,
    x: (String, FieldValue),
)
    ensures
        fm_apply_values(s, vs.push(x)) == fm_insert_spec(
            fm_apply_values(s, vs),
            x.0@,
            value_chars(x.1),
        ),
    decreases vs.len(),
{
    if vs.len() == 0 {
        let s1 = fm_insert_spec(s, x.0@, value_chars(x.1));
        assert(vs.push(x)[0] == x);
        assert(vs.push(x).skip(1) =~= Seq::<(String, FieldValue)>::empty());
        assert(fm_apply_values(s, vs.push(x)) == fm_apply_values(s1, vs.push(x).skip(1)));
        assert(fm_apply_values(s1, Seq::<(String, FieldValue)>::empty()) == s1);
    } else {
        let s1 = fm_insert_spec(s, vs[0].0@, value_chars(vs[0].1));
        assert(vs.push(x)[0] == vs[0]);
        assert(vs.push(x).skip(1) =~= vs.skip(1).push(x));
        assert(fm_apply_values(s, vs.push(x)) == fm_apply_values(s1, vs.skip(1).push(x)));
        lemma_fm_apply_values_snoc(s1, vs.skip(1), x);
        assert(fm_apply_values(s, vs) == fm_apply_values(s1, vs.skip(1)));
    }
}

proof fn lemma_capture_idx_snoc(
    cur: Option<u64>,
    vs: Seq<(String, FieldValue)>,
    x: (String, FieldValue),
)
    ensures
        capture_idx(cur, vs.push(x)) == capture_idx_step(capture_idx(cur, vs), x.0@, x.1),
    decreases vs.len(),
{
    if vs.len() == 0 {
        let c1 = capture_idx_step(cur, x.0@, x.1);
        assert(vs.push(x)[0] == x);
        assert(vs.push(x).skip(1) =~= Seq::<(String, FieldValue)>::empty());
        assert(capture_idx(cur, vs.push(x)) == capture_idx(c1, vs.push(x).skip(1)));
        assert(capture_idx(c1, Seq::<(String, FieldValue)>::empty()) == c1);
    } else {
        let c1 = capture_idx_step(cur, vs[0].0@, vs[0].1);
        assert(vs.push(x)[0] == vs[0]);
        assert(vs.push(x).skip(1) =~= vs.skip(1).push(x));
        assert(capture_idx(cur, vs.push(x)) == capture_idx(c1, vs.skip(1).push(x)));
        lemma_capture_idx_snoc(c1, vs.skip(1), x);
        assert(capture_idx(cur, vs) == capture_idx(c1, vs.skip(1)));
    }
}

/// Coerces each attribute and inserts it into `fm` in order.
pub fn apply_values(fm: &mut FieldMap, values: &Vec<(String, FieldValue)>)
    requires
        old(fm).wf(),
    ensures
        final(fm).wf(),
        final(fm)@ == fm_apply_values(old(fm)@, values@),
{
    let len = values.len();
    let mut i: usize = 0;
    proof {
        assert(values@.take(0) =~= Seq::<(String, FieldValue)>::empty());
    }
    while i < len
        invariant
            0 <= i <= len,
            len == values@.len(),
            fm.wf(),
            fm@ == fm_apply_values(old(fm)@, values@.take(i as int)),
        decreases len - i,
    {
        proof {
            lemma_fm_apply_values_snoc(old(fm)@, values@.take(i as int), values@[i as int]);
            assert(values@.take(i + 1) =~= values@.take(i as int).push(values@[i as int]));
        }
        let k = values[i].0.clone();
        let v = coerce_value(&values[i].1);
        fm.insert(k, v);
        i = i + 1;
    }
    proof {
        assert(values@.take(len as int) =~= values@);
    }
}

/// Coerces each attribute into a fresh map and captures a numeric `idx`
/// attribute of unsigned shape alongside, as span creation does.
pub fn build_span_fields(values: &Vec<(String, FieldValue)>) -> (r: (FieldMap, Option<u64>))
    ensures
        r.0.wf(),
        r.0@ == fm_apply_values(Seq::empty(), values@),
        r.1 == capture_idx(Option::None, values@),
{
    let mut fm = FieldMap::new();
    let mut idx: Option<u64> = Option::None;
    let len = values.len();
    let mut i: usize = 0;
    proof {
        assert(values@.take(0) =~= Seq::<(String, FieldValue)>::empty());
    }
    while i < len
        invariant
            0 <= i <= len,
            len == values@.len(),
            fm.wf(),
            fm@ == fm_apply_values(Seq::empty(), values@.take(i as int)),
            idx == capture_idx(Option::None, values@.take(i as int)),
        decreases len - i,
    {
        proof {
            lemma_fm_apply_values_snoc(Seq::empty(), values@.take(i as int), values@[i as int]);
            lemma_capture_idx_snoc(Option::None, values@.take(i as int), values@[i as int]);
            assert(values@.take(i + 1) =~= values@.take(i as int).push(values@[i as int]));
        }
        if crate::text::str_eq(values[i].0.as_str(), "idx") {
            match &values[i].1 {
                FieldValue::Unsigned(u) => {
                    idx = Option::Some(*u);
                },
                _ => {},
            }
        }
        let k = values[i].0.clone();
        let v = coerce_value(&values[i].1);
        fm.insert(k, v);
        i = i + 1;
    }
    proof {
        assert(values@.take(len as int) =~= values@);
    }
    (fm, idx)
}

proof fn lemma_lex_lt_connected_helper(a: Seq<char>, b: Seq<char>)
    requires
        !lex_lt(a, b),
        a != b,
    ensures
        lex_lt(b, a),
{
    if !lex_lt(b, a) {
        lemma_lex_lt_connected(a, b);
        assert(a =~= b);
    }
}

/// Relates the recursive insertion spec to the position `p` an in-order scan
/// finds: every key before `p` is below `k`, and the key at `p` (if any) is
/// not.
proof fn lemma_fm_insert_at(s: Seq<(Seq<char>, Seq<char>)>, k: Seq<char>, v: Seq<char>, p: int)
    requires
        fm_sorted(s),
        0 <= p <= s.len(),
        forall|j: int| 0 <= j < p ==> lex_lt(#[trigger] s[j].0, k),
        p < s.len() ==> !lex_lt(s[p].0, k),
    ensures
        p < s.len() && s[p].0 == k ==> fm_insert_spec(s, k, v) == s.update(p, (k, v)),
        (p == s.len() || s[p].0 != k) ==> fm_insert_spec(s, k, v) == s.take(p) + seq![(k, v)]
            + s.skip(p),
    decreases s.len(),
{
    if s.len() == 0 {
        assert(s.take(0) + seq![(k, v)] + s.skip(0) =~= seq![(k, v)]);
    } else if p == 0 {
        if s[0].0 == k {
            assert(!lex_lt(s[0].0, k));
            assert(!lex_lt(k, s[0].0)) by {
                if lex_lt(k, s[0].0) {
                    crate::text::lemma_lex_lt_asymmetric(k, s[0].0);
                }
            }
            assert(fm_insert_spec(s, k, v) == seq![(k, v)] + s.skip(1));
            assert(seq![(k, v)] + s.skip(1) =~= s.update(0, (k, v)));
        } else {
            lemma_lex_lt_connected_helper(s[0].0, k);
            assert(fm_insert_spec(s, k, v) == seq![(k, v)] + s);
            assert(seq![(k, v)] + s =~= s.take(0) + seq![(k, v)] + s.skip(0));
        }
    } else {
        assert(lex_lt(s[0].0, k));
        let t = s.skip(1);
        assert(forall|j: int| 0 <= j < p - 1 ==> lex_lt(#[trigger] t[j].0, k));
        assert(fm_sorted(t)) by {
            assert(forall|i: int, j: int|
                0 <= i < j < t.len() ==> lex_lt(#[trigger] t[i].0, #[trigger] t[j].0)) by {
                assert(forall|i: int, j: int| 0 <= i < j < t.len() ==> t[i] == s[i + 1] && t[j]
                    == s[j + 1]);
            }
        }
        lemma_fm_insert_at(t, k, v, p - 1);
        if p < s.len() && s[p].0 == k {
            assert(t[p - 1].0 == k);
            assert(fm_insert_spec(t, k, v) == t.update(p - 1, (k, v)));
            assert(fm_insert_spec(s, k, v) == seq![s[0]] + t.update(p - 1, (k, v)));
            assert(seq![s[0]] + t.update(p - 1, (k, v)) =~= s.update(p, (k, v)));
        } else {
            assert(p == s.len() || t[p - 1].0 != k);
            assert(fm_insert_spec(t, k, v) == t.take(p - 1) + seq![(k, v)] + t.skip(p - 1));
            assert(fm_insert_spec(s, k, v) == seq![s[0]] + (t.take(p - 1) + seq![(k, v)] + t.skip(
                p - 1,
            )));
            assert(seq![s[0]] + (t.take(p - 1) + seq![(k, v)] + t.skip(p - 1)) =~= s.take(p)
                + seq![(k, v)] + s.skip(p));
        }
    }
}

/// Overwriting the value at an existing key keeps the keys sorted.
proof fn lemma_fm_update_sorted(s: Seq<(Seq<char>, Seq<char>)>, k: Seq<char>, v: Seq<char>, p: int)
    requires
        fm_sorted(s),
        0 <= p < s.len(),
        s[p].0 == k,
    ensures
        fm_sorted(s.update(p, (k, v))),
{
    let r = s.update(p, (k, v));
    assert(forall|i: int, j: int| 0 <= i < j < r.len() ==> lex_lt(#[trigger] r[i].0, #[trigger] r[j].0))
        by {
        assert(forall|i: int| 0 <= i < r.len() ==> r[i].0 == s[i].0);
    }
}

/// Inserting a fresh key at its ordered position keeps the keys sorted.
proof fn lemma_fm_inserted_sorted(
    s: Seq<(Seq<char>, Seq<char>)>,
    k: Seq<char>,
    v: Seq<char>,
    p: int,
)
    requires
        fm_sorted(s),
        0 <= p <= s.len(),
        forall|j: int| 0 <= j < p ==> lex_lt(#[trigger] s[j].0, k),
        p < s.len() ==> lex_lt(k, s[p].0),
    ensures
        fm_sorted(s.take(p) + seq![(k, v)] + s.skip(p)),
{
    let r = s.take(p) + seq![(k, v)] + s.skip(p);
    assert(forall|i: int, j: int| 0 <= i < j < r.len() ==> lex_lt(#[trigger] r[i].0, #[trigger] r[j].0))
        by {
        assert(forall|i: int| 0 <= i < p ==> r[i] == s[i]);
        assert(r[p] == (k, v));
        assert(forall|i: int| p < i < r.len() ==> r[i] == s[i - 1]);
        assert forall|i: int, j: int|
            0 <= i < j < r.len() && i != p && j != p implies lex_lt(
            #[trigger] r[i].0,
            #[trigger] r[j].0,
        ) by {
            let si = if i < p {
                s[i]
            } else {
                s[i - 1]
            };
            let sj = if j < p {
                s[j]
            } else {
                s[j - 1]
            };
            assert(r[i] == si && r[j] == sj);
            assert(lex_lt(si.0, sj.0));
        }
        assert(forall|j: int| p < j < r.len() ==> lex_lt(r[p].0, #[trigger] r[j].0)) by {
            if p < s.len() {
                assert(forall|j: int| p < j < r.len() ==> r[j] == s[j - 1]);
                assert(forall|j: int| p + 1 < j < r.len() ==> lex_lt(s[p].0, #[trigger] s[j - 1].0));
                assert(forall|j: int| p < j < r.len() ==> lex_lt(k, #[trigger] r[j].0)) by {
                    assert forall|j: int| p < j < r.len() implies lex_lt(k, #[trigger] r[j].0) by {
                        if j == p + 1 {
                            assert(r[j].0 == s[p].0);
                        } else {
                            lemma_lex_lt_transitive(k, s[p].0, s[j - 1].0);
                        }
                    }
                }
            }
        }
    }
}

} // verus!
