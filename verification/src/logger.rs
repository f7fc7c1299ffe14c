//! The aggregator itself: the span tree store, the persistent-identity
//! table, the domain indices and the memoising query engine, behind one
//! mutable handle.  Every operation's contract is a transition of the
//! ghost `LogModel`; the invariant `inv` ties the tree, the tables and the
//! memo together.

use vstd::prelude::*;

use linked_hash_map::LinkedHashMap;

use crate::assoc::FrameMap;
use crate::assoc::IdMap;
use crate::entry::EventEntry;
use crate::entry::EventModel;
use crate::entry::SpanEntry;
use crate::entry::SpanModel;
use crate::entry::events_view;
use crate::entry::LogLevel;
use crate::extmap::span_map_of;
use crate::extmap::store_get_mut;
use crate::extmap::store_insert;
use crate::extmap::store_contains;
use crate::extmap::store_get;
use crate::extmap::store_keys;
use crate::extmap::store_new;
use crate::extmap::store_remove;
use crate::fields::FieldMap;
use crate::fields::FieldValue;
use crate::fields::build_span_fields;
use crate::model::LogModel;
use crate::model::Query;
use crate::model::SPAN_ID_LIMIT;
use crate::model::event_ok;
use crate::model::events_ok;
use crate::model::inv;
use crate::model::open_step;
use crate::model::opened_span;
use crate::text::str_eq;

verus! {

/// The models of the records a span store holds.
pub open spec fn models_of(m: Map<u64, SpanEntry>) -> Map<u64, SpanModel> {
    Map::new(|k: u64| m.contains_key(k), |k: u64| m[k]@)
}

/// An in-memory logger over a generic span/event source: it keeps the whole
/// span tree, gives every span a never-reused persistent id, indexes
/// `thread` and `frame` spans by their numeric index, and renders whole-log,
/// per-thread and per-frame views of the captured output.
pub struct MapLogger {
    root_span: SpanEntry,
    sub_spans: LinkedHashMap<u64, SpanEntry>,
    live_spans: IdMap,
    thread_spans: IdMap,
    frame_spans: FrameMap,
    next_span_id: u64,
    last_query: Option<Query>,
    cur_string: Option<String>,
}

impl View for MapLogger {
    type V = LogModel;

    closed spec fn view(&self) -> LogModel {
        LogModel {
            root: self.root_span@,
            spans: models_of(span_map_of(self.sub_spans)),
            live: self.live_spans@,
            threads: self.thread_spans@,
            frames: self.frame_spans@,
            next_id: self.next_span_id,
            cache: match (self.last_query, &self.cur_string) {
                (Option::Some(q), Option::Some(s)) => Option::Some((q, s@)),
                _ => Option::None,
            },
        }
    }
}

/// Inserting into a store inserts the model.
proof fn lemma_models_insert(m: Map<u64, SpanEntry>, k: u64, v: SpanEntry)
    ensures
        models_of(m.insert(k, v)) =~= models_of(m).insert(k, v@),
{
}

/// Event links stay valid when the span map only grows.
proof fn lemma_events_ok_mono(
    s1: Map<u64, SpanModel>,
    s2: Map<u64, SpanModel>,
    owner: int,
    events: Seq<EventModel>,
)
    requires
        events_ok(s1, owner, events),
        forall|k: u64| #[trigger] s1.contains_key(k) ==> s2.contains_key(k),
    ensures
        events_ok(s2, owner, events),
{
    assert forall|i: int| 0 <= i < events.len() implies event_ok(s2, owner, #[trigger] events[i]) by {
        assert(event_ok(s1, owner, events[i]));
    }
}

/// The opening transition preserves the invariant.
proof fn lemma_open_step_inv(
    m: LogModel,
    eph: u64,
    parent_eph: Option<u64>,
    name: Seq<char>,
    values: Seq<(String, FieldValue)>,
)
    requires
        inv(m),
        m.next_id < SPAN_ID_LIMIT,
        crate::fields::fm_sorted(opened_span(name, values).fields),
        match parent_eph {
            Option::Some(pe) => m.live.contains_key(pe),
            Option::None => true,
        },
    ensures
        inv(open_step(m, eph, parent_eph, name, values)),
{
    let m2 = open_step(m, eph, parent_eph, name, values);
    let new_id = m.next_id;
    assert(forall|k: u64| #[trigger] m.spans.contains_key(k) ==> m2.spans.contains_key(k));
    assert(events_ok(m2.spans, -1, m2.root.events)) by {
        lemma_events_ok_mono(m.spans, m2.spans, -1, m.root.events);
        match parent_eph {
            Option::None => {
                assert(m2.root.events == m.root.events.push(EventModel::Child { id: new_id }));
                assert(forall|i: int|
                    0 <= i < m.root.events.len() ==> m2.root.events[i] == m.root.events[i]);
                assert(event_ok(m2.spans, -1, m2.root.events.last()));
            },
            Option::Some(_) => {},
        }
    }
    assert forall|id: u64| #[trigger] m2.spans.contains_key(id) implies events_ok(
        m2.spans,
        id as int,
        m2.spans[id].events,
    ) by {
        if id == new_id {
            assert(m2.spans[id].events.len() == 0);
        } else {
            assert(m.spans.contains_key(id));
            lemma_events_ok_mono(m.spans, m2.spans, id as int, m.spans[id].events);
            match parent_eph {
                Option::Some(pe) => {
                    let pid = m.live[pe];
                    if id == pid {
                        assert(m2.spans[id].events == m.spans[pid].events.push(
                            EventModel::Child { id: new_id },
                        ));
                        assert(forall|i: int|
                            0 <= i < m.spans[pid].events.len() ==> m2.spans[id].events[i]
                                == m.spans[pid].events[i]);
                        assert(pid < new_id);
                        assert(event_ok(m2.spans, id as int, m2.spans[id].events.last()));
                    } else {
                        assert(m2.spans[id].events == m.spans[id].events);
                    }
                },
                Option::None => {
                    assert(m2.spans[id].events == m.spans[id].events);
                },
            }
        }
    }
    assert forall|id: u64| #[trigger] m2.spans.contains_key(id) implies m2.spans[id].wf() by {
        if id != new_id {
            assert(m.spans.contains_key(id));
        }
    }
    assert forall|e: u64| #[trigger] m2.live.contains_key(e) implies m2.spans.contains_key(
        m2.live[e],
    ) && !m2.spans[m2.live[e]].destroyed by {
        if e != eph {
            assert(m.live.contains_key(e));
        }
    }
}

/// The attribute-merge transition preserves the invariant.
proof fn lemma_update_step_inv(m: LogModel, eph: u64, values: Seq<(String, FieldValue)>)
    requires
        inv(m),
        m.live.contains_key(eph),
        crate::fields::fm_sorted(crate::fields::fm_apply_values(m.spans[m.live[eph]].fields, values)),
    ensures
        inv(crate::model::update_step(m, eph, values)),
{
    let m2 = crate::model::update_step(m, eph, values);
    let pid = m.live[eph];
    assert(forall|k: u64| #[trigger] m.spans.contains_key(k) ==> m2.spans.contains_key(k));
    lemma_events_ok_mono(m.spans, m2.spans, -1, m.root.events);
    assert forall|id: u64| #[trigger] m2.spans.contains_key(id) implies events_ok(
        m2.spans,
        id as int,
        m2.spans[id].events,
    ) && m2.spans[id].wf() by {
        assert(m.spans.contains_key(id));
        lemma_events_ok_mono(m.spans, m2.spans, id as int, m.spans[id].events);
        assert(m2.spans[id].events == m.spans[id].events);
    }
    assert forall|e: u64| #[trigger] m2.live.contains_key(e) implies m2.spans.contains_key(
        m2.live[e],
    ) && !m2.spans[m2.live[e]].destroyed by {
        assert(m.live.contains_key(e));
    }
}

/// The message-recording transition preserves the invariant.
proof fn lemma_record_step_inv(
    m: LogModel,
    eph: Option<u64>,
    level: LogLevel,
    values: Seq<(String, FieldValue)>,
)
    requires
        inv(m),
        match eph {
            Option::Some(e) => m.live.contains_key(e),
            Option::None => true,
        },
    ensures
        inv(crate::model::record_step(m, eph, level, values)),
{
    let m2 = crate::model::record_step(m, eph, level, values);
    let msg = EventModel::Message {
        level,
        fields: crate::fields::fm_apply_values(Seq::empty(), values),
    };
    assert(forall|k: u64| #[trigger] m.spans.contains_key(k) ==> m2.spans.contains_key(k));
    assert(events_ok(m2.spans, -1, m2.root.events)) by {
        lemma_events_ok_mono(m.spans, m2.spans, -1, m.root.events);
        match eph {
            Option::None => {
                assert(m2.root.events == m.root.events.push(msg));
                assert(forall|i: int|
                    0 <= i < m.root.events.len() ==> m2.root.events[i] == m.root.events[i]);
                assert(event_ok(m2.spans, -1, m2.root.events.last()));
            },
            Option::Some(_) => {},
        }
    }
    assert forall|id: u64| #[trigger] m2.spans.contains_key(id) implies events_ok(
        m2.spans,
        id as int,
        m2.spans[id].events,
    ) && m2.spans[id].wf() by {
        assert(m.spans.contains_key(id));
        lemma_events_ok_mono(m.spans, m2.spans, id as int, m.spans[id].events);
        match eph {
            Option::Some(e) => {
                let pid = m.live[e];
                if id == pid {
                    assert(m2.spans[id].events == m.spans[pid].events.push(msg));
                    assert(forall|i: int|
                        0 <= i < m.spans[pid].events.len() ==> m2.spans[id].events[i]
                            == m.spans[pid].events[i]);
                    assert(event_ok(m2.spans, id as int, m2.spans[id].events.last()));
                } else {
                    assert(m2.spans[id].events == m.spans[id].events);
                }
            },
            Option::None => {
                assert(m2.spans[id].events == m.spans[id].events);
            },
        }
    }
    assert forall|e: u64| #[trigger] m2.live.contains_key(e) implies m2.spans.contains_key(
        m2.live[e],
    ) && !m2.spans[m2.live[e]].destroyed by {
        assert(m.live.contains_key(e));
    }
}

/// The closing transition preserves the invariant: the live table's
/// injectivity keeps every other live mapping pointed at an open span.
proof fn lemma_close_step_inv(m: LogModel, eph: u64)
    requires
        inv(m),
        m.live.contains_key(eph),
    ensures
        inv(crate::model::close_step(m, eph)),
{
    let m2 = crate::model::close_step(m, eph);
    let pid = m.live[eph];
    assert(forall|k: u64| #[trigger] m.spans.contains_key(k) ==> m2.spans.contains_key(k));
    lemma_events_ok_mono(m.spans, m2.spans, -1, m.root.events);
    assert forall|id: u64| #[trigger] m2.spans.contains_key(id) implies events_ok(
        m2.spans,
        id as int,
        m2.spans[id].events,
    ) && m2.spans[id].wf() by {
        assert(m.spans.contains_key(id));
        lemma_events_ok_mono(m.spans, m2.spans, id as int, m.spans[id].events);
        assert(m2.spans[id].events == m.spans[id].events);
    }
    assert forall|e: u64| #[trigger] m2.live.contains_key(e) implies m2.spans.contains_key(
        m2.live[e],
    ) && !m2.spans[m2.live[e]].destroyed by {
        assert(m.live.contains_key(e));
        assert(e != eph);
        assert(m.live[e] != pid);
    }
}

/// The reset transition preserves the invariant.
proof fn lemma_clear_step_inv(m: LogModel)
    requires
        inv(m),
    ensures
        inv(crate::model::clear_step(m)),
{
    let m2 = crate::model::clear_step(m);
    assert(m2.root.events.len() == 0);
    assert forall|id: u64| #[trigger] m2.spans.contains_key(id) implies events_ok(
        m2.spans,
        id as int,
        m2.spans[id].events,
    ) && m2.spans[id].wf() && id < m2.next_id by {
        assert(m.spans.contains_key(id));
        assert(m2.spans[id].events.len() == 0);
    }
    assert forall|e: u64| #[trigger] m2.live.contains_key(e) implies m2.spans.contains_key(
        m2.live[e],
    ) && !m2.spans[m2.live[e]].destroyed by {
        assert(m.live.contains_key(e));
        assert(m.spans.contains_key(m.live[e]) && !m.spans[m.live[e]].destroyed);
    }
}

/// Whether `x` occurs among the first `i` elements of `ids`.
pub open spec fn in_prefix(ids: Seq<u64>, i: int, x: u64) -> bool {
    exists|j: int| 0 <= j < i && j < ids.len() && ids[j] == x
}

proof fn lemma_in_prefix_step(ids: Seq<u64>, i: int, x: u64)
    requires
        0 <= i < ids.len(),
    ensures
        in_prefix(ids, i + 1, x) == (in_prefix(ids, i, x) || x == ids[i]),
{
    if in_prefix(ids, i + 1, x) {
        let j = choose|j: int| 0 <= j < i + 1 && j < ids.len() && ids[j] == x;
        if j < i {
            assert(in_prefix(ids, i, x));
        } else {
            assert(x == ids[i]);
        }
    }
    if in_prefix(ids, i, x) {
        let j = choose|j: int| 0 <= j < i && j < ids.len() && ids[j] == x;
        assert(0 <= j < i + 1 && j < ids.len() && ids[j] == x);
    }
    if x == ids[i] {
        assert(0 <= i < i + 1 && i < ids.len() && ids[i] == x);
    }
}

/// The loop relation while a reset walks the stored ids: every id already
/// processed has been deleted (if destroyed) or had its events emptied; the
/// rest are untouched.
pub open spec fn clear_loop_inv(
    before: Map<u64, SpanModel>,
    cur: Map<u64, SpanModel>,
    ids: Seq<u64>,
    i: int,
) -> bool {
    &&& forall|id: u64|
        #[trigger] cur.contains_key(id) <==> (before.contains_key(id) && !(in_prefix(ids, i, id)
            && before[id].destroyed))
    &&& forall|id: u64|
        #[trigger] cur.contains_key(id) ==> cur[id] == if in_prefix(ids, i, id) {
            before[id].with_events_cleared()
        } else {
            before[id]
        }
}

/// Which states a query can be rendered against: a thread query needs its
/// span stored, a frame query additionally needs the target found among the
/// thread's events.
pub open spec fn query_valid(m: LogModel, q: Query) -> bool {
    match q {
        Query::All => true,
        Query::Thread(t) => m.spans.contains_key(t),
        Query::Frame(t, f) => m.spans.contains_key(t) && crate::render::frame_scan(
            m.spans[t].events,
            f,
        ).this_pos is Some,
    }
}

impl MapLogger {
    /// The representation invariant, as the contracts use it: the model
    /// invariant plus the tables' own well-formedness.
    pub closed spec fn wf(&self) -> bool {
        &&& inv(self@)
        &&& self.live_spans.wf()
        &&& self.thread_spans.wf()
        &&& self.frame_spans.wf()
    }

    /// A fresh, empty logger.
    pub fn new() -> (r: MapLogger)
        ensures
            r.wf(),
            r@.root.events =~= Seq::<EventModel>::empty(),
            r@.root.name =~= Seq::<char>::empty(),
            r@.spans =~= Map::empty(),
            r@.live =~= Map::empty(),
            r@.threads =~= Map::empty(),
            r@.frames =~= Map::empty(),
            r@.next_id == 0,
            r@.cache is None,
    {
        let r = MapLogger {
            root_span: SpanEntry {
                destroyed: false,
                name: String::new(),
                fields: FieldMap::new(),
                events: Vec::new(),
                idx: Option::None,
            },
            sub_spans: store_new(),
            live_spans: IdMap::new(),
            thread_spans: IdMap::new(),
            frame_spans: FrameMap::new(),
            next_span_id: 0,
            last_query: Option::None,
            cur_string: Option::None,
        };
        proof {
            assert(r@.spans =~= Map::<u64, SpanModel>::empty());
            assert(r@.root.events =~= Seq::<EventModel>::empty());
        }
        r
    }

    /// A span was opened by the producer.  Allocates the next persistent id
    /// for it, appends a child reference at the current end of the parent's
    /// events (the root's, when no parent is given), stores the new record
    /// with its coerced attributes, indexes a `thread` or `frame` span that
    /// carries a numeric `idx` attribute, and maps the ephemeral id to the
    /// new persistent id while the span stays open.
    pub fn span_opened(
        &mut self,
        eph_id: u64,
        parent_eph: Option<u64>,
        name: String,
        values: Vec<(String, FieldValue)>,
    ) -> (r: u64)
        requires
            old(self).wf(),
            old(self)@.next_id < SPAN_ID_LIMIT,
            match parent_eph {
                Option::Some(pe) => old(self)@.live.contains_key(pe),
                Option::None => true,
            },
        ensures
            final(self).wf(),
            r == old(self)@.next_id,
            final(self)@ == open_step(old(self)@, eph_id, parent_eph, name@, values@),
    {
        let ghost m0 = self@;
        self.cur_string = Option::None;
        let new_id = self.next_span_id;
        self.next_span_id = new_id + 1;
        let (fm, idx_opt) = build_span_fields(&values);
        let is_thread = str_eq(name.as_str(), "thread");
        let is_frame = str_eq(name.as_str(), "frame");
        let parent_idx: Option<u64>;
        match parent_eph {
            Option::None => {
                self.root_span.events.push(EventEntry::Child(new_id));
                parent_idx = self.root_span.idx;
            },
            Option::Some(pe) => {
                let pid = self.live_spans.get(pe).unwrap();
                let p = store_get_mut(&mut self.sub_spans, pid);
                p.events.push(EventEntry::Child(new_id));
                parent_idx = p.idx;
            },
        }
        proof {
            let child = EventModel::Child { id: new_id };
            match parent_eph {
                Option::None => {
                    assert(events_view(self.root_span.events@) =~= m0.root.events.push(child));
                    assert(self.root_span@ =~= m0.root.with_event(child));
                },
                Option::Some(pe) => {
                    let pid = m0.live[pe];
                    let prev_map = span_map_of(old(self).sub_spans);
                    let cur_map = span_map_of(self.sub_spans);
                    assert(cur_map[pid]@.events =~= m0.spans[pid].events.push(child)) by {
                        assert(events_view(cur_map[pid].events@) =~= events_view(
                            prev_map[pid].events@,
                        ).push(child));
                    }
                    assert(cur_map[pid]@ =~= m0.spans[pid].with_event(child));
                    assert(models_of(cur_map) =~= m0.spans.insert(
                        pid,
                        m0.spans[pid].with_event(child),
                    ));
                },
            }
        }
        let entry = SpanEntry {
            destroyed: false,
            name: name,
            fields: fm,
            events: Vec::new(),
            idx: idx_opt,
        };
        proof {
            assert(entry@ =~= opened_span(entry.name@, values@));
            lemma_models_insert(span_map_of(self.sub_spans), new_id, entry);
        }
        store_insert(&mut self.sub_spans, new_id, entry);
        if is_thread {
            match idx_opt {
                Option::Some(ix) => {
                    self.thread_spans.insert(ix, new_id);
                },
                Option::None => {},
            }
        } else if is_frame {
            match (idx_opt, parent_idx) {
                (Option::Some(ix), Option::Some(ti)) => {
                    self.frame_spans.insert(ti, ix, new_id);
                },
                _ => {},
            }
        }
        self.live_spans.insert(eph_id, new_id);
        proof {
            let m2 = open_step(m0, eph_id, parent_eph, name@, values@);
            assert(self@.spans =~= m2.spans);
            assert(self@.root =~= m2.root);
            assert(self@ =~= m2);
            lemma_open_step_inv(m0, eph_id, parent_eph, name@, values@);
        }
        new_id
    }

    /// A live span's attributes were updated by the producer: the new
    /// values are coerced and merged into its field map, overwriting
    /// existing keys.
    pub fn span_attributes_updated(&mut self, eph_id: u64, values: Vec<(String, FieldValue)>)
        requires
            old(self).wf(),
            old(self)@.live.contains_key(eph_id),
        ensures
            final(self).wf(),
            final(self)@ == crate::model::update_step(old(self)@, eph_id, values@),
    {
        let ghost m0 = self@;
        self.cur_string = Option::None;
        let pid = self.live_spans.get(eph_id).unwrap();
        let p = store_get_mut(&mut self.sub_spans, pid);
        crate::fields::apply_values(&mut p.fields, &values);
        proof {
            let s = m0.spans[pid];
            let s2 = SpanModel {
                fields: crate::fields::fm_apply_values(s.fields, values@),
                ..s
            };
            let cur_map = span_map_of(self.sub_spans);
            assert(cur_map[pid]@ =~= s2);
            assert(models_of(cur_map) =~= m0.spans.insert(pid, s2));
            assert(self@ =~= crate::model::update_step(m0, eph_id, values@));
            lemma_update_step_inv(m0, eph_id, values@);
        }
    }

    /// A message was recorded by the producer: its attributes are coerced
    /// into a field map and the message is appended to the addressed span's
    /// events (the root's, when no enclosing span is given).
    pub fn event_recorded(
        &mut self,
        eph_id: Option<u64>,
        level: LogLevel,
        values: Vec<(String, FieldValue)>,
    )
        requires
            old(self).wf(),
            match eph_id {
                Option::Some(e) => old(self)@.live.contains_key(e),
                Option::None => true,
            },
        ensures
            final(self).wf(),
            final(self)@ == crate::model::record_step(old(self)@, eph_id, level, values@),
    {
        let ghost m0 = self@;
        self.cur_string = Option::None;
        let mut fm = FieldMap::new();
        crate::fields::apply_values(&mut fm, &values);
        let ghost msg_model = EventModel::Message {
            level,
            fields: crate::fields::fm_apply_values(Seq::empty(), values@),
        };
        let msg = EventEntry::Message(crate::entry::MessageEntry { level, fields: fm });
        proof {
            assert(msg@ =~= msg_model);
        }
        match eph_id {
            Option::None => {
                self.root_span.events.push(msg);
            },
            Option::Some(e) => {
                let pid = self.live_spans.get(e).unwrap();
                let p = store_get_mut(&mut self.sub_spans, pid);
                p.events.push(msg);
            },
        }
        proof {
            match eph_id {
                Option::None => {
                    assert(events_view(self.root_span.events@) =~= m0.root.events.push(msg_model));
                    assert(self.root_span@ =~= m0.root.with_event(msg_model));
                },
                Option::Some(e) => {
                    let pid = m0.live[e];
                    let prev_map = span_map_of(old(self).sub_spans);
                    let cur_map = span_map_of(self.sub_spans);
                    assert(cur_map[pid]@.events =~= m0.spans[pid].events.push(msg_model)) by {
                        assert(events_view(cur_map[pid].events@) =~= events_view(
                            prev_map[pid].events@,
                        ).push(msg_model));
                    }
                    assert(cur_map[pid]@ =~= m0.spans[pid].with_event(msg_model));
                    assert(models_of(cur_map) =~= m0.spans.insert(
                        pid,
                        m0.spans[pid].with_event(msg_model),
                    ));
                },
            }
            assert(self@ =~= crate::model::record_step(m0, eph_id, level, values@));
            lemma_record_step_inv(m0, eph_id, level, values@);
        }
    }

    /// A span was closed by the producer: its record is marked destroyed
    /// (it stays linked in the tree), and the ephemeral mapping ends, so
    /// the producer may recycle that id.
    pub fn span_closed(&mut self, eph_id: u64)
        requires
            old(self).wf(),
            old(self)@.live.contains_key(eph_id),
        ensures
            final(self).wf(),
            final(self)@ == crate::model::close_step(old(self)@, eph_id),
    {
        let ghost m0 = self@;
        self.cur_string = Option::None;
        let pid = self.live_spans.get(eph_id).unwrap();
        let p = store_get_mut(&mut self.sub_spans, pid);
        p.destroyed = true;
        self.live_spans.remove(eph_id);
        proof {
            let s2 = SpanModel { destroyed: true, ..m0.spans[pid] };
            let cur_map = span_map_of(self.sub_spans);
            assert(cur_map[pid]@ =~= s2);
            assert(models_of(cur_map) =~= m0.spans.insert(pid, s2));
            assert(self@ =~= crate::model::close_step(m0, eph_id));
            lemma_close_step_inv(m0, eph_id);
        }
    }

    /// Resets the log: destroyed spans are deleted outright, still-open
    /// spans keep their place in the tree but lose their recorded events,
    /// the root's events are emptied, and the render memo is dropped.  The
    /// identity and index tables are untouched.
    pub fn clear(&mut self)
        requires
            old(self).wf(),
        ensures
            final(self).wf(),
            final(self)@ == crate::model::clear_step(old(self)@),
    {
        let ghost m0 = self@;
        let ids = store_keys(&self.sub_spans);
        let len = ids.len();
        let mut i: usize = 0;
        while i < len
            invariant
                0 <= i <= len,
                len == ids@.len(),
                ids@.no_duplicates(),
                ids@.to_set() == m0.spans.dom(),
                m0 == old(self)@,
                old(self).wf(),
                self.root_span == old(self).root_span,
                self.live_spans == old(self).live_spans,
                self.thread_spans == old(self).thread_spans,
                self.frame_spans == old(self).frame_spans,
                self.next_span_id == old(self).next_span_id,
                self.last_query == old(self).last_query,
                self.cur_string == old(self).cur_string,
                clear_loop_inv(m0.spans, models_of(span_map_of(self.sub_spans)), ids@, i as int),
            decreases len - i,
        {
            let id = ids[i];
            proof {
                assert(ids@.to_set().contains(id));
                assert(m0.spans.contains_key(id));
                assert(forall|j: int| 0 <= j < i ==> ids@[j] != id);
                assert(!in_prefix(ids@, i as int, id)) by {
                    if in_prefix(ids@, i as int, id) {
                        let j = choose|j: int| 0 <= j < i && j < ids@.len() && ids@[j] == id;
                        assert(ids@[j] != id);
                    }
                }
                assert(models_of(span_map_of(self.sub_spans)).contains_key(id));
            }
            let destroyed: bool = match store_get(&self.sub_spans, id) {
                Option::Some(e) => e.destroyed,
                Option::None => {
                    proof {
                        assert(false);
                    }
                    vstd::pervasive::unreached()
                },
            };
            let ghost prev = models_of(span_map_of(self.sub_spans));
            proof {
                assert(prev[id] == m0.spans[id]);
                assert(destroyed == m0.spans[id].destroyed);
            }
            if destroyed {
                store_remove(&mut self.sub_spans, id);
                proof {
                    let cur = models_of(span_map_of(self.sub_spans));
                    assert(cur =~= prev.remove(id));
                    assert forall|x: u64| #[trigger] cur.contains_key(x) implies (
                    m0.spans.contains_key(x) && !(in_prefix(ids@, i + 1, x)
                        && m0.spans[x].destroyed)) by {
                        lemma_in_prefix_step(ids@, i as int, x);
                        assert(prev.contains_key(x));
                        assert(x != id);
                    }
                    assert forall|x: u64|
                        m0.spans.contains_key(x) && !(in_prefix(ids@, i + 1, x)
                            && m0.spans[x].destroyed) implies #[trigger] cur.contains_key(x) by {
                        lemma_in_prefix_step(ids@, i as int, x);
                        assert(x != id);
                        assert(prev.contains_key(x));
                    }
                    assert forall|x: u64| #[trigger] cur.contains_key(x) implies cur[x] == (
                    if in_prefix(ids@, i + 1, x) {
                        m0.spans[x].with_events_cleared()
                    } else {
                        m0.spans[x]
                    }) by {
                        lemma_in_prefix_step(ids@, i as int, x);
                        assert(x != id);
                        assert(cur[x] == prev[x]);
                    }
                    assert(clear_loop_inv(m0.spans, cur, ids@, i + 1));
                }
            } else {
                let p = store_get_mut(&mut self.sub_spans, id);
                p.events = Vec::new();
                proof {
                    let cur_map = span_map_of(self.sub_spans);
                    let cur = models_of(cur_map);
                    assert(cur_map[id]@ =~= m0.spans[id].with_events_cleared()) by {
                        assert(events_view(cur_map[id].events@) =~= Seq::<EventModel>::empty());
                    }
                    assert(cur =~= prev.insert(id, m0.spans[id].with_events_cleared()));
                    assert forall|x: u64| #[trigger] cur.contains_key(x) implies (
                    m0.spans.contains_key(x) && !(in_prefix(ids@, i + 1, x)
                        && m0.spans[x].destroyed)) by {
                        lemma_in_prefix_step(ids@, i as int, x);
                        if x != id {
                            assert(prev.contains_key(x));
                        }
                    }
                    assert forall|x: u64|
                        m0.spans.contains_key(x) && !(in_prefix(ids@, i + 1, x)
                            && m0.spans[x].destroyed) implies #[trigger] cur.contains_key(x) by {
                        lemma_in_prefix_step(ids@, i as int, x);
                        if x != id {
                            assert(prev.contains_key(x));
                        }
                    }
                    assert forall|x: u64| #[trigger] cur.contains_key(x) implies cur[x] == (
                    if in_prefix(ids@, i + 1, x) {
                        m0.spans[x].with_events_cleared()
                    } else {
                        m0.spans[x]
                    }) by {
                        lemma_in_prefix_step(ids@, i as int, x);
                        if x != id {
                            assert(cur[x] == prev[x]);
                        }
                    }
                    assert(clear_loop_inv(m0.spans, cur, ids@, i + 1));
                }
            }
            i = i + 1;
        }
        self.root_span.events = Vec::new();
        self.cur_string = Option::None;
        proof {
            let cur = models_of(span_map_of(self.sub_spans));
            assert forall|id: u64| #[trigger] m0.spans.contains_key(id) implies in_prefix(
                ids@,
                len as int,
                id,
            ) by {
                assert(ids@.to_set().contains(id));
                let j = choose|j: int| 0 <= j < ids@.len() && ids@[j] == id;
                assert(0 <= j < len && j < ids@.len() && ids@[j] == id);
            }
            assert(cur =~= crate::model::cleared_spans(m0.spans));
            assert(self.root_span@ =~= m0.root.with_events_cleared()) by {
                assert(events_view(self.root_span.events@) =~= Seq::<EventModel>::empty());
            }
            assert(self@ =~= crate::model::clear_step(m0));
            lemma_clear_step_inv(m0);
        }
    }

    /// Serves one query, through the single-slot memo: an identical query
    /// against an unchanged state returns the cached text, anything else is
    /// rendered afresh and cached.
    fn string_query(&mut self, q: Query) -> (r: String)
        requires
            old(self).wf(),
            query_valid(old(self)@, q),
        ensures
            final(self).wf(),
            r@ == crate::render::render_query_chars(old(self)@, q),
            final(self)@ == (LogModel { cache: Option::Some((q, r@)), ..old(self)@ }),
    {
        let ghost m0 = self@;
        match (self.last_query, &self.cur_string) {
            (Option::Some(lq), Option::Some(cs)) => {
                if lq == q {
                    let r = cs.clone();
                    proof {
                        assert(LogModel { cache: Option::Some((q, r@)), ..m0 } =~= m0);
                    }
                    return r;
                }
            },
            _ => {},
        }
        let mut out: Vec<char> = Vec::new();
        proof {
            assert(crate::render::render_pre(m0.spans, m0.next_id)) by {
                assert(forall|id: u64|
                    #[trigger] m0.spans.contains_key(id) ==> id < m0.next_id && events_ok(
                        m0.spans,
                        id as int,
                        m0.spans[id].events,
                    ));
            }
        }
        match q {
            Query::All => {
                let n = self.root_span.events.len();
                crate::render::render_events_into(
                    &self.sub_spans,
                    Ghost(m0.spans),
                    self.next_span_id,
                    Ghost(-1),
                    &self.root_span.events,
                    0,
                    n,
                    1,
                    &mut out,
                );
                proof {
                    assert(out@ =~= crate::render::render_all_chars(m0));
                }
            },
            Query::Thread(t) => {
                crate::render::render_span_into(
                    &self.sub_spans,
                    Ghost(m0.spans),
                    self.next_span_id,
                    t,
                    0,
                    &mut out,
                );
                proof {
                    assert(out@ =~= crate::render::render_thread_chars(m0, t));
                }
            },
            Query::Frame(t, f) => {
                crate::text::push_str_chars(
                    &mut out,
                    "Viewing logs for a frame's stackwalk, which has two parts\n",
                );
                crate::text::push_str_chars(
                    &mut out,
                    "  1. How the frame was computed (the stackwalk of its callee)\n",
                );
                crate::text::push_str_chars(
                    &mut out,
                    "  2. How the frame itself was walked (producing its caller)\n",
                );
                crate::text::push_str_chars(&mut out, "\n");
                proof {
                    assert(out@ =~= crate::render::preamble_chars());
                }
                let e = match store_get(&self.sub_spans, t) {
                    Option::Some(e) => e,
                    Option::None => {
                        proof {
                            assert(false);
                        }
                        vstd::pervasive::unreached()
                    },
                };
                proof {
                    assert(e@ == m0.spans[t]);
                    assert(events_view(e.events@) == m0.spans[t].events);
                }
                let window = crate::render::scan_window(&e.events, f);
                proof {
                    assert(window.0);
                }
                crate::render::push_header(&mut out, e, 0);
                crate::render::render_events_into(
                    &self.sub_spans,
                    Ghost(m0.spans),
                    self.next_span_id,
                    Ghost(t as int),
                    &e.events,
                    window.1,
                    window.2,
                    1,
                    &mut out,
                );
                proof {
                    assert(out@ =~= crate::render::render_frame_chars(m0, t, f));
                }
            },
        }
        let s = crate::text::chars_to_string(&out);
        self.last_query = Option::Some(q);
        self.cur_string = Option::Some(s.clone());
        proof {
            assert(self@ =~= LogModel { cache: Option::Some((q, s@)), ..m0 });
            assert(crate::render::render_query_chars(self@, q) == crate::render::render_query_chars(
                m0,
                q,
            ));
        }
        s
    }

    /// Renders the whole captured log.
    pub fn string_for_all(&mut self) -> (r: String)
        requires
            old(self).wf(),
        ensures
            final(self).wf(),
            r@ == crate::render::render_all_chars(old(self)@),
            final(self)@ == (LogModel {
                cache: Option::Some((Query::All, r@)),
                ..old(self)@
            }),
    {
        self.string_query(Query::All)
    }

    /// The span a thread index currently addresses, when the index is set
    /// and its span is still stored.
    pub open spec fn thread_target(m: LogModel, ti: u64) -> Option<u64> {
        if m.threads.contains_key(ti) && m.spans.contains_key(m.threads[ti]) {
            Option::Some(m.threads[ti])
        } else {
            Option::None
        }
    }

    /// Renders one thread's span, falling back to the whole log when the
    /// thread index does not currently resolve to a stored span.
    pub fn string_for_thread(&mut self, thread_idx: usize) -> (r: String)
        requires
            old(self).wf(),
        ensures
            final(self).wf(),
            match Self::thread_target(old(self)@, thread_idx as u64) {
                Option::Some(t) => r@ == crate::render::render_thread_chars(old(self)@, t)
                    && final(self)@ == (LogModel {
                    cache: Option::Some((Query::Thread(t), r@)),
                    ..old(self)@
                }),
                Option::None => r@ == crate::render::render_all_chars(old(self)@) && final(self)@
                    == (LogModel { cache: Option::Some((Query::All, r@)), ..old(self)@ }),
            },
    {
        let t_opt = self.thread_spans.get(thread_idx as u64);
        match t_opt {
            Option::Some(t) => {
                if store_contains(&self.sub_spans, t) {
                    return self.string_query(Query::Thread(t));
                }
                self.string_query(Query::All)
            },
            Option::None => self.string_query(Query::All),
        }
    }

    /// The thread and frame spans a `(thread, frame)` index pair currently
    /// addresses, when both indices are set and the thread's span is still
    /// stored.
    pub open spec fn frame_target(m: LogModel, ti: u64, fi: u64) -> Option<(u64, u64)> {
        if m.threads.contains_key(ti) && m.frames.contains_key((ti, fi)) && m.spans.contains_key(
            m.threads[ti],
        ) {
            Option::Some((m.threads[ti], m.frames[(ti, fi)]))
        } else {
            Option::None
        }
    }

    /// A resolvable frame query must find its target among the thread's
    /// events; anything else is an internal-consistency violation, which
    /// this operation refuses rather than rendering wrong context.
    pub open spec fn frame_query_ok(m: LogModel, ti: u64, fi: u64) -> bool {
        match Self::frame_target(m, ti, fi) {
            Option::Some((t, f)) => crate::render::frame_scan(m.spans[t].events, f).this_pos
                is Some,
            Option::None => true,
        }
    }

    /// Decides `frame_query_ok` for a given index pair, so a caller can
    /// fail fast before asking for an inconsistent frame view.
    pub fn frame_query_consistent(&self, thread_idx: usize, frame_idx: usize) -> (r: bool)
        requires
            self.wf(),
        ensures
            r == Self::frame_query_ok(self@, thread_idx as u64, frame_idx as u64),
    {
        let ti = thread_idx as u64;
        let fi = frame_idx as u64;
        let t_opt = self.thread_spans.get(ti);
        let f_opt = self.frame_spans.get(ti, fi);
        match (t_opt, f_opt) {
            (Option::Some(t), Option::Some(f)) => {
                match store_get(&self.sub_spans, t) {
                    Option::Some(e) => {
                        let window = crate::render::scan_window(&e.events, f);
                        proof {
                            assert(events_view(e.events@) == self@.spans[t].events);
                        }
                        window.0
                    },
                    Option::None => true,
                }
            },
            _ => true,
        }
    }

    /// Renders the context window of one frame inside its thread, falling
    /// back to the whole log when either index does not currently resolve.
    pub fn string_for_frame(&mut self, thread_idx: usize, frame_idx: usize) -> (r: String)
        requires
            old(self).wf(),
            Self::frame_query_ok(old(self)@, thread_idx as u64, frame_idx as u64),
        ensures
            final(self).wf(),
            match Self::frame_target(old(self)@, thread_idx as u64, frame_idx as u64) {
                Option::Some((t, f)) => r@ == crate::render::render_frame_chars(old(self)@, t, f)
                    && final(self)@ == (LogModel {
                    cache: Option::Some((Query::Frame(t, f), r@)),
                    ..old(self)@
                }),
                Option::None => r@ == crate::render::render_all_chars(old(self)@) && final(self)@
                    == (LogModel { cache: Option::Some((Query::All, r@)), ..old(self)@ }),
            },
    {
        let ti = thread_idx as u64;
        let fi = frame_idx as u64;
        let t_opt = self.thread_spans.get(ti);
        let f_opt = self.frame_spans.get(ti, fi);
        match (t_opt, f_opt) {
            (Option::Some(t), Option::Some(f)) => {
                if store_contains(&self.sub_spans, t) {
                    return self.string_query(Query::Frame(t, f));
                }
                self.string_query(Query::All)
            },
            _ => self.string_query(Query::All),
        }
    }

    /// Whether an ephemeral id is currently mapped to an open span.
    pub fn is_live(&self, eph_id: u64) -> (r: bool)
        requires
            self.wf(),
        ensures
            r == self@.live.contains_key(eph_id),
    {
        self.live_spans.get(eph_id).is_some()
    }

    /// Whether another span may still be opened before the persistent-id
    /// budget is exhausted.
    pub fn can_open_span(&self) -> (r: bool)
        ensures
            r == (self@.next_id < SPAN_ID_LIMIT),
    {
        self.next_span_id < SPAN_ID_LIMIT
    }
}

} // verus!
