//! The aggregator's cross-operation guarantees, stated and proved against
//! the model transitions the operations' own contracts use.

use vstd::prelude::*;

use crate::entry::EventModel;
use crate::fields::FieldValue;
use crate::model::LogModel;
use crate::model::Query;
use crate::model::clear_step;
use crate::model::close_step;
use crate::model::inv;
use crate::model::open_step;
use crate::model::record_step;
use crate::model::update_step;
use crate::render::ScanState;
use crate::render::frame_scan;
use crate::render::render_all_chars;
use crate::render::scan_events;
use crate::render::scan_init;
use crate::render::scan_step;
use crate::render::window_hi;
use crate::render::window_lo;

verus! {

/// After a reset, every still-open span's record is retained with an empty
/// event list, every destroyed span's record is gone, and the whole-log
/// rendering is empty (the root has no events left to show).  A surviving
/// span still renders — as its bare header, its events being gone.
pub proof fn lemma_clear_retains_open(m: LogModel)
    requires
        inv(m),
    ensures
        forall|id: u64|
            clear_step(m).spans.contains_key(id) <==> (#[trigger] m.spans.contains_key(id)
                && !m.spans[id].destroyed),
        forall|id: u64|
            #[trigger] clear_step(m).spans.contains_key(id) ==> clear_step(m).spans[id]
                == m.spans[id].with_events_cleared(),
        render_all_chars(clear_step(m)) == Seq::<char>::empty(),
        forall|id: u64|
            #[trigger] clear_step(m).spans.contains_key(id)
                ==> crate::render::render_thread_chars(clear_step(m), id)
                == crate::render::header_chars(m.spans[id].name, m.spans[id].fields, 0),
{
    let m2 = clear_step(m);
    assert forall|id: u64| #[trigger] m2.spans.contains_key(id) implies
        crate::render::render_thread_chars(m2, id) == crate::render::header_chars(
        m.spans[id].name,
        m.spans[id].fields,
        0,
    ) by {
        assert(m.spans.contains_key(id));
        assert(id < m2.next_id);
        assert(m2.spans[id].events.len() == 0);
        assert(crate::render::render_span_chars(m2.spans, m2.next_id, id, 0)
            =~= crate::render::header_chars(m2.spans[id].name, m2.spans[id].fields, 0));
    }
}

/// Persistent ids are never reused: the id an opening assigns is fresh — it
/// names no stored span — and the counter never decreases under any
/// operation, so no later opening can assign an earlier id either.
pub proof fn lemma_persistent_ids_fresh(m: LogModel)
    requires
        inv(m),
    ensures
        forall|id: u64| #[trigger] m.spans.contains_key(id) ==> id != m.next_id,
        forall|e: u64| #[trigger] m.live.contains_key(e) ==> m.live[e] != m.next_id,
{
}

/// The id counter never decreases: openings advance it, every other
/// operation leaves it alone.
pub proof fn lemma_next_id_monotonic(
    m: LogModel,
    eph: u64,
    parent_eph: Option<u64>,
    name: Seq<char>,
    values: Seq<(String, FieldValue)>,
    level: crate::entry::LogLevel,
)
    requires
        m.next_id < crate::model::SPAN_ID_LIMIT,
    ensures
        open_step(m, eph, parent_eph, name, values).next_id == m.next_id + 1,
        update_step(m, eph, values).next_id == m.next_id,
        record_step(m, Option::Some(eph), level, values).next_id == m.next_id,
        record_step(m, Option::None, level, values).next_id == m.next_id,
        close_step(m, eph).next_id == m.next_id,
        clear_step(m).next_id == m.next_id,
{
}

/// Rendering is a function of the tree alone: a second whole-log rendering
/// against the state the first one leaves behind (only the memo slot has
/// changed) produces the identical text.
pub proof fn lemma_render_all_idempotent(m: LogModel)
    ensures
        render_all_chars(
            LogModel { cache: Option::Some((Query::All, render_all_chars(m))), ..m },
        ) == render_all_chars(m),
{
}

/// Every mutation drops the render memo, whether or not it touches the
/// subtree a cached query addressed: the next rendering recomputes.
pub proof fn lemma_mutations_drop_memo(
    m: LogModel,
    eph: u64,
    parent_eph: Option<u64>,
    name: Seq<char>,
    values: Seq<(String, FieldValue)>,
    level: crate::entry::LogLevel,
    enclosing: Option<u64>,
)
    ensures
        open_step(m, eph, parent_eph, name, values).cache is None,
        update_step(m, eph, values).cache is None,
        record_step(m, enclosing, level, values).cache is None,
        close_step(m, eph).cache is None,
        clear_step(m).cache is None,
{
}

/// A scan makes no move over a stretch of events that reference no child
/// span.
proof fn lemma_scan_over_messages(events: Seq<EventModel>, f: u64, i: int, j: int, st: ScanState)
    requires
        0 <= i <= j <= events.len(),
        forall|k: int| i <= k < j ==> crate::entry::event_child(#[trigger] events[k]) is None,
    ensures
        scan_events(events, f, i, st) == scan_events(events, f, j, st),
    decreases j - i,
{
    if i < j {
        assert(scan_step(st, i, events[i], f) == st);
        lemma_scan_over_messages(events, f, i + 1, j, st);
    }
}

/// A scan already past its end position stays put.
proof fn lemma_scan_after_end(events: Seq<EventModel>, f: u64, i: int, st: ScanState)
    requires
        st.next_pos is Some,
    ensures
        scan_events(events, f, i, st) == st,
    decreases events.len() - i,
{
    if 0 <= i < events.len() {
        assert(scan_step(st, i, events[i], f) == st);
        lemma_scan_after_end(events, f, i + 1, st);
    }
}

/// A thread holding frame spans `f0`, `f1`, `f2` in creation order: the
/// context window of the middle frame starts at the very beginning (there
/// is no grand-previous frame), so it covers the previous frame `f0` and
/// the target `f1`, and it ends exactly at `f2`, excluding it and
/// everything after it.
pub proof fn lemma_window_covers_previous(
    events: Seq<EventModel>,
    p0: int,
    p1: int,
    p2: int,
    f0: u64,
    f1: u64,
    f2: u64,
)
    requires
        0 <= p0 < p1 < p2 < events.len(),
        events[p0] == (EventModel::Child { id: f0 }),
        events[p1] == (EventModel::Child { id: f1 }),
        events[p2] == (EventModel::Child { id: f2 }),
        f0 != f1,
        f2 != f1,
        forall|k: int|
            0 <= k < events.len() && k != p0 && k != p1 && k != p2 ==> crate::entry::event_child(
                #[trigger] events[k],
            ) is None,
    ensures
        window_lo(events, f1) == 0,
        window_hi(events, f1) == p2,
        window_lo(events, f1) <= p0 < window_hi(events, f1),
        window_lo(events, f1) <= p1 < window_hi(events, f1),
{
    let st0 = scan_init();
    lemma_scan_over_messages(events, f1, 0, p0, st0);
    let st1 = scan_step(st0, p0, events[p0], f1);
    assert(st1 == ScanState { gp: Option::None, prev: Option::Some(p0), ..st0 });
    lemma_scan_over_messages(events, f1, p0 + 1, p1, st1);
    let st2 = scan_step(st1, p1, events[p1], f1);
    assert(st2 == ScanState { this_pos: Option::Some(p1), ..st1 });
    lemma_scan_over_messages(events, f1, p1 + 1, p2, st2);
    let st3 = scan_step(st2, p2, events[p2], f1);
    assert(st3 == ScanState { next_pos: Option::Some(p2), ..st2 });
    lemma_scan_after_end(events, f1, p2 + 1, st3);
    assert(frame_scan(events, f1) == st3);
}

/// The boundary case: the context window of a thread's first frame span
/// starts at the beginning of the thread's events (there is neither a
/// previous nor a grand-previous frame) and ends exactly at the following
/// frame, excluding it and everything after it.
pub proof fn lemma_window_at_first_frame(
    events: Seq<EventModel>,
    p0: int,
    p1: int,
    f0: u64,
    f1: u64,
)
    requires
        0 <= p0 < p1 < events.len(),
        events[p0] == (EventModel::Child { id: f0 }),
        events[p1] == (EventModel::Child { id: f1 }),
        f1 != f0,
        forall|k: int|
            0 <= k < events.len() && k != p0 && k != p1 ==> crate::entry::event_child(
                #[trigger] events[k],
            ) is None,
    ensures
        window_lo(events, f0) == 0,
        window_hi(events, f0) == p1,
{
    let st0 = scan_init();
    lemma_scan_over_messages(events, f0, 0, p0, st0);
    let st1 = scan_step(st0, p0, events[p0], f0);
    assert(st1 == ScanState { this_pos: Option::Some(p0), ..st0 });
    lemma_scan_over_messages(events, f0, p0 + 1, p1, st1);
    let st2 = scan_step(st1, p1, events[p1], f0);
    assert(st2 == ScanState { next_pos: Option::Some(p1), ..st1 });
    lemma_scan_after_end(events, f0, p1 + 1, st2);
    assert(frame_scan(events, f0) == st2);
}

} // verus!
