//! The ghost model of the whole aggregator and the transition functions the
//! public operations are specified against: one `LogModel` value per store
//! state, and one step function per mutation.

use vstd::prelude::*;

use crate::entry::EventModel;
use crate::entry::SpanModel;
use crate::entry::event_child;
use crate::fields::FieldValue;
use crate::fields::capture_idx;
use crate::fields::fm_apply_values;

verus! {

/// A persistent-id budget: creation stops well before the counter could
/// wrap or the renderer's depth arithmetic could overflow.
pub const SPAN_ID_LIMIT: u64 = 0x1000_0000_0000_0000;

/// What a rendering request addresses: the whole log, one thread's span, or
/// one frame span in its context window inside a thread.
#[derive(Clone, Copy, PartialEq, Eq, Structural, Debug)]
pub enum Query {
    All,
    Thread(u64),
    Frame(u64, u64),
}

/// The state of the aggregator: the distinguished root record, every
/// non-root record keyed by persistent id, the ephemeral-to-persistent
/// identity table, the two domain index tables, the id counter, and the
/// single-slot render memo.
#[verifier::ext_equal]
pub ghost struct LogModel {
    pub root: SpanModel,
    pub spans: Map<u64, SpanModel>,
    pub live: Map<u64, u64>,
    pub threads: Map<u64, u64>,
    pub frames: Map<(u64, u64), u64>,
    pub next_id: u64,
    pub cache: Option<(Query, Seq<char>)>,
}

/// One event is well linked: a child reference names a stored span created
/// after its owner.
pub open spec fn event_ok(spans: Map<u64, SpanModel>, owner: int, e: EventModel) -> bool {
    match event_child(e) {
        Option::Some(c) => spans.contains_key(c) && owner < c,
        Option::None => true,
    }
}

/// Every event of a sequence is well linked.
pub open spec fn events_ok(spans: Map<u64, SpanModel>, owner: int, events: Seq<EventModel>) -> bool {
    forall|i: int| 0 <= i < events.len() ==> event_ok(spans, owner, #[trigger] events[i])
}

/// The store's invariant over its model.
pub open spec fn inv(m: LogModel) -> bool {
    &&& !m.root.destroyed
    &&& m.root.name.len() == 0
    &&& m.root.idx is None
    &&& m.root.wf()
    &&& events_ok(m.spans, -1, m.root.events)
    &&& forall|id: u64| #[trigger] m.spans.contains_key(id) ==> id < m.next_id
    &&& forall|id: u64| #[trigger] m.spans.contains_key(id) ==> m.spans[id].wf()
    &&& forall|id: u64|
        #[trigger] m.spans.contains_key(id) ==> events_ok(m.spans, id as int, m.spans[id].events)
    &&& forall|e: u64|
        #[trigger] m.live.contains_key(e) ==> m.spans.contains_key(m.live[e])
            && !m.spans[m.live[e]].destroyed
    &&& forall|e1: u64, e2: u64|
        m.live.contains_key(e1) && m.live.contains_key(e2) && e1 != e2 ==> #[trigger] m.live[e1]
            != #[trigger] m.live[e2]
    &&& m.next_id <= SPAN_ID_LIMIT
    &&& cache_ok(m)
}

/// The memo slot, when full, holds exactly the rendering of its query
/// against the current state.
pub open spec fn cache_ok(m: LogModel) -> bool {
    match m.cache {
        Option::Some((q, s)) => s == crate::render::render_query_chars(m, q),
        Option::None => true,
    }
}

/// The record a span-opening creates: open, named, with its attributes
/// coerced and a numeric `idx` attribute captured, and no events yet.
pub open spec fn opened_span(name: Seq<char>, values: Seq<(String, FieldValue)>) -> SpanModel {
    SpanModel {
        destroyed: false,
        name: name,
        fields: fm_apply_values(Seq::empty(), values),
        events: Seq::empty(),
        idx: capture_idx(Option::None, values),
    }
}

/// The parent record a span-opening addresses: the root, or the live span
/// of the given ephemeral id.
pub open spec fn parent_of(m: LogModel, parent_eph: Option<u64>) -> SpanModel {
    match parent_eph {
        Option::None => m.root,
        Option::Some(pe) => m.spans[m.live[pe]],
    }
}

/// The state after a span is opened: the next counter value becomes the new
/// span's persistent id, a child reference is appended to the parent at the
/// current end of its events, the identity table gains the ephemeral
/// mapping, and a `thread` or `frame` span carrying an `idx` attribute is
/// indexed (a frame only under a parent that itself carries an index).
pub open spec fn open_step(
    m: LogModel,
    eph: u64,
    parent_eph: Option<u64>,
    name: Seq<char>,
    values: Seq<(String, FieldValue)>,
) -> LogModel {
    let new_id = m.next_id;
    let entry = opened_span(name, values);
    let parent_idx = parent_of(m, parent_eph).idx;
    let child = EventModel::Child { id: new_id };
    let root1 = match parent_eph {
        Option::None => m.root.with_event(child),
        Option::Some(_) => m.root,
    };
    let spans1 = match parent_eph {
        Option::None => m.spans,
        Option::Some(pe) => m.spans.insert(m.live[pe], m.spans[m.live[pe]].with_event(child)),
    };
    let threads1 = match entry.idx {
        Option::Some(ix) => if name == "thread"@ {
            m.threads.insert(ix, new_id)
        } else {
            m.threads
        },
        Option::None => m.threads,
    };
    let frames1 = match entry.idx {
        Option::Some(ix) => if name != "thread"@ && name == "frame"@ {
            match parent_idx {
                Option::Some(ti) => m.frames.insert((ti, ix), new_id),
                Option::None => m.frames,
            }
        } else {
            m.frames
        },
        Option::None => m.frames,
    };
    LogModel {
        root: root1,
        spans: spans1.insert(new_id, entry),
        live: m.live.insert(eph, new_id),
        threads: threads1,
        frames: frames1,
        next_id: (m.next_id + 1) as u64,
        cache: Option::None,
    }
}

/// The state after attributes are merged into a live span: new values
/// overwrite existing keys; nothing else moves.
pub open spec fn update_step(m: LogModel, eph: u64, values: Seq<(String, FieldValue)>) -> LogModel {
    let pid = m.live[eph];
    let s = m.spans[pid];
    LogModel {
        spans: m.spans.insert(pid, SpanModel { fields: fm_apply_values(s.fields, values), ..s }),
        cache: Option::None,
        ..m
    }
}

/// The state after a message is recorded: it is appended to the addressed
/// span's events (the root's, when no enclosing span is given).
pub open spec fn record_step(
    m: LogModel,
    eph: Option<u64>,
    level: crate::entry::LogLevel,
    values: Seq<(String, FieldValue)>,
) -> LogModel {
    let msg = EventModel::Message { level, fields: fm_apply_values(Seq::empty(), values) };
    match eph {
        Option::None => LogModel { root: m.root.with_event(msg), cache: Option::None, ..m },
        Option::Some(e) => {
            let pid = m.live[e];
            LogModel {
                spans: m.spans.insert(pid, m.spans[pid].with_event(msg)),
                cache: Option::None,
                ..m
            }
        },
    }
}

/// The state after a span closes: its record is marked destroyed but stays
/// linked; the ephemeral mapping ends, freeing the id for reuse.
pub open spec fn close_step(m: LogModel, eph: u64) -> LogModel {
    let pid = m.live[eph];
    let s = m.spans[pid];
    LogModel {
        spans: m.spans.insert(pid, SpanModel { destroyed: true, ..s }),
        live: m.live.remove(eph),
        cache: Option::None,
        ..m
    }
}

/// The records surviving a reset: destroyed spans are deleted outright,
/// still-open spans are kept with their event lists emptied.
pub open spec fn cleared_spans(spans: Map<u64, SpanModel>) -> Map<u64, SpanModel> {
    Map::new(
        |id: u64| spans.contains_key(id) && !spans[id].destroyed,
        |id: u64| spans[id].with_events_cleared(),
    )
}

/// The state after a reset: surviving records as above, the root's events
/// emptied, identity and index tables untouched, the memo dropped.
pub open spec fn clear_step(m: LogModel) -> LogModel {
    LogModel {
        root: m.root.with_events_cleared(),
        spans: cleared_spans(m.spans),
        cache: Option::None,
        ..m
    }
}

} // verus!
