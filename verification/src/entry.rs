//! The records the span tree store owns: one `SpanEntry` per span, holding
//! its text fields and an append-only event sequence mixing messages and
//! child-span references, together with the ghost models the contracts
//! speak of.

use vstd::prelude::*;

use crate::fields::FieldMap;
use crate::fields::fm_sorted;

verus! {

/// The severity attached to a recorded message.
#[derive(Clone, Copy, PartialEq, Eq, Structural, Debug)]
pub enum LogLevel {
    Error,
    Warn,
    Info,
    Debug,
    Trace,
}

/// One recorded message: its level and its coerced fields.
pub struct MessageEntry {
    pub level: LogLevel,
    pub fields: FieldMap,
}

/// One event inside a span: either a reference to a child span (by
/// persistent id) or a message.
pub enum EventEntry {
    Child(u64),
    Message(MessageEntry),
}

/// One span record: never renamed after creation; `destroyed` is a one-way
/// transition; `events` is append-only between resets; `idx` holds the
/// captured numeric `idx` attribute, if any.
pub struct SpanEntry {
    pub destroyed: bool,
    pub name: String,
    pub fields: FieldMap,
    pub events: Vec<EventEntry>,
    pub idx: Option<u64>,
}

/// The ghost model of an event.
#[verifier::ext_equal]
pub ghost enum EventModel {
    Child { id: u64 },
    Message { level: LogLevel, fields: Seq<(Seq<char>, Seq<char>)> },
}

/// The ghost model of a span record.
#[verifier::ext_equal]
pub ghost struct SpanModel {
    pub destroyed: bool,
    pub name: Seq<char>,
    pub fields: Seq<(Seq<char>, Seq<char>)>,
    pub events: Seq<EventModel>,
    pub idx: Option<u64>,
}

impl View for EventEntry {
    type V = EventModel;

    open spec fn view(&self) -> EventModel {
        match self {
            EventEntry::Child(id) => EventModel::Child { id: *id },
            EventEntry::Message(m) => EventModel::Message { level: m.level, fields: m.fields@ },
        }
    }
}

/// The model sequence of an event vector.
pub open spec fn events_view(v: Seq<EventEntry>) -> Seq<EventModel> {
    Seq::new(v.len(), |i: int| v[i]@)
}

impl View for SpanEntry {
    type V = SpanModel;

    open spec fn view(&self) -> SpanModel {
        SpanModel {
            destroyed: self.destroyed,
            name: self.name@,
            fields: self.fields@,
            events: events_view(self.events@),
            idx: self.idx,
        }
    }
}

impl SpanModel {
    /// A record's own well-formedness: its field keys are sorted (hence
    /// unique).
    pub open spec fn wf(self) -> bool {
        fm_sorted(self.fields)
    }

    /// The same record with its event sequence emptied, as a reset leaves a
    /// still-open span.
    pub open spec fn with_events_cleared(self) -> SpanModel {
        SpanModel { events: Seq::empty(), ..self }
    }

    /// The same record with one more event.
    pub open spec fn with_event(self, e: EventModel) -> SpanModel {
        SpanModel { events: self.events.push(e), ..self }
    }
}

/// The child id of an event, when it references a child span.
pub open spec fn event_child(e: EventModel) -> Option<u64> {
    match e {
        EventModel::Child { id } => Option::Some(id),
        EventModel::Message { .. } => Option::None,
    }
}

} // verus!
