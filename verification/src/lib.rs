//! An in-memory, hierarchical log aggregator for a long-running analysis
//! task.  Diagnostic spans and events arrive from a producer-side emission
//! interface; the store keeps them in a tree of records with stable,
//! never-reused identities, indexes well-known "thread" and "frame" spans by
//! their numeric index, and renders whole-log, per-thread and per-frame
//! textual views for live display.

pub mod assoc;
pub mod entry;
pub mod extmap;
pub mod fields;
pub mod laws;
pub mod logger;
pub mod model;
pub mod raw_stream;
pub mod render;
pub mod text;
pub mod ui_state;
