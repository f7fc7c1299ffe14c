//! The small state values the display layer keeps between redraws, and the
//! dispatch from a view selection to the rendering it asks of the logger.

use vstd::prelude::*;

use crate::logger::MapLogger;
use crate::model::LogModel;
use crate::model::Query;

verus! {

/// Where the analysis of a dump currently stands.
#[derive(Default, Copy, Clone, Debug, PartialEq, Eq, Structural, PartialOrd, Ord)]
pub enum ProcessingStatus {
    #[default]
    NoDump,
    ReadingDump,
    RawProcessing,
    Symbolicating,
    Done,
}

/// The log view's selection: which thread and which frame, if any, the
/// reader is looking at.
pub struct LogUiState {
    pub cur_thread: Option<usize>,
    pub cur_frame: Option<usize>,
}

/// The processed view's selection.
pub struct ProcessedUiState {
    pub cur_thread: usize,
    pub cur_frame: usize,
}

/// A stack frame of an inlined function, as the processed view shows it.
#[derive(Debug, Clone)]
pub struct InlineFrame {
    pub function_name: String,
    pub source_file_name: Option<String>,
    pub source_line: Option<u32>,
}

/// The raw-dump view's selection.
pub struct RawDumpUiState {
    pub cur_stream: usize,
}

/// Whether a selection's frame request, if it makes one, is consistent with
/// the logger's tree.
pub open spec fn selection_ok(m: LogModel, ui: &LogUiState) -> bool {
    match (ui.cur_thread, ui.cur_frame) {
        (Option::Some(t), Option::Some(f)) => MapLogger::frame_query_ok(m, t as u64, f as u64),
        _ => true,
    }
}

/// What a selection renders: a frame's context window when both a thread
/// and a frame are selected, one thread's span when only a thread is, the
/// whole log otherwise — with the same fallbacks the individual renderings
/// have.
pub fn render_for_selection(logger: &mut MapLogger, ui: &LogUiState) -> (r: String)
    requires
        old(logger).wf(),
        selection_ok(old(logger)@, ui),
    ensures
        final(logger).wf(),
        match (ui.cur_thread, ui.cur_frame) {
            (Option::Some(t), Option::Some(f)) => match MapLogger::frame_target(
                old(logger)@,
                t as u64,
                f as u64,
            ) {
                Option::Some((ts, fs)) => r@ == crate::render::render_frame_chars(
                    old(logger)@,
                    ts,
                    fs,
                ),
                Option::None => r@ == crate::render::render_all_chars(old(logger)@),
            },
            (Option::Some(t), Option::None) => match MapLogger::thread_target(
                old(logger)@,
                t as u64,
            ) {
                Option::Some(ts) => r@ == crate::render::render_thread_chars(old(logger)@, ts),
                Option::None => r@ == crate::render::render_all_chars(old(logger)@),
            },
            _ => r@ == crate::render::render_all_chars(old(logger)@),
        },
{
    match (ui.cur_thread, ui.cur_frame) {
        (Option::Some(t), Option::Some(f)) => logger.string_for_frame(t, f),
        (Option::Some(t), Option::None) => logger.string_for_thread(t),
        _ => logger.string_for_all(),
    }
}

} // verus!
