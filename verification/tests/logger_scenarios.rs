use maplog::entry::LogLevel;
use maplog::fields::FieldValue;
use maplog::logger::MapLogger;

fn idx_attr(n: u64) -> Vec<(String, FieldValue)> {
    vec![("idx".to_string(), FieldValue::Unsigned(n))]
}

fn msg_attr(text: &str) -> Vec<(String, FieldValue)> {
    vec![("message".to_string(), FieldValue::Text(text.to_string()))]
}

const PREAMBLE: &str = "Viewing logs for a frame's stackwalk, which has two parts\n  1. How the frame was computed (the stackwalk of its callee)\n  2. How the frame itself was walked (producing its caller)\n\n";

#[test]
fn empty_log_renders_nothing() {
    let mut log = MapLogger::new();
    assert_eq!(log.string_for_all(), "");
}

#[test]
fn end_to_end_thread_and_frames() {
    let mut log = MapLogger::new();
    let thread_id = log.span_opened(1, None, "thread".to_string(), idx_attr(0));
    let frame0 = log.span_opened(2, Some(1), "frame".to_string(), idx_attr(0));
    log.event_recorded(Some(2), LogLevel::Info, msg_attr("walking frame 0"));
    log.span_closed(2);
    let frame1 = log.span_opened(2, Some(1), "frame".to_string(), idx_attr(1));
    log.event_recorded(Some(2), LogLevel::Info, msg_attr("walking frame 1"));
    log.span_closed(2);
    log.span_closed(1);
    assert_ne!(thread_id, frame0);
    assert_ne!(frame0, frame1);

    let expected_thread = "[thread {\"idx\": \"0\"}]\n\
                           \u{20}   [frame {\"idx\": \"0\"}]\n\
                           \u{20}       walking frame 0\n\
                           \u{20}   [frame {\"idx\": \"1\"}]\n\
                           \u{20}       walking frame 1\n";
    assert_eq!(log.string_for_thread(0), expected_thread);

    // The second frame has no grand-previous and no next frame, so its
    // window spans the whole of the thread's events.
    let expected_frame = format!("{}{}", PREAMBLE, expected_thread);
    assert!(log.frame_query_consistent(0, 1));
    assert_eq!(log.string_for_frame(0, 1), expected_frame);
}

#[test]
fn window_excludes_later_frames() {
    let mut log = MapLogger::new();
    log.span_opened(1, None, "thread".to_string(), idx_attr(7));
    for i in 0..3u64 {
        log.span_opened(2, Some(1), "frame".to_string(), idx_attr(i));
        log.event_recorded(Some(2), LogLevel::Info, msg_attr(&format!("walking frame {}", i)));
        log.span_closed(2);
    }
    log.span_closed(1);
    assert!(log.frame_query_consistent(7, 1));
    let text = log.string_for_frame(7, 1);
    assert!(text.contains("walking frame 0"));
    assert!(text.contains("walking frame 1"));
    assert!(!text.contains("walking frame 2"));
}

#[test]
fn window_of_first_frame_starts_at_beginning() {
    let mut log = MapLogger::new();
    log.span_opened(1, None, "thread".to_string(), idx_attr(0));
    log.event_recorded(Some(1), LogLevel::Info, msg_attr("before any frame"));
    for i in 0..2u64 {
        log.span_opened(2, Some(1), "frame".to_string(), idx_attr(i));
        log.event_recorded(Some(2), LogLevel::Info, msg_attr(&format!("walking frame {}", i)));
        log.span_closed(2);
    }
    log.span_closed(1);
    assert!(log.frame_query_consistent(0, 0));
    let text = log.string_for_frame(0, 0);
    assert!(text.contains("before any frame"));
    assert!(text.contains("walking frame 0"));
    assert!(!text.contains("walking frame 1"));
}

#[test]
fn persistent_ids_not_reused_after_close() {
    let mut log = MapLogger::new();
    let first = log.span_opened(5, None, "work".to_string(), vec![]);
    log.span_closed(5);
    let second = log.span_opened(5, None, "work".to_string(), vec![]);
    assert_ne!(first, second);
}

#[test]
fn render_all_is_idempotent() {
    let mut log = MapLogger::new();
    log.span_opened(1, None, "thread".to_string(), idx_attr(0));
    log.event_recorded(Some(1), LogLevel::Warn, msg_attr("hello"));
    let a = log.string_for_all();
    let b = log.string_for_all();
    assert_eq!(a, b);
}

#[test]
fn unrelated_mutation_invalidates_memo() {
    let mut log = MapLogger::new();
    log.span_opened(1, None, "thread".to_string(), idx_attr(0));
    log.span_closed(1);
    let before = log.string_for_thread(0);
    // A message recorded at the root does not belong to the cached thread
    // view, but the memo must still be dropped and the next whole-log
    // rendering must see it.
    log.event_recorded(None, LogLevel::Info, msg_attr("unrelated"));
    let all = log.string_for_all();
    assert!(all.contains("unrelated"));
    assert!(!before.contains("unrelated"));
}

#[test]
fn attribute_update_invalidates_memo() {
    let mut log = MapLogger::new();
    log.span_opened(
        1,
        None,
        "job".to_string(),
        vec![("state".to_string(), FieldValue::Text("running".to_string()))],
    );
    let before = log.string_for_all();
    assert!(before.contains("running"));
    log.span_attributes_updated(
        1,
        vec![("state".to_string(), FieldValue::Text("finished".to_string()))],
    );
    let after = log.string_for_all();
    assert!(after.contains("finished"));
    assert!(!after.contains("running"));
}

#[test]
fn clear_keeps_open_spans_and_drops_closed_ones() {
    let mut log = MapLogger::new();
    log.span_opened(1, None, "thread".to_string(), idx_attr(0));
    log.event_recorded(Some(1), LogLevel::Info, msg_attr("kept span, dropped event"));
    log.span_opened(2, None, "thread".to_string(), idx_attr(1));
    log.event_recorded(Some(2), LogLevel::Info, msg_attr("dropped span"));
    log.span_closed(2);
    log.clear();
    // The whole log shows nothing: the root's own events were emptied.
    assert_eq!(log.string_for_all(), "");
    // The still-open thread survives with its structure (header) but an
    // empty event list.
    assert_eq!(log.string_for_thread(0), "[thread {\"idx\": \"0\"}]\n");
    // The closed thread is gone entirely; its stale index falls back to
    // the whole log.
    assert_eq!(log.string_for_thread(1), "");
}

#[test]
fn open_span_stays_usable_across_clear() {
    let mut log = MapLogger::new();
    log.span_opened(1, None, "thread".to_string(), idx_attr(3));
    log.event_recorded(Some(1), LogLevel::Info, msg_attr("before reset"));
    log.clear();
    assert!(log.is_live(1));
    log.event_recorded(Some(1), LogLevel::Info, msg_attr("after reset"));
    let text = log.string_for_thread(3);
    assert!(!text.contains("before reset"));
    assert!(text.contains("after reset"));
}

#[test]
fn attributes_updated_overwrite_values() {
    let mut log = MapLogger::new();
    log.span_opened(
        1,
        None,
        "job".to_string(),
        vec![("state".to_string(), FieldValue::Text("starting".to_string()))],
    );
    log.span_attributes_updated(
        1,
        vec![("state".to_string(), FieldValue::Text("done".to_string()))],
    );
    log.span_closed(1);
    let text = log.string_for_all();
    assert_eq!(text, "    [job {\"state\": \"done\"}]\n");
}

#[test]
fn unnamed_spans_print_no_header() {
    let mut log = MapLogger::new();
    log.span_opened(1, None, String::new(), vec![]);
    log.event_recorded(Some(1), LogLevel::Info, msg_attr("inside anonymous"));
    log.span_closed(1);
    // The anonymous span itself prints nothing, but its message still
    // appears one level deeper than it would at the root.
    assert_eq!(log.string_for_all(), "        inside anonymous\n");
}

#[test]
fn messages_without_message_field_print_nothing() {
    let mut log = MapLogger::new();
    log.event_recorded(
        None,
        LogLevel::Debug,
        vec![("note".to_string(), FieldValue::Text("hidden".to_string()))],
    );
    assert_eq!(log.string_for_all(), "");
}

#[test]
fn unresolved_indices_fall_back_to_whole_log() {
    let mut log = MapLogger::new();
    log.event_recorded(None, LogLevel::Info, msg_attr("root line"));
    assert_eq!(log.string_for_thread(9), "    root line\n");
    assert!(log.frame_query_consistent(9, 9));
    assert_eq!(log.string_for_frame(9, 9), "    root line\n");
}

#[test]
fn signed_idx_attribute_does_not_index() {
    let mut log = MapLogger::new();
    log.span_opened(
        1,
        None,
        "thread".to_string(),
        vec![("idx".to_string(), FieldValue::Signed(4))],
    );
    log.event_recorded(Some(1), LogLevel::Info, msg_attr("present"));
    log.span_closed(1);
    // The signed attribute is stored as text but captures no index, so the
    // thread lookup falls back to the whole log (which shows the span at
    // one extra level of indentation).
    let text = log.string_for_thread(4);
    assert_eq!(text, "    [thread {\"idx\": \"4\"}]\n        present\n");
}

#[test]
fn frame_without_indexed_parent_is_not_indexed() {
    let mut log = MapLogger::new();
    // A frame span opened at the root: the root carries no index, so no
    // composite key is recorded and the frame lookup falls back.
    log.span_opened(1, None, "frame".to_string(), idx_attr(0));
    log.event_recorded(Some(1), LogLevel::Info, msg_attr("stray frame"));
    log.span_closed(1);
    let text = log.string_for_frame(0, 0);
    assert!(text.contains("stray frame"));
    assert!(!text.starts_with("Viewing logs"));
}
