use maplog::entry::LogLevel;
use maplog::fields::FieldValue;
use maplog::fields::format_bool;
use maplog::fields::format_i64;
use maplog::fields::format_u64;
use maplog::logger::MapLogger;
use maplog::raw_stream::print_raw_stream;
use maplog::text::str_eq;
use maplog::text::str_lt;
use maplog::ui_state::InlineFrame;
use maplog::ui_state::LogUiState;
use maplog::ui_state::ProcessingStatus;
use maplog::ui_state::render_for_selection;

#[test]
fn decimal_formatting_is_exact() {
    assert_eq!(format_u64(0), "0");
    assert_eq!(format_u64(7), "7");
    assert_eq!(format_u64(12034), "12034");
    assert_eq!(format_u64(u64::MAX), "18446744073709551615");
    assert_eq!(format_i64(0), "0");
    assert_eq!(format_i64(-5), "-5");
    assert_eq!(format_i64(i64::MIN), "-9223372036854775808");
    assert_eq!(format_i64(i64::MAX), "9223372036854775807");
    assert_eq!(format_bool(true), "true");
    assert_eq!(format_bool(false), "false");
}

#[test]
fn string_order_and_equality() {
    assert!(str_lt("abc", "abd"));
    assert!(str_lt("ab", "abc"));
    assert!(!str_lt("abc", "abc"));
    assert!(!str_lt("b", "ab"));
    assert!(str_eq("same", "same"));
    assert!(!str_eq("same", "sane"));
}

#[test]
fn header_fields_are_sorted_and_escaped() {
    let mut log = MapLogger::new();
    log.span_opened(
        1,
        None,
        "job".to_string(),
        vec![
            ("zeta".to_string(), FieldValue::Text("x\"y\\z".to_string())),
            ("alpha".to_string(), FieldValue::Signed(-5)),
            ("beta".to_string(), FieldValue::Boolean(true)),
            ("alpha".to_string(), FieldValue::Unsigned(9)),
        ],
    );
    log.span_closed(1);
    let text = log.string_for_all();
    // Keys sorted, the repeated key overwritten, quote and backslash
    // escaped in the value.
    assert_eq!(
        text,
        "    [job {\"alpha\": \"9\", \"beta\": \"true\", \"zeta\": \"x\\\"y\\\\z\"}]\n"
    );
}

#[test]
fn error_and_debug_values_store_their_text() {
    let mut log = MapLogger::new();
    log.event_recorded(
        None,
        LogLevel::Error,
        vec![
            ("message".to_string(), FieldValue::ErrorText("boom".to_string())),
        ],
    );
    assert_eq!(log.string_for_all(), "    boom\n");
    log.event_recorded(
        None,
        LogLevel::Trace,
        vec![
            ("message".to_string(), FieldValue::DebugText("Thing { x: 1 }".to_string())),
        ],
    );
    assert_eq!(log.string_for_all(), "    boom\n    Thing { x: 1 }\n");
}

#[test]
fn raw_stream_listing_is_exact() {
    let out = print_raw_stream("LinuxCpuInfo", b"abc\0def");
    assert_eq!(out, "Stream LinuxCpuInfo:\nabc\\0\ndef\n\n");
}

#[test]
fn raw_stream_of_empty_contents() {
    let out = print_raw_stream("LinuxMaps", b"");
    assert_eq!(out, "Stream LinuxMaps:\n\n\n");
}

#[test]
fn raw_stream_trailing_nul_yields_empty_chunk() {
    let out = print_raw_stream("S", b"a\0");
    assert_eq!(out, "Stream S:\na\\0\n\n\n");
}

#[test]
fn raw_stream_replaces_invalid_utf8() {
    let out = print_raw_stream("S", &[0x61, 0xff, 0x62]);
    assert_eq!(out, "Stream S:\na\u{fffd}b\n\n");
}

#[test]
fn processing_status_defaults_and_orders() {
    assert_eq!(ProcessingStatus::default(), ProcessingStatus::NoDump);
    assert!(ProcessingStatus::NoDump < ProcessingStatus::ReadingDump);
    assert!(ProcessingStatus::Symbolicating < ProcessingStatus::Done);
}

#[test]
fn inline_frame_holds_its_fields() {
    let f = InlineFrame {
        function_name: "walk".to_string(),
        source_file_name: Some("walker.rs".to_string()),
        source_line: Some(17),
    };
    let g = f.clone();
    assert_eq!(g.function_name, "walk");
    assert_eq!(g.source_file_name.as_deref(), Some("walker.rs"));
    assert_eq!(g.source_line, Some(17));
}

#[test]
fn selection_dispatch_matches_direct_calls() {
    let mut log = MapLogger::new();
    log.span_opened(1, None, "thread".to_string(), vec![(
        "idx".to_string(),
        FieldValue::Unsigned(0),
    )]);
    log.event_recorded(Some(1), LogLevel::Info, vec![(
        "message".to_string(),
        FieldValue::Text("t0".to_string()),
    )]);
    log.span_closed(1);

    let both = LogUiState { cur_thread: Some(0), cur_frame: None };
    let text = render_for_selection(&mut log, &both);
    assert_eq!(text, log.string_for_thread(0));

    let neither = LogUiState { cur_thread: None, cur_frame: None };
    let text = render_for_selection(&mut log, &neither);
    assert_eq!(text, log.string_for_all());
}
