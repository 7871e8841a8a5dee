use videre_core::error_log::{
    log_line_from_json, parse_line, primary_log_name, resolved_lines, trace_log_name,
    JsonLineParts, LineLevel, RunScan,
};

#[test]
fn parses_the_json_shape_tracing_writes() {
    let line = r#"{"timestamp":"2026-09-23T11:05:01.1Z","level":"WARN","fields":{"message":"skipping /Fotoğraflar/Çağla.jpg: unreadable","kind":"decode_failed","path":"/Fotoğraflar/Çağla.jpg","remediation":"","stage":"scan"},"target":"videre::commands::scan","spans":[{"name":"run","command":"watch","run":"R1"}]}"#;
    let parsed = parse_line(line).unwrap();
    assert_eq!(parsed.level, LineLevel::Warn);
    assert_eq!(parsed.ts, "2026-09-23T11:05:01.1Z");
    assert_eq!(parsed.command.as_deref(), Some("watch"));
    assert_eq!(parsed.run.as_deref(), Some("R1"));
    assert_eq!(parsed.stage.as_deref(), Some("scan"));
    assert_eq!(parsed.kind.as_deref(), Some("decode_failed"));
    assert_eq!(parsed.path.as_deref(), Some("/Fotoğraflar/Çağla.jpg"));
    assert_eq!(
        parsed.message,
        "skipping /Fotoğraflar/Çağla.jpg: unreadable"
    );
}

#[test]
fn parses_logfmt_with_quoted_values() {
    let line = r#"ts=2026-09-23T11:05:01.1Z level=error target=videre::commands::scan span=stage command=watch run=R1 stage=scan kind=source_unavailable path="/Volumes/Arşiv/a b.jpg" message="hash failed: \"read\" timed out""#;
    let parsed = parse_line(line).unwrap();
    assert_eq!(parsed.level, LineLevel::Error);
    assert_eq!(parsed.command.as_deref(), Some("watch"));
    assert_eq!(parsed.stage.as_deref(), Some("scan"));
    assert_eq!(parsed.path.as_deref(), Some("/Volumes/Arşiv/a b.jpg"));
    assert_eq!(parsed.message, "hash failed: \"read\" timed out");
}

#[test]
fn logfmt_escaped_newlines_come_back_as_newlines() {
    let line =
        r#"ts=t level=error message="no embeddings\n  run: videre embed" command=search run=R"#;
    let parsed = parse_line(line).unwrap();
    assert_eq!(parsed.message, "no embeddings\n  run: videre embed");
}

#[test]
fn empty_fields_read_as_absent_and_garbage_is_skipped() {
    let line = r#"{"timestamp":"t","level":"ERROR","fields":{"message":"m","kind":"","path":"","stage":""},"spans":[{"name":"run","command":"scan","run":"R"}]}"#;
    let parsed = parse_line(line).unwrap();
    assert_eq!((parsed.kind, parsed.path, parsed.stage), (None, None, None));
    assert!(parse_line("not a log line").is_none());
    assert!(parse_line("").is_none());
}

#[test]
fn logfmt_takes_msg_when_message_is_absent_and_trace_reads_as_debug() {
    let parsed = parse_line("  ts=t level=TRACE msg=hello  ").unwrap();
    assert_eq!(parsed.level, LineLevel::Debug);
    assert_eq!(parsed.message, "hello");
    assert_eq!(parsed.command, None);
}

#[test]
fn logfmt_without_a_known_level_or_with_an_open_quote_is_unreadable() {
    assert!(parse_line("ts=t level=loud message=m").is_none());
    assert!(parse_line(r#"ts=t level=info message="never closed"#).is_none());
    assert!(parse_line("ts=t level=info key message=m").is_none());
    assert!(parse_line("level=info message=m").is_none());
}

#[test]
fn a_json_line_needs_timestamp_level_and_message() {
    assert!(parse_line(r#"{"level":"INFO","fields":{"message":"m"}}"#).is_none());
    assert!(parse_line(r#"{"timestamp":"t","fields":{"message":"m"}}"#).is_none());
    assert!(parse_line(r#"{"timestamp":"t","level":"INFO","fields":{}}"#).is_none());
    assert!(parse_line(r#"{"timestamp":"t","level":"INFO","fields":{"message":"m"}"#).is_none());
    let stage_span = r#"{"timestamp":"t","level":"INFO","fields":{"message":"m"},"spans":[{"name":"run","command":"scan","run":"R"},{"name":"stage","stage":"faces"}]}"#;
    assert_eq!(parse_line(stage_span).unwrap().stage.as_deref(), Some("faces"));
}

#[test]
fn json_parts_make_a_line_with_the_stage_field_first() {
    let parts = JsonLineParts {
        timestamp: Some("t".to_string()),
        level: Some("Warn".to_string()),
        message: Some("m".to_string()),
        stage: Some(String::new()),
        kind: Some("k".to_string()),
        path: None,
        run_command: Some("scan".to_string()),
        run_run: Some("R".to_string()),
        span_stage: Some("faces".to_string()),
    };
    let line = log_line_from_json(parts).unwrap();
    assert_eq!(line.level, LineLevel::Warn);
    assert_eq!(line.stage.as_deref(), Some("faces"));
    assert_eq!(line.kind.as_deref(), Some("k"));
    assert_eq!(line.path, None);
    let no_level = JsonLineParts {
        timestamp: Some("t".to_string()),
        level: Some("loud".to_string()),
        message: Some("m".to_string()),
        stage: None,
        kind: None,
        path: None,
        run_command: None,
        run_run: None,
        span_stage: None,
    };
    assert!(log_line_from_json(no_level).is_none());
}

#[test]
fn log_names_follow_the_command() {
    assert_eq!(primary_log_name("scan"), "scan.log");
    assert_eq!(trace_log_name("scan"), "scan.trace.log");
}

fn json_line(run: &str, level: &str, stage: &str, msg: &str) -> String {
    format!(
        r#"{{"timestamp":"t-{msg}","level":"{level}","fields":{{"message":"{msg}","stage":"{stage}"}},"spans":[{{"name":"run","command":"watch","run":"{run}"}}]}}"#
    )
}

#[test]
fn a_line_without_a_run_joins_the_run_before_it() {
    let with_run = r#"{"timestamp":"t1","level":"WARN","fields":{"message":"a"},"spans":[{"name":"run","command":"scan","run":"R9"}]}"#;
    let worker = r#"{"timestamp":"t2","level":"WARN","fields":{"message":"skipping /Fotoğraflar/b.jpg","stage":""}}"#;
    let text = format!("{with_run}\n{worker}\n");
    let lines = resolved_lines(&text, "scan");
    assert_eq!(lines.len(), 2);
    assert_eq!(lines[1].as_ref().unwrap().0, "R9");
    let mut scan = RunScan::new();
    scan.add_file("scan", &text);
    let summary = scan.summary("scan").unwrap();
    assert_eq!(
        (summary.command.as_str(), summary.run.as_str(), summary.warnings),
        ("scan", "R9", 2)
    );
}

#[test]
fn another_commands_line_is_unreadable() {
    let text = json_line("R", "ERROR", "", "x") + "\n";
    let lines = resolved_lines(&text, "scan");
    assert_eq!(lines.len(), 1);
    assert!(lines[0].is_none());
}

#[test]
fn latest_run_spans_rotation_and_ignores_older_runs() {
    let active = [
        json_line("NEW", "ERROR", "scan", "e1"),
        json_line("NEW", "ERROR", "scan", "e2"),
        "garbage".to_owned(),
    ]
    .join("\n")
        + "\n";
    let first = [
        json_line("OLD", "ERROR", "scan", "old2"),
        json_line("NEW", "WARN", "faces", "w1"),
    ]
    .join("\n")
        + "\n";
    let second = json_line("OLD", "ERROR", "scan", "old") + "\n";
    let mut scan = RunScan::new();
    for text in [&active, &first, &second] {
        if scan.is_stopped() {
            break;
        }
        scan.add_file("watch", text);
    }
    assert!(scan.is_stopped());
    let w = scan.summary("watch").unwrap();
    assert_eq!((w.command.as_str(), w.run.as_str()), ("watch", "NEW"));
    assert_eq!((w.errors, w.warnings), (2, 1));
    assert_eq!(w.stage("scan"), Some((2, 0)));
    assert_eq!(w.stage("faces"), Some((0, 1)));
    assert_eq!(w.stage("other"), None);
    assert_eq!(
        w.by_stage.iter().map(|s| s.0.as_str()).collect::<Vec<_>>(),
        vec!["faces", "scan"]
    );
    assert_eq!(w.last_error.as_ref().unwrap().message, "e2");
    assert_eq!(w.unreadable_lines, 1);
    assert_eq!(w.started, "t-w1");
}

#[test]
fn a_later_clean_run_is_the_latest_run() {
    let failed = r#"{"timestamp":"t1","level":"ERROR","fields":{"message":"boom"},"spans":[{"name":"run","command":"scan","run":"R1"}]}"#;
    let marker = r#"{"timestamp":"t2","level":"INFO","fields":{"message":"run started"},"target":"videre::run","spans":[{"name":"run","command":"scan","run":"R2"}]}"#;
    let mut scan = RunScan::new();
    scan.add_file("scan", &format!("{failed}\n{marker}\n"));
    let summary = scan.summary("scan").unwrap();
    assert_eq!(summary.run, "R2");
    assert_eq!((summary.errors, summary.warnings), (0, 0));
    assert!(summary.last_error.is_none());
}

#[test]
fn a_scan_of_unreadable_files_has_no_run() {
    let mut scan = RunScan::new();
    scan.add_file("scan", "garbage\n\n");
    assert!(scan.summary("scan").is_none());
    assert!(!scan.is_stopped());
}
