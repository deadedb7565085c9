use aside::app::App;
use aside::clock::Timestamp;
use aside::parser::{parse_markdown, parse_time_str, try_parse_markdown};

fn make_start() -> Timestamp {
    // 2025-01-01 10:00:00
    Timestamp { secs: 1735725600, nanos: 0 }
}

#[test]
fn test_simple_line() {
    let start = make_start();
    let lines = parse_markdown("[01:30] hello world", &start);
    assert_eq!(lines.len(), 1);
    assert_eq!(lines[0].text, "hello world");
    assert_eq!(lines[0].created_at.secs_since(&start), 90);
    assert!(lines[0].edited_at.is_none());
}

#[test]
fn test_edited_line() {
    let start = make_start();
    let lines = parse_markdown("[01:00 ~02:30] edited text", &start);
    assert_eq!(lines.len(), 1);
    assert_eq!(lines[0].text, "edited text");
    assert_eq!(lines[0].created_at.secs_since(&start), 60);
    let et = lines[0].edited_at.unwrap();
    assert_eq!(et.secs_since(&start), 150);
}

#[test]
fn test_unrecognized_appends() {
    let start = make_start();
    let input = "[00:10] first line\ncontinuation text";
    let lines = parse_markdown(input, &start);
    assert_eq!(lines.len(), 1);
    assert_eq!(lines[0].text, "first line\ncontinuation text");
}

#[test]
fn test_multiple_lines() {
    let start = make_start();
    let input = "[00:05] line one\n[00:10] line two\n[01:00 ~01:30] line three";
    let lines = parse_markdown(input, &start);
    assert_eq!(lines.len(), 3);
    assert_eq!(lines[0].text, "line one");
    assert_eq!(lines[1].text, "line two");
    assert_eq!(lines[2].text, "line three");
}

#[test]
fn test_round_trip() {
    // Export format → parse → same content
    let start = make_start();
    let input = "[00:00] first note\n[01:30] second note\n[05:00 ~06:00] edited note";
    let lines = parse_markdown(input, &start);
    assert_eq!(lines.len(), 3);
    assert_eq!(lines[0].text, "first note");
    assert_eq!(lines[1].text, "second note");
    assert_eq!(lines[2].text, "edited note");
}

#[test]
fn test_hhmmss_format() {
    let start = make_start();
    let lines = parse_markdown("[01:30:00] long session note", &start);
    assert_eq!(lines.len(), 1);
    assert_eq!(lines[0].created_at.secs_since(&start), 5400);
}

#[test]
fn orphan_line_takes_the_start_time() {
    let start = make_start();
    let lines = parse_markdown("no stamp\n[00:01] stamped", &start);
    assert_eq!(lines.len(), 2);
    assert_eq!(lines[0].text, "no stamp");
    assert_eq!(lines[0].created_at, start);
    assert_eq!(lines[1].text, "stamped");
}

#[test]
fn lines_that_only_look_stamped() {
    let start = make_start();
    for line in ["[1:2] x", "[00:10]x", "[00:10 02:00] x", "(00:10) x", "[00:10:1] x", "[:10] x", "[00:10 ~02:00]"] {
        let lines = parse_markdown(line, &start);
        assert_eq!(lines.len(), 1);
        assert_eq!(lines[0].text, line);
        assert_eq!(lines[0].created_at, start);
    }
}

#[test]
fn stamp_without_text() {
    let start = make_start();
    let lines = parse_markdown("[00:10] ", &start);
    assert_eq!(lines.len(), 1);
    assert_eq!(lines[0].text, "");
    assert_eq!(lines[0].created_at.secs_since(&start), 10);
}

#[test]
fn carriage_returns_before_line_feeds_are_dropped() {
    let start = make_start();
    let lines = parse_markdown("[00:01] a\r\n[00:02] b\r\n", &start);
    assert_eq!(lines.len(), 2);
    assert_eq!(lines[0].text, "a");
    assert_eq!(lines[1].text, "b");
}

#[test]
fn number_too_large_for_a_stamp() {
    let start = make_start();
    let line = "[99999999999999999999:00] x";
    let lines = parse_markdown(line, &start);
    assert_eq!(lines[0].text, line);
}

#[test]
fn time_outside_the_calendar() {
    let start = make_start();
    assert!(try_parse_markdown("[999999999999:00:00] x", &start).is_none());
    assert!(try_parse_markdown("[00:10 ~999999999999:00:00] x", &start).is_none());
    assert!(try_parse_markdown("[00:10] x", &start).is_some());
    assert_eq!(try_parse_markdown("", &start).unwrap().len(), 0);
}

#[test]
fn time_strings() {
    assert_eq!(parse_time_str("01:30"), Some(90));
    assert_eq!(parse_time_str("1:02:03"), Some(3723));
    assert_eq!(parse_time_str("-1:05"), Some(-55));
    assert_eq!(parse_time_str("+2:00"), Some(120));
    assert_eq!(parse_time_str("90"), None);
    assert_eq!(parse_time_str("1:2:3:4"), None);
    assert_eq!(parse_time_str("a:00"), None);
    assert_eq!(parse_time_str(":00"), None);
}

#[test]
fn resuming_keeps_the_memo() {
    let start = make_start();
    let memo = "[00:00] first note\n[01:30] second note\n[05:00 ~06:00] edited note\n";
    let parsed = parse_markdown(memo, &start);
    let app = App::from_parsed(parsed, "x.md".to_string(), start, "mic".to_string(), start.plus_secs(400));
    assert_eq!(app.lines.len(), 4);
    assert_eq!(app.cursor_line, 3);
    assert_eq!(app.settled, vec![true, true, true, false]);
    assert_eq!(app.export(), memo);
}

#[test]
fn reading_loses_no_text() {
    let start = make_start();
    let content = "top\n[00:01] a\nmore\n\n[00:02 ~00:03] b\n[0:4] not\n[00:05] ";
    let lines = parse_markdown(content, &start);
    let texts: Vec<&str> = lines.iter().map(|l| l.text.as_str()).collect();
    assert_eq!(texts.join("\n"), "top\na\nmore\n\nb\n[0:4] not\n");
    // Three stamped lines, and the first line without a stamp.
    assert_eq!(lines.len(), 4);
}
