use aside::app::App;
use aside::clock::{LocalTime, Timestamp};
use aside::session::{
    add_segment, begin_segment, comes_before, create_session, get_session_start_time, is_meta_file, list_sessions,
    meta_file_name, next_segment_index, next_step, notes_file_name, open_new, open_resumed, session_info, session_table,
    set_vault_note_path, update_segment_duration, wav_path, NextStep, SessionError, SessionMeta,
};
use aside::tui::TuiAction;

/// 2025-01-01T10:00:00.5 in UTC, read an hour and a half to the east.
fn start() -> LocalTime {
    LocalTime { at: Timestamp { secs: 1735725600, nanos: 500_000_000 }, offset_secs: 5400 }
}

fn later(secs: i64) -> LocalTime {
    LocalTime { at: start().at.plus_secs(secs), offset_secs: 5400 }
}

fn meta(name: &str, start_time: &str) -> SessionMeta {
    let mut m = create_session(name, start(), "n.md", start());
    m.start_time = start_time.to_string();
    m
}

#[test]
fn file_names() {
    assert_eq!(meta_file_name("standup"), "standup.meta.json");
    assert_eq!(notes_file_name("standup"), "standup.md");
    assert_eq!(wav_path("standup", 0), ".aside/standup_seg0.wav");
    assert_eq!(wav_path("standup", 12), ".aside/standup_seg12.wav");
    assert_eq!(wav_path("x", i64::MIN), ".aside/x_seg-9223372036854775808.wav");
    assert!(is_meta_file("standup.meta.json"));
    assert!(is_meta_file(".meta.json"));
    assert!(!is_meta_file("standup.json"));
    assert!(!is_meta_file("meta.json"));
    assert!(!is_meta_file("standup.meta.json.bak"));
}

#[test]
fn new_session_metadata() {
    let m = create_session("standup", start(), "standup.md", later(1));
    assert_eq!(m.name, "standup");
    assert_eq!(m.start_time, "2025-01-01T11:30:00.500+01:30");
    assert_eq!(m.notes_path, "standup.md");
    assert_eq!(m.created_at, "2025-01-01T11:30:01.500+01:30");
    assert!(m.segments.is_empty());
    assert_eq!(m.vault_note_path, None);
}

#[test]
fn start_time_reads_back() {
    let m = create_session("standup", start(), "standup.md", start());
    assert_eq!(get_session_start_time(&m).ok().unwrap(), start().at);
    assert_eq!(
        get_session_start_time(&meta("x", "2025-01-01T10:00:00Z")).ok().unwrap(),
        Timestamp { secs: 1735725600, nanos: 0 }
    );
    // A leap second belongs to the last second of its minute.
    assert_eq!(
        get_session_start_time(&meta("x", "2016-12-31T23:59:60.25Z")).ok().unwrap(),
        Timestamp { secs: 1483228799, nanos: 1_250_000_000 }
    );
    let leap = LocalTime { at: Timestamp { secs: 1483228799, nanos: 1_250_000_000 }, offset_secs: 3600 };
    let m = create_session("x", leap, "x.md", leap);
    assert_eq!(m.start_time, "2017-01-01T00:59:60.250+01:00");
    assert_eq!(get_session_start_time(&m).ok().unwrap(), leap.at);
    assert!(matches!(get_session_start_time(&meta("x", "yesterday")), Err(SessionError::InvalidStartTime)));
}

#[test]
fn opening_a_new_session() {
    let (m, new) = open_new("standup", false, false, start(), later(1)).ok().unwrap();
    assert_eq!(m.start_time, "2025-01-01T11:30:00.500+01:30");
    assert_eq!(m.notes_path, "standup.md");
    assert_eq!(m.segments.len(), 1);
    assert_eq!(m.segments[0].segment_index, 0);
    assert_eq!(m.segments[0].wav_path, ".aside/standup_seg0.wav");
    assert_eq!(m.segments[0].offset_ms, 0);
    assert_eq!(m.segments[0].duration_secs, None);
    assert_eq!(m.segments[0].started_at, "2025-01-01T11:30:01.500+01:30");
    assert_eq!((new.segment_index, new.wav_path.as_str(), new.offset_ms), (0, ".aside/standup_seg0.wav", 0));
}

#[test]
fn a_new_session_is_refused() {
    let e = open_new("standup", true, true, start(), start()).err().unwrap();
    assert_eq!(e.message(), "Session 'standup' already exists. Use --resume standup to continue it.");
    let e = open_new("standup", false, true, start(), start()).err().unwrap();
    assert_eq!(
        e.message(),
        "File 'standup.md' already exists. Choose a different session name or delete the file."
    );
}

#[test]
fn resuming_a_session() {
    let (m, _) = open_new("standup", false, false, start(), start()).ok().unwrap();
    let r = open_resumed("standup", Some(m), true, later(90)).ok().unwrap();
    assert_eq!(r.start_time, start().at);
    assert_eq!((r.new.segment_index, r.new.wav_path.as_str(), r.new.offset_ms), (1, ".aside/standup_seg1.wav", 90_000));
    assert_eq!(r.meta.segments.len(), 2);
    assert_eq!(r.meta.segments[1].offset_ms, 90_000);
    assert_eq!(r.meta.segments[1].started_at, "2025-01-01T11:31:30.500+01:30");
}

#[test]
fn resuming_is_refused() {
    let e = open_resumed("standup", None, true, start()).err().unwrap();
    assert_eq!(
        e.message(),
        "Session 'standup' not found in database. Use `aside standup` to start a new session."
    );
    let e = open_resumed("standup", Some(meta("standup", "never")), true, start()).err().unwrap();
    assert_eq!(e.message(), "invalid start_time in session file");
    let m = create_session("standup", start(), "standup.md", start());
    let e = open_resumed("standup", Some(m), false, start()).err().unwrap();
    assert_eq!(e.message(), "Notes file 'standup.md' not found. Cannot resume without the markdown file.");
}

#[test]
fn segments_are_numbered_on() {
    let (mut m, _) = open_new("s", false, false, start(), start()).ok().unwrap();
    for i in 1..12 {
        assert_eq!(next_segment_index(&m), i);
        let new = begin_segment(&mut m, "s", &start().at, later(i));
        assert_eq!(new.segment_index, i);
    }
    for (i, s) in m.segments.iter().enumerate() {
        assert_eq!(s.segment_index, i as i64);
        assert_eq!(s.wav_path, format!(".aside/s_seg{}.wav", i));
        assert_eq!(s.offset_ms, 1000 * i as i64);
    }
}

#[test]
fn what_follows_the_editor() {
    let (mut m, _) = open_new("s", false, false, start(), start()).ok().unwrap();
    let mut app = App::new("s.md".to_string(), start().at, "A".to_string(), start().at);
    let names = vec!["A".to_string(), "B".to_string()];
    match next_step(&mut app, &mut m, "s", TuiAction::SwitchDevice(1), &names, None, later(5)) {
        NextStep::Record { device, segment } => {
            assert_eq!(device, Some(1));
            assert_eq!((segment.segment_index, segment.offset_ms), (1, 5000));
            assert_eq!(segment.wav_path, ".aside/s_seg1.wav");
        }
        NextStep::Publish { .. } => panic!(),
    }
    assert_eq!(app.current_mic_name, "B");
    match next_step(&mut app, &mut m, "s", TuiAction::SwitchDevice(2), &names, None, later(6)) {
        NextStep::Record { device, segment } => {
            assert_eq!(device, None);
            assert_eq!(segment.segment_index, 2);
        }
        NextStep::Publish { .. } => panic!(),
    }
    assert_eq!(app.current_mic_name, "Unknown");
    assert_eq!(m.segments.len(), 3);
    match next_step(&mut app, &mut m, "s", TuiAction::Quit, &names, None, later(65)) {
        NextStep::Publish { duration_secs } => assert_eq!(duration_secs, 65),
        NextStep::Record { .. } => panic!(),
    }
    match next_step(&mut app, &mut m, "s", TuiAction::Quit, &names, None, later(-5)) {
        NextStep::Publish { duration_secs } => assert_eq!(duration_secs, 0),
        NextStep::Record { .. } => panic!(),
    }
    assert_eq!(m.segments.len(), 3);
}

#[test]
fn durations_go_to_the_first_match() {
    let mut m = create_session("s", start(), "s.md", start());
    add_segment(&mut m, 0, "a.wav", 0, None, start());
    add_segment(&mut m, 1, "b.wav", 10, None, start());
    add_segment(&mut m, 1, "c.wav", 20, None, start());
    update_segment_duration(&mut m, 1, 2.5f64.to_bits());
    assert_eq!(m.segments[0].duration_secs, None);
    assert_eq!(m.segments[1].duration_secs.map(f64::from_bits), Some(2.5));
    assert_eq!(m.segments[2].duration_secs, None);
    update_segment_duration(&mut m, 9, 1.0f64.to_bits());
    assert_eq!(m.segments[2].duration_secs, None);
    assert_eq!(m.segments[2].wav_path, "c.wav");
}

#[test]
fn vault_note_path() {
    let mut m = create_session("s", start(), "s.md", start());
    set_vault_note_path(&mut m, "/vault/inbox/n.md");
    assert_eq!(m.vault_note_path.as_deref(), Some("/vault/inbox/n.md"));
}

#[test]
fn list_is_latest_first_and_stable() {
    let found = vec![
        meta("a", "2025-01-02"),
        meta("b", "2025-01-03"),
        meta("c", "2025-01-02"),
        meta("d", "2025-01-01"),
        meta("e", "2025-01-03"),
    ];
    let names: Vec<String> = list_sessions(&found).into_iter().map(|s| s.name).collect();
    assert_eq!(names, vec!["b", "e", "a", "c", "d"]);
    assert!(list_sessions(&vec![]).is_empty());
}

#[test]
fn order_of_strings() {
    let words = ["", "a", "aa", "ab", "b", "é", "€", "😀", "a😀"];
    for x in words {
        for y in words {
            assert_eq!(comes_before(x, y), x < y);
        }
    }
}

#[test]
fn table() {
    assert_eq!(session_table(&vec![]), vec!["No sessions found."]);
    let (m, _) = open_new("standup", false, false, start(), start()).ok().unwrap();
    let lines = session_table(&vec![session_info(&m)]);
    assert_eq!(lines.len(), 3);
    assert_eq!(lines[0], format!("{:<20} {:<24} {:<8} {}", "NAME", "STARTED", "SEGS", "NOTES"));
    assert_eq!(lines[1], "-".repeat(72));
    assert_eq!(
        lines[2],
        format!("{:<20} {:<24} {:<8} {}", "standup", "2025-01-01T11:30:00.500+01:30", 1, "standup.md")
    );
}
