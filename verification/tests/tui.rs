use aside::app::{App, AppMode, Rect, GUTTER_WIDTH};
use aside::clock::Timestamp;
use aside::notes;
use aside::tui::{
    command_of, cursor_in_range, cursor_position, device_labels, device_overlay, handle_key, handle_mouse,
    handle_mouse_event, level_bars, mic_name_or_unknown, mouse_in_range, notes_status_text, open_device_select,
    overlay_in_range, place_editor, place_screen, shown_lines, split_screen, status_text, switch_device, visible_lines, Command, Key, KeyOutcome,
    Modifiers, Mouse, TuiAction,
};

const START: Timestamp = Timestamp { secs: 1735725600, nanos: 0 };
const NONE: Modifiers = Modifiers { ctrl: false, alt: false, sup: false, shift: false, other: false };
const CTRL: Modifiers = Modifiers { ctrl: true, ..NONE };
const ALT: Modifiers = Modifiers { alt: true, ..NONE };
const SUPER: Modifiers = Modifiers { sup: true, ..NONE };
const SHIFT: Modifiers = Modifiers { shift: true, ..NONE };
const OTHER: Modifiers = Modifiers { other: true, ..NONE };

fn at(secs: i64) -> Timestamp {
    START.plus_secs(secs)
}

fn editor(text: &str) -> App {
    let mut app = App::new("n.md".to_string(), START, "Mic".to_string(), START);
    for c in text.chars() {
        if c == '\n' {
            app.enter(START);
        } else {
            app.insert_char(c, START);
        }
    }
    app
}

#[test]
fn keys() {
    assert_eq!(command_of(Key::Char('c'), CTRL), Command::Quit);
    assert_eq!(command_of(Key::Char('s'), CTRL), Command::Save);
    assert_eq!(command_of(Key::Char('d'), CTRL), Command::ListDevices);
    assert_eq!(command_of(Key::Char('u'), CTRL), Command::DeleteToLineStart);
    assert_eq!(command_of(Key::Char('x'), CTRL), Command::Nothing);
    assert_eq!(command_of(Key::Char('c'), NONE), Command::Insert('c'));
    assert_eq!(command_of(Key::Char('C'), SHIFT), Command::Insert('C'));
    assert_eq!(command_of(Key::Char('x'), ALT), Command::Insert('x'));
    assert_eq!(command_of(Key::Backspace, NONE), Command::Backspace);
    assert_eq!(command_of(Key::Backspace, SHIFT), Command::Backspace);
    assert_eq!(command_of(Key::Backspace, SUPER), Command::DeleteToLineStart);
    assert_eq!(command_of(Key::Backspace, ALT), Command::DeleteWordBack);
    assert_eq!(command_of(Key::Backspace, CTRL), Command::Nothing);
    assert_eq!(command_of(Key::Backspace, OTHER), Command::Nothing);
    assert_eq!(command_of(Key::Delete, ALT), Command::DeleteWordForward);
    assert_eq!(command_of(Key::Delete, NONE), Command::Delete);
    assert_eq!(command_of(Key::Delete, SUPER), Command::Nothing);
    assert_eq!(command_of(Key::Left, Modifiers { alt: true, sup: true, ..NONE }), Command::MoveWordLeft);
    assert_eq!(command_of(Key::Left, SUPER), Command::Home);
    assert_eq!(command_of(Key::Right, SUPER), Command::End);
    assert_eq!(command_of(Key::Right, ALT), Command::MoveWordRight);
    assert_eq!(command_of(Key::Left, NONE), Command::MoveLeft);
    assert_eq!(command_of(Key::Right, SHIFT), Command::MoveRight);
    assert_eq!(command_of(Key::Up, NONE), Command::MoveUp);
    assert_eq!(command_of(Key::Up, ALT), Command::Nothing);
    assert_eq!(command_of(Key::Down, NONE), Command::MoveDown);
    assert_eq!(command_of(Key::Home, CTRL), Command::Home);
    assert_eq!(command_of(Key::End, ALT), Command::End);
    assert_eq!(command_of(Key::Enter, CTRL), Command::Enter);
    assert_eq!(command_of(Key::Tab, NONE), Command::Tab);
    assert_eq!(command_of(Key::Esc, NONE), Command::Nothing);
    assert_eq!(command_of(Key::Other, NONE), Command::Nothing);
}

#[test]
fn typing_through_keys() {
    let mut app = editor("");
    app.message = Some("old".to_string());
    assert_eq!(handle_key(&mut app, Key::Char('a'), NONE, at(1)), KeyOutcome::Stay);
    assert!(app.message.is_none());
    assert_eq!(handle_key(&mut app, Key::Tab, NONE, at(1)), KeyOutcome::Stay);
    assert_eq!(app.lines, vec!["a  "]);
    assert_eq!(handle_key(&mut app, Key::Enter, NONE, at(2)), KeyOutcome::Stay);
    assert_eq!(app.lines, vec!["a  ", ""]);
    assert_eq!(handle_key(&mut app, Key::Backspace, NONE, at(3)), KeyOutcome::Stay);
    assert_eq!(handle_key(&mut app, Key::Backspace, ALT, at(3)), KeyOutcome::Stay);
    assert_eq!(app.lines, vec![""]);
    assert_eq!(handle_key(&mut app, Key::Char('s'), CTRL, at(4)), KeyOutcome::Save);
    assert_eq!(handle_key(&mut app, Key::Char('d'), CTRL, at(4)), KeyOutcome::ListDevices);
    assert_eq!(handle_key(&mut app, Key::Char('c'), CTRL, at(4)), KeyOutcome::Leave(TuiAction::Quit));
    assert_eq!(app.lines, vec![""]);
}

#[test]
fn selecting_a_device() {
    let mut app = editor("x");
    open_device_select(&mut app, vec!["A".to_string(), "Mic".to_string(), "Mic".to_string()]);
    assert_eq!(app.mode, AppMode::DeviceSelect);
    assert_eq!(app.selected_device, 1);
    assert_eq!(device_labels(&app), vec!["   A", ">* Mic", " * Mic"]);
    for (key, selected) in [(Key::Down, 2), (Key::Down, 2), (Key::Up, 1), (Key::Up, 0), (Key::Up, 0)] {
        assert_eq!(handle_key(&mut app, key, NONE, at(1)), KeyOutcome::Stay);
        assert_eq!(app.selected_device, selected);
    }
    assert_eq!(handle_key(&mut app, Key::Char('c'), CTRL, at(1)), KeyOutcome::Stay);
    assert_eq!(handle_key(&mut app, Key::Esc, NONE, at(1)), KeyOutcome::Stay);
    assert_eq!(app.mode, AppMode::Normal);
    open_device_select(&mut app, vec!["A".to_string(), "B".to_string()]);
    assert_eq!(app.selected_device, 0);
    assert_eq!(handle_key(&mut app, Key::Down, NONE, at(1)), KeyOutcome::Stay);
    assert_eq!(
        handle_key(&mut app, Key::Enter, NONE, at(1)),
        KeyOutcome::Leave(TuiAction::SwitchDevice(1))
    );
    assert_eq!(app.mode, AppMode::Normal);
    assert_eq!(app.lines, vec!["x"]);
}

#[test]
fn switching_the_device() {
    let mut app = editor("x");
    let names = vec!["A".to_string(), "B".to_string()];
    assert_eq!(switch_device(&mut app, 1, &names, Some("D".to_string())), Some(1));
    assert_eq!(app.current_mic_name, "B");
    assert!(app.message.is_none());
    assert_eq!(switch_device(&mut app, 2, &names, Some("D".to_string())), None);
    assert_eq!(app.current_mic_name, "D");
    assert_eq!(app.message.as_deref(), Some("Device no longer available"));
    assert_eq!(switch_device(&mut app, 2, &names, None), None);
    assert_eq!(app.current_mic_name, "Unknown");
    assert_eq!(mic_name_or_unknown(None), "Unknown");
    assert_eq!(mic_name_or_unknown(Some("x".to_string())), "x");
}

#[test]
fn mouse() {
    let mut app = editor("one\ntwo\nthree");
    place_editor(&mut app, Rect { x: 0, y: 0, width: 40, height: 10 });
    assert!(mouse_in_range(&app, Mouse::LeftDown, 11, 2));
    handle_mouse(&mut app, Mouse::LeftDown, 1 + GUTTER_WIDTH + 1, 2);
    assert_eq!((app.cursor_line, app.cursor_col), (1, 1));
    handle_mouse(&mut app, Mouse::ScrollUp, 0, 0);
    assert_eq!(app.scroll, 0);
    handle_mouse(&mut app, Mouse::ScrollDown, 0, 0);
    assert_eq!(app.scroll, 1);
    handle_mouse(&mut app, Mouse::ScrollUp, 0, 0);
    handle_mouse(&mut app, Mouse::Other, 20, 1);
    assert_eq!((app.scroll, app.cursor_line, app.cursor_col), (0, 1, 1));
    app.mode = AppMode::DeviceSelect;
    handle_mouse_event(&mut app, Mouse::LeftDown, 1 + GUTTER_WIDTH, 1);
    assert_eq!((app.cursor_line, app.cursor_col), (1, 1));
    app.mode = AppMode::Normal;
    handle_mouse_event(&mut app, Mouse::LeftDown, 1 + GUTTER_WIDTH, 1);
    assert_eq!((app.cursor_line, app.cursor_col), (0, 0));
}

#[test]
fn mouse_out_of_range() {
    let mut app = editor("x");
    app.editor_area = Rect { x: 65530, y: 0, width: 5, height: 5 };
    assert!(!mouse_in_range(&app, Mouse::LeftDown, 0, 0));
    app.editor_area = Rect { x: 0, y: 0, width: 0, height: 0 };
    assert!(mouse_in_range(&app, Mouse::LeftDown, 5, 0));
    assert!(!mouse_in_range(&app, Mouse::LeftDown, 10, 0));
    app.scroll = usize::MAX;
    assert!(!mouse_in_range(&app, Mouse::ScrollDown, 0, 0));
    assert!(mouse_in_range(&app, Mouse::ScrollUp, 0, 0));
}

#[test]
fn clicking_on_the_cursor() {
    let mut app = editor("one\ntwo€x");
    place_editor(&mut app, Rect { x: 3, y: 2, width: 40, height: 10 });
    app.cursor_col = 6;
    let (x, y) = cursor_position(&app).unwrap();
    assert_eq!((x, y), (3 + 1 + 9 + 6, 2 + 1 + 1));
    handle_mouse(&mut app, Mouse::LeftDown, x, y);
    assert_eq!((app.cursor_line, app.cursor_col), (1, 6));
}

#[test]
fn the_frame() {
    let mut app = editor("one\ntwo\nthree\nfour");
    let area = Rect { x: 0, y: 0, width: 14, height: 4 };
    assert_eq!(visible_lines(area), 2);
    assert_eq!(visible_lines(Rect { x: 0, y: 0, width: 9, height: 1 }), 0);
    place_editor(&mut app, area);
    assert_eq!(app.editor_area, area);
    assert_eq!(app.scroll, 2);
    let lines = shown_lines(&app);
    assert_eq!(lines.len(), 2);
    assert_eq!((lines[0].line, lines[0].current), (2, false));
    assert_eq!((lines[1].line, lines[1].current), (3, true));
    assert_eq!(lines[0].gutter, " ".repeat(9));
    assert!(!lines[0].edited);
    // The cursor is past the right border.
    assert!(cursor_in_range(&app));
    assert_eq!(cursor_position(&app), None);
    app.home();
    assert_eq!(cursor_position(&app), Some((10, 2)));
    app.scroll = 9;
    assert!(!cursor_in_range(&app));
    assert_eq!(shown_lines(&app).len(), 0);
}

#[test]
fn the_status_line_is_below_the_editor() {
    let (editor, status) = split_screen(Rect { x: 2, y: 3, width: 80, height: 24 });
    assert_eq!(editor, Rect { x: 2, y: 3, width: 80, height: 23 });
    assert_eq!(status, Rect { x: 2, y: 26, width: 80, height: 1 });
    let (editor, status) = split_screen(Rect { x: 0, y: 0, width: 10, height: 1 });
    assert_eq!(editor.height, 1);
    assert_eq!(status.height, 0);
}

#[test]
fn the_last_row_is_the_status_line_at_every_height() {
    for y in [0u16, 1, 7, 40000, 65000, 65534, 65535] {
        for height in (0u16..300).chain([1000, 32767, 32768, 65534, 65535]) {
            let rows = height.min(65535 - y);
            let below = if rows >= 2 { 1 } else { 0 };
            let (editor, status) = split_screen(Rect { x: 5, y, width: 9, height });
            assert_eq!(editor, Rect { x: 5, y, width: 9, height: rows - below });
            assert_eq!(status, Rect { x: 5, y: y + rows - below, width: 9, height: below });
        }
    }
}

#[test]
fn placing_on_the_screen() {
    let mut app = editor("0\n1\n2\n3\n4\n5");
    let status = place_screen(&mut app, Rect { x: 0, y: 0, width: 20, height: 6 });
    assert_eq!(status, Rect { x: 0, y: 5, width: 20, height: 1 });
    assert_eq!(app.editor_area, Rect { x: 0, y: 0, width: 20, height: 5 });
    assert_eq!(app.scroll, 3);
}

#[test]
fn status() {
    let mut app = editor("one\ntwo");
    assert_eq!(
        status_text(&app, at(65), "M", "S"),
        " 01:05 | 2 lines | mic M spk S | ^D device  ^S save  ^C quit"
    );
    assert_eq!(
        notes_status_text(&app, at(3661)),
        " 01:01:01 | 2 lines | ^S save  ^C quit  opt+\u{232b} word del"
    );
    app.message = Some("Saved".to_string());
    assert_eq!(status_text(&app, at(-65), "M", "S"), " -1:-5 | Saved");
    assert_eq!(notes_status_text(&app, at(-5)), " 00:-5 | Saved");
}

#[test]
fn meters() {
    assert_eq!(level_bars(0, 6), "░░░░░░");
    assert_eq!(level_bars(2, 6), "██░░░░");
    assert_eq!(level_bars(6, 6), "██████");
    assert_eq!(level_bars(0, 0), "");
}

#[test]
fn overlay() {
    let mut app = editor("x");
    let screen = Rect { x: 0, y: 0, width: 80, height: 24 };
    open_device_select(&mut app, vec!["A".to_string(), "B".to_string()]);
    assert!(overlay_in_range(&app, screen));
    assert_eq!(device_overlay(&app, screen), Rect { x: 27, y: 10, width: 26, height: 4 });
    open_device_select(&mut app, vec!["é".repeat(15)]);
    assert_eq!(device_overlay(&app, screen), Rect { x: 22, y: 10, width: 36, height: 3 });
    let small = Rect { x: 0, y: 0, width: 10, height: 3 };
    assert_eq!(device_overlay(&app, small), Rect { x: 2, y: 1, width: 6, height: 0 });
    open_device_select(&mut app, vec!["x".repeat(65530)]);
    assert!(!overlay_in_range(&app, screen));
}

#[test]
fn notes_without_a_recording() {
    let mut app = notes::new_notes("n.md".to_string(), 90, at(100)).unwrap();
    assert_eq!(app.start_time, at(10));
    assert_eq!(app.created_at, vec![at(100)]);
    assert_eq!(app.current_mic_name, "");
    app.message = Some("old".to_string());
    assert_eq!(notes::handle_key(&mut app, Key::Char('d'), CTRL, at(100)), KeyOutcome::Stay);
    assert!(app.message.is_none());
    assert_eq!(notes::handle_key(&mut app, Key::Char('s'), CTRL, at(100)), KeyOutcome::Save);
    // A line has the time at which it was made.
    assert_eq!(notes::handle_key(&mut app, Key::Char('x'), NONE, at(130)), KeyOutcome::Stay);
    assert_eq!(app.export(), "[01:30] x\n");
    assert_eq!(notes::handle_key(&mut app, Key::Enter, NONE, at(140)), KeyOutcome::Stay);
    assert_eq!(notes::handle_key(&mut app, Key::Char('y'), NONE, at(190)), KeyOutcome::Stay);
    assert_eq!(app.export(), "[01:30] x\n[02:10] y\n");
    assert_eq!(notes::handle_key(&mut app, Key::Char('c'), CTRL, at(100)), KeyOutcome::Leave(TuiAction::Quit));
    assert!(notes::new_notes("n.md".to_string(), i64::MIN, at(0)).is_none());
    assert!(notes::new_notes("n.md".to_string(), i64::MAX, at(0)).is_none());
}
