use aside::app::{App, AppMode, Rect, GUTTER_WIDTH};
use aside::clock::Timestamp;
use aside::parser::ParsedLine;

const START: Timestamp = Timestamp { secs: 1735725600, nanos: 250_000_000 };

fn at(secs: i64) -> Timestamp {
    START.plus_secs(secs)
}

fn page(lines: &[&str]) -> App {
    let parsed = lines
        .iter()
        .enumerate()
        .map(|(i, l)| ParsedLine { text: l.to_string(), created_at: at(10 * i as i64), edited_at: None })
        .collect();
    let mut app = App::from_parsed(parsed, "notes.md".to_string(), START, "Mic".to_string(), at(600));
    app.cursor_line = 0;
    app.cursor_col = 0;
    app.scroll = 0;
    app
}

fn fresh() -> App {
    App::new("notes.md".to_string(), START, "Mic".to_string(), at(5))
}

fn type_text(app: &mut App, text: &str, now: Timestamp) {
    for c in text.chars() {
        app.insert_char(c, now);
    }
}

#[test]
fn new_page() {
    let app = fresh();
    assert_eq!(app.lines, vec![""]);
    assert_eq!(app.created_at, vec![at(5)]);
    assert_eq!(app.edited_at, vec![None]);
    assert_eq!(app.settled, vec![false]);
    assert_eq!((app.cursor_line, app.cursor_col, app.scroll), (0, 0, 0));
    assert_eq!(app.output_path, "notes.md");
    assert_eq!(app.current_mic_name, "Mic");
    assert_eq!(app.mode, AppMode::Normal);
    assert!(app.message.is_none() && app.devices.is_empty());
}

#[test]
fn resumed_page_scrolls_to_its_end() {
    let lines: Vec<&str> = vec!["x"; 25];
    let parsed = lines
        .iter()
        .map(|l| ParsedLine { text: l.to_string(), created_at: START, edited_at: Some(at(3)) })
        .collect();
    let app = App::from_parsed(parsed, "n.md".to_string(), START, String::new(), at(9));
    assert_eq!(app.lines.len(), 26);
    assert_eq!(app.cursor_line, 25);
    assert_eq!(app.scroll, 15);
    assert_eq!(app.edited_at[0], Some(at(3)));
    assert_eq!(app.created_at[25], at(9));
    assert!(app.settled[24] && !app.settled[25]);
}

#[test]
fn typing_and_erasing() {
    let mut app = fresh();
    type_text(&mut app, "aé€😀", at(6));
    assert_eq!(app.lines[0], "aé€😀");
    assert_eq!(app.cursor_col, 10);
    app.backspace(at(7));
    assert_eq!(app.lines[0], "aé€");
    assert_eq!(app.cursor_col, 6);
    app.move_left();
    assert_eq!(app.cursor_col, 3);
    app.insert_char('x', at(8));
    assert_eq!(app.lines[0], "aéx€");
    app.delete(at(9));
    assert_eq!(app.lines[0], "aéx");
    app.delete(at(9));
    assert_eq!(app.lines[0], "aéx");
    // The cursor never left the line: no edit time.
    assert_eq!(app.edited_at[0], None);
}

#[test]
fn enter_splits_and_backspace_rejoins() {
    let mut app = fresh();
    type_text(&mut app, "onetwo", at(6));
    app.cursor_col = 3;
    app.enter(at(20));
    assert_eq!(app.lines, vec!["one", "two"]);
    assert_eq!((app.cursor_line, app.cursor_col), (1, 0));
    // The first line has the time of its first character.
    assert_eq!(app.created_at, vec![at(6), at(20)]);
    // It was not settled before the split, so that does not stamp it.
    assert_eq!(app.edited_at, vec![None, None]);
    assert_eq!(app.settled, vec![true, false]);
    app.backspace(at(30));
    assert_eq!(app.lines, vec!["onetwo"]);
    assert_eq!((app.cursor_line, app.cursor_col), (0, 3));
    assert_eq!(app.edited_at, vec![Some(at(30))]);
    assert_eq!(app.created_at, vec![at(6)]);
}

#[test]
fn a_line_gets_its_time_when_typing_starts() {
    let mut app = fresh();
    assert_eq!(app.created_at, vec![at(5)]);
    app.insert_char('a', at(40));
    assert_eq!(app.created_at, vec![at(40)]);
    assert_eq!(app.edited_at, vec![None]);
    app.insert_char('b', at(41));
    assert_eq!(app.created_at, vec![at(40)]);
    // Erased and typed again: it keeps the time.
    app.backspace(at(42));
    app.backspace(at(42));
    app.insert_char('c', at(43));
    assert_eq!(app.created_at, vec![at(40)]);
    // A new line, typed on a while after Enter.
    app.enter(at(50));
    assert_eq!(app.created_at, vec![at(40), at(50)]);
    app.insert_char('d', at(90));
    assert_eq!(app.created_at, vec![at(40), at(90)]);
    assert_eq!(app.export(), "[00:40] c\n[01:30] d\n");
    // One that was split off with text has the time of Enter.
    app.home();
    app.enter(at(100));
    app.insert_char('x', at(110));
    assert_eq!(app.created_at, vec![at(40), at(90), at(100)]);
    // A line of a resumed memo keeps its time.
    let mut app = page(&[""]);
    app.insert_char('x', at(700));
    assert_eq!(app.created_at[0], at(0));
    assert_eq!(app.edited_at[0], Some(at(700)));
}

#[test]
fn edits_before_the_first_character_do_not_count() {
    // Enter by mistake, taken back.
    let mut app = fresh();
    app.enter(at(10));
    app.backspace(at(20));
    assert_eq!(app.edited_at, vec![Some(at(20))]);
    app.insert_char('a', at(30));
    assert_eq!(app.lines, vec!["a"]);
    assert_eq!(app.created_at, vec![at(30)]);
    assert_eq!(app.edited_at, vec![None]);
    assert_eq!(app.export(), "[00:30] a\n");
    // Two empty lines joined from above.
    let mut app = fresh();
    app.enter(at(10));
    app.move_up();
    app.delete(at(20));
    assert_eq!(app.edited_at, vec![Some(at(20))]);
    app.insert_char('a', at(30));
    assert_eq!(app.export(), "[00:30] a\n");
}

#[test]
fn a_line_visited_before_it_is_typed_on() {
    let mut app = fresh();
    app.insert_char('a', at(6));
    app.enter(at(10));
    app.move_up();
    app.move_down();
    app.insert_char('b', at(60));
    assert_eq!(app.created_at, vec![at(6), at(60)]);
    assert_eq!(app.edited_at, vec![None, Some(at(60))]);
}

#[test]
fn splitting_a_settled_line_stamps_it() {
    let mut app = page(&["onetwo"]);
    app.cursor_col = 3;
    app.enter(at(70));
    assert_eq!(app.edited_at[0], Some(at(70)));
    assert!(app.settled[0]);
    let mut app = page(&["onetwo"]);
    app.enter(at(70));
    assert_eq!(app.lines, vec!["", "onetwo", ""]);
    assert_eq!(app.edited_at[0], None);
    let mut app = page(&["onetwo"]);
    app.end();
    app.enter(at(70));
    assert_eq!(app.edited_at[0], None);
}

#[test]
fn only_the_first_edit_of_a_visit_is_stamped() {
    let mut app = page(&["note", "next"]);
    app.insert_char('a', at(100));
    app.insert_char('b', at(200));
    assert_eq!(app.edited_at[0], Some(at(100)));
    app.move_down();
    app.move_up();
    app.insert_char('c', at(300));
    assert_eq!(app.edited_at[0], Some(at(300)));
    assert_eq!(app.created_at[0], at(0));
}

#[test]
fn joining_settles_the_line_that_comes_next() {
    let mut app = page(&["a", "b", "c"]);
    app.settled = vec![false, false, false, false];
    app.cursor_line = 1;
    app.backspace(at(50));
    assert_eq!(app.lines, vec!["ab", "c", ""]);
    assert_eq!((app.cursor_line, app.cursor_col), (0, 1));
    assert_eq!(app.settled, vec![false, true, false]);
    // Joining the last line settles the one above it, which is then stamped.
    let mut app = page(&["a"]);
    app.settled = vec![false, false];
    app.cursor_line = 1;
    app.backspace(at(50));
    assert_eq!(app.lines, vec!["a"]);
    assert_eq!(app.edited_at, vec![Some(at(50))]);
}

#[test]
fn deleting_at_the_end_joins_the_next_line() {
    let mut app = page(&["a", "b"]);
    app.end();
    app.delete(at(50));
    assert_eq!(app.lines, vec!["ab", ""]);
    assert_eq!((app.cursor_line, app.cursor_col), (0, 1));
    assert_eq!(app.edited_at[0], Some(at(50)));
    assert_eq!(app.created_at, vec![at(0), at(600)]);
}

#[test]
fn deleting_words() {
    let mut app = page(&["one two three"]);
    app.cursor_col = 8;
    app.delete_word_back(at(1));
    assert_eq!(app.lines[0], "one three");
    assert_eq!(app.cursor_col, 4);
    app.delete_word_forward(at(1));
    assert_eq!(app.lines[0], "one ");
    assert_eq!(app.cursor_col, 4);
    app.delete_to_line_start(at(1));
    assert_eq!(app.lines[0], "");
    assert_eq!(app.cursor_col, 0);
    app.delete_to_line_start(at(1));
    app.delete_word_forward(at(1));
    assert_eq!(app.lines, vec![""]);
    app.delete_word_back(at(1));
    assert_eq!(app.lines, vec![""]);
}

#[test]
fn moving_across_lines_settles() {
    let mut app = page(&["one", "two"]);
    app.settled = vec![false, false, false];
    app.move_left();
    assert_eq!((app.cursor_line, app.cursor_col), (0, 0));
    app.end();
    app.move_right();
    assert_eq!((app.cursor_line, app.cursor_col), (1, 0));
    assert_eq!(app.settled, vec![true, false, false]);
    app.move_left();
    assert_eq!((app.cursor_line, app.cursor_col), (0, 3));
    assert_eq!(app.settled, vec![true, true, false]);
    app.move_word_left();
    assert_eq!(app.cursor_col, 0);
    app.move_word_right();
    assert_eq!(app.cursor_col, 3);
    app.move_word_right();
    assert_eq!((app.cursor_line, app.cursor_col), (1, 0));
    app.move_word_left();
    assert_eq!((app.cursor_line, app.cursor_col), (0, 3));
    app.home();
    assert_eq!(app.cursor_col, 0);
}

#[test]
fn moving_up_and_down_keeps_the_byte_column() {
    let mut app = page(&["abcdef", "a€b", "xy"]);
    app.cursor_col = 3;
    app.move_down();
    // Byte 3 is inside the euro sign.
    assert_eq!((app.cursor_line, app.cursor_col), (1, 1));
    app.end();
    app.move_down();
    assert_eq!((app.cursor_line, app.cursor_col), (2, 2));
    app.move_up();
    assert_eq!((app.cursor_line, app.cursor_col), (1, 1));
    app.move_up();
    app.move_up();
    assert_eq!((app.cursor_line, app.cursor_col), (0, 1));
}

#[test]
fn scrolling_follows_the_cursor() {
    let mut app = page(&["0", "1", "2", "3", "4", "5"]);
    app.cursor_line = 5;
    app.ensure_cursor_visible(3);
    assert_eq!(app.scroll, 3);
    app.cursor_line = 1;
    app.ensure_cursor_visible(3);
    assert_eq!(app.scroll, 1);
    app.cursor_line = 5;
    app.ensure_cursor_visible(0);
    assert_eq!(app.scroll, 1);
}

#[test]
fn clicks() {
    let mut app = page(&["hello", "a€b"]);
    app.settled = vec![false, false, false];
    app.editor_area = Rect { x: 0, y: 0, width: 40, height: 10 };
    app.handle_click(1 + GUTTER_WIDTH + 2, 1);
    assert_eq!((app.cursor_line, app.cursor_col), (0, 2));
    assert!(!app.settled[0]);
    app.handle_click(1 + GUTTER_WIDTH + 2, 2);
    assert_eq!((app.cursor_line, app.cursor_col), (1, 1));
    assert!(app.settled[0]);
    app.handle_click(1 + GUTTER_WIDTH + 20, 2);
    assert_eq!((app.cursor_line, app.cursor_col), (1, 5));
    // In the column of timestamps, on the borders, below the last line.
    app.handle_click(GUTTER_WIDTH, 1);
    app.handle_click(39, 1);
    app.handle_click(20, 0);
    app.handle_click(20, 9);
    app.handle_click(20, 7);
    assert_eq!((app.cursor_line, app.cursor_col), (1, 5));
    app.scroll = 1;
    app.handle_click(1 + GUTTER_WIDTH, 2);
    assert_eq!((app.cursor_line, app.cursor_col), (2, 0));
}

#[test]
fn gutter() {
    let mut app = page(&["a", "b", "", "c", "d"]);
    assert_eq!(app.gutter_label(0), (" 00:00   ".to_string(), false));
    assert_eq!(app.gutter_label(1), (" 00:10   ".to_string(), false));
    assert_eq!(app.gutter_label(2), (" ".repeat(9), false));
    app.cursor_line = 2;
    assert_eq!(app.gutter_label(2), (" 00:20   ".to_string(), false));
    app.created_at[4] = app.created_at[3];
    assert_eq!(app.gutter_label(4), (" ".repeat(9), false));
    app.edited_at[4] = Some(at(3700));
    assert_eq!(app.gutter_label(4), ("~01:01:40".to_string(), true));
    app.edited_at[3] = Some(at(3700));
    assert_eq!(app.gutter_label(4), (" ".repeat(9), true));
    assert_eq!(app.display_ts(3), (at(3700), true));
    assert_eq!(app.display_ts(0), (at(0), false));
}

#[test]
fn times_of_the_session() {
    let app = fresh();
    assert_eq!(app.format_time(&at(0)), "00:00");
    assert_eq!(app.format_time(&at(3599)), "59:59");
    assert_eq!(app.format_time(&at(3600)), "01:00:00");
    assert_eq!(app.format_time(&at(360000)), "100:00:00");
    assert_eq!(app.format_time(&at(-5)), "00:00");
    assert_eq!(app.elapsed_secs(at(-5)), -5);
    assert_eq!(app.elapsed_secs(Timestamp { secs: START.secs + 2, nanos: 0 }), 1);
}

#[test]
fn export_skips_blank_lines() {
    let mut app = page(&["first", "  ", "third"]);
    app.edited_at[2] = Some(at(125));
    assert_eq!(app.export(), "[00:00] first\n[00:20 ~02:05] third\n");
    assert!(app.has_notes());
    assert!(!fresh().has_notes());
    assert_eq!(fresh().export(), "");
}

#[test]
fn saved_message() {
    let mut app = page(&["first", "second"]);
    let content = app.export();
    app.mark_saved(&content);
    assert_eq!(app.message.unwrap(), "Saved 2 lines to notes.md");
}
