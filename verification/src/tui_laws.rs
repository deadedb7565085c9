//! What keys and the mouse do to the notes, and where things are shown.

use vstd::prelude::*;
use vstd::utf8::*;

use crate::app::{gutter_text, in_text_area, App, AppMode, Rect};
use crate::clock::Timestamp;
use crate::memo::time_text;
use crate::notes::{made, notes_obeyed, notes_outcome};
use crate::page::{Page, Row};
use crate::page_laws::{lemma_split_row, lemma_typed_character};
use crate::text::{
    blank, decimal, lemma_boundary_is_offset, lemma_offset_ends, pad2, pad_right, strings_view,
    white_space,
};
use crate::text_laws::lemma_clock_parts;
use crate::tui::{
    command_for, cursor_cell, cursor_defined, device_key, device_label, device_switched,
    editor_part, elapsed_text, inner_height, longest, meter, mouse_defined, obeyed, outcome_for,
    overlay_area, overlay_defined, pointed, position_of, recording_help, scrolled, shown_end, shows,
    status_line, status_part, Key, KeyOutcome, Modifiers, Mouse, ShownLine, TuiAction,
};

verus! {

// --- Keys ---

/// A character key types its character, unless Ctrl is held; whatever else is held does not
/// matter. Tab types two spaces and Enter splits the line.
pub proof fn lemma_typing_keys(page: Page, c: char, m: Modifiers, now: Timestamp)
    requires
        page.wf(),
    ensures
        ({
            let q = obeyed(page, command_for(Key::Char(c), m), now);
            let row = page.rows[page.line];
            !m.ctrl ==> {
                &&& q == page.insert_char(c, now)
                &&& q.rows[page.line].text == row.text.take(page.col) + seq![c] + row.text.skip(
                    page.col,
                )
                &&& q.line == page.line
                &&& q.col == page.col + 1
            }
        }),
        ({
            let q = obeyed(page, command_for(Key::Tab, m), now);
            let row = page.rows[page.line];
            &&& q.rows[page.line].text == row.text.take(page.col) + "  "@ + row.text.skip(page.col)
            &&& q.line == page.line
            &&& q.col == page.col + 2
            &&& forall|i: int|
                0 <= i < page.rows.len() && i != page.line ==> q.rows[i] == page.rows[i]
        }),
        ({
            let q = obeyed(page, command_for(Key::Enter, m), now);
            &&& q == page.enter(now)
            &&& q.rows.len() == page.rows.len() + 1
            &&& q.rows[page.line].text + q.rows[page.line + 1].text == page.rows[page.line].text
            &&& q.rows[page.line].text.len() == page.col
        }),
{
    reveal_strlit("  ");
    assert("  "@ =~= seq![' ', ' ']);
    let row = page.rows[page.line];
    lemma_typed_character(page, c, now);
    lemma_typed_character(page, ' ', now);
    let once = page.insert_char(' ', now);
    lemma_typed_character(once, ' ', now);
    lemma_split_row(page, now);
    assert(page.insert_char(c, now).rows[page.line].text =~= row.text.take(page.col) + seq![c]
        + row.text.skip(page.col));
    assert(once.insert_char(' ', now).rows[page.line].text =~= row.text.take(page.col) + seq![
        ' ',
        ' ',
    ] + row.text.skip(page.col));
}

/// Ctrl with U, or the super key with Backspace, erases to the start of the line. Ctrl with
/// any other character than C, S, D and U does nothing.
pub proof fn lemma_ctrl_keys(page: Page, c: char, m: Modifiers, now: Timestamp)
    ensures
        m.ctrl ==> obeyed(page, command_for(Key::Char('u'), m), now) == page.delete_to_line_start(
            now,
        ),
        m.sup ==> obeyed(page, command_for(Key::Backspace, m), now) == page.delete_to_line_start(
            now,
        ),
        m.ctrl && c != 'c' && c != 's' && c != 'd' && c != 'u' ==> {
            &&& obeyed(page, command_for(Key::Char(c), m), now) == page
            &&& outcome_for(command_for(Key::Char(c), m)) == KeyOutcome::Stay
        },
        m.ctrl && (c == 'c' || c == 's' || c == 'd') ==> obeyed(
            page,
            command_for(Key::Char(c), m),
            now,
        ) == page,
{
}

/// Without a modifier, or with shift alone, the arrows go one step, and Backspace and Delete
/// erase one character. With Alt, Left and Right go by words and Backspace and Delete erase
/// them. With the super key and no Alt, Left and Right go to the ends of the line. With
/// another modifier they do nothing. Home and End go to the ends of the line whatever is
/// held.
pub proof fn lemma_motion_keys(page: Page, m: Modifiers, now: Timestamp)
    ensures
        ({
            let left = obeyed(page, command_for(Key::Left, m), now);
            let right = obeyed(page, command_for(Key::Right, m), now);
            let up = obeyed(page, command_for(Key::Up, m), now);
            let down = obeyed(page, command_for(Key::Down, m), now);
            let back = obeyed(page, command_for(Key::Backspace, m), now);
            let forward = obeyed(page, command_for(Key::Delete, m), now);
            let none = !m.ctrl && !m.alt && !m.sup && !m.other;
            &&& none ==> {
                &&& left == page.move_left()
                &&& right == page.move_right()
                &&& up == page.move_up()
                &&& down == page.move_down()
                &&& back == page.backspace(now)
                &&& forward == page.delete(now)
            }
            &&& m.alt ==> {
                &&& left == page.move_word_left()
                &&& right == page.move_word_right()
                &&& forward == page.delete_word_forward(now)
                &&& !m.sup ==> back == page.delete_word_back(now)
            }
            &&& m.sup && !m.alt ==> left == page.home() && right == page.end() && forward == page
            &&& !none ==> up == page && down == page
            &&& (m.ctrl || m.other) && !m.alt && !m.sup ==> left == page && right == page && back
                == page && forward == page
            &&& obeyed(page, command_for(Key::Home, m), now) == page.home()
            &&& obeyed(page, command_for(Key::End, m), now) == page.end()
            &&& obeyed(page, command_for(Key::Esc, m), now) == page
            &&& obeyed(page, command_for(Key::Other, m), now) == page
        }),
{
}

/// Only Ctrl with C leaves the editor, only Ctrl with S saves, and only Ctrl with D lists
/// the devices.
pub proof fn lemma_outcomes(key: Key, m: Modifiers)
    ensures
        outcome_for(command_for(key, m)) == KeyOutcome::Leave(TuiAction::Quit) <==> m.ctrl && key
            == Key::Char('c'),
        outcome_for(command_for(key, m)) == KeyOutcome::Save <==> m.ctrl && key == Key::Char('s'),
        outcome_for(command_for(key, m)) == KeyOutcome::ListDevices <==> m.ctrl && key
            == Key::Char('d'),
        !m.ctrl ==> outcome_for(command_for(key, m)) == KeyOutcome::Stay,
        notes_outcome(key, m) == KeyOutcome::Leave(TuiAction::Quit) <==> m.ctrl && key
            == Key::Char('c'),
        notes_outcome(key, m) == KeyOutcome::Save <==> m.ctrl && key == Key::Char('s'),
        notes_outcome(key, m) == KeyOutcome::Stay || notes_outcome(key, m) == KeyOutcome::Save
            || notes_outcome(key, m) == KeyOutcome::Leave(TuiAction::Quit),
{
}

/// Without a recording a key does what it does with one, but that a line made with Enter
/// keeps its time; the first line is empty and keeps its own.
pub proof fn lemma_notes_keys(page: Page, key: Key, m: Modifiers, now: Timestamp)
    requires
        page.wf(),
    ensures
        key != Key::Enter ==> notes_obeyed(page, command_for(key, m), now) == obeyed(
            page,
            command_for(key, m),
            now,
        ),
        ({
            let q = notes_obeyed(page, command_for(Key::Enter, m), now);
            let e = page.enter(now);
            &&& q.line == page.line + 1
            &&& q.col == 0
            &&& q.rows.len() == page.rows.len() + 1
            &&& forall|i: int| 0 <= i < q.rows.len() && i != q.line ==> q.rows[i] == e.rows[i]
            &&& q.rows[q.line].text == e.rows[q.line].text
            &&& q.rows[q.line].created == now
            &&& q.rows[q.line].edited is None
            &&& !q.rows[q.line].settled
            &&& q.rows[q.line].begun
        }),
        made(now).text == Seq::<char>::empty(),
        made(now).created == now,
        made(now).edited is None,
        !made(now).settled,
        made(now).begun,
{
}

// --- Selecting a device ---

/// `a` and `b` differ in nothing but what is selected and the mode.
pub open spec fn same_but_selection(a: App, b: App) -> bool {
    &&& a.lines == b.lines
    &&& a.created_at == b.created_at
    &&& a.edited_at == b.edited_at
    &&& a.settled == b.settled
    &&& a.begun == b.begun
    &&& a.cursor_line == b.cursor_line
    &&& a.cursor_col == b.cursor_col
    &&& a.scroll == b.scroll
    &&& a.start_time == b.start_time
    &&& a.output_path == b.output_path
    &&& a.message == b.message
    &&& a.editor_area == b.editor_area
    &&& a.devices == b.devices
    &&& a.current_mic_name == b.current_mic_name
}

/// While a device is selected, Up and Down go one device up and down and stop at the ends
/// of the list, Escape and Enter end the selection and keep it where it is, and any other
/// key does nothing. Nothing else of the editor changes.
pub proof fn lemma_device_keys(app: App, key: Key)
    ensures
        ({
            let n = app.devices@.len();
            let at = app.selected_device;
            let q = device_key(app, key);
            &&& same_but_selection(q, app)
            &&& key == Key::Up ==> q.mode == app.mode && (at > 0 ==> q.selected_device == at - 1)
                && (at == 0 ==> q.selected_device == 0)
            &&& key == Key::Down ==> q.mode == app.mode && (at + 1 < n ==> q.selected_device == at
                + 1) && (at + 1 >= n ==> q.selected_device == at)
            &&& key == Key::Esc || key == Key::Enter ==> q.mode == AppMode::Normal
                && q.selected_device == at
            &&& key != Key::Up && key != Key::Down && key != Key::Esc && key != Key::Enter ==> q
                == app
            &&& at + 1 < n ==> device_key(device_key(app, Key::Down), Key::Up) == app
            &&& 0 < at < n ==> device_key(device_key(app, Key::Up), Key::Down) == app
        }),
{
    assert(app.devices.len() == app.devices@.len());
}

/// The device that is selected first is the first one with the name of the current
/// microphone; where none has it, the search ends behind the last.
pub proof fn lemma_current_device_found(names: Seq<Seq<char>>, name: Seq<char>, i: int, p: int)
    requires
        0 <= i <= p <= names.len(),
        forall|k: int| i <= k < p ==> #[trigger] names[k] != name,
        p == names.len() || names[p] == name,
    ensures
        position_of(names, name, i) == p,
    decreases p - i,
{
    if i < p {
        assert(names[i] != name);
        lemma_current_device_found(names, name, i + 1, p);
    }
}

/// A switch of devices takes the device asked for if there is one of that number, under its
/// name and without a word; else the system's own, under its name, if it has one, and with
/// a message. Nothing else of the editor changes.
pub proof fn lemma_device_switch(
    before: App,
    after: App,
    idx: usize,
    names: Seq<String>,
    default_name: Option<String>,
    device: Option<usize>,
)
    requires
        device_switched(before, after, idx, names, default_name, device),
    ensures
        device == Some(idx) <==> idx < names.len(),
        device is None <==> idx >= names.len(),
        idx < names.len() ==> after.current_mic_name@ == names[idx as int]@ && after.message
            == before.message,
        idx >= names.len() ==> after.message is Some,
        idx >= names.len() && default_name is Some ==> after.current_mic_name@ == default_name->0@,
        idx >= names.len() && default_name is None ==> after.current_mic_name@ == "Unknown"@,
        after.lines == before.lines,
        after.created_at == before.created_at,
        after.edited_at == before.edited_at,
        after.settled == before.settled,
        after.begun == before.begun,
        after.cursor_line == before.cursor_line,
        after.cursor_col == before.cursor_col,
        after.scroll == before.scroll,
        after.start_time == before.start_time,
        after.output_path == before.output_path,
        after.mode == before.mode,
        after.devices == before.devices,
        after.selected_device == before.selected_device,
{
}

/// An entry of the list of devices is the device's name behind two marks and a space: the
/// first mark is `>` for the selected device alone, the second `*` for the current one.
pub proof fn lemma_device_entry(app: App, i: int)
    requires
        0 <= i < app.devices@.len(),
    ensures
        device_label(app, i).len() == 3 + app.devices@[i]@.len(),
        device_label(app, i).skip(3) == app.devices@[i]@,
        device_label(app, i)[0] == '>' <==> i == app.selected_device,
        device_label(app, i)[1] == '*' <==> app.devices@[i]@ == app.current_mic_name@,
        device_label(app, i)[0] == '>' || device_label(app, i)[0] == ' ',
        device_label(app, i)[1] == '*' || device_label(app, i)[1] == ' ',
        device_label(app, i)[2] == ' ',
{
    assert(device_label(app, i).skip(3) =~= app.devices@[i]@);
}

/// The width that the names ask for is that of the longest in bytes, and twenty at least.
pub proof fn lemma_longest_name(names: Seq<Seq<char>>)
    ensures
        longest(names) >= 20,
        forall|i: int| 0 <= i < names.len() ==> longest(names) >= encode_utf8(
            #[trigger] names[i],
        ).len(),
        longest(names) == 20 || exists|i: int|
            0 <= i < names.len() && longest(names) == encode_utf8(#[trigger] names[i]).len(),
    decreases names.len(),
{
    if names.len() > 0 {
        let less = names.drop_last();
        let n = names.len() - 1;
        lemma_longest_name(less);
        assert forall|i: int| 0 <= i < names.len() implies longest(names) >= encode_utf8(
            #[trigger] names[i],
        ).len() by {
            if i < n {
                assert(less[i] == names[i]);
            }
        }
        if longest(names) != 20 && longest(names) != encode_utf8(names[n]).len() {
            let k = choose|k: int|
                0 <= k < less.len() && longest(less) == encode_utf8(#[trigger] less[k]).len();
            assert(less[k] == names[k]);
        }
    }
}

/// The list of devices stands in the middle of the screen: what is free on its left and on
/// its right differs by a cell at most, and so above and below. It is as wide as the
/// longest name and as high as the number of devices asks, with the borders and marks, but
/// four cells of the screen are left free.
pub proof fn lemma_overlay_centred(app: App, screen: Rect)
    requires
        longest(strings_view(app.devices@)) < 65000,
        app.devices@.len() < 65000,
    ensures
        ({
            let (x, y, w, h) = overlay_area(app, screen);
            let wide = longest(strings_view(app.devices@)) + 6;
            let high = app.devices@.len() + 2;
            let (left, right) = (x - screen.x, screen.x + screen.width - (x + w));
            let (above, below) = (y - screen.y, screen.y + screen.height - (y + h));
            &&& left == right || left == right - 1
            &&& above == below || above == below - 1
            &&& wide + 4 <= screen.width ==> w == wide
            &&& wide + 4 > screen.width >= 4 ==> w == screen.width - 4
            &&& screen.width < 4 ==> w == 0
            &&& high + 4 <= screen.height ==> h == high
            &&& high + 4 > screen.height >= 4 ==> h == screen.height - 4
            &&& screen.height < 4 ==> h == 0
        }),
{
    lemma_longest_name(strings_view(app.devices@));
}

// --- The mouse ---

/// A click `r` rows below the upper border and `b` cells right of the timestamps goes to
/// row `r` of those shown, at byte `b`; one on a border, on the timestamps or outside the
/// area changes nothing, and no click scrolls.
pub proof fn lemma_click_maps(app: App, column: int, row: int)
    ensures
        ({
            let area = app.editor_area;
            let b = column - (area.x + 10);
            let r = row - (area.y + 1);
            let inside = 0 <= b < area.width - 11 && 0 <= r < area.height - 2;
            &&& inside ==> pointed(app, Mouse::LeftDown, column, row) == (
                app.page().click(app.scroll + r, b),
                app.scroll as int,
            )
            &&& !inside ==> pointed(app, Mouse::LeftDown, column, row) == (
                app.page(),
                app.scroll as int,
            )
            &&& in_text_area(area, column, row) <==> inside
        }),
{
}

/// Scrolling changes nothing of the page. Down goes one line down; up goes one line up, and
/// stays at the top.
pub proof fn lemma_scrolling(app: App, column: int, row: int)
    ensures
        pointed(app, Mouse::ScrollDown, column, row) == (app.page(), app.scroll + 1),
        app.scroll > 0 ==> pointed(app, Mouse::ScrollUp, column, row) == (
            app.page(),
            app.scroll - 1,
        ),
        app.scroll == 0 ==> pointed(app, Mouse::ScrollUp, column, row) == (app.page(), 0int),
        pointed(app, Mouse::Other, column, row) == (app.page(), app.scroll as int),
{
}

/// A click can be answered wherever it falls, where the area has a cell at least and lies,
/// with its timestamps, in the range of 16 bits. Scrolling up always can, and scrolling
/// down as long as there is a number for it.
pub proof fn lemma_mouse_answered(app: App, column: int, row: int)
    ensures
        ({
            let area = app.editor_area;
            &&& area.x + 10 <= 65535 && 1 <= area.x + area.width <= 65535 && 1 <= area.y
                + area.height <= 65535 && area.y < 65535 && row <= 65535 && app.scroll + 65535
                <= usize::MAX ==> mouse_defined(app, Mouse::LeftDown, column, row)
            &&& area.x + 10 > 65535 ==> !mouse_defined(app, Mouse::LeftDown, column, row)
            &&& column >= area.x + 10 && area.x + area.width > 65535 ==> !mouse_defined(
                app,
                Mouse::LeftDown,
                column,
                row,
            )
        }),
        mouse_defined(app, Mouse::ScrollUp, column, row),
        mouse_defined(app, Mouse::Other, column, row),
        mouse_defined(app, Mouse::ScrollDown, column, row) <==> app.scroll < usize::MAX,
{
}

// --- What is shown ---

/// The cursor's cell is found where the area lies in the range of 16 bits with it, and the
/// cursor's line is not above those shown; not where it is.
pub proof fn lemma_cursor_found(app: App)
    ensures
        ({
            let area = app.editor_area;
            let (x, y) = cursor_cell(app);
            &&& app.scroll <= app.cursor_line && x <= 65535 && y <= 65535 && 1 <= area.x
                + area.width <= 65535 && 1 <= area.y + area.height <= 65535 ==> cursor_defined(app)
            &&& app.scroll > app.cursor_line || x > 65535 || y > 65535 ==> !cursor_defined(app)
        }),
{
}

/// The list of devices can be placed where the screen lies in the range of 16 bits and the
/// names and their number are not near its end.
pub proof fn lemma_overlay_placed(app: App, screen: Rect)
    requires
        longest(strings_view(app.devices@)) < 65000,
        app.devices@.len() < 65000,
        screen.x + screen.width <= 65535,
        screen.y + screen.height <= 65535,
    ensures
        overlay_defined(app, screen),
{
    lemma_longest_name(strings_view(app.devices@));
}

/// The screen is shared out whole: the editor begins at the top, the status line follows
/// it, both are as wide as the screen, and the status line has the last row where there
/// are two or more.
pub proof fn lemma_screen_shared(screen: Rect)
    requires
        screen.y + screen.height <= u16::MAX,
    ensures
        ({
            let (e, s) = (editor_part(screen), status_part(screen));
            &&& e.x == screen.x && s.x == screen.x
            &&& e.width == screen.width && s.width == screen.width
            &&& e.y == screen.y
            &&& s.y == e.y + e.height
            &&& e.height + s.height == screen.height
            &&& screen.height >= 2 ==> s.height == 1
            &&& screen.height < 2 ==> s.height == 0
        }),
{
}

/// In an area with room for `n` lines the page is scrolled so that the cursor's line is
/// among them, and no further from where it was than any other way that does.
pub proof fn lemma_scrolled_least(app: App, area: Rect, other: int)
    requires
        area.height > 2,
    ensures
        ({
            let n = area.height - 2;
            let s = scrolled(app, area) as int;
            let was = app.scroll as int;
            &&& inner_height(area) == n
            &&& s <= app.cursor_line < s + n
            &&& was <= app.cursor_line < was + n ==> s == was
            &&& other <= app.cursor_line < other + n && other <= was ==> other <= s <= was
            &&& other <= app.cursor_line < other + n && other >= was ==> was <= s <= other
        }),
{
}

/// Without room for a line nothing is scrolled, and none is shown.
pub proof fn lemma_no_room(app: App, area: Rect)
    requires
        area.height <= 2,
    ensures
        scrolled(app, area) == app.scroll,
        inner_height(area) == 0,
{
}

/// The lines that are shown begin with the one scrolled to, and there are as many as the
/// area has room for, or as are left.
pub proof fn lemma_shown_range(app: App)
    requires
        app.editor_area.height >= 2,
    ensures
        shown_end(app) <= app.lines@.len(),
        shown_end(app) <= app.scroll + app.editor_area.height - 2,
        shown_end(app) == app.lines@.len() || shown_end(app) == app.scroll + app.editor_area.height
            - 2,
{
}

/// What is shown of a line is its number, whether the cursor is in it, and its timestamp
/// column.
pub proof fn lemma_line_shown(shown: ShownLine, app: App, i: int)
    requires
        shows(shown, app, i),
    ensures
        shown.line == i,
        shown.current <==> i == app.cursor_line,
        shown.gutter@ == gutter_text(app.rows(), i, app.cursor_line as int, app.start_time).0,
        shown.edited == gutter_text(app.rows(), i, app.cursor_line as int, app.start_time).1,
{
}

/// The cursor is shown as many cells right of the timestamps as there are bytes before it,
/// and as many below the upper border as there are lines above it that are shown.
pub proof fn lemma_cursor_cell(app: App)
    requires
        app.wf(),
        app.cursor_col <= u16::MAX,
        app.scroll <= app.cursor_line,
        app.cursor_line - app.scroll <= u16::MAX,
    ensures
        cursor_cell(app).0 == app.editor_area.x + 10 + encode_utf8(
            app.page().text().take(app.page().col),
        ).len(),
        cursor_cell(app).1 == app.editor_area.y + 1 + (app.cursor_line - app.scroll),
{
    lemma_boundary_is_offset(app.lines@[app.cursor_line as int]@, app.cursor_col as int);
}

/// `t` is the time that is shown of a row: that of its edit, if there was one, else its
/// own.
pub open spec fn time_shown(row: Row, t: Timestamp) -> bool {
    row.edited == Some(t) || (row.edited is None && row.created == t)
}

/// The timestamp column is nine wide. Beside a row of white space without the cursor it is
/// empty, and also where the row above shows the same second of the same kind; else it
/// holds a mark, `~` for an edit, and the time.
pub proof fn lemma_gutter(
    rows: Seq<Row>,
    i: int,
    cursor: int,
    start: Timestamp,
    t: Timestamp,
    above: Timestamp,
)
    requires
        0 <= i < rows.len(),
        time_shown(rows[i], t),
        i > 0 ==> time_shown(rows[i - 1], above),
    ensures
        ({
            let (text, edited) = gutter_text(rows, i, cursor, start);
            let white = forall|k: int|
                0 <= k < rows[i].text.len() ==> white_space(#[trigger] rows[i].text[k]);
            let same = i > 0 && t.seconds_since(above) == 0 && (rows[i].edited is Some
                <==> rows[i - 1].edited is Some);
            &&& i != cursor && white ==> !edited && text == "         "@
            &&& !(i != cursor && white) ==> {
                &&& edited <==> rows[i].edited is Some
                &&& same ==> text == "         "@
                &&& !same ==> {
                    &&& text.len() >= 9
                    &&& text[0] == (if edited {
                        '~'
                    } else {
                        ' '
                    })
                    &&& text.subrange(1, time_text(t, start).len() as int + 1) == time_text(t, start)
                    &&& forall|k: int|
                        1 + time_text(t, start).len() <= k < text.len() ==> text[k] == ' '
                    &&& time_text(t, start).len() <= 8 ==> text.len() == 9
                }
            }
        }),
{
    reveal_strlit("         ");
    assert(pad_right(seq![], 9) =~= "         "@);
    let (text, edited) = gutter_text(rows, i, cursor, start);
    let time = time_text(t, start);
    if !(blank(rows[i].text) && i != cursor) && text != "         "@ {
        assert(text.subrange(1, time.len() as int + 1) =~= time);
    }
    let same = i > 0 && t.seconds_since(above) == 0 && (rows[i].edited is Some
        <==> rows[i - 1].edited is Some);
    if !(blank(rows[i].text) && i != cursor) && !same {
        assert(text =~= seq![if edited { '~' } else { ' ' }] + pad_right(time, 8));
        assert(text.subrange(1, time.len() as int + 1) =~= time);
    }
}

/// The time since the start is shown as minutes and seconds, from an hour on with the hours
/// too; before the start both carry the sign.
pub proof fn lemma_elapsed_parts(h: int, m: int, s: int)
    requires
        h >= 0,
        0 <= m < 60,
        0 <= s < 60,
    ensures
        h > 0 ==> elapsed_text(h * 3600 + m * 60 + s) == pad2(h) + seq![':'] + pad2(m) + seq![':']
            + pad2(s),
        h == 0 ==> elapsed_text(m * 60 + s) == pad2(m) + seq![':'] + pad2(s),
        elapsed_text(-(h * 3600 + m * 60 + s)) == pad2(-(h * 60 + m)) + seq![':'] + pad2(-s),
{
    lemma_clock_parts(h, m, s);
    let n = h * 3600 + m * 60 + s;
    assert(n / 60 == h * 60 + m);
    assert((m * 60 + s) / 60 == m);
}

/// The status line shows the time since the start and behind it the message, and without
/// one what is shown otherwise.
pub proof fn lemma_status_parts(app: App, now: Timestamp, otherwise: Seq<char>)
    ensures
        ({
            let line = status_line(app, now, otherwise);
            let time = elapsed_text(now.seconds_since(app.start_time));
            let n = time.len() as int;
            &&& line[0] == ' '
            &&& line.subrange(1, 1 + n) == time
            &&& line.subrange(1 + n, 4 + n) == " | "@
            &&& app.message is Some ==> line.skip(4 + n) == app.message->0@
            &&& app.message is None ==> line.skip(4 + n) == otherwise
        }),
{
    reveal_strlit(" | ");
    let line = status_line(app, now, otherwise);
    let time = elapsed_text(now.seconds_since(app.start_time));
    let n = time.len() as int;
    assert(line.subrange(1, 1 + n) =~= time);
    assert(line.subrange(1 + n, 4 + n) =~= " | "@);
    if app.message is Some {
        assert(line.skip(4 + n) =~= app.message->0@);
    } else {
        assert(line.skip(4 + n) =~= otherwise);
    }
}

/// While a session is recorded the number of lines is shown, then the microphone's meter
/// and then the speaker's.
pub proof fn lemma_help_parts(app: App, mic: Seq<char>, spk: Seq<char>)
    ensures
        ({
            let help = recording_help(app, mic, spk);
            let count = decimal(app.lines@.len() as int);
            let n = count.len() as int;
            let a = n + 13;
            let b = a + mic.len() + 5;
            &&& help.take(n) == count
            &&& help.subrange(n, a) == " lines | mic "@
            &&& help.subrange(a, a + mic.len()) == mic
            &&& help.subrange(a + mic.len(), b) == " spk "@
            &&& help.subrange(b, b + spk.len()) == spk
        }),
{
    reveal_strlit(" lines | mic ");
    reveal_strlit(" spk ");
    let help = recording_help(app, mic, spk);
    let count = decimal(app.lines@.len() as int);
    let n = count.len() as int;
    let a = n + 13;
    let b = a + mic.len() + 5;
    assert(help.take(n) =~= count);
    assert(help.subrange(n, a) =~= " lines | mic "@);
    assert(help.subrange(a, a + mic.len()) =~= mic);
    assert(help.subrange(a + mic.len(), b) =~= " spk "@);
    assert(help.subrange(b, b + spk.len()) =~= spk);
}

/// A meter has its width, is filled from the left as far as asked, and light from there on.
pub proof fn lemma_meter(filled: int, width: int)
    requires
        0 <= filled <= width,
    ensures
        meter(filled, width).len() == width,
        forall|i: int| 0 <= i < filled ==> meter(filled, width)[i] == '\u{2588}',
        forall|i: int| filled <= i < width ==> meter(filled, width)[i] == '\u{2591}',
{
}

// --- The editor and its page ---

/// The page has a row for each line of the editor, with its text and times; its cursor is
/// in the editor's line, behind as many bytes as the editor's column says.
pub proof fn lemma_page_of_editor(app: App, i: int)
    requires
        app.wf(),
        0 <= i < app.lines@.len(),
    ensures
        app.page().wf(),
        app.page().rows.len() == app.lines@.len(),
        app.page().rows[i].text == app.lines@[i]@,
        app.page().rows[i].created == app.created_at@[i],
        app.page().rows[i].edited == app.edited_at@[i],
        app.page().rows[i].settled == app.settled@[i],
        app.page().rows[i].begun == app.begun@[i],
        app.page().line == app.cursor_line,
        encode_utf8(app.lines@[app.cursor_line as int]@.take(app.page().col)).len()
            == app.cursor_col,
        app.cursor_col == 0 ==> app.page().col == 0,
{
    let text = app.lines@[app.cursor_line as int]@;
    lemma_boundary_is_offset(text, app.cursor_col as int);
    lemma_offset_ends(text);
    let k = app.page().col;
    if k > 0 {
        crate::text::lemma_offset_monotone(text, 0, k);
    }
}

/// What surrounds the notes is all of the editor but its lines and its cursor; in a fresh
/// editor it is as given, and empty.
pub proof fn lemma_surroundings(a: App, b: App)
    ensures
        a.same_surroundings(&b) <==> {
            &&& a.scroll == b.scroll
            &&& a.start_time == b.start_time
            &&& a.output_path == b.output_path
            &&& a.message == b.message
            &&& a.editor_area == b.editor_area
            &&& a.mode == b.mode
            &&& a.devices == b.devices
            &&& a.selected_device == b.selected_device
            &&& a.current_mic_name == b.current_mic_name
        },
        a.fresh_surroundings(b.output_path, b.start_time, b.current_mic_name) ==> {
            &&& a.output_path == b.output_path
            &&& a.start_time == b.start_time
            &&& a.current_mic_name == b.current_mic_name
            &&& a.message is None
            &&& a.mode == AppMode::Normal
            &&& a.devices@.len() == 0
            &&& a.selected_device == 0
        },
{
}

} // verus!
