//! The terminal editor: what keys and the mouse do, and what is shown.

use vstd::prelude::*;

use crate::app::{
    click_defined, gutter_text, in_text_area, lemma_chars_within, App, AppMode, GUTTER_WIDTH, Rect,
};
use crate::clock::{long_clock_text, push_long_clock, trunc_div, Timestamp};
use crate::page::{lemma_operations_keep_wf, Page};
use crate::text::{byte_len, decimal, pad2, push_decimal, push_pad2, str_len, strings_view};

verus! {

/// How the editor is left.
#[derive(Clone, Copy, Debug, PartialEq, Eq, Structural)]
pub enum TuiAction {
    Quit,
    SwitchDevice(usize),
}

#[derive(Clone, Copy, Debug, PartialEq, Eq, Structural)]
pub enum Key {
    Char(char),
    Enter,
    Backspace,
    Delete,
    Left,
    Right,
    Up,
    Down,
    Home,
    End,
    Tab,
    Esc,
    Other,
}

/// The modifiers held with a key; `other` stands for any but the four named.
#[derive(Clone, Copy, Debug, PartialEq, Eq, Structural)]
pub struct Modifiers {
    pub ctrl: bool,
    pub alt: bool,
    pub sup: bool,
    pub shift: bool,
    pub other: bool,
}

impl Modifiers {
    /// No modifier but shift.
    pub open spec fn plain(self) -> bool {
        !self.ctrl && !self.alt && !self.sup && !self.other
    }
}

/// What a key asks for while notes are taken.
#[derive(Clone, Copy, Debug, PartialEq, Eq, Structural)]
pub enum Command {
    Quit,
    Save,
    ListDevices,
    DeleteToLineStart,
    DeleteWordBack,
    DeleteWordForward,
    MoveWordLeft,
    MoveWordRight,
    Home,
    End,
    MoveLeft,
    MoveRight,
    MoveUp,
    MoveDown,
    Enter,
    Backspace,
    Delete,
    Tab,
    Insert(char),
    Nothing,
}

/// What is left to do after a key.
#[derive(Clone, Copy, Debug, PartialEq, Eq, Structural)]
pub enum KeyOutcome {
    Stay,
    /// The memo is to be written to its file.
    Save,
    /// The input devices are to be listed, for `open_device_select`.
    ListDevices,
    Leave(TuiAction),
}

/// The command of a key: for each key the first of its meanings whose modifier is
/// held.
pub open spec fn command_for(key: Key, m: Modifiers) -> Command {
    match key {
        Key::Char(c) => if !m.ctrl {
            Command::Insert(c)
        } else if c == 'c' {
            Command::Quit
        } else if c == 's' {
            Command::Save
        } else if c == 'd' {
            Command::ListDevices
        } else if c == 'u' {
            Command::DeleteToLineStart
        } else {
            Command::Nothing
        },
        Key::Backspace => if m.sup {
            Command::DeleteToLineStart
        } else if m.alt {
            Command::DeleteWordBack
        } else if m.plain() {
            Command::Backspace
        } else {
            Command::Nothing
        },
        Key::Delete => if m.alt {
            Command::DeleteWordForward
        } else if m.plain() {
            Command::Delete
        } else {
            Command::Nothing
        },
        Key::Left => if m.alt {
            Command::MoveWordLeft
        } else if m.sup {
            Command::Home
        } else if m.plain() {
            Command::MoveLeft
        } else {
            Command::Nothing
        },
        Key::Right => if m.alt {
            Command::MoveWordRight
        } else if m.sup {
            Command::End
        } else if m.plain() {
            Command::MoveRight
        } else {
            Command::Nothing
        },
        Key::Up => if m.plain() {
            Command::MoveUp
        } else {
            Command::Nothing
        },
        Key::Down => if m.plain() {
            Command::MoveDown
        } else {
            Command::Nothing
        },
        Key::Home => Command::Home,
        Key::End => Command::End,
        Key::Enter => Command::Enter,
        Key::Tab => Command::Tab,
        Key::Esc => Command::Nothing,
        Key::Other => Command::Nothing,
    }
}

/// The command of a key.
pub fn command_of(key: Key, modifiers: Modifiers) -> (r: Command)
    ensures
        r == command_for(key, modifiers),
{
    let Modifiers { ctrl, alt, sup, shift: _, other } = modifiers;
    let plain = !ctrl && !alt && !sup && !other;
    match key {
        Key::Char('c') if ctrl => Command::Quit,
        Key::Char('s') if ctrl => Command::Save,
        Key::Char('d') if ctrl => Command::ListDevices,
        // Delete to start of line: Cmd+Backspace or Ctrl+U
        Key::Backspace if sup => Command::DeleteToLineStart,
        Key::Char('u') if ctrl => Command::DeleteToLineStart,
        // Words: Alt/Option
        Key::Backspace if alt => Command::DeleteWordBack,
        Key::Delete if alt => Command::DeleteWordForward,
        Key::Left if alt => Command::MoveWordLeft,
        Key::Right if alt => Command::MoveWordRight,
        // Home/End with Cmd or standalone
        Key::Left if sup => Command::Home,
        Key::Right if sup => Command::End,
        Key::Home => Command::Home,
        Key::End => Command::End,
        Key::Left if plain => Command::MoveLeft,
        Key::Right if plain => Command::MoveRight,
        Key::Up if plain => Command::MoveUp,
        Key::Down if plain => Command::MoveDown,
        Key::Enter => Command::Enter,
        Key::Backspace if plain => Command::Backspace,
        Key::Delete if plain => Command::Delete,
        Key::Tab => Command::Tab,
        Key::Char(c) if !ctrl => Command::Insert(c),
        _ => Command::Nothing,
    }
}

/// The page after a command.
pub open spec fn obeyed(page: Page, command: Command, now: Timestamp) -> Page {
    match command {
        Command::DeleteToLineStart => page.delete_to_line_start(now),
        Command::DeleteWordBack => page.delete_word_back(now),
        Command::DeleteWordForward => page.delete_word_forward(now),
        Command::MoveWordLeft => page.move_word_left(),
        Command::MoveWordRight => page.move_word_right(),
        Command::Home => page.home(),
        Command::End => page.end(),
        Command::MoveLeft => page.move_left(),
        Command::MoveRight => page.move_right(),
        Command::MoveUp => page.move_up(),
        Command::MoveDown => page.move_down(),
        Command::Enter => page.enter(now),
        Command::Backspace => page.backspace(now),
        Command::Delete => page.delete(now),
        Command::Tab => page.insert_char(' ', now).insert_char(' ', now),
        Command::Insert(c) => page.insert_char(c, now),
        _ => page,
    }
}

/// What a command leaves to do.
pub open spec fn outcome_for(command: Command) -> KeyOutcome {
    match command {
        Command::Quit => KeyOutcome::Leave(TuiAction::Quit),
        Command::Save => KeyOutcome::Save,
        Command::ListDevices => KeyOutcome::ListDevices,
        _ => KeyOutcome::Stay,
    }
}

/// A key while notes are taken.
pub fn handle_key_normal(
    app: &mut App,
    key: Key,
    modifiers: Modifiers,
    now: Timestamp,
) -> (r: KeyOutcome)
    requires
        old(app).wf(),
        now.valid(),
    ensures
        final(app).wf(),
        final(app).page() == obeyed(old(app).page(), command_for(key, modifiers), now),
        final(app).same_surroundings(old(app)),
        r == outcome_for(command_for(key, modifiers)),
{
    match command_of(key, modifiers) {
        Command::Quit => {
            return KeyOutcome::Leave(TuiAction::Quit);
        },
        Command::Save => {
            return KeyOutcome::Save;
        },
        Command::ListDevices => {
            return KeyOutcome::ListDevices;
        },
        Command::DeleteToLineStart => app.delete_to_line_start(now),
        Command::DeleteWordBack => app.delete_word_back(now),
        Command::DeleteWordForward => app.delete_word_forward(now),
        Command::MoveWordLeft => app.move_word_left(),
        Command::MoveWordRight => app.move_word_right(),
        Command::Home => app.home(),
        Command::End => app.end(),
        Command::MoveLeft => app.move_left(),
        Command::MoveRight => app.move_right(),
        Command::MoveUp => app.move_up(),
        Command::MoveDown => app.move_down(),
        Command::Enter => app.enter(now),
        Command::Backspace => app.backspace(now),
        Command::Delete => app.delete(now),
        Command::Tab => {
            app.insert_char(' ', now);
            app.insert_char(' ', now);
        },
        Command::Insert(c) => app.insert_char(c, now),
        Command::Nothing => {},
    }
    KeyOutcome::Stay
}

/// The editor after a key while a device is selected.
pub open spec fn device_key(app: App, key: Key) -> App {
    match key {
        Key::Esc => App { mode: AppMode::Normal, ..app },
        Key::Up => if app.selected_device > 0 {
            App { selected_device: (app.selected_device - 1) as usize, ..app }
        } else {
            app
        },
        Key::Down => if app.selected_device + 1 < app.devices@.len() {
            App { selected_device: (app.selected_device + 1) as usize, ..app }
        } else {
            app
        },
        Key::Enter => App { mode: AppMode::Normal, ..app },
        _ => app,
    }
}

/// A key while a device is selected.
pub fn handle_key_device_select(app: &mut App, key: Key) -> (r: KeyOutcome)
    ensures
        *final(app) == device_key(*old(app), key),
        r == (if key == Key::Enter {
            KeyOutcome::Leave(TuiAction::SwitchDevice(old(app).selected_device))
        } else {
            KeyOutcome::Stay
        }),
{
    match key {
        Key::Esc => {
            app.mode = AppMode::Normal;
        },
        Key::Up => {
            if app.selected_device > 0 {
                app.selected_device -= 1;
            }
        },
        Key::Down => {
            let count = app.devices.len();
            if count > 0 && app.selected_device < count - 1 {
                app.selected_device += 1;
            }
        },
        Key::Enter => {
            let idx = app.selected_device;
            app.mode = AppMode::Normal;
            return KeyOutcome::Leave(TuiAction::SwitchDevice(idx));
        },
        _ => {},
    }
    KeyOutcome::Stay
}

/// A key: what was said of the last one is taken away, and the mode decides what
/// the key means.
pub fn handle_key(app: &mut App, key: Key, modifiers: Modifiers, now: Timestamp) -> (r: KeyOutcome)
    requires
        old(app).wf(),
        now.valid(),
    ensures
        final(app).wf(),
        ({
            let quiet = App { message: None, ..*old(app) };
            match old(app).mode {
                AppMode::DeviceSelect => {
                    &&& *final(app) == device_key(quiet, key)
                    &&& r == (if key == Key::Enter {
                        KeyOutcome::Leave(TuiAction::SwitchDevice(old(app).selected_device))
                    } else {
                        KeyOutcome::Stay
                    })
                },
                AppMode::Normal => {
                    &&& final(app).page() == obeyed(
                        old(app).page(),
                        command_for(key, modifiers),
                        now,
                    )
                    &&& final(app).same_surroundings(&quiet)
                    &&& r == outcome_for(command_for(key, modifiers))
                },
            }
        }),
{
    app.message = None;
    assert(app.rows() =~= old(app).rows());
    match app.mode {
        AppMode::DeviceSelect => handle_key_device_select(app, key),
        AppMode::Normal => handle_key_normal(app, key, modifiers, now),
    }
}

/// The first position from `i` on at which `names` holds `name`; their number where
/// it is not among them.
pub open spec fn position_of(names: Seq<Seq<char>>, name: Seq<char>, i: int) -> int
    decreases names.len() - i,
{
    if i < 0 || i >= names.len() {
        names.len() as int
    } else if names[i] == name {
        i
    } else {
        position_of(names, name, i + 1)
    }
}

/// Offers the devices for selection; the current one is selected first, if it is
/// among them.
pub fn open_device_select(app: &mut App, devices: Vec<String>)
    ensures
        ({
            let p = position_of(strings_view(devices@), old(app).current_mic_name@, 0);
            *final(app) == (App {
                devices,
                selected_device: if p < devices@.len() {
                    p as usize
                } else {
                    0
                },
                mode: AppMode::DeviceSelect,
                ..*old(app)
            })
        }),
{
    let ghost names = strings_view(devices@);
    let ghost wanted = app.current_mic_name@;
    let mut i: usize = 0;
    while i < devices.len() && devices[i] != app.current_mic_name
        invariant
            i <= devices@.len(),
            names == strings_view(devices@),
            wanted == app.current_mic_name@,
            position_of(names, wanted, i as int) == position_of(names, wanted, 0),
        decreases devices@.len() - i,
    {
        assert(names[i as int] == devices@[i as int]@);
        i += 1;
    }
    app.selected_device = if i < devices.len() {
        assert(names[i as int] == devices@[i as int]@);
        i
    } else {
        0
    };
    app.devices = devices;
    app.mode = AppMode::DeviceSelect;
}

/// The name shown for the system's own choice of microphone.
pub fn mic_name_or_unknown(default_name: Option<String>) -> (r: String)
    ensures
        r@ == (match default_name {
            Some(n) => n@,
            None => "Unknown"@,
        }),
{
    match default_name {
        Some(n) => n,
        None => "Unknown".to_owned(),
    }
}

/// The device was changed to number `idx` of `names`. Where there are not that many, the
/// system's own choice was taken, and the message says so.
pub open spec fn device_switched(
    before: App,
    after: App,
    idx: usize,
    names: Seq<String>,
    default_name: Option<String>,
    device: Option<usize>,
) -> bool {
    &&& after == (App {
        message: after.message,
        current_mic_name: after.current_mic_name,
        ..before
    })
    &&& if idx < names.len() {
        &&& device == Some(idx)
        &&& after.current_mic_name@ == names[idx as int]@
        &&& after.message == before.message
    } else {
        &&& device is None
        &&& after.current_mic_name@ == (match default_name {
            Some(n) => n@,
            None => "Unknown"@,
        })
        &&& after.message matches Some(m) && m@ == "Device no longer available"@
    }
}

/// Takes device `idx` of those there are now. The result is the device to record from,
/// `None` for the system's choice.
pub fn switch_device(
    app: &mut App,
    idx: usize,
    names: &Vec<String>,
    default_name: Option<String>,
) -> (r: Option<usize>)
    ensures
        device_switched(*old(app), *final(app), idx, names@, default_name, r),
{
    if idx < names.len() {
        app.current_mic_name = names[idx].clone();
        Some(idx)
    } else {
        app.message = Some("Device no longer available".to_owned());
        app.current_mic_name = mic_name_or_unknown(default_name);
        None
    }
}

// --- Mouse ---

#[derive(Clone, Copy, Debug, PartialEq, Eq, Structural)]
pub enum Mouse {
    /// The left button goes down.
    LeftDown,
    ScrollUp,
    ScrollDown,
    Other,
}

/// What a click or a scroll compares and counts with stays in the range of its
/// numbers.
pub open spec fn mouse_defined(app: App, mouse: Mouse, column: int, row: int) -> bool {
    match mouse {
        Mouse::LeftDown => {
            &&& click_defined(app.editor_area, column, row)
            &&& in_text_area(app.editor_area, column, row) ==> row - app.editor_area.y - 1
                + app.scroll <= usize::MAX
        },
        Mouse::ScrollDown => app.scroll < usize::MAX,
        _ => true,
    }
}

/// The page after a mouse event, and how far it is scrolled.
pub open spec fn pointed(app: App, mouse: Mouse, column: int, row: int) -> (Page, int) {
    match mouse {
        Mouse::LeftDown => (
            if in_text_area(app.editor_area, column, row) {
                app.page().click(
                    row - app.editor_area.y - 1 + app.scroll,
                    column - app.editor_area.x - 1 - GUTTER_WIDTH,
                )
            } else {
                app.page()
            },
            app.scroll as int,
        ),
        Mouse::ScrollUp => (
            app.page(),
            if app.scroll > 0 {
                app.scroll - 1
            } else {
                0
            },
        ),
        Mouse::ScrollDown => (app.page(), app.scroll + 1),
        Mouse::Other => (app.page(), app.scroll as int),
    }
}

/// A mouse event while notes are taken.
pub fn handle_mouse(app: &mut App, mouse: Mouse, column: u16, row: u16)
    requires
        old(app).wf(),
        mouse_defined(*old(app), mouse, column as int, row as int),
    ensures
        final(app).wf(),
        (final(app).page(), final(app).scroll as int) == pointed(
            *old(app),
            mouse,
            column as int,
            row as int,
        ),
        (App { scroll: old(app).scroll, ..*final(app) }).same_surroundings(old(app)),
{
    match mouse {
        Mouse::LeftDown => app.handle_click(column, row),
        Mouse::ScrollUp => {
            if app.scroll > 0 {
                app.scroll -= 1;
                assert(app.rows() =~= old(app).rows());
            }
        },
        Mouse::ScrollDown => {
            app.scroll += 1;
            assert(app.rows() =~= old(app).rows());
        },
        Mouse::Other => {},
    }
}

/// Whether `mouse_defined` holds.
pub fn mouse_in_range(app: &App, mouse: Mouse, column: u16, row: u16) -> (r: bool)
    ensures
        r == mouse_defined(*app, mouse, column as int, row as int),
{
    match mouse {
        Mouse::LeftDown => {
            let area = app.editor_area;
            let left: u32 = area.x as u32 + 1 + GUTTER_WIDTH as u32;
            let right: u32 = area.x as u32 + area.width as u32;
            let top: u32 = area.y as u32 + 1;
            let bottom: u32 = area.y as u32 + area.height as u32;
            let column: u32 = column as u32;
            let row: u32 = row as u32;
            if left > 65535 {
                return false;
            }
            if column < left {
                return true;
            }
            if right < 1 || right > 65535 {
                return false;
            }
            if column >= right - 1 {
                return true;
            }
            if top > 65535 {
                return false;
            }
            if row < top {
                return true;
            }
            if bottom < 1 || bottom > 65535 {
                return false;
            }
            row >= bottom - 1 || app.scroll <= usize::MAX - (row - top) as usize
        },
        Mouse::ScrollDown => app.scroll < usize::MAX,
        _ => true,
    }
}

/// A mouse event: nothing while a device is selected.
pub fn handle_mouse_event(app: &mut App, mouse: Mouse, column: u16, row: u16)
    requires
        old(app).wf(),
        old(app).mode == AppMode::Normal ==> mouse_defined(
            *old(app),
            mouse,
            column as int,
            row as int,
        ),
    ensures
        final(app).wf(),
        match old(app).mode {
            AppMode::DeviceSelect => *final(app) == *old(app),
            AppMode::Normal => {
                &&& (final(app).page(), final(app).scroll as int) == pointed(
                    *old(app),
                    mouse,
                    column as int,
                    row as int,
                )
                &&& (App { scroll: old(app).scroll, ..*final(app) }).same_surroundings(old(app))
            },
        },
{
    if app.mode == AppMode::Normal {
        handle_mouse(app, mouse, column, row);
    }
}

// --- What is shown ---

/// The rows of a screen, as far as they have numbers of 16 bits.
pub open spec fn rows_of(screen: Rect) -> int {
    if screen.y + screen.height <= u16::MAX {
        screen.height as int
    } else {
        u16::MAX - screen.y
    }
}

/// The last row of a screen is left for the status line, unless it is the only one.
pub open spec fn status_rows(screen: Rect) -> int {
    if rows_of(screen) >= 2 {
        1
    } else {
        0
    }
}

/// The screen without the rows of the status line.
pub open spec fn editor_part(screen: Rect) -> Rect {
    Rect { height: (rows_of(screen) - status_rows(screen)) as u16, ..screen }
}

/// The rows of the status line, below the editor.
pub open spec fn status_part(screen: Rect) -> Rect {
    Rect {
        y: (screen.y + rows_of(screen) - status_rows(screen)) as u16,
        height: status_rows(screen) as u16,
        ..screen
    }
}

/// Calls ratatui's `Layout::split` with the vertical constraints `Min(least)` and
/// `Length(below)`. Both areas have the screen's left edge and its width. With one row
/// at least for the upper area and one for the lower, the upper one takes all rows but
/// the last, or the only one. What other numbers give is not stated.
#[verifier::external_body]
fn stack(screen: Rect, least: u16, below: u16) -> (r: (Rect, Rect))
    ensures
        r.0.x == screen.x && r.0.width == screen.width,
        r.1.x == screen.x && r.1.width == screen.width,
        least == 1 && below == 1 ==> r == (editor_part(screen), status_part(screen)),
{
    let Rect { x, y, width, height } = screen;
    let chunks = ratatui::layout::Layout::default()
        .direction(ratatui::layout::Direction::Vertical)
        .constraints([
            ratatui::layout::Constraint::Min(least),
            ratatui::layout::Constraint::Length(below),
        ])
        .split(ratatui::layout::Rect { x, y, width, height });
    let (a, b) = (chunks[0], chunks[1]);
    let first = Rect { x: a.x, y: a.y, width: a.width, height: a.height };
    (first, Rect { x: b.x, y: b.y, width: b.width, height: b.height })
}

/// The areas of the editor and, below it, of the status line.
pub fn split_screen(screen: Rect) -> (r: (Rect, Rect))
    ensures
        r == (editor_part(screen), status_part(screen)),
{
    stack(screen, 1, 1)
}

/// The number of rows inside the borders of an area.
pub open spec fn inner_height(area: Rect) -> int {
    if area.height >= 2 {
        area.height - 2
    } else {
        0
    }
}

pub fn visible_lines(area: Rect) -> (r: usize)
    ensures
        r == inner_height(area),
{
    if area.height >= 2 {
        (area.height - 2) as usize
    } else {
        0
    }
}

/// How far the page is scrolled in an area: no further than it takes to have the
/// cursor's line shown.
pub open spec fn scrolled(app: App, area: Rect) -> usize {
    let n = inner_height(area);
    if n == 0 {
        app.scroll
    } else if app.cursor_line < app.scroll {
        app.cursor_line
    } else if app.cursor_line >= app.scroll + n {
        (app.cursor_line - n + 1) as usize
    } else {
        app.scroll
    }
}

/// Takes the area that the editor is drawn in, and scrolls so that the cursor's line
/// is shown.
pub fn place_editor(app: &mut App, area: Rect)
    requires
        inner_height(area) > 0 && old(app).scroll <= old(app).cursor_line ==> old(app).scroll
            + inner_height(area) <= usize::MAX,
    ensures
        *final(app) == (App {
            editor_area: area,
            scroll: scrolled(*old(app), area),
            ..*old(app)
        }),
        inner_height(area) > 0 ==> final(app).scroll <= final(app).cursor_line
            < final(app).scroll + inner_height(area),
{
    app.editor_area = area;
    app.ensure_cursor_visible(visible_lines(area));
}

/// Takes the screen: the editor goes into all of it but the last row, scrolled so that
/// the cursor's line is shown. The result is the area of the status line.
pub fn place_screen(app: &mut App, screen: Rect) -> (r: Rect)
    requires
        inner_height(editor_part(screen)) > 0 && old(app).scroll <= old(app).cursor_line
            ==> old(app).scroll + inner_height(editor_part(screen)) <= usize::MAX,
    ensures
        r == status_part(screen),
        *final(app) == (App {
            editor_area: editor_part(screen),
            scroll: scrolled(*old(app), editor_part(screen)),
            ..*old(app)
        }),
        inner_height(editor_part(screen)) > 0 ==> final(app).scroll <= final(app).cursor_line
            < final(app).scroll + inner_height(editor_part(screen)),
{
    let (editor, status) = split_screen(screen);
    place_editor(app, editor);
    status
}

/// A line as it is shown: the timestamp column, whether that is the time of an edit,
/// which line it is, and whether the cursor is in it.
pub struct ShownLine {
    pub gutter: String,
    pub edited: bool,
    pub line: usize,
    pub current: bool,
}

/// `shown` is line `i` of the editor.
pub open spec fn shows(shown: ShownLine, app: App, i: int) -> bool {
    &&& (shown.gutter@, shown.edited) == gutter_text(
        app.rows(),
        i,
        app.cursor_line as int,
        app.start_time,
    )
    &&& shown.line == i
    &&& shown.current == (i == app.cursor_line)
}

/// The line after the last one that is shown.
pub open spec fn shown_end(app: App) -> int {
    if app.scroll + inner_height(app.editor_area) < app.lines@.len() {
        app.scroll + inner_height(app.editor_area)
    } else {
        app.lines@.len() as int
    }
}

/// The lines that are shown, from the top on.
pub fn shown_lines(app: &App) -> (r: Vec<ShownLine>)
    requires
        app.wf_lines(),
        app.scroll + inner_height(app.editor_area) <= usize::MAX,
    ensures
        r@.len() == (if app.scroll < shown_end(*app) {
            shown_end(*app) - app.scroll
        } else {
            0
        }),
        forall|k: int| 0 <= k < r@.len() ==> shows(#[trigger] r@[k], *app, app.scroll + k),
{
    let mut out: Vec<ShownLine> = Vec::new();
    let wanted = app.scroll + visible_lines(app.editor_area);
    let end = if wanted < app.lines.len() {
        wanted
    } else {
        app.lines.len()
    };
    let mut i = app.scroll;
    while i < end
        invariant
            app.wf_lines(),
            app.scroll <= i,
            i <= end || i == app.scroll,
            end == shown_end(*app),
            out@.len() == i - app.scroll,
            forall|k: int| 0 <= k < out@.len() ==> shows(#[trigger] out@[k], *app, app.scroll + k),
        decreases end - i,
    {
        let (gutter, edited) = app.gutter_label(i);
        out.push(ShownLine { gutter, edited, line: i, current: i == app.cursor_line });
        i += 1;
    }
    out
}

/// The cell of the cursor, as numbers of 16 bits.
pub open spec fn cursor_cell(app: App) -> (int, int) {
    let area = app.editor_area;
    (
        area.x + 1 + GUTTER_WIDTH + (app.cursor_col as u16),
        area.y + 1 + ((app.cursor_line - app.scroll) as usize as u16),
    )
}

/// What the cursor's cell is computed from and compared with, one after the other
/// until one decides, stays in the range of 16 bits, and the cursor's line is not
/// above the first one shown.
pub open spec fn cursor_defined(app: App) -> bool {
    let area = app.editor_area;
    let (x, y) = cursor_cell(app);
    &&& app.scroll <= app.cursor_line
    &&& x <= u16::MAX
    &&& y <= u16::MAX
    &&& 1 <= area.x + area.width <= u16::MAX
    &&& x < area.x + area.width - 1 ==> 1 <= area.y + area.height <= u16::MAX
}

/// The cell in which the cursor is shown, if it is inside the borders.
pub fn cursor_position(app: &App) -> (r: Option<(u16, u16)>)
    requires
        cursor_defined(*app),
    ensures
        ({
            let area = app.editor_area;
            let (x, y) = cursor_cell(*app);
            match r {
                Some((column, row)) => {
                    &&& column == x < area.x + area.width - 1
                    &&& row == y < area.y + area.height - 1
                },
                None => x >= area.x + area.width - 1 || y >= area.y + area.height - 1,
            }
        }),
{
    let area = app.editor_area;
    let x = area.x + 1 + GUTTER_WIDTH + app.cursor_col as u16;
    let y = area.y + 1 + (app.cursor_line - app.scroll) as u16;
    if x < area.x + area.width - 1 && y < area.y + area.height - 1 {
        Some((x, y))
    } else {
        None
    }
}

/// Whether `cursor_defined` holds.
pub fn cursor_in_range(app: &App) -> (r: bool)
    ensures
        r == cursor_defined(*app),
{
    if app.scroll > app.cursor_line {
        return false;
    }
    let area = app.editor_area;
    let x: u32 = area.x as u32 + 1 + GUTTER_WIDTH as u32 + (app.cursor_col as u16) as u32;
    let y: u32 = area.y as u32 + 1 + ((app.cursor_line - app.scroll) as u16) as u32;
    let right: u32 = area.x as u32 + area.width as u32;
    let bottom: u32 = area.y as u32 + area.height as u32;
    x <= 65535 && y <= 65535 && 1 <= right && right <= 65535 && (x >= right - 1 || (1 <= bottom
        && bottom <= 65535))
}

/// The time since the start, as the status line shows it. Before the start, both
/// parts carry the sign.
pub open spec fn elapsed_text(secs: int) -> Seq<char> {
    if secs >= 3600 {
        long_clock_text(secs)
    } else {
        pad2(trunc_div(secs, 60)) + seq![':'] + pad2(secs - 60 * trunc_div(secs, 60))
    }
}

fn push_elapsed(out: &mut String, secs: i64)
    requires
        secs > i64::MIN,
    ensures
        final(out)@ == old(out)@ + elapsed_text(secs as int),
{
    if secs >= 3600 {
        push_long_clock(out, secs as u64);
    } else {
        let minutes: i64 = if secs >= 0 {
            secs / 60
        } else {
            -((-secs) / 60)
        };
        push_pad2(out, minutes);
        out.push(':');
        push_pad2(out, secs - 60 * minutes);
    }
    assert(out@ =~= old(out)@ + elapsed_text(secs as int));
}

/// The status line: the time since the start and the message, or, where there is
/// none, what follows it otherwise.
pub open spec fn status_line(app: App, now: Timestamp, otherwise: Seq<char>) -> Seq<char> {
    seq![' '] + elapsed_text(now.seconds_since(app.start_time)) + " | "@ + (match app.message {
        Some(m) => m@,
        None => otherwise,
    })
}

/// The number of lines, the two level meters and the keys.
pub open spec fn recording_help(app: App, mic: Seq<char>, spk: Seq<char>) -> Seq<char> {
    decimal(app.lines@.len() as int) + " lines | mic "@ + mic + " spk "@ + spk
        + " | ^D device  ^S save  ^C quit"@
}

/// The status line while a session is recorded, with a level meter for the
/// microphone and one for the speaker.
pub fn status_text(app: &App, now: Timestamp, mic: &str, spk: &str) -> (r: String)
    requires
        app.start_time.valid(),
        now.valid(),
    ensures
        r@ == status_line(*app, now, recording_help(*app, mic@, spk@)),
{
    let mut out = status_head(app, now);
    match &app.message {
        Some(m) => out.append(m.as_str()),
        None => {
            push_decimal(&mut out, app.lines.len() as u64);
            out.append(" lines | mic ");
            out.append(mic);
            out.append(" spk ");
            out.append(spk);
            out.append(" | ^D device  ^S save  ^C quit");
            assert(out@ =~= status_line(*app, now, recording_help(*app, mic@, spk@)));
        },
    }
    out
}

fn status_head(app: &App, now: Timestamp) -> (r: String)
    requires
        app.start_time.valid(),
        now.valid(),
    ensures
        r@ == seq![' '] + elapsed_text(now.seconds_since(app.start_time)) + " | "@,
{
    let mut out = String::new();
    out.push(' ');
    push_elapsed(&mut out, app.elapsed_secs(now));
    out.append(" | ");
    assert(out@ =~= seq![' '] + elapsed_text(now.seconds_since(app.start_time)) + " | "@);
    out
}

/// The status line while notes are taken without a recording.
pub fn notes_status_text(app: &App, now: Timestamp) -> (r: String)
    requires
        app.start_time.valid(),
        now.valid(),
    ensures
        r@ == status_line(
            *app,
            now,
            decimal(app.lines@.len() as int)
                + " lines | ^S save  ^C quit  opt+\u{232b} word del"@,
        ),
{
    let mut out = status_head(app, now);
    match &app.message {
        Some(m) => out.append(m.as_str()),
        None => {
            push_decimal(&mut out, app.lines.len() as u64);
            out.append(" lines | ^S save  ^C quit  opt+\u{232b} word del");
            assert(out@ =~= status_line(
                *app,
                now,
                decimal(app.lines@.len() as int)
                    + " lines | ^S save  ^C quit  opt+\u{232b} word del"@,
            ));
        },
    }
    out
}

/// A level meter of `width` cells, of which `filled` are filled.
pub open spec fn meter(filled: int, width: int) -> Seq<char> {
    Seq::new(width as nat, |i: int| if i < filled { '\u{2588}' } else { '\u{2591}' })
}

pub fn level_bars(filled: usize, width: usize) -> (r: String)
    requires
        filled <= width,
    ensures
        r@ == meter(filled as int, width as int),
{
    let mut out = String::new();
    let mut i: usize = 0;
    while i < width
        invariant
            i <= width,
            out@ == meter(filled as int, width as int).take(i as int),
        decreases width - i,
    {
        if i < filled {
            out.push('\u{2588}');
        } else {
            out.push('\u{2591}');
        }
        i += 1;
        assert(out@ =~= meter(filled as int, width as int).take(i as int));
    }
    assert(meter(filled as int, width as int).take(i as int) =~= meter(
        filled as int,
        width as int,
    ));
    out
}

// --- Device selection ---

/// The length in bytes of the longest of the names, 20 at least.
pub open spec fn longest(names: Seq<Seq<char>>) -> int
    decreases names.len(),
{
    if names.len() == 0 {
        20
    } else {
        let n = byte_len(names.last());
        if n > longest(names.drop_last()) {
            n
        } else {
            longest(names.drop_last())
        }
    }
}

fn longest_name(names: &Vec<String>) -> (r: usize)
    ensures
        r == longest(strings_view(names@)),
{
    let ghost all = strings_view(names@);
    let mut n: usize = 20;
    let mut i: usize = 0;
    assert(all.take(0) =~= seq![]);
    while i < names.len()
        invariant
            i <= names@.len(),
            all == strings_view(names@),
            n == longest(all.take(i as int)),
        decreases names@.len() - i,
    {
        let len = str_len(names[i].as_str());
        assert(all.take(i + 1).drop_last() =~= all.take(i as int));
        assert(all.take(i + 1).last() == names@[i as int]@);
        if len > n {
            n = len;
        }
        i += 1;
    }
    assert(all.take(i as int) =~= all);
    n
}

/// The smaller of `wanted` and what `room` leaves beside a margin of four cells.
pub open spec fn overlay_extent(wanted: int, room: int) -> int {
    let most = if room >= 4 {
        room - 4
    } else {
        0
    };
    if wanted < most {
        wanted
    } else {
        most
    }
}

/// The area of the list of devices, in the middle of the screen.
pub open spec fn overlay_area(app: App, screen: Rect) -> (int, int, int, int) {
    let width = overlay_extent(
        longest(strings_view(app.devices@)) as usize as u16 + 6,
        screen.width as int,
    );
    let height = overlay_extent(app.devices@.len() as usize as u16 + 2, screen.height as int);
    (
        screen.x + (screen.width - width) / 2,
        screen.y + (screen.height - height) / 2,
        width,
        height,
    )
}

/// The area's numbers are ones of 16 bits.
pub open spec fn overlay_defined(app: App, screen: Rect) -> bool {
    let (x, y, _, _) = overlay_area(app, screen);
    &&& longest(strings_view(app.devices@)) as usize as u16 + 6 <= u16::MAX
    &&& app.devices@.len() as usize as u16 + 2 <= u16::MAX
    &&& x <= u16::MAX
    &&& y <= u16::MAX
}

/// Where the list of devices is drawn.
pub fn device_overlay(app: &App, screen: Rect) -> (r: Rect)
    requires
        overlay_defined(*app, screen),
    ensures
        (r.x as int, r.y as int, r.width as int, r.height as int) == overlay_area(*app, screen),
{
    let wanted_width = longest_name(&app.devices) as u16 + 6;
    let wanted_height = app.devices.len() as u16 + 2;
    let width = extent(wanted_width, screen.width);
    let height = extent(wanted_height, screen.height);
    Rect {
        x: screen.x + (screen.width - width) / 2,
        y: screen.y + (screen.height - height) / 2,
        width,
        height,
    }
}

fn extent(wanted: u16, room: u16) -> (r: u16)
    ensures
        r == overlay_extent(wanted as int, room as int),
        r <= room,
{
    let most = if room >= 4 {
        room - 4
    } else {
        0
    };
    if wanted < most {
        wanted
    } else {
        most
    }
}

/// Whether `overlay_defined` holds.
pub fn overlay_in_range(app: &App, screen: Rect) -> (r: bool)
    ensures
        r == overlay_defined(*app, screen),
{
    let wanted_width = longest_name(&app.devices) as u16;
    let wanted_height = app.devices.len() as u16;
    if wanted_width > 65529 || wanted_height > 65533 {
        return false;
    }
    let width = extent(wanted_width + 6, screen.width);
    let height = extent(wanted_height + 2, screen.height);
    screen.x as u32 + ((screen.width - width) / 2) as u32 <= 65535 && screen.y as u32 + ((
    screen.height - height) / 2) as u32 <= 65535
}

/// The entry for device `i`: `>` before the selected one, `*` before the current.
pub open spec fn device_label(app: App, i: int) -> Seq<char> {
    seq![
        if i == app.selected_device {
            '>'
        } else {
            ' '
        },
        if app.devices@[i]@ == app.current_mic_name@ {
            '*'
        } else {
            ' '
        },
        ' ',
    ] + app.devices@[i]@
}

/// The entries of the list of devices.
pub fn device_labels(app: &App) -> (r: Vec<String>)
    ensures
        r@.len() == app.devices@.len(),
        forall|i: int| 0 <= i < r@.len() ==> (#[trigger] r@[i])@ == device_label(*app, i),
{
    let mut out: Vec<String> = Vec::new();
    let mut i: usize = 0;
    while i < app.devices.len()
        invariant
            i <= app.devices@.len(),
            out@.len() == i,
            forall|k: int| 0 <= k < i ==> (#[trigger] out@[k])@ == device_label(*app, k),
        decreases app.devices@.len() - i,
    {
        let mut label = String::new();
        label.push(
            if i == app.selected_device {
                '>'
            } else {
                ' '
            },
        );
        label.push(
            if app.devices[i] == app.current_mic_name {
                '*'
            } else {
                ' '
            },
        );
        label.push(' ');
        label.append(app.devices[i].as_str());
        assert(label@ =~= device_label(*app, i as int));
        out.push(label);
        i += 1;
    }
    out
}

// --- Laws ---

/// Ctrl+C quits, Ctrl+S saves and Ctrl+D lists the devices, whatever else is held.
pub proof fn lemma_control_keys(m: Modifiers)
    requires
        m.ctrl,
    ensures
        outcome_for(command_for(Key::Char('c'), m)) == KeyOutcome::Leave(TuiAction::Quit),
        outcome_for(command_for(Key::Char('s'), m)) == KeyOutcome::Save,
        outcome_for(command_for(Key::Char('d'), m)) == KeyOutcome::ListDevices,
{
}

/// A key that quits, saves or lists devices changes nothing of the notes.
pub proof fn lemma_outcomes_keep_notes(page: Page, key: Key, m: Modifiers, now: Timestamp)
    requires
        outcome_for(command_for(key, m)) != KeyOutcome::Stay,
    ensures
        obeyed(page, command_for(key, m), now) == page,
{
}

/// Whatever key is pressed, the cursor stays in the page.
pub proof fn lemma_commands_keep_wf(page: Page, command: Command, now: Timestamp)
    requires
        page.wf(),
    ensures
        obeyed(page, command, now).wf(),
{
    match command {
        Command::Insert(c) => {
            lemma_operations_keep_wf(page, c, 0, 0, now);
        },
        _ => {
            lemma_operations_keep_wf(page, ' ', 0, 0, now);
            lemma_operations_keep_wf(page.insert_char(' ', now), ' ', 0, 0, now);
        },
    }
}

/// The selection stays among the devices.
pub proof fn lemma_selection_in_list(app: App, key: Key)
    requires
        app.selected_device < app.devices@.len(),
    ensures
        device_key(app, key).devices == app.devices,
        device_key(app, key).selected_device < app.devices@.len(),
{
}

/// The cursor's line is among the lines shown, once the editor has been placed in an
/// area with room for a line.
pub proof fn lemma_cursor_line_shown(app: App)
    requires
        app.wf_lines(),
        app.scroll <= app.cursor_line < app.scroll + inner_height(app.editor_area),
    ensures
        app.scroll <= app.cursor_line < shown_end(app),
{
}

/// A click on the cell in which the cursor is shown leaves it where it is. (A column
/// or a row past the range of 16 bits is shown elsewhere.)
pub proof fn lemma_click_on_cursor(app: App)
    requires
        app.wf(),
        cursor_defined(app),
        app.cursor_col <= u16::MAX,
        app.cursor_line - app.scroll <= u16::MAX,
        cursor_cell(app).0 < app.editor_area.x + app.editor_area.width - 1,
        cursor_cell(app).1 < app.editor_area.y + app.editor_area.height - 1,
    ensures
        mouse_defined(app, Mouse::LeftDown, cursor_cell(app).0, cursor_cell(app).1),
        pointed(app, Mouse::LeftDown, cursor_cell(app).0, cursor_cell(app).1) == (
            app.page(),
            app.scroll as int,
        ),
{
    let col = app.cursor_col as int;
    lemma_chars_within(app.page().text(), col, col);
}

} // verus!
