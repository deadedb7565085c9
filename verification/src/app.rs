//! The editor: its state, and the operations on it.

use vstd::prelude::*;
use vstd::utf8::*;

use crate::clock::{push_clock, Timestamp};
use crate::memo::{memo_text, row_text, time_text};
use crate::parser::{entries, Entry, ParsedLine};
use crate::page::{begin_row, chars_within, settle_row, stamp_row, Page, Row};
use crate::text::{
    blank, boundary, byte_len, char_count, chars_of, decimal, is_blank, lemma_boundary_is_offset,
    lemma_char_count_offset, lemma_encode_injective, lemma_offset_ends, lemma_offset_is_boundary,
    lemma_offset_monotone, lemma_offset_split, lemma_offset_step, len_utf8, lines_of, offset,
    pad_right, push_decimal, push_padded, split_lines, str_len, white_space,
};
use crate::text_helpers::{
    first_boundary_after, last_boundary_before, lemma_boundary_neighbours, lemma_word_motions_move,
    next_char_boundary, next_word_boundary, next_word_end, next_word_start, prev_char_boundary,
    prev_word_boundary, word_end_after, word_start_before,
};

verus! {

broadcast use vstd::utf8::encode_utf8_valid_utf8;

/// The width of the column of timestamps, in cells.
pub const GUTTER_WIDTH: u16 = 9;

#[derive(Clone, Copy, Debug, PartialEq, Eq, Structural)]
pub enum AppMode {
    Normal,
    DeviceSelect,
}

/// A rectangle of terminal cells.
#[derive(Clone, Copy, Debug, PartialEq, Eq, Structural)]
pub struct Rect {
    pub x: u16,
    pub y: u16,
    pub width: u16,
    pub height: u16,
}

pub struct App {
    pub lines: Vec<String>,
    pub created_at: Vec<Timestamp>,
    pub edited_at: Vec<Option<Timestamp>>,
    /// A line is "settled" once the cursor has left it.
    /// Only settled lines get edited_at timestamps on modification.
    pub settled: Vec<bool>,
    /// A line is "begun" once something has been typed on it. The first character typed
    /// on an empty line that is not gives it its created_at timestamp.
    pub begun: Vec<bool>,
    pub cursor_line: usize,
    /// A byte offset into the cursor's line.
    pub cursor_col: usize,
    pub scroll: usize,
    pub start_time: Timestamp,
    pub output_path: String,
    pub message: Option<String>,
    pub editor_area: Rect,
    pub mode: AppMode,
    pub devices: Vec<String>,
    pub selected_device: usize,
    pub current_mic_name: String,
}

/// The cell lies inside the borders, right of the timestamps.
pub open spec fn in_text_area(area: Rect, col: int, row: int) -> bool {
    &&& area.x + 1 + GUTTER_WIDTH <= col < area.x + area.width - 1
    &&& area.y + 1 <= row < area.y + area.height - 1
}

/// The edges of the text area that a click at (`col`, `row`) is compared with, one
/// after the other until one decides, are numbers of 16 bits.
pub open spec fn click_defined(area: Rect, col: int, row: int) -> bool {
    &&& area.x + 1 + GUTTER_WIDTH <= u16::MAX
    &&& col >= area.x + 1 + GUTTER_WIDTH ==> 1 <= area.x + area.width <= u16::MAX
    &&& area.x + 1 + GUTTER_WIDTH <= col < area.x + area.width - 1 ==> {
        &&& area.y + 1 <= u16::MAX
        &&& row >= area.y + 1 ==> 1 <= area.y + area.height <= u16::MAX
    }
}

/// The message after `content` has been written to `path`.
pub open spec fn saved_text(content: Seq<char>, path: Seq<char>) -> Seq<char> {
    "Saved "@ + decimal(lines_of(content).len() as int) + " lines to "@ + path
}

/// The timestamp column beside row `i` of a page with the cursor in row `cursor`.
pub open spec fn gutter_text(
    rows: Seq<Row>,
    i: int,
    cursor: int,
    start: Timestamp,
) -> (Seq<char>, bool) {
    let (ts, edited) = rows[i].shown();
    let (prev_ts, prev_edited) = rows[i - 1].shown();
    let empty = pad_right(seq![], GUTTER_WIDTH as int);
    let mark = if edited {
        '~'
    } else {
        ' '
    };
    if blank(rows[i].text) && i != cursor {
        (empty, false)
    } else if i > 0 && ts.seconds_since(prev_ts) == 0 && edited == prev_edited {
        (empty, edited)
    } else {
        (seq![mark] + pad_right(time_text(ts, start), GUTTER_WIDTH - 1), edited)
    }
}

/// The rows that parsed entries become.
pub open spec fn resumed_rows(found: Seq<Entry>) -> Seq<Row> {
    Seq::new(
        found.len(),
        |i: int|
            Row {
                text: found[i].text,
                created: found[i].created,
                edited: found[i].edited,
                settled: true,
                begun: true,
            },
    )
}

/// `line` cut in two at byte `at`.
fn split_line(line: &str, at: usize) -> (r: (&str, &str))
    requires
        boundary(line@, at as int),
    ensures
        0 <= char_count(line@, at as int) <= line@.len(),
        r.0@ == line@.take(char_count(line@, at as int)),
        r.1@ == line@.skip(char_count(line@, at as int)),
{
    let ghost k = char_count(line@, at as int);
    proof {
        lemma_boundary_is_offset(line@, at as int);
        lemma_offset_split(line@, k);
    }
    let r = line.split_at(at);
    proof {
        lemma_encode_injective(r.0@, line@.take(k));
        lemma_encode_injective(r.1@, line@.skip(k));
    }
    r
}

/// `line` without its bytes from `from` up to `to`.
fn cut(line: &str, from: usize, to: usize) -> (r: String)
    requires
        boundary(line@, from as int),
        boundary(line@, to as int),
    ensures
        r@ == line@.take(char_count(line@, from as int)) + line@.skip(
            char_count(line@, to as int),
        ),
{
    let head = split_line(line, from).0;
    let tail = split_line(line, to).1;
    head.to_owned().concat(tail)
}

impl App {
    /// The row that line `i` stands for.
    pub open spec fn row(&self, i: int) -> Row {
        Row {
            text: self.lines@[i]@,
            created: self.created_at@[i],
            edited: self.edited_at@[i],
            settled: self.settled@[i],
            begun: self.begun@[i],
        }
    }

    pub open spec fn rows(&self) -> Seq<Row> {
        Seq::new(self.lines@.len(), |i: int| self.row(i))
    }

    /// The page that the editor shows.
    pub open spec fn page(&self) -> Page {
        Page {
            rows: self.rows(),
            line: self.cursor_line as int,
            col: char_count(self.lines@[self.cursor_line as int]@, self.cursor_col as int),
        }
    }

    /// Every line has its times, all times are valid, and the cursor's line is
    /// one of them.
    pub open spec fn wf_lines(&self) -> bool {
        &&& self.created_at@.len() == self.lines@.len()
        &&& self.edited_at@.len() == self.lines@.len()
        &&& self.settled@.len() == self.lines@.len()
        &&& self.begun@.len() == self.lines@.len()
        &&& self.start_time.valid()
        &&& forall|i: int| 0 <= i < self.lines@.len() ==> (#[trigger] self.created_at@[i]).valid()
        &&& forall|i: int|
            0 <= i < self.lines@.len() ==> ((#[trigger] self.edited_at@[i]) matches Some(t)
                ==> t.valid())
        &&& self.cursor_line < self.lines@.len()
    }

    /// Besides, the cursor stands between two characters of its line.
    pub open spec fn wf(&self) -> bool {
        &&& self.wf_lines()
        &&& boundary(self.lines@[self.cursor_line as int]@, self.cursor_col as int)
    }

    /// Nothing differs but the lines and the cursor.
    pub open spec fn same_surroundings(&self, other: &App) -> bool {
        &&& self.scroll == other.scroll
        &&& self.start_time == other.start_time
        &&& self.output_path == other.output_path
        &&& self.message == other.message
        &&& self.editor_area == other.editor_area
        &&& self.mode == other.mode
        &&& self.devices == other.devices
        &&& self.selected_device == other.selected_device
        &&& self.current_mic_name == other.current_mic_name
    }

    /// An empty page, started at `start_time`, with its one line made at `now`.
    pub fn new(
        output_path: String,
        start_time: Timestamp,
        mic_name: String,
        now: Timestamp,
    ) -> (r: App)
        requires
            start_time.valid(),
            now.valid(),
        ensures
            r.wf(),
            r.page() == (Page { rows: seq![Row::fresh(seq![], now)], line: 0, col: 0 }),
            r.fresh_surroundings(output_path, start_time, mic_name),
            r.scroll == 0,
    {
        let app = App::from_parsed(Vec::new(), output_path, start_time, mic_name, now);
        assert(app.page().rows =~= seq![Row::fresh(seq![], now)]);
        app
    }

    /// Nothing shown, nothing selected, with the path, the start and the
    /// microphone given.
    pub open spec fn fresh_surroundings(
        &self,
        output_path: String,
        start_time: Timestamp,
        mic_name: String,
    ) -> bool {
        &&& self.output_path == output_path
        &&& self.start_time == start_time
        &&& self.current_mic_name == mic_name
        &&& self.message is None
        &&& self.editor_area == (Rect { x: 0, y: 0, width: 0, height: 0 })
        &&& self.mode == AppMode::Normal
        &&& self.devices@.len() == 0
        &&& self.selected_device == 0
    }

    /// Reconstruct App state from parsed markdown lines (for --resume): they are
    /// settled, and an empty line to go on typing in comes after them.
    #[verifier::rlimit(30)]
    pub fn from_parsed(
        parsed: Vec<ParsedLine>,
        output_path: String,
        start_time: Timestamp,
        mic_name: String,
        now: Timestamp,
    ) -> (r: App)
        requires
            start_time.valid(),
            now.valid(),
            forall|i: int| 0 <= i < parsed@.len() ==> (#[trigger] parsed@[i]).valid(),
        ensures
            r.wf(),
            r.page() == (Page {
                rows: resumed_rows(entries(parsed@)).push(Row::fresh(seq![], now)),
                line: parsed@.len() as int,
                col: 0,
            }),
            r.fresh_surroundings(output_path, start_time, mic_name),
            r.scroll == (if parsed@.len() >= 10 {
                parsed@.len() - 10
            } else {
                0
            }),
            r.scroll <= r.cursor_line <= r.scroll + 10,
            r.scroll == 0 || r.cursor_line == r.scroll + 10,
    {
        let mut lines: Vec<String> = Vec::new();
        let mut created_at: Vec<Timestamp> = Vec::new();
        let mut edited_at: Vec<Option<Timestamp>> = Vec::new();
        let mut settled: Vec<bool> = Vec::new();
        let mut begun: Vec<bool> = Vec::new();
        let mut i: usize = 0;
        while i < parsed.len()
            invariant
                i <= parsed@.len(),
                forall|k: int| 0 <= k < parsed@.len() ==> (#[trigger] parsed@[k]).valid(),
                lines@.len() == i,
                created_at@.len() == i,
                edited_at@.len() == i,
                settled@.len() == i,
                begun@.len() == i,
                forall|k: int| 0 <= k < i ==> (#[trigger] lines@[k])@ == parsed@[k].text@,
                forall|k: int| 0 <= k < i ==> #[trigger] created_at@[k] == parsed@[k].created_at,
                forall|k: int| 0 <= k < i ==> #[trigger] edited_at@[k] == parsed@[k].edited_at,
                forall|k: int| 0 <= k < i ==> #[trigger] settled@[k],
                forall|k: int| 0 <= k < i ==> #[trigger] begun@[k],
            decreases parsed@.len() - i,
        {
            assert(parsed@[i as int].valid());
            lines.push(parsed[i].text.as_str().to_owned());
            created_at.push(parsed[i].created_at);
            edited_at.push(parsed[i].edited_at);
            settled.push(true);
            begun.push(true);
            i += 1;
        }
        lines.push(String::new());
        created_at.push(now);
        edited_at.push(None);
        settled.push(false);
        begun.push(false);
        let cursor_line = lines.len() - 1;
        let ghost text = lines@[cursor_line as int]@;
        proof {
            lemma_offset_ends(text);
            lemma_offset_is_boundary(text, 0);
            lemma_char_count_offset(text, 0);
            assert forall|k: int| 0 <= k < parsed@.len() implies (#[trigger] created_at@[k]).valid()
                && (edited_at@[k] matches Some(t) ==> t.valid()) by {
                assert(parsed@[k].valid());
            }
        }
        let app = App {
            lines,
            created_at,
            edited_at,
            settled,
            begun,
            cursor_line,
            cursor_col: 0,
            scroll: if cursor_line >= 10 {
                cursor_line - 10
            } else {
                0
            },
            start_time,
            output_path,
            message: None,
            editor_area: Rect { x: 0, y: 0, width: 0, height: 0 },
            mode: AppMode::Normal,
            devices: Vec::new(),
            selected_device: 0,
            current_mic_name: mic_name,
        };
        assert(app.rows() =~= resumed_rows(entries(parsed@)).push(Row::fresh(seq![], now)));
        app
    }

    /// An edit of line `line` at `now`: a settled line takes the time.
    pub fn mark_edited(&mut self, line: usize, now: Timestamp)
        requires
            old(self).wf(),
            now.valid(),
        ensures
            final(self).wf(),
            final(self).rows() == stamp_row(old(self).rows(), line as int, now),
            final(self).lines == old(self).lines,
            final(self).cursor_line == old(self).cursor_line,
            final(self).cursor_col == old(self).cursor_col,
            final(self).same_surroundings(old(self)),
    {
        if line < self.settled.len() && self.settled[line] {
            self.edited_at[line] = Some(now);
            self.settled[line] = false;
        }
        assert(self.rows() =~= stamp_row(old(self).rows(), line as int, now));
    }

    /// Mark the old line as settled when the cursor moves to a different line.
    pub fn settle_on_move(&mut self, old_line: usize)
        requires
            old(self).wf(),
        ensures
            final(self).wf(),
            final(self).rows() == settle_row(old(self).rows(), old_line as int),
            final(self).lines == old(self).lines,
            final(self).cursor_line == old(self).cursor_line,
            final(self).cursor_col == old(self).cursor_col,
            final(self).same_surroundings(old(self)),
    {
        if old_line < self.settled.len() {
            self.settled[old_line] = true;
        }
        assert(self.rows() =~= settle_row(old(self).rows(), old_line as int));
    }

    /// Something is typed on line `line` at `now`: an untouched line takes the time.
    fn begin_line(&mut self, line: usize, now: Timestamp)
        requires
            old(self).wf(),
            now.valid(),
        ensures
            final(self).wf(),
            final(self).rows() == begin_row(old(self).rows(), line as int, now),
            final(self).lines == old(self).lines,
            final(self).cursor_line == old(self).cursor_line,
            final(self).cursor_col == old(self).cursor_col,
            final(self).same_surroundings(old(self)),
    {
        if line < self.lines.len() {
            if self.lines[line].as_str().is_empty() && !self.begun[line] {
                self.created_at[line] = now;
                self.edited_at[line] = None;
            }
            self.begun[line] = true;
        }
        assert(self.rows() =~= begin_row(old(self).rows(), line as int, now));
    }

    /// Line `line` has its time for good, also if nothing has been typed on it.
    pub fn keep_time(&mut self, line: usize)
        requires
            old(self).wf(),
            line < old(self).lines@.len(),
        ensures
            final(self).wf(),
            final(self).page() == (Page {
                rows: old(self).rows().update(
                    line as int,
                    Row { begun: true, ..old(self).row(line as int) },
                ),
                ..old(self).page()
            }),
            final(self).same_surroundings(old(self)),
    {
        self.begun[line] = true;
        assert(self.rows() =~= old(self).rows().update(
            line as int,
            Row { begun: true, ..old(self).row(line as int) },
        ));
    }

    /// The current line becomes `text` and the cursor goes to byte `col` of it,
    /// which is character `k`.
    fn retype(&mut self, text: String, col: usize, Ghost(k): Ghost<int>, now: Timestamp)
        requires
            old(self).wf(),
            now.valid(),
            0 <= k <= text@.len(),
            col == offset(text@, k),
        ensures
            final(self).wf(),
            final(self).page() == old(self).page().retype(text@, k, now),
            final(self).same_surroundings(old(self)),
    {
        let line = self.cursor_line;
        self.lines[line] = text;
        self.cursor_col = col;
        proof {
            lemma_offset_is_boundary(text@, k);
            lemma_char_count_offset(text@, k);
        }
        self.mark_edited(line, now);
        assert(self.page().rows =~= old(self).page().retype(text@, k, now).rows);
    }

    // --- Times ---

    /// The seconds from the start of the session to `now`.
    pub fn elapsed_secs(&self, now: Timestamp) -> (r: i64)
        requires
            self.start_time.valid(),
            now.valid(),
        ensures
            r == now.seconds_since(self.start_time),
    {
        now.secs_since(&self.start_time)
    }

    fn push_time(&self, out: &mut String, ts: &Timestamp)
        requires
            self.start_time.valid(),
            ts.valid(),
        ensures
            final(out)@ == old(out)@ + time_text(*ts, self.start_time),
    {
        let elapsed = ts.secs_since(&self.start_time);
        push_clock(
            out,
            if elapsed < 0 {
                0
            } else {
                elapsed
            },
        );
    }

    /// `ts` as a time of the session: `MM:SS`, or `HH:MM:SS` from an hour on.
    pub fn format_time(&self, ts: &Timestamp) -> (r: String)
        requires
            self.start_time.valid(),
            ts.valid(),
        ensures
            r@ == time_text(*ts, self.start_time),
    {
        let mut out = String::new();
        self.push_time(&mut out, ts);
        assert(out@ =~= time_text(*ts, self.start_time));
        out
    }

    /// The time shown beside line `i`, and whether it is that of an edit.
    pub fn display_ts(&self, i: usize) -> (r: (Timestamp, bool))
        requires
            self.wf_lines(),
            i < self.lines@.len(),
        ensures
            r == self.row(i as int).shown(),
            r.0.valid(),
    {
        match self.edited_at[i] {
            Some(t) => (t, true),
            None => (self.created_at[i], false),
        }
    }

    /// The timestamp column beside line `i`: its text, and whether it shows the
    /// time of an edit. It is left empty beside a blank line without the cursor,
    /// and where the line above shows the same second.
    pub fn gutter_label(&self, i: usize) -> (r: (String, bool))
        requires
            self.wf_lines(),
            i < self.lines@.len(),
        ensures
            (r.0@, r.1) == gutter_text(
                self.rows(),
                i as int,
                self.cursor_line as int,
                self.start_time,
            ),
    {
        let mut out = String::new();
        if i != self.cursor_line && is_blank(self.lines[i].as_str()) {
            push_padded(&mut out, "", GUTTER_WIDTH as usize);
            proof {
                reveal_strlit("");
                assert(out@ =~= pad_right(seq![], GUTTER_WIDTH as int));
            }
            return (out, false);
        }
        let (ts, edited) = self.display_ts(i);
        if i > 0 {
            let (prev_ts, prev_edited) = self.display_ts(i - 1);
            if ts.secs_since(&prev_ts) == 0 && edited == prev_edited {
                push_padded(&mut out, "", GUTTER_WIDTH as usize);
                proof {
                    reveal_strlit("");
                    assert(out@ =~= pad_right(seq![], GUTTER_WIDTH as int));
                }
                return (out, edited);
            }
        }
        let time_str = self.format_time(&ts);
        out.push(
            if edited {
                '~'
            } else {
                ' '
            },
        );
        push_padded(&mut out, time_str.as_str(), GUTTER_WIDTH as usize - 1);
        proof {
            let mark = if edited {
                '~'
            } else {
                ' '
            };
            assert(out@ =~= seq![mark] + pad_right(time_str@, GUTTER_WIDTH - 1));
        }
        (out, edited)
    }

    // --- Editing ---

    pub fn insert_char(&mut self, c: char, now: Timestamp)
        requires
            old(self).wf(),
            now.valid(),
        ensures
            final(self).wf(),
            final(self).page() == old(self).page().insert_char(c, now),
            final(self).same_surroundings(old(self)),
    {
        let ghost text = self.lines@[self.cursor_line as int]@;
        let ghost k = self.page().col;
        let parts = split_line(self.lines[self.cursor_line].as_str(), self.cursor_col);
        let mut line = parts.0.to_owned();
        line.push(c);
        line.append(parts.1);
        let len = str_len(line.as_str());
        proof {
            lemma_boundary_is_offset(text, self.cursor_col as int);
            assert(line@ =~= text.insert(k, c));
            assert(line@.take(k) =~= text.take(k));
            lemma_offset_step(line@, k);
            lemma_offset_split(line@, k + 1);
        }
        let col = self.cursor_col + len_utf8(c);
        let at = self.cursor_line;
        self.begin_line(at, now);
        self.retype(line, col, Ghost(k + 1), now);
    }

    #[verifier::rlimit(30)]
    pub fn enter(&mut self, now: Timestamp)
        requires
            old(self).wf(),
            now.valid(),
        ensures
            final(self).wf(),
            final(self).page() == old(self).page().enter(now),
            final(self).same_surroundings(old(self)),
    {
        let ghost page = self.page();
        let old_line = self.cursor_line;
        let col = self.cursor_col;
        let parts = split_line(self.lines[old_line].as_str(), col);
        let head = parts.0.to_owned();
        let rest = parts.1.to_owned();
        let split = !rest.as_str().is_empty() && col > 0;
        proof {
            lemma_boundary_is_offset(page.text(), col as int);
            lemma_offset_ends(page.text());
            if page.col > 0 {
                lemma_offset_monotone(page.text(), 0, page.col);
            }
            lemma_char_count_offset(head@, head@.len() as int);
            lemma_offset_is_boundary(head@, head@.len() as int);
            assert(head@.take(head@.len() as int) =~= head@);
        }
        self.lines[old_line] = head;
        assert(self.rows() =~= page.rows.update(
            page.line,
            page.rows[page.line].with_text(page.text().take(page.col)),
        ));
        if split {
            self.mark_edited(old_line, now);
        }
        self.settle_on_move(old_line);
        assert(old_line < self.lines.len());
        let line = old_line + 1;
        self.insert_line(line, rest, now);
        assert(self.page().rows =~= page.enter(now).rows);
    }

    /// A fresh line is put in as line `line`, and the cursor goes to its start.
    #[verifier::rlimit(30)]
    fn insert_line(&mut self, line: usize, text: String, now: Timestamp)
        requires
            old(self).wf_lines(),
            now.valid(),
            line <= old(self).lines@.len(),
        ensures
            final(self).wf(),
            final(self).page() == (Page {
                rows: old(self).rows().insert(line as int, Row::fresh(text@, now)),
                line: line as int,
                col: 0,
            }),
            final(self).same_surroundings(old(self)),
    {
        self.lines.insert(line, text);
        self.created_at.insert(line, now);
        self.edited_at.insert(line, None);
        self.settled.insert(line, false);
        self.begun.insert(line, false);
        self.cursor_line = line;
        self.cursor_col = 0;
        proof {
            lemma_offset_ends(text@);
            lemma_offset_is_boundary(text@, 0);
            lemma_char_count_offset(text@, 0);
            assert forall|i: int| 0 <= i < self.lines@.len() implies (
            #[trigger] self.created_at@[i]).valid() by {
                if i != line {
                    let k = if i < line { i } else { i - 1 };
                    assert(old(self).created_at@[k].valid());
                }
            }
            assert forall|i: int| 0 <= i < self.lines@.len() implies ((
            #[trigger] self.edited_at@[i]) matches Some(t) ==> t.valid()) by {
                if i != line {
                    let k = if i < line { i } else { i - 1 };
                    assert(old(self).edited_at@[k] == self.edited_at@[i]);
                }
            }
        }
        assert(self.rows() =~= old(self).rows().insert(line as int, Row::fresh(text@, now)));
    }

    /// Line `line` is taken out, with its times, and its text is returned.
    fn remove_line(&mut self, line: usize) -> (r: String)
        requires
            old(self).created_at@.len() == old(self).lines@.len(),
            old(self).edited_at@.len() == old(self).lines@.len(),
            old(self).settled@.len() == old(self).lines@.len(),
            old(self).begun@.len() == old(self).lines@.len(),
            line < old(self).lines@.len(),
        ensures
            r@ == old(self).lines@[line as int]@,
            final(self).lines@ == old(self).lines@.remove(line as int),
            final(self).created_at@ == old(self).created_at@.remove(line as int),
            final(self).edited_at@ == old(self).edited_at@.remove(line as int),
            final(self).settled@ == old(self).settled@.remove(line as int),
            final(self).begun@ == old(self).begun@.remove(line as int),
            final(self).rows() == old(self).rows().remove(line as int),
            final(self).cursor_line == old(self).cursor_line,
            final(self).cursor_col == old(self).cursor_col,
            final(self).same_surroundings(old(self)),
    {
        let text = self.lines.remove(line);
        self.created_at.remove(line);
        self.edited_at.remove(line);
        self.settled.remove(line);
        self.begun.remove(line);
        assert(self.rows() =~= old(self).rows().remove(line as int));
        text
    }

    #[verifier::rlimit(30)]
    pub fn backspace(&mut self, now: Timestamp)
        requires
            old(self).wf(),
            now.valid(),
        ensures
            final(self).wf(),
            final(self).page() == old(self).page().backspace(now),
            final(self).same_surroundings(old(self)),
    {
        let ghost page = self.page();
        let ghost text = page.text();
        proof {
            lemma_boundary_is_offset(text, self.cursor_col as int);
            lemma_offset_ends(text);
        }
        if self.cursor_col > 0 {
            let prev = prev_char_boundary(self.lines[self.cursor_line].as_str(), self.cursor_col);
            proof {
                lemma_boundary_neighbours(text, page.col);
                lemma_offset_split(text, page.col);
                lemma_char_count_offset(text, page.col - 1);
                lemma_same_last_boundary(
                    text,
                    self.cursor_col as int,
                    prev as int,
                    offset(text, page.col - 1),
                );
            }
            let line = cut(self.lines[self.cursor_line].as_str(), prev, self.cursor_col);
            proof {
                assert(line@ =~= text.remove(page.col - 1));
                assert(line@.take(page.col - 1) =~= text.take(page.col - 1));
            }
            self.retype(line, prev, Ghost(page.col - 1), now);
        } else if self.cursor_line > 0 {
            let old_line = self.cursor_line;
            let current = self.remove_line(old_line);
            let ghost fewer = self.rows();
            let ghost above = fewer[old_line - 1].text;
            let count = self.lines.len();
            let next = if old_line < count {
                old_line
            } else {
                count - 1
            };
            self.cursor_line = old_line - 1;
            let col = str_len(self.lines[old_line - 1].as_str());
            self.cursor_col = col;
            proof {
                lemma_offset_ends(above);
                lemma_offset_is_boundary(above, above.len() as int);
                lemma_char_count_offset(above, above.len() as int);
            }
            self.settle_on_move(next);
            let joined = self.lines[old_line - 1].as_str().to_owned().concat(current.as_str());
            proof {
                assert(joined@ =~= above + text);
                assert(joined@.take(above.len() as int) =~= above);
            }
            self.retype(joined, col, Ghost(above.len() as int), now);
            assert(self.page().rows =~= page.join_up(now).rows);
        } else {
            proof {
                if page.col > 0 {
                    lemma_offset_monotone(text, 0, page.col);
                }
            }
        }
    }

    #[verifier::rlimit(30)]
    pub fn delete(&mut self, now: Timestamp)
        requires
            old(self).wf(),
            now.valid(),
        ensures
            final(self).wf(),
            final(self).page() == old(self).page().delete(now),
            final(self).same_surroundings(old(self)),
    {
        let ghost page = self.page();
        let ghost text = page.text();
        let len = str_len(self.lines[self.cursor_line].as_str());
        proof {
            lemma_boundary_is_offset(text, self.cursor_col as int);
            lemma_offset_ends(text);
            if page.col < text.len() {
                lemma_offset_monotone(text, page.col, text.len() as int);
            }
        }
        if self.cursor_col < len {
            let next = next_char_boundary(self.lines[self.cursor_line].as_str(), self.cursor_col);
            proof {
                lemma_boundary_neighbours(text, page.col);
                lemma_char_count_offset(text, page.col + 1);
                lemma_same_first_boundary(
                    text,
                    self.cursor_col as int,
                    next as int,
                    offset(text, page.col + 1),
                );
            }
            let line = cut(self.lines[self.cursor_line].as_str(), self.cursor_col, next);
            proof {
                assert(line@ =~= text.remove(page.col));
                assert(line@.take(page.col) =~= text.take(page.col));
            }
            let col = self.cursor_col;
            self.retype(line, col, Ghost(page.col), now);
        } else if self.cursor_line < self.lines.len() - 1 {
            let line = self.cursor_line;
            let next_line = self.remove_line(line + 1);
            let joined = self.lines[line].as_str().to_owned().concat(next_line.as_str());
            proof {
                assert(joined@.take(page.col) =~= text.take(page.col));
            }
            let col = self.cursor_col;
            self.retype(joined, col, Ghost(page.col), now);
            assert(self.page().rows =~= page.join_down(now).rows);
        }
    }

    pub fn delete_word_back(&mut self, now: Timestamp)
        requires
            old(self).wf(),
            now.valid(),
        ensures
            final(self).wf(),
            final(self).page() == old(self).page().delete_word_back(now),
            final(self).same_surroundings(old(self)),
    {
        let ghost page = self.page();
        let ghost text = page.text();
        proof {
            lemma_cursor_start(text, self.cursor_col as int);
        }
        if self.cursor_col == 0 {
            self.backspace(now);
            return;
        }
        let start = prev_word_boundary(self.lines[self.cursor_line].as_str(), self.cursor_col);
        let ghost k = word_start_before(text, page.col);
        proof {
            lemma_word_motions_move(text, page.col);
            lemma_offset_is_boundary(text, k);
            lemma_char_count_offset(text, k);
        }
        let line = cut(self.lines[self.cursor_line].as_str(), start, self.cursor_col);
        assert(line@.take(k) =~= text.take(k));
        self.retype(line, start, Ghost(k), now);
    }

    pub fn delete_to_line_start(&mut self, now: Timestamp)
        requires
            old(self).wf(),
            now.valid(),
        ensures
            final(self).wf(),
            final(self).page() == old(self).page().delete_to_line_start(now),
            final(self).same_surroundings(old(self)),
    {
        proof {
            lemma_cursor_start(self.page().text(), self.cursor_col as int);
        }
        if self.cursor_col == 0 {
            return;
        }
        let line = split_line(self.lines[self.cursor_line].as_str(), self.cursor_col).1.to_owned();
        proof {
            lemma_offset_ends(line@);
        }
        self.retype(line, 0, Ghost(0), now);
    }

    pub fn delete_word_forward(&mut self, now: Timestamp)
        requires
            old(self).wf(),
            now.valid(),
        ensures
            final(self).wf(),
            final(self).page() == old(self).page().delete_word_forward(now),
            final(self).same_surroundings(old(self)),
    {
        let ghost page = self.page();
        let ghost text = page.text();
        let len = str_len(self.lines[self.cursor_line].as_str());
        proof {
            lemma_cursor_end(text, self.cursor_col as int);
        }
        if self.cursor_col >= len {
            self.delete(now);
            return;
        }
        let to = next_word_boundary(self.lines[self.cursor_line].as_str(), self.cursor_col);
        let ghost k = next_word_start(text, page.col);
        proof {
            lemma_word_motions_move(text, page.col);
            lemma_offset_is_boundary(text, k);
            lemma_char_count_offset(text, k);
        }
        let line = cut(self.lines[self.cursor_line].as_str(), self.cursor_col, to);
        assert(line@.take(page.col) =~= text.take(page.col));
        let col = self.cursor_col;
        self.retype(line, col, Ghost(page.col), now);
    }

    // --- Mouse ---

    /// A click on cell (`col`, `row`) of the screen. Inside the text area it puts
    /// the cursor there: at the line shown in that row, if there is one, and the
    /// byte of that column, or the nearest boundary before it.
    pub fn handle_click(&mut self, col: u16, row: u16)
        requires
            old(self).wf(),
            click_defined(old(self).editor_area, col as int, row as int),
            in_text_area(old(self).editor_area, col as int, row as int) ==> row
                - old(self).editor_area.y - 1 + old(self).scroll <= usize::MAX,
        ensures
            final(self).wf(),
            final(self).page() == (if in_text_area(
                old(self).editor_area,
                col as int,
                row as int,
            ) {
                old(self).page().click(
                    row - old(self).editor_area.y - 1 + old(self).scroll,
                    col - old(self).editor_area.x - 1 - GUTTER_WIDTH,
                )
            } else {
                old(self).page()
            }),
            final(self).same_surroundings(old(self)),
    {
        let area = self.editor_area;
        let border: u16 = 1;
        if col < area.x + border + GUTTER_WIDTH || col >= area.x + area.width - border {
            return;
        }
        if row < area.y + border || row >= area.y + area.height - border {
            return;
        }
        let click_line = (row - area.y - border) as usize + self.scroll;
        let click_col = (col - area.x - border - GUTTER_WIDTH) as usize;
        if click_line < self.lines.len() {
            let ghost page = self.page();
            let old_line = self.cursor_line;
            self.cursor_line = click_line;
            self.cursor_col = click_col;
            self.snap_cursor_to_line();
            assert(self.rows() =~= page.rows);
            if old_line != click_line {
                self.settle_on_move(old_line);
            }
        }
    }

    // --- Export ---

    /// Appends what is written of line `i`.
    #[verifier::rlimit(30)]
    fn push_row(&self, out: &mut String, i: usize)
        requires
            self.wf_lines(),
            i < self.lines@.len(),
        ensures
            final(out)@ == old(out)@ + row_text(self.row(i as int), self.start_time),
    {
        if !is_blank(self.lines[i].as_str()) {
            out.push('[');
            self.push_time(out, &self.created_at[i]);
            match self.edited_at[i] {
                Some(et) => {
                    out.push(' ');
                    out.push('~');
                    self.push_time(out, &et);
                },
                None => {},
            }
            out.push(']');
            out.push(' ');
            out.append(self.lines[i].as_str());
            out.push('\n');
        }
        assert(out@ =~= old(out)@ + row_text(self.row(i as int), self.start_time));
    }

    /// The memo: every line that is not blank, with its times.
    #[verifier::rlimit(30)]
    pub fn export(&self) -> (r: String)
        requires
            self.wf_lines(),
        ensures
            r@ == memo_text(self.rows(), self.start_time),
    {
        let mut out = String::new();
        let mut i: usize = 0;
        let ghost rows = self.rows();
        assert(rows.take(0) =~= seq![]);
        assert(out@ =~= memo_text(rows.take(0), self.start_time));
        while i < self.lines.len()
            invariant
                i <= self.lines@.len(),
                self.wf_lines(),
                rows == self.rows(),
                out@ == memo_text(rows.take(i as int), self.start_time),
            decreases self.lines@.len() - i,
        {
            assert(rows.take(i + 1).drop_last() =~= rows.take(i as int));
            self.push_row(&mut out, i);
            i += 1;
        }
        assert(rows.take(i as int) =~= rows);
        out
    }

    /// Whether any line holds more than white space.
    pub fn has_notes(&self) -> (r: bool)
        ensures
            r == exists|i: int| 0 <= i < self.lines@.len() && !blank(#[trigger] self.lines@[i]@),
            r <==> exists|i: int, k: int|
                0 <= i < self.lines@.len() && 0 <= k < self.lines@[i]@.len() && !white_space(
                    #[trigger] self.lines@[i]@[k],
                ),
    {
        let mut i: usize = 0;
        while i < self.lines.len()
            invariant
                i <= self.lines@.len(),
                forall|k: int| 0 <= k < i ==> blank(#[trigger] self.lines@[k]@),
            decreases self.lines@.len() - i,
        {
            if !is_blank(self.lines[i].as_str()) {
                return true;
            }
            i += 1;
        }
        false
    }

    /// Tells the user that `content` has been written to the output path.
    pub fn mark_saved(&mut self, content: &str)
        ensures
            *final(self) == (App { message: final(self).message, ..*old(self) }),
            final(self).message matches Some(m) && m@ == saved_text(content@, old(self).output_path@),
    {
        let count = split_lines(&chars_of(content)).len();
        let mut m = "Saved ".to_owned();
        push_decimal(&mut m, count as u64);
        m.append(" lines to ");
        m.append(self.output_path.as_str());
        self.message = Some(m);
    }

    // --- Navigation ---

    /// The cursor goes to byte `col`, character `k`, of line `line`, and the line
    /// it leaves is settled.
    fn leave_for(&mut self, line: usize, col: usize, Ghost(k): Ghost<int>)
        requires
            old(self).wf(),
            line < old(self).lines@.len(),
            0 <= k <= old(self).lines@[line as int]@.len(),
            col == offset(old(self).lines@[line as int]@, k),
        ensures
            final(self).wf(),
            final(self).page() == old(self).page().leave_for(line as int, k),
            final(self).same_surroundings(old(self)),
    {
        let old_line = self.cursor_line;
        self.cursor_line = line;
        self.cursor_col = col;
        proof {
            lemma_offset_is_boundary(self.lines@[line as int]@, k);
            lemma_char_count_offset(self.lines@[line as int]@, k);
        }
        assert(self.rows() =~= old(self).rows());
        self.settle_on_move(old_line);
    }

    /// The cursor goes to byte `col`, character `k`, of its line.
    fn set_col(&mut self, col: usize, Ghost(k): Ghost<int>)
        requires
            old(self).wf(),
            0 <= k <= old(self).page().text().len(),
            col == offset(old(self).page().text(), k),
        ensures
            final(self).wf(),
            final(self).page() == (Page { col: k, ..old(self).page() }),
            final(self).same_surroundings(old(self)),
    {
        self.cursor_col = col;
        proof {
            lemma_offset_is_boundary(old(self).page().text(), k);
            lemma_char_count_offset(old(self).page().text(), k);
        }
        assert(self.rows() =~= old(self).rows());
    }

    /// To the end of the line above, if there is one.
    fn to_end_above(&mut self)
        requires
            old(self).wf(),
        ensures
            final(self).wf(),
            final(self).page() == old(self).page().to_end_above(),
            final(self).same_surroundings(old(self)),
    {
        if self.cursor_line > 0 {
            let line = self.cursor_line - 1;
            let len = str_len(self.lines[line].as_str());
            proof {
                lemma_offset_ends(self.lines@[line as int]@);
            }
            self.leave_for(line, len, Ghost(self.lines@[line as int]@.len() as int));
        }
    }

    /// To the start of the line below, if there is one.
    fn to_start_below(&mut self)
        requires
            old(self).wf(),
        ensures
            final(self).wf(),
            final(self).page() == old(self).page().to_start_below(),
            final(self).same_surroundings(old(self)),
    {
        if self.cursor_line < self.lines.len() - 1 {
            let line = self.cursor_line + 1;
            proof {
                lemma_offset_ends(self.lines@[line as int]@);
            }
            self.leave_for(line, 0, Ghost(0));
        }
    }

    pub fn move_left(&mut self)
        requires
            old(self).wf(),
        ensures
            final(self).wf(),
            final(self).page() == old(self).page().move_left(),
            final(self).same_surroundings(old(self)),
    {
        let ghost text = self.page().text();
        let ghost k = self.page().col;
        proof {
            lemma_cursor_start(text, self.cursor_col as int);
        }
        if self.cursor_col > 0 {
            let prev = prev_char_boundary(self.lines[self.cursor_line].as_str(), self.cursor_col);
            proof {
                lemma_boundary_neighbours(text, k);
                lemma_offset_split(text, k);
                lemma_same_last_boundary(
                    text,
                    self.cursor_col as int,
                    prev as int,
                    offset(text, k - 1),
                );
            }
            self.set_col(prev, Ghost(k - 1));
        } else {
            self.to_end_above();
        }
    }

    pub fn move_right(&mut self)
        requires
            old(self).wf(),
        ensures
            final(self).wf(),
            final(self).page() == old(self).page().move_right(),
            final(self).same_surroundings(old(self)),
    {
        let ghost text = self.page().text();
        let ghost k = self.page().col;
        let len = str_len(self.lines[self.cursor_line].as_str());
        proof {
            lemma_cursor_end(text, self.cursor_col as int);
        }
        if self.cursor_col < len {
            let next = next_char_boundary(self.lines[self.cursor_line].as_str(), self.cursor_col);
            proof {
                lemma_boundary_neighbours(text, k);
                lemma_same_first_boundary(
                    text,
                    self.cursor_col as int,
                    next as int,
                    offset(text, k + 1),
                );
            }
            self.set_col(next, Ghost(k + 1));
        } else {
            self.to_start_below();
        }
    }

    /// To line `line`, at the same byte column or the nearest boundary before it.
    fn to_row(&mut self, line: usize)
        requires
            old(self).wf(),
            line < old(self).lines@.len(),
            line != old(self).cursor_line,
        ensures
            final(self).wf(),
            final(self).page() == old(self).page().to_row(line as int),
            final(self).same_surroundings(old(self)),
    {
        let ghost page = self.page();
        let old_line = self.cursor_line;
        proof {
            lemma_cursor_start(page.text(), self.cursor_col as int);
        }
        self.cursor_line = line;
        self.snap_cursor_to_line();
        assert(self.rows() =~= page.rows);
        self.settle_on_move(old_line);
    }

    pub fn move_up(&mut self)
        requires
            old(self).wf(),
        ensures
            final(self).wf(),
            final(self).page() == old(self).page().move_up(),
            final(self).same_surroundings(old(self)),
    {
        if self.cursor_line > 0 {
            let line = self.cursor_line - 1;
            self.to_row(line);
        }
    }

    pub fn move_down(&mut self)
        requires
            old(self).wf(),
        ensures
            final(self).wf(),
            final(self).page() == old(self).page().move_down(),
            final(self).same_surroundings(old(self)),
    {
        if self.cursor_line < self.lines.len() - 1 {
            let line = self.cursor_line + 1;
            self.to_row(line);
        }
    }

    pub fn move_word_left(&mut self)
        requires
            old(self).wf(),
        ensures
            final(self).wf(),
            final(self).page() == old(self).page().move_word_left(),
            final(self).same_surroundings(old(self)),
    {
        let ghost page = self.page();
        proof {
            lemma_cursor_start(page.text(), self.cursor_col as int);
            lemma_word_motions_move(page.text(), page.col);
        }
        if self.cursor_col == 0 {
            self.to_end_above();
            return;
        }
        let col = prev_word_boundary(self.lines[self.cursor_line].as_str(), self.cursor_col);
        self.set_col(col, Ghost(word_start_before(page.text(), page.col)));
    }

    pub fn move_word_right(&mut self)
        requires
            old(self).wf(),
        ensures
            final(self).wf(),
            final(self).page() == old(self).page().move_word_right(),
            final(self).same_surroundings(old(self)),
    {
        let ghost page = self.page();
        let len = str_len(self.lines[self.cursor_line].as_str());
        proof {
            lemma_cursor_end(page.text(), self.cursor_col as int);
            lemma_word_motions_move(page.text(), page.col);
        }
        if self.cursor_col >= len {
            self.to_start_below();
            return;
        }
        let col = next_word_end(self.lines[self.cursor_line].as_str(), self.cursor_col);
        self.set_col(col, Ghost(word_end_after(page.text(), page.col)));
    }

    pub fn home(&mut self)
        requires
            old(self).wf(),
        ensures
            final(self).wf(),
            final(self).page() == old(self).page().home(),
            final(self).same_surroundings(old(self)),
    {
        proof {
            lemma_offset_ends(self.page().text());
        }
        self.set_col(0, Ghost(0));
    }

    pub fn end(&mut self)
        requires
            old(self).wf(),
        ensures
            final(self).wf(),
            final(self).page() == old(self).page().end(),
            final(self).same_surroundings(old(self)),
    {
        let len = str_len(self.lines[self.cursor_line].as_str());
        proof {
            lemma_offset_ends(self.page().text());
        }
        self.set_col(len, Ghost(self.page().text().len() as int));
    }

    /// Brings the cursor back to the last boundary of its line that is not after
    /// it.
    pub fn snap_cursor_to_line(&mut self)
        requires
            old(self).wf_lines(),
        ensures
            final(self).wf(),
            final(self).page() == (Page {
                rows: old(self).rows(),
                line: old(self).cursor_line as int,
                col: chars_within(
                    old(self).lines@[old(self).cursor_line as int]@,
                    old(self).cursor_col as int,
                ),
            }),
            final(self).cursor_col <= old(self).cursor_col,
            final(self).same_surroundings(old(self)),
    {
        let ghost text = self.lines@[self.cursor_line as int]@;
        let ghost wanted = self.cursor_col as int;
        let len = str_len(self.lines[self.cursor_line].as_str());
        if self.cursor_col > len {
            self.cursor_col = len;
        }
        let ghost start = self.cursor_col as int;
        while self.cursor_col > 0 && !self.lines[self.cursor_line].as_str().is_char_boundary(
            self.cursor_col,
        )
            invariant
                self.wf_lines(),
                text == self.lines@[self.cursor_line as int]@,
                self.lines == old(self).lines,
                self.rows() == old(self).rows(),
                self.cursor_line == old(self).cursor_line,
                self.same_surroundings(old(self)),
                0 <= self.cursor_col <= start <= byte_len(text),
                forall|j: int| self.cursor_col < j <= start ==> !#[trigger] boundary(text, j),
            decreases self.cursor_col,
        {
            self.cursor_col -= 1;
        }
        proof {
            lemma_offset_is_boundary(text, 0);
            lemma_offset_ends(text);
            lemma_chars_within(text, wanted, self.cursor_col as int);
        }
    }

    /// Scrolls no further than it takes to have the cursor's line among the
    /// `visible_lines` shown.
    pub fn ensure_cursor_visible(&mut self, visible_lines: usize)
        requires
            visible_lines > 0 && old(self).scroll <= old(self).cursor_line ==> old(self).scroll
                + visible_lines <= usize::MAX,
        ensures
            *final(self) == (App {
                scroll: if visible_lines == 0 {
                    old(self).scroll
                } else if old(self).cursor_line < old(self).scroll {
                    old(self).cursor_line
                } else if old(self).cursor_line >= old(self).scroll + visible_lines {
                    (old(self).cursor_line - visible_lines + 1) as usize
                } else {
                    old(self).scroll
                },
                ..*old(self)
            }),
            visible_lines > 0 ==> final(self).scroll <= final(self).cursor_line
                < final(self).scroll + visible_lines,
    {
        if visible_lines == 0 {
            return;
        }
        if self.cursor_line < self.scroll {
            self.scroll = self.cursor_line;
        } else if self.cursor_line >= self.scroll + visible_lines {
            self.scroll = self.cursor_line - visible_lines + 1;
        }
    }
}

/// The last boundary that is not after byte `b` is where the characters that fit
/// in `b` bytes end.
pub proof fn lemma_chars_within(s: Seq<char>, b: int, at: int)
    requires
        b >= 0,
        boundary(s, at),
        0 <= at <= b,
        forall|j: int| at < j <= b && j <= byte_len(s) ==> !#[trigger] boundary(s, j),
    ensures
        chars_within(s, b) == char_count(s, at),
        0 <= chars_within(s, b) <= s.len(),
{
    lemma_cursor_end(s, at);
    lemma_chars_within_range(s, s.len() as int, b);
    let k = chars_within(s, b);
    assert(s.take(s.len() as int) =~= s);
    lemma_offset_ends(s);
    lemma_offset_is_boundary(s, k);
    lemma_offset_split(s, k);
    let m = char_count(s, at);
    if m < k {
        lemma_offset_monotone(s, m, k);
        assert(boundary(s, offset(s, k)));
    } else if k < m {
        lemma_offset_monotone(s, k, m);
        if k + 1 < m {
            lemma_offset_monotone(s, k + 1, m);
        }
    }
}

proof fn lemma_chars_within_range(s: Seq<char>, n: int, b: int)
    requires
        0 <= n <= s.len(),
        b >= 0,
    ensures
        0 <= chars_within(s.take(n), b) <= n,
        offset(s, chars_within(s.take(n), b)) <= b,
        chars_within(s.take(n), b) < n ==> offset(s, chars_within(s.take(n), b) + 1) > b,
    decreases n,
{
    lemma_offset_ends(s);
    if n == 0 || offset(s, n) <= b {
    } else {
        lemma_chars_within_range(s, n - 1, b);
        assert(s.take(n).drop_last() =~= s.take(n - 1));
    }
}

proof fn lemma_same_last_boundary(s: Seq<char>, i: int, a: int, b: int)
    requires
        last_boundary_before(s, i, a),
        last_boundary_before(s, i, b),
    ensures
        a == b,
{
    if a < b {
        assert(!boundary(s, b));
    } else if b < a {
        assert(!boundary(s, a));
    }
}

proof fn lemma_same_first_boundary(s: Seq<char>, i: int, a: int, b: int)
    requires
        first_boundary_after(s, i, a),
        first_boundary_after(s, i, b),
    ensures
        a == b,
{
    if a < b {
        assert(!boundary(s, a));
    } else if b < a {
        assert(!boundary(s, b));
    }
}

/// A boundary at byte 0 is character 0, and no other is.
proof fn lemma_cursor_start(s: Seq<char>, i: int)
    requires
        boundary(s, i),
    ensures
        0 <= char_count(s, i) <= s.len(),
        offset(s, char_count(s, i)) == i,
        i == 0 <==> char_count(s, i) == 0,
{
    lemma_boundary_is_offset(s, i);
    lemma_offset_ends(s);
    if char_count(s, i) > 0 {
        lemma_offset_monotone(s, 0, char_count(s, i));
    }
}

/// A boundary at the last byte is the end of the characters, and no other is.
proof fn lemma_cursor_end(s: Seq<char>, i: int)
    requires
        boundary(s, i),
    ensures
        0 <= char_count(s, i) <= s.len(),
        offset(s, char_count(s, i)) == i,
        i <= byte_len(s),
        i == byte_len(s) <==> char_count(s, i) == s.len(),
{
    lemma_boundary_is_offset(s, i);
    lemma_offset_ends(s);
    if char_count(s, i) < s.len() {
        lemma_offset_monotone(s, char_count(s, i), s.len() as int);
    }
}

} // verus!
