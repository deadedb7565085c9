//! What the editor's operations mean: a page of timestamped rows with a cursor
//! that stands between two characters of one of them.

use vstd::prelude::*;

use crate::clock::Timestamp;
use crate::text::{byte_len, offset};
use crate::text_helpers::{
    lemma_word_motions_move, next_word_start, word_end_after, word_start_before,
};

verus! {

/// A line of notes. It is begun once something has been typed on it; the first
/// character typed on an empty one gives it its time. It is settled once the cursor
/// has left it; only a settled row is stamped when it is edited.
pub struct Row {
    pub text: Seq<char>,
    pub created: Timestamp,
    pub edited: Option<Timestamp>,
    pub settled: bool,
    pub begun: bool,
}

/// The rows, and the cursor before character `col` of row `line`.
pub struct Page {
    pub rows: Seq<Row>,
    pub line: int,
    pub col: int,
}

impl Row {
    pub open spec fn with_text(self, text: Seq<char>) -> Row {
        Row { text, ..self }
    }

    /// The row after an edit at `now`: a settled row takes the time and is no
    /// longer settled, another keeps what it has.
    pub open spec fn stamped(self, now: Timestamp) -> Row {
        if self.settled {
            Row { edited: Some(now), settled: false, ..self }
        } else {
            self
        }
    }

    pub open spec fn settle(self) -> Row {
        Row { settled: true, ..self }
    }

    pub open spec fn fresh(text: Seq<char>, now: Timestamp) -> Row {
        Row { text, created: now, edited: None, settled: false, begun: false }
    }

    /// The row is empty and nothing has been typed on it.
    pub open spec fn untouched(self) -> bool {
        self.text.len() == 0 && !self.begun
    }

    /// The row when something is typed on it at `now`: an untouched one takes the time,
    /// and was not edited before it.
    pub open spec fn begin(self, now: Timestamp) -> Row {
        if self.untouched() {
            Row { created: now, edited: None, begun: true, ..self }
        } else {
            Row { begun: true, ..self }
        }
    }

    /// The time shown beside the row, and whether it is that of an edit.
    pub open spec fn shown(self) -> (Timestamp, bool) {
        match self.edited {
            Some(t) => (t, true),
            None => (self.created, false),
        }
    }
}

/// The most characters of `s` that fit in `b` bytes.
pub open spec fn chars_within(s: Seq<char>, b: int) -> int
    decreases s.len(),
{
    if s.len() == 0 || byte_len(s) <= b {
        s.len() as int
    } else {
        chars_within(s.drop_last(), b)
    }
}

/// Row `i`, if there is one, settled.
pub open spec fn settle_row(rows: Seq<Row>, i: int) -> Seq<Row> {
    if 0 <= i < rows.len() {
        rows.update(i, rows[i].settle())
    } else {
        rows
    }
}

/// Row `i`, if there is one, typed on at `now`.
pub open spec fn begin_row(rows: Seq<Row>, i: int, now: Timestamp) -> Seq<Row> {
    if 0 <= i < rows.len() {
        rows.update(i, rows[i].begin(now))
    } else {
        rows
    }
}

/// Row `i`, if there is one, edited at `now`.
pub open spec fn stamp_row(rows: Seq<Row>, i: int, now: Timestamp) -> Seq<Row> {
    if 0 <= i < rows.len() {
        rows.update(i, rows[i].stamped(now))
    } else {
        rows
    }
}

impl Page {
    /// The cursor stands in the page.
    pub open spec fn wf(self) -> bool {
        &&& 0 <= self.line < self.rows.len()
        &&& 0 <= self.col <= self.rows[self.line].text.len()
    }

    pub open spec fn text(self) -> Seq<char> {
        self.rows[self.line].text
    }

    /// The current row's text becomes `text`, as an edit at `now`, and the cursor
    /// goes to `col`.
    pub open spec fn retype(self, text: Seq<char>, col: int, now: Timestamp) -> Page {
        Page {
            rows: self.rows.update(
                self.line,
                self.rows[self.line].with_text(text).stamped(now),
            ),
            col,
            ..self
        }
    }

    /// The cursor goes to another row, and the row it leaves is settled.
    pub open spec fn leave_for(self, line: int, col: int) -> Page {
        Page { rows: settle_row(self.rows, self.line), line, col }
    }

    pub open spec fn insert_char(self, c: char, now: Timestamp) -> Page {
        Page { rows: begin_row(self.rows, self.line, now), ..self }.retype(
            self.text().insert(self.col, c),
            self.col + 1,
            now,
        )
    }

    /// The row is split at the cursor. It counts as edited if both parts hold
    /// something.
    pub open spec fn enter(self, now: Timestamp) -> Page {
        let head = self.text().take(self.col);
        let tail = self.text().skip(self.col);
        let row = self.rows[self.line].with_text(head);
        let kept = if tail.len() > 0 && head.len() > 0 {
            row.stamped(now)
        } else {
            row
        };
        Page {
            rows: self.rows.update(self.line, kept.settle()).insert(
                self.line + 1,
                Row::fresh(tail, now),
            ),
            line: self.line + 1,
            col: 0,
        }
    }

    /// The row is joined to the one before it, as an edit of that one. The row
    /// that comes into its place, or the last one, is settled.
    pub open spec fn join_up(self, now: Timestamp) -> Page {
        let above = self.rows[self.line - 1].text;
        let fewer = self.rows.remove(self.line);
        let next = if self.line < fewer.len() {
            self.line
        } else {
            fewer.len() - 1
        };
        let settled = settle_row(fewer, next);
        Page {
            rows: settled.update(
                self.line - 1,
                settled[self.line - 1].with_text(above + self.text()).stamped(now),
            ),
            line: self.line - 1,
            col: above.len() as int,
        }
    }

    /// The next row is joined to this one, as an edit of this one.
    pub open spec fn join_down(self, now: Timestamp) -> Page {
        let below = self.rows[self.line + 1].text;
        Page { rows: self.rows.remove(self.line + 1), ..self }.retype(
            self.text() + below,
            self.col,
            now,
        )
    }

    pub open spec fn backspace(self, now: Timestamp) -> Page {
        if self.col > 0 {
            self.retype(self.text().remove(self.col - 1), self.col - 1, now)
        } else if self.line > 0 {
            self.join_up(now)
        } else {
            self
        }
    }

    pub open spec fn delete(self, now: Timestamp) -> Page {
        if self.col < self.text().len() {
            self.retype(self.text().remove(self.col), self.col, now)
        } else if self.line + 1 < self.rows.len() {
            self.join_down(now)
        } else {
            self
        }
    }

    pub open spec fn delete_word_back(self, now: Timestamp) -> Page {
        if self.col == 0 {
            self.backspace(now)
        } else {
            let k = word_start_before(self.text(), self.col);
            self.retype(self.text().take(k) + self.text().skip(self.col), k, now)
        }
    }

    pub open spec fn delete_to_line_start(self, now: Timestamp) -> Page {
        if self.col == 0 {
            self
        } else {
            self.retype(self.text().skip(self.col), 0, now)
        }
    }

    pub open spec fn delete_word_forward(self, now: Timestamp) -> Page {
        if self.col == self.text().len() {
            self.delete(now)
        } else {
            let k = next_word_start(self.text(), self.col);
            self.retype(self.text().take(self.col) + self.text().skip(k), self.col, now)
        }
    }

    /// To the end of the row above, if there is one.
    pub open spec fn to_end_above(self) -> Page {
        if self.line > 0 {
            self.leave_for(self.line - 1, self.rows[self.line - 1].text.len() as int)
        } else {
            self
        }
    }

    /// To the start of the row below, if there is one.
    pub open spec fn to_start_below(self) -> Page {
        if self.line + 1 < self.rows.len() {
            self.leave_for(self.line + 1, 0)
        } else {
            self
        }
    }

    pub open spec fn move_left(self) -> Page {
        if self.col > 0 {
            Page { col: self.col - 1, ..self }
        } else {
            self.to_end_above()
        }
    }

    pub open spec fn move_right(self) -> Page {
        if self.col < self.text().len() {
            Page { col: self.col + 1, ..self }
        } else {
            self.to_start_below()
        }
    }

    /// To row `line`, at the same column counted in bytes, or the nearest one
    /// before it that the row has.
    pub open spec fn to_row(self, line: int) -> Page {
        self.leave_for(
            line,
            chars_within(self.rows[line].text, offset(self.text(), self.col)),
        )
    }

    pub open spec fn move_up(self) -> Page {
        if self.line > 0 {
            self.to_row(self.line - 1)
        } else {
            self
        }
    }

    pub open spec fn move_down(self) -> Page {
        if self.line + 1 < self.rows.len() {
            self.to_row(self.line + 1)
        } else {
            self
        }
    }

    pub open spec fn move_word_left(self) -> Page {
        if self.col == 0 {
            self.to_end_above()
        } else {
            Page { col: word_start_before(self.text(), self.col), ..self }
        }
    }

    pub open spec fn move_word_right(self) -> Page {
        if self.col == self.text().len() {
            self.to_start_below()
        } else {
            Page { col: word_end_after(self.text(), self.col), ..self }
        }
    }

    pub open spec fn home(self) -> Page {
        Page { col: 0, ..self }
    }

    pub open spec fn end(self) -> Page {
        Page { col: self.text().len() as int, ..self }
    }

    /// To row `line`, if there is one, at byte `byte` of it or the nearest column
    /// before that.
    pub open spec fn click(self, line: int, byte: int) -> Page {
        if line < self.rows.len() {
            let col = chars_within(self.rows[line].text, byte);
            if line == self.line {
                Page { col, ..self }
            } else {
                self.leave_for(line, col)
            }
        } else {
            self
        }
    }
}

// --- Laws of the page ---

/// The texts of the rows.
pub open spec fn texts(rows: Seq<Row>) -> Seq<Seq<char>> {
    Seq::new(rows.len(), |i: int| rows[i].text)
}

/// The same texts and the same cursor.
pub open spec fn same_text(a: Page, b: Page) -> bool {
    &&& texts(a.rows) == texts(b.rows)
    &&& a.line == b.line
    &&& a.col == b.col
}

pub proof fn lemma_chars_within_bounds(s: Seq<char>, b: int)
    ensures
        0 <= chars_within(s, b) <= s.len(),
    decreases s.len(),
{
    if s.len() > 0 && byte_len(s) > b {
        lemma_chars_within_bounds(s.drop_last(), b);
    }
}

/// Every operation leaves the cursor in the page.
pub proof fn lemma_operations_keep_wf(p: Page, c: char, line: int, byte: int, now: Timestamp)
    requires
        p.wf(),
        line >= 0,
    ensures
        p.insert_char(c, now).wf(),
        p.enter(now).wf(),
        p.backspace(now).wf(),
        p.delete(now).wf(),
        p.delete_word_back(now).wf(),
        p.delete_to_line_start(now).wf(),
        p.delete_word_forward(now).wf(),
        p.move_left().wf(),
        p.move_right().wf(),
        p.move_up().wf(),
        p.move_down().wf(),
        p.move_word_left().wf(),
        p.move_word_right().wf(),
        p.home().wf(),
        p.end().wf(),
        p.click(line, byte).wf(),
{
    lemma_word_motions_move(p.text(), p.col);
    let at = offset(p.text(), p.col);
    if p.line > 0 {
        lemma_chars_within_bounds(p.rows[p.line - 1].text, at);
    }
    if p.line + 1 < p.rows.len() {
        lemma_chars_within_bounds(p.rows[p.line + 1].text, at);
    }
    if line < p.rows.len() {
        lemma_chars_within_bounds(p.rows[line].text, byte);
    }
}

/// Moving the cursor changes no text and no time.
pub proof fn lemma_motions_keep_notes(p: Page, q: Page, line: int, byte: int, i: int)
    requires
        p.wf(),
        line >= 0,
        q == p.move_left() || q == p.move_right() || q == p.move_up() || q == p.move_down() || q
            == p.move_word_left() || q == p.move_word_right() || q == p.home() || q == p.end() || q
            == p.click(line, byte),
        0 <= i < p.rows.len(),
    ensures
        q.rows.len() == p.rows.len(),
        q.rows[i].text == p.rows[i].text,
        q.rows[i].created == p.rows[i].created,
        q.rows[i].edited == p.rows[i].edited,
{
}

/// A motion settles the row that it leaves and no other; one inside a row
/// settles none.
pub proof fn lemma_motions_settle(p: Page, q: Page, line: int, byte: int, i: int)
    requires
        p.wf(),
        line >= 0,
        q == p.move_left() || q == p.move_right() || q == p.move_up() || q == p.move_down() || q
            == p.move_word_left() || q == p.move_word_right() || q == p.home() || q == p.end() || q
            == p.click(line, byte),
        0 <= i < p.rows.len(),
    ensures
        q.rows[i].settled == (p.rows[i].settled || (i == p.line && q.line != p.line)),
{
}

/// Erasing a character just typed gives the text and the cursor back.
pub proof fn lemma_backspace_undoes_insert(p: Page, c: char, now: Timestamp, later: Timestamp)
    requires
        p.wf(),
    ensures
        same_text(p.insert_char(c, now).backspace(later), p),
{
    let typed = p.insert_char(c, now);
    assert(typed.text().remove(p.col) =~= p.text());
    assert(texts(typed.backspace(later).rows) =~= texts(p.rows));
}

/// Rejoining a line just split gives the text and the cursor back.
pub proof fn lemma_backspace_undoes_enter(p: Page, now: Timestamp, later: Timestamp)
    requires
        p.wf(),
    ensures
        same_text(p.enter(now).backspace(later), p),
{
    assert(p.text().take(p.col) + p.text().skip(p.col) =~= p.text());
    assert(texts(p.enter(now).backspace(later).rows) =~= texts(p.rows));
}

/// Deleting forward is moving right and erasing back.
pub proof fn lemma_delete_is_right_backspace(p: Page, now: Timestamp, later: Timestamp)
    requires
        p.wf(),
        p.col < p.text().len() || p.line + 1 < p.rows.len(),
    ensures
        same_text(p.delete(now), p.move_right().backspace(later)),
{
    assert(texts(p.delete(now).rows) =~= texts(p.move_right().backspace(later).rows));
}

/// Going right, where there is somewhere to go, and then left leads back.
pub proof fn lemma_left_undoes_right(p: Page)
    requires
        p.wf(),
        p.col < p.text().len() || p.line + 1 < p.rows.len(),
    ensures
        same_text(p.move_right().move_left(), p),
{
    assert(texts(p.move_right().move_left().rows) =~= texts(p.rows));
}

/// Going left, where there is somewhere to go, and then right leads back.
pub proof fn lemma_right_undoes_left(p: Page)
    requires
        p.wf(),
        p.col > 0 || p.line > 0,
    ensures
        same_text(p.move_left().move_right(), p),
{
    assert(texts(p.move_left().move_right().rows) =~= texts(p.rows));
}

/// Typing changes only the row that the cursor is in. The row's time is set by the first
/// character typed on it. Its edit time is set where the cursor had left the row before;
/// where it had not, it stays as it is, but for the first character, before which there
/// was no edit.
pub proof fn lemma_typing_stamps_settled(p: Page, c: char, now: Timestamp, i: int)
    requires
        p.wf(),
        0 <= i < p.rows.len(),
    ensures
        p.insert_char(c, now).rows.len() == p.rows.len(),
        i != p.line ==> p.insert_char(c, now).rows[i] == p.rows[i],
        p.insert_char(c, now).rows[p.line].created == (if p.rows[p.line].untouched() {
            now
        } else {
            p.rows[p.line].created
        }),
        p.insert_char(c, now).rows[p.line].edited == (if p.rows[p.line].settled {
            Some(now)
        } else if p.rows[p.line].untouched() {
            None
        } else {
            p.rows[p.line].edited
        }),
        !p.insert_char(c, now).rows[p.line].settled,
{
}

/// A line gets its time when one starts typing it, however long ago it was made.
pub proof fn lemma_first_character_gives_time(p: Page, c: char, now: Timestamp)
    requires
        p.wf(),
        p.rows[p.line].untouched(),
    ensures
        ({
            let q = p.insert_char(c, now);
            &&& q.rows[p.line].text == seq![c]
            &&& q.rows[p.line].created == now
            &&& q.col == 1
        }),
{
    assert(p.text().insert(p.col, c) =~= seq![c]);
}

/// What is typed after the first character, also once all has been erased again, leaves
/// the row's time as it is.
pub proof fn lemma_time_is_given_once(
    p: Page,
    c: char,
    d: char,
    now: Timestamp,
    later: Timestamp,
    last: Timestamp,
)
    requires
        p.wf(),
    ensures
        ({
            let q = p.insert_char(c, now);
            &&& q.rows[q.line].begun
            &&& q.insert_char(d, later).rows[p.line].created == q.rows[p.line].created
            &&& q.backspace(later).insert_char(d, last).rows[p.line].created
                == q.rows[p.line].created
        }),
{
}

/// Further typing in the same visit to a row does not stamp it again.
pub proof fn lemma_one_stamp_per_visit(
    p: Page,
    c: char,
    d: char,
    now: Timestamp,
    later: Timestamp,
)
    requires
        p.wf(),
    ensures
        ({
            let once = p.insert_char(c, now);
            once.insert_char(d, later).rows[p.line].edited == once.rows[p.line].edited
        }),
{
}

/// A new line starts with the time of the keypress, without an edit.
pub proof fn lemma_enter_makes_fresh_row(p: Page, now: Timestamp)
    requires
        p.wf(),
    ensures
        p.enter(now).rows.len() == p.rows.len() + 1,
        p.enter(now).line == p.line + 1,
        p.enter(now).col == 0,
        p.enter(now).rows[p.line + 1] == Row::fresh(p.text().skip(p.col), now),
        p.enter(now).rows[p.line].settled,
        p.enter(now).rows[p.line].created == p.rows[p.line].created,
{
}

/// Edits keep the times of rows: a row that stays keeps its own, but for the first
/// character on an untouched one, and of two that are joined the upper one's is kept.
pub proof fn lemma_edits_keep_created(p: Page, q: Page, c: char, now: Timestamp, i: int)
    requires
        p.wf(),
        (q == p.insert_char(c, now) && !p.rows[p.line].untouched()) || q == p.backspace(now) || q
            == p.delete(now) || q == p.delete_word_back(now) || q == p.delete_word_forward(now)
            || q == p.delete_to_line_start(now),
        0 <= i < q.rows.len(),
    ensures
        q.rows.len() == p.rows.len() || q.rows.len() == p.rows.len() - 1,
        q.rows.len() == p.rows.len() || i <= q.line ==> q.rows[i].created == p.rows[i].created,
        q.rows.len() < p.rows.len() && i > q.line ==> q.rows[i].created == p.rows[i + 1].created,
{
}

/// Erasing a word leaves the cursor where going back over the word would.
pub proof fn lemma_word_erased_back(p: Page, now: Timestamp)
    requires
        p.wf(),
        p.col > 0,
    ensures
        ({
            let start = p.move_word_left().col;
            let q = p.delete_word_back(now);
            &&& q.line == p.line
            &&& q.col == start
            &&& q.text() == p.text().take(start) + p.text().skip(p.col)
        }),
{
}

} // verus!
