//! What the editor's operations do to the notes, row by row and character by
//! character.

use vstd::prelude::*;
use vstd::utf8::*;

use crate::clock::Timestamp;
use crate::page::{
    begin_row, chars_within, same_text, settle_row, stamp_row, texts, Page, Row,
};
use crate::text::{byte_len, lemma_offset_monotone, offset, white_space};
use crate::text_helpers::{
    next_word_start, skip_back, skip_forward, word_end_after, word_start_before,
};

verus! {

// --- Typing and splitting ---

/// A typed character stands where the cursor was, the characters before it stay, those
/// after it are one place further on, and the cursor stands behind it. No other row
/// changes. The row's time is that of its first character; an edit is noted on a row that
/// the cursor had left.
pub proof fn lemma_typed_character(p: Page, c: char, now: Timestamp)
    requires
        p.wf(),
    ensures
        ({
            let q = p.insert_char(c, now);
            let row = p.rows[p.line];
            let typed = q.rows[p.line];
            &&& q.line == p.line
            &&& q.col == p.col + 1
            &&& q.rows.len() == p.rows.len()
            &&& forall|i: int| 0 <= i < p.rows.len() && i != p.line ==> q.rows[i] == p.rows[i]
            &&& typed.text.len() == row.text.len() + 1
            &&& forall|k: int| 0 <= k < p.col ==> typed.text[k] == row.text[k]
            &&& typed.text[p.col] == c
            &&& forall|k: int| p.col < k <= row.text.len() ==> typed.text[k] == row.text[k - 1]
            &&& typed.begun
            &&& !typed.settled
            &&& typed.created == (if row.text.len() == 0 && !row.begun {
                now
            } else {
                row.created
            })
            &&& typed.edited == (if row.settled {
                Some(now)
            } else if row.text.len() == 0 && !row.begun {
                None
            } else {
                row.edited
            })
        }),
{
}

/// Splitting a row leaves what is before the cursor in it and puts what is after the
/// cursor in a new row below, which has the time of the split and no edit; the cursor
/// stands at its start. The rows above and below stay. The upper part is settled, and an
/// edit is noted on it where it was settled and both parts hold something.
pub proof fn lemma_split_row(p: Page, now: Timestamp)
    requires
        p.wf(),
    ensures
        ({
            let q = p.enter(now);
            let row = p.rows[p.line];
            let upper = q.rows[p.line];
            let lower = q.rows[p.line + 1];
            &&& q.line == p.line + 1
            &&& q.col == 0
            &&& q.rows.len() == p.rows.len() + 1
            &&& forall|i: int| 0 <= i < p.line ==> q.rows[i] == p.rows[i]
            &&& forall|i: int| p.line + 1 < i < q.rows.len() ==> q.rows[i] == p.rows[i - 1]
            &&& upper.text.len() == p.col
            &&& upper.text + lower.text == row.text
            &&& upper.created == row.created
            &&& upper.begun == row.begun
            &&& upper.settled
            &&& upper.edited == (if row.settled && 0 < p.col < row.text.len() {
                Some(now)
            } else {
                row.edited
            })
            &&& lower.created == now
            &&& lower.edited is None
            &&& !lower.settled
            &&& !lower.begun
        }),
{
    assert(p.text().take(p.col) + p.text().skip(p.col) =~= p.text());
}

/// Each of the three marks is put on the row it is meant for and changes no other row: a row
/// that is left is settled, one that is typed on is begun, and one that is edited is
/// stamped if it was settled, and is then no longer.
pub proof fn lemma_marked_row(rows: Seq<Row>, i: int, k: int, now: Timestamp)
    requires
        0 <= k < rows.len(),
    ensures
        settle_row(rows, i).len() == rows.len(),
        begin_row(rows, i, now).len() == rows.len(),
        stamp_row(rows, i, now).len() == rows.len(),
        k != i ==> {
            &&& settle_row(rows, i)[k] == rows[k]
            &&& begin_row(rows, i, now)[k] == rows[k]
            &&& stamp_row(rows, i, now)[k] == rows[k]
        },
        k == i ==> {
            &&& settle_row(rows, i)[k] == (Row { settled: true, ..rows[k] })
            &&& rows[k].settled ==> stamp_row(rows, i, now)[k] == (Row {
                edited: Some(now),
                settled: false,
                ..rows[k]
            })
            &&& !rows[k].settled ==> stamp_row(rows, i, now)[k] == rows[k]
            &&& rows[k].text.len() == 0 && !rows[k].begun ==> begin_row(rows, i, now)[k] == (Row {
                created: now,
                edited: None,
                begun: true,
                ..rows[k]
            })
            &&& rows[k].text.len() > 0 || rows[k].begun ==> begin_row(rows, i, now)[k] == (Row {
                begun: true,
                ..rows[k]
            })
        },
{
}

/// The time shown of a row is that of its edit, where it was edited, and else its own.
pub proof fn lemma_time_shown(row: Row, t: Timestamp)
    ensures
        row.edited == Some(t) ==> row.shown() == (t, true),
        row.edited is None ==> row.shown() == (row.created, false),
{
}

// --- Erasing ---

/// `q` is `p` with the characters from `from` up to `to` of its row taken out and the
/// cursor where they were: the characters before and after them stay in order, no other
/// row changes, and an edit is noted where the row was settled.
pub open spec fn without_chars(p: Page, q: Page, from: int, to: int, now: Timestamp) -> bool {
    let row = p.rows[p.line];
    let cut = q.rows[p.line];
    &&& q.line == p.line
    &&& q.col == from
    &&& q.rows.len() == p.rows.len()
    &&& forall|i: int| 0 <= i < p.rows.len() && i != p.line ==> q.rows[i] == p.rows[i]
    &&& cut.text.len() == row.text.len() - (to - from)
    &&& forall|k: int| 0 <= k < from ==> cut.text[k] == row.text[k]
    &&& forall|k: int| from <= k < cut.text.len() ==> cut.text[k] == row.text[k + to - from]
    &&& cut.created == row.created
    &&& cut.begun == row.begun
    &&& !cut.settled
    &&& cut.edited == (if row.settled {
        Some(now)
    } else {
        row.edited
    })
}

/// Erasing back takes out the character before the cursor, erasing forward the one after
/// it.
pub proof fn lemma_erased_character(p: Page, now: Timestamp)
    requires
        p.wf(),
    ensures
        p.col > 0 ==> without_chars(p, p.backspace(now), p.col - 1, p.col, now),
        p.col < p.rows[p.line].text.len() ==> without_chars(p, p.delete(now), p.col, p.col + 1, now),
{
}

/// Erasing back at the start of a row puts its text behind that of the row above, with
/// the cursor between the two; at the start of the first row nothing happens. The rows
/// above stay, and those below move up. The upper row keeps its time. An edit is noted on
/// it where it was settled or the joined row was the last; the row that moves up to the
/// joined one's place is settled.
pub proof fn lemma_joined_to_row_above(p: Page, now: Timestamp)
    requires
        p.wf(),
        p.col == 0,
    ensures
        p.line == 0 ==> p.backspace(now) == p && p.delete_word_back(now) == p,
        p.line > 0 ==> p.delete_word_back(now) == p.backspace(now),
        p.line > 0 ==> ({
            let q = p.backspace(now);
            let above = p.rows[p.line - 1];
            let joined = q.rows[p.line - 1];
            let last = p.line == p.rows.len() - 1;
            &&& q.line == p.line - 1
            &&& q.col == above.text.len()
            &&& q.rows.len() == p.rows.len() - 1
            &&& joined.text == above.text + p.rows[p.line].text
            &&& joined.created == above.created
            &&& joined.begun == above.begun
            &&& !joined.settled
            &&& joined.edited == (if above.settled || last {
                Some(now)
            } else {
                above.edited
            })
            &&& forall|i: int| 0 <= i < p.line - 1 ==> q.rows[i] == p.rows[i]
            &&& !last ==> q.rows[p.line] == (Row { settled: true, ..p.rows[p.line + 1] })
            &&& forall|i: int| p.line < i < q.rows.len() ==> q.rows[i] == p.rows[i + 1]
        }),
{
}

/// Erasing forward at the end of a row puts the text of the row below behind its own and
/// leaves the cursor where it is; at the end of the last row nothing happens. The other
/// rows stay as they are. The row keeps its time, and an edit is noted on it where it was
/// settled.
pub proof fn lemma_row_below_joined(p: Page, now: Timestamp)
    requires
        p.wf(),
        p.col == p.rows[p.line].text.len(),
    ensures
        p.line == p.rows.len() - 1 ==> p.delete(now) == p && p.delete_word_forward(now) == p,
        p.line < p.rows.len() - 1 ==> p.delete_word_forward(now) == p.delete(now),
        p.line < p.rows.len() - 1 ==> ({
            let q = p.delete(now);
            let row = p.rows[p.line];
            let joined = q.rows[p.line];
            &&& q.line == p.line
            &&& q.col == p.col
            &&& q.rows.len() == p.rows.len() - 1
            &&& joined.text == row.text + p.rows[p.line + 1].text
            &&& joined.created == row.created
            &&& joined.begun == row.begun
            &&& !joined.settled
            &&& joined.edited == (if row.settled {
                Some(now)
            } else {
                row.edited
            })
            &&& forall|i: int| 0 <= i < p.line ==> q.rows[i] == p.rows[i]
            &&& forall|i: int| p.line < i < q.rows.len() ==> q.rows[i] == p.rows[i + 1]
        }),
{
}

/// Erasing to the start of the line takes out what is before the cursor and nothing else:
/// what is after the cursor is the row's text, the cursor stands before it, and the other
/// rows stay. At the start of the line nothing happens.
pub proof fn lemma_erased_to_line_start(p: Page, now: Timestamp)
    requires
        p.wf(),
    ensures
        p.delete_to_line_start(now).text() == p.text().skip(p.col),
        p.delete_to_line_start(now).col == 0,
        p.delete_to_line_start(now).line == p.line,
        p.col == 0 ==> p.delete_to_line_start(now) == p,
        p.col > 0 ==> without_chars(p, p.delete_to_line_start(now), 0, p.col, now),
{
    if p.col == 0 {
        assert(p.text().skip(0) =~= p.text());
    }
}

/// `n` characters erased back, one after the other.
pub open spec fn erased_back(p: Page, n: nat, now: Timestamp) -> Page
    decreases n,
{
    if n == 0 {
        p
    } else {
        erased_back(p.backspace(now), (n - 1) as nat, now)
    }
}

/// Erasing to the start of the line is erasing back as many characters as are before the
/// cursor.
pub proof fn lemma_line_start_by_backspaces(p: Page, now: Timestamp)
    requires
        p.wf(),
    ensures
        p.delete_to_line_start(now) == erased_back(p, p.col as nat, now),
{
    lemma_backspaces_erase(p, p.col as nat, now);
    let q = erased_back(p, p.col as nat, now);
    if p.col > 0 {
        assert(q.text() =~= p.text().skip(p.col));
        assert(q.rows =~= p.delete_to_line_start(now).rows);
    }
}

/// That many backspaces take out the characters before the cursor.
proof fn lemma_backspaces_erase(p: Page, n: nat, now: Timestamp)
    requires
        p.wf(),
        n <= p.col,
    ensures
        n == 0 ==> erased_back(p, n, now) == p,
        n > 0 ==> without_chars(p, erased_back(p, n, now), p.col - n, p.col, now),
    decreases n,
{
    if n > 0 {
        let q = p.backspace(now);
        lemma_backspaces_erase(q, (n - 1) as nat, now);
    }
}

// --- Words ---

/// Going back from `i` over characters of one kind ends at `m`, where the kind changes.
proof fn lemma_skip_back_to(s: Seq<char>, i: int, white: bool, m: int)
    requires
        0 <= m <= i <= s.len(),
        forall|j: int| m <= j < i ==> white_space(#[trigger] s[j]) == white,
        m == 0 || white_space(s[m - 1]) != white,
    ensures
        skip_back(s, i, white) == m,
    decreases i,
{
    if m < i {
        lemma_skip_back_to(s, i - 1, white, m);
    }
}

/// Going forward from `i` over characters of one kind ends at `m`, where the kind changes.
proof fn lemma_skip_forward_to(s: Seq<char>, i: int, white: bool, m: int)
    requires
        0 <= i <= m <= s.len(),
        forall|j: int| i <= j < m ==> white_space(#[trigger] s[j]) == white,
        m == s.len() || white_space(s[m]) != white,
    ensures
        skip_forward(s, i, white) == m,
    decreases s.len() - i,
{
    if i < m {
        lemma_skip_forward_to(s, i + 1, white, m);
    }
}

/// The word before the cursor: from `start` up to `end` nothing is white space, from
/// `end` to the cursor all is, and the word begins at `start`. Where there is only white
/// space, both are the start of the line.
pub open spec fn word_before(p: Page, start: int, end: int) -> bool {
    let s = p.rows[p.line].text;
    &&& 0 <= start <= end <= p.col
    &&& forall|j: int| end <= j < p.col ==> white_space(#[trigger] s[j])
    &&& forall|j: int| start <= j < end ==> !white_space(#[trigger] s[j])
    &&& start == 0 || (start < end && white_space(s[start - 1]))
}

/// The word after the cursor: from the cursor up to `start` all is white space, from
/// `start` up to `end` nothing is, and the word ends at `end`. Where there is only white
/// space, both are the end of the line.
pub open spec fn word_after(p: Page, start: int, end: int) -> bool {
    let s = p.rows[p.line].text;
    &&& p.col <= start <= end <= s.len()
    &&& forall|j: int| p.col <= j < start ==> white_space(#[trigger] s[j])
    &&& forall|j: int| start <= j < end ==> !white_space(#[trigger] s[j])
    &&& end == s.len() || (start < end && white_space(s[end]))
}

/// The next word: the one that the cursor stands in goes on up to `end`, from there up to
/// `next` all is white space, and `next` is where that ends.
pub open spec fn word_next(p: Page, end: int, next: int) -> bool {
    let s = p.rows[p.line].text;
    &&& p.col <= end <= next <= s.len()
    &&& forall|j: int| p.col <= j < end ==> !white_space(#[trigger] s[j])
    &&& forall|j: int| end <= j < next ==> white_space(#[trigger] s[j])
    &&& next == s.len() || (end < next && !white_space(s[next]))
}

/// Going a word back leads to the start of the word before the cursor, and erasing a word
/// back takes out all from there to the cursor. At the start of the line the first leads
/// to the end of the row above, if there is one.
pub proof fn lemma_word_back(p: Page, start: int, end: int, now: Timestamp)
    requires
        p.wf(),
        p.col > 0,
        word_before(p, start, end),
    ensures
        p.move_word_left() == (Page { col: start, ..p }),
        without_chars(p, p.delete_word_back(now), start, p.col, now),
{
    let s = p.rows[p.line].text;
    lemma_skip_back_to(s, p.col, true, end);
    lemma_skip_back_to(s, end, false, start);
    assert(word_start_before(s, p.col) == start);
}

/// Going a word forward leads to the end of the word after the cursor.
pub proof fn lemma_word_forward(p: Page, start: int, end: int)
    requires
        p.wf(),
        p.col < p.rows[p.line].text.len(),
        word_after(p, start, end),
    ensures
        p.move_word_right() == (Page { col: end, ..p }),
{
    let s = p.rows[p.line].text;
    lemma_skip_forward_to(s, p.col, true, start);
    lemma_skip_forward_to(s, start, false, end);
    assert(word_end_after(s, p.col) == end);
}

/// Erasing a word forward takes out all from the cursor up to the next word.
pub proof fn lemma_word_erased_forward(p: Page, end: int, next: int, now: Timestamp)
    requires
        p.wf(),
        p.col < p.rows[p.line].text.len(),
        word_next(p, end, next),
    ensures
        without_chars(p, p.delete_word_forward(now), p.col, next, now),
{
    let s = p.rows[p.line].text;
    lemma_skip_forward_to(s, p.col, false, end);
    lemma_skip_forward_to(s, end, true, next);
    assert(next_word_start(s, p.col) == next);
}

// --- Moving ---

/// A motion changes nothing of the rows, but that the row which the cursor leaves is
/// settled.
pub proof fn lemma_motions_keep_rows(p: Page, q: Page, line: int, byte: int, i: int)
    requires
        p.wf(),
        line >= 0,
        q == p.move_left() || q == p.move_right() || q == p.move_up() || q == p.move_down() || q
            == p.move_word_left() || q == p.move_word_right() || q == p.home() || q == p.end() || q
            == p.click(line, byte),
        0 <= i < p.rows.len(),
    ensures
        q.rows.len() == p.rows.len(),
        q.line == p.line || i != p.line ==> q.rows[i] == p.rows[i],
        q.line != p.line && i == p.line ==> q.rows[i] == (Row { settled: true, ..p.rows[i] }),
{
}

/// Left is one character back, or from the start of a row to the end of the one above;
/// right is one character on, or from the end of a row to the start of the one below. At
/// the two ends of the notes the cursor stays. Word motions cross rows in the same way.
/// Home is the start of the row and End its end.
pub proof fn lemma_steps(p: Page)
    requires
        p.wf(),
    ensures
        ({
            let len = p.rows[p.line].text.len();
            let (l, r) = (p.move_left(), p.move_right());
            let (wl, wr) = (p.move_word_left(), p.move_word_right());
            &&& p.col > 0 ==> l.line == p.line && l.col == p.col - 1
            &&& p.col == 0 && p.line > 0 ==> {
                &&& l.line == p.line - 1
                &&& l.col == p.rows[p.line - 1].text.len()
                &&& wl == l
            }
            &&& p.col == 0 && p.line == 0 ==> l == p && wl == p
            &&& p.col < len ==> r.line == p.line && r.col == p.col + 1
            &&& p.col == len && p.line < p.rows.len() - 1 ==> {
                &&& r.line == p.line + 1
                &&& r.col == 0
                &&& wr == r
            }
            &&& p.col == len && p.line == p.rows.len() - 1 ==> r == p && wr == p
            &&& p.home().line == p.line && p.home().col == 0
            &&& p.end().line == p.line && p.end().col == len
        }),
{
}

/// The first `k` characters of `text` take at most `bytes` bytes, and no more of them do.
pub open spec fn fits_exactly(text: Seq<char>, k: int, bytes: int) -> bool {
    &&& 0 <= k <= text.len()
    &&& encode_utf8(text.take(k)).len() <= bytes
    &&& k == text.len() || encode_utf8(text.take(k + 1)).len() > bytes
}

/// The characters that fit in a number of bytes are counted exactly.
pub proof fn lemma_fitting_chars(text: Seq<char>, k: int, bytes: int)
    requires
        fits_exactly(text, k, bytes),
    ensures
        chars_within(text, bytes) == k,
    decreases text.len(),
{
    let n = text.len() as int;
    assert(text.take(n) =~= text);
    if k < n {
        if k + 1 < n {
            lemma_offset_monotone(text, k + 1, n);
        }
        assert(byte_len(text) > bytes);
        let less = text.drop_last();
        assert(less.take(k) =~= text.take(k));
        if k < less.len() {
            assert(less.take(k + 1) =~= text.take(k + 1));
        }
        lemma_fitting_chars(less, k, bytes);
    }
}

/// Up and down lead to the row above and below, behind as many of its characters as fit
/// in the bytes that are before the cursor. In the first row up does nothing, in the last
/// down does nothing.
pub proof fn lemma_up_and_down(p: Page, k: int)
    requires
        p.wf(),
    ensures
        ({
            let bytes = encode_utf8(p.rows[p.line].text.take(p.col)).len() as int;
            &&& p.line > 0 && fits_exactly(p.rows[p.line - 1].text, k, bytes) ==> {
                &&& p.move_up().line == p.line - 1
                &&& p.move_up().col == k
            }
            &&& p.line < p.rows.len() - 1 && fits_exactly(p.rows[p.line + 1].text, k, bytes) ==> {
                &&& p.move_down().line == p.line + 1
                &&& p.move_down().col == k
            }
            &&& p.line == 0 ==> p.move_up() == p
            &&& p.line == p.rows.len() - 1 ==> p.move_down() == p
        }),
{
    let bytes = offset(p.text(), p.col);
    if p.line > 0 && fits_exactly(p.rows[p.line - 1].text, k, bytes) {
        lemma_fitting_chars(p.rows[p.line - 1].text, k, bytes);
    }
    if p.line < p.rows.len() - 1 && fits_exactly(p.rows[p.line + 1].text, k, bytes) {
        lemma_fitting_chars(p.rows[p.line + 1].text, k, bytes);
    }
}

/// A click on a row leads to it, behind as many of its characters as fit in the bytes
/// before the place clicked; one below the last row does nothing.
pub proof fn lemma_clicked_place(p: Page, line: int, byte: int, k: int)
    requires
        p.wf(),
        line >= 0,
    ensures
        line < p.rows.len() && fits_exactly(p.rows[line].text, k, byte) ==> p.click(line, byte).line
            == line && p.click(line, byte).col == k,
        line >= p.rows.len() ==> p.click(line, byte) == p,
{
    if line < p.rows.len() && fits_exactly(p.rows[line].text, k, byte) {
        lemma_fitting_chars(p.rows[line].text, k, byte);
    }
}

/// Going up and then down again leads back where the row above has a column at the same
/// byte.
pub proof fn lemma_down_undoes_up(p: Page)
    requires
        p.wf(),
        p.line > 0,
        p.col <= p.rows[p.line - 1].text.len(),
        encode_utf8(p.rows[p.line - 1].text.take(p.col)).len() == encode_utf8(
            p.rows[p.line].text.take(p.col),
        ).len(),
    ensures
        same_text(p.move_up().move_down(), p),
{
    let bytes = offset(p.text(), p.col);
    let above = p.rows[p.line - 1].text;
    if p.col < above.len() {
        lemma_offset_monotone(above, p.col, p.col + 1);
    }
    if p.col < p.text().len() {
        lemma_offset_monotone(p.text(), p.col, p.col + 1);
    }
    lemma_up_and_down(p, p.col);
    let q = p.move_up();
    assert(fits_exactly(p.text(), p.col, bytes));
    lemma_up_and_down(q, p.col);
    assert(texts(q.move_down().rows) =~= texts(p.rows));
}

} // verus!
