//! How notes are written to a memo and read from it, line by line.

use vstd::prelude::*;

use crate::app::{resumed_rows, saved_text};
use crate::clock::{Timestamp, MAX_SECS, MIN_SECS};
use crate::memo::{
    heading, lemma_clock_chars, lemma_memo_text_end, memo_text, row_text, session_secs, time_text,
};
use crate::page::Row;
use crate::parser::{
    all_digits, edited_parts, entries, integer, is_clock, is_digit, memo_entries, memo_fits,
    simple_parts, stamp_fits, stamp_of, time_fits, time_secs, Entry, ParsedLine, Stamp,
};
use crate::text::{
    blank, decimal, find_from, lemma_find_from, lemma_found, lemma_lines_concat, lemma_split_at,
    lemma_split_none, lines_of, pad2, split_on, white_space,
};
use crate::text_laws::{lemma_clock_parts, lemma_line_taken};

verus! {

// --- What is written ---

/// A row that holds a character that is not white space, wherever it stands, is written
/// whole: its heading, its text and a line feed.
pub proof fn lemma_row_written(row: Row, start: Timestamp, i: int)
    requires
        0 <= i < row.text.len(),
        !white_space(row.text[i]),
    ensures
        row_text(row, start) == heading(row, start) + row.text + seq!['\n'],
        row_text(row, start).len() > 0,
{
}

/// A row is left out only where each of its characters is white space, and then nothing is
/// written of it.
pub proof fn lemma_row_left_out(row: Row, start: Timestamp)
    ensures
        row_text(row, start).len() == 0 <==> (forall|i: int|
            0 <= i < row.text.len() ==> white_space(#[trigger] row.text[i])),
{
}

/// The rows are written one after the other: what is written of some and then of others is
/// what is written of all.
pub proof fn lemma_memo_concat(a: Seq<Row>, b: Seq<Row>, row: Row, start: Timestamp)
    ensures
        memo_text(a + b, start) == memo_text(a, start) + memo_text(b, start),
        memo_text(seq![row], start) == row_text(row, start),
        memo_text(seq![], start) == Seq::<char>::empty(),
    decreases b.len(),
{
    assert(memo_text(Seq::<Row>::empty(), start) =~= Seq::<char>::empty());
    assert(seq![row].drop_last() =~= Seq::<Row>::empty());
    assert(memo_text(seq![row], start) =~= row_text(row, start));
    if b.len() == 0 {
        assert(a + b =~= a);
        assert(memo_text(a, start) + memo_text(b, start) =~= memo_text(a, start));
    } else {
        lemma_memo_concat(a, b.drop_last(), row, start);
        assert((a + b).drop_last() =~= a + b.drop_last());
        assert(memo_text(a + b, start) =~= memo_text(a, start) + memo_text(b, start));
    }
}

/// Each row's part stands in the memo between what is written of the rows above it and of
/// those below.
pub proof fn lemma_memo_holds_row(rows: Seq<Row>, start: Timestamp, i: int)
    requires
        0 <= i < rows.len(),
    ensures
        memo_text(rows, start) == memo_text(rows.take(i), start) + row_text(rows[i], start)
            + memo_text(rows.skip(i + 1), start),
{
    let above = rows.take(i);
    let below = rows.skip(i + 1);
    lemma_memo_concat(above, seq![rows[i]], rows[i], start);
    lemma_memo_concat(above + seq![rows[i]], below, rows[i], start);
    assert(above + seq![rows[i]] + below =~= rows);
}

/// A time of the session is the whole seconds that have gone by since its start; one
/// before the start counts as the start.
pub proof fn lemma_session_time(t: Timestamp, start: Timestamp)
    ensures
        ({
            let gone = t.nanos_since(start);
            let n = session_secs(t, start);
            &&& gone >= 0 ==> n * 1_000_000_000 <= gone < (n + 1) * 1_000_000_000
            &&& gone <= 0 ==> n == 0
        }),
{
}

/// A time `h` hours, `m` minutes and `s` seconds into the session is written with these.
pub proof fn lemma_time_written(start: Timestamp, t: Timestamp, h: int, m: int, s: int)
    requires
        h >= 0,
        0 <= m < 60,
        0 <= s < 60,
        ({
            let gone = t.nanos_since(start);
            let n = h * 3600 + m * 60 + s;
            n * 1_000_000_000 <= gone < (n + 1) * 1_000_000_000
        }),
    ensures
        h == 0 ==> time_text(t, start) == pad2(m) + seq![':'] + pad2(s),
        h > 0 ==> time_text(t, start) == pad2(h) + seq![':'] + pad2(m) + seq![':'] + pad2(s),
{
    lemma_session_time(t, start);
    lemma_clock_parts(h, m, s);
}

/// The heading shows the row's time in brackets, and the time of its edit, if there was
/// one, behind a tilde; a space follows.
pub proof fn lemma_heading_shows_times(row: Row, start: Timestamp, e: Timestamp)
    ensures
        row.edited is None ==> heading(row, start) == "["@ + time_text(row.created, start) + "] "@,
        row.edited == Some(e) ==> heading(row, start) == "["@ + time_text(row.created, start)
            + " ~"@ + time_text(e, start) + "] "@,
{
    reveal_strlit("[");
    reveal_strlit("] ");
    reveal_strlit(" ~");
    assert("["@ =~= seq!['[']);
    assert("] "@ =~= seq![']', ' ']);
    assert(" ~"@ =~= seq![' ', '~']);
}

/// The number of rows that hold more than white space.
pub open spec fn noted_rows(rows: Seq<Row>) -> nat
    decreases rows.len(),
{
    if rows.len() == 0 {
        0
    } else if exists|i: int|
        0 <= i < rows.last().text.len() && !white_space(#[trigger] rows.last().text[i]) {
        noted_rows(rows.drop_last()) + 1
    } else {
        noted_rows(rows.drop_last())
    }
}

/// Where no note holds a line feed, the memo has a line for each row that holds more than
/// white space, and that is the number which is reported when it is saved.
pub proof fn lemma_saved_lines(rows: Seq<Row>, start: Timestamp, path: Seq<char>)
    requires
        start.valid(),
        forall|i: int, k: int|
            0 <= i < rows.len() && 0 <= k < rows[i].text.len() ==> #[trigger] rows[i].text[k]
                != '\n',
    ensures
        lines_of(memo_text(rows, start)).len() == noted_rows(rows),
        saved_text(memo_text(rows, start), path) == "Saved "@ + decimal(noted_rows(rows) as int)
            + " lines to "@ + path,
    decreases rows.len(),
{
    if rows.len() == 0 {
        assert(lines_of(Seq::<char>::empty()) =~= Seq::<Seq<char>>::empty());
    } else {
        let less = rows.drop_last();
        let row = rows.last();
        assert forall|i: int, k: int|
            0 <= i < less.len() && 0 <= k < less[i].text.len() implies #[trigger] less[i].text[k]
            != '\n' by {
            assert(rows[i].text[k] != '\n');
        }
        lemma_saved_lines(less, start, path);
        lemma_memo_text_end(less, start);
        lemma_lines_concat(memo_text(less, start), row_text(row, start));
        if blank(row.text) {
            assert(lines_of(row_text(row, start)) =~= Seq::<Seq<char>>::empty());
        } else {
            let line = heading(row, start) + row.text;
            let n = line.len() as int;
            assert forall|k: int| 0 <= k < n implies line[k] != '\n' by {
                if k < heading(row, start).len() {
                    lemma_heading_one_line(row, start, k);
                } else {
                    assert(rows[rows.len() - 1].text[k - heading(row, start).len()] != '\n');
                }
            }
            let s = row_text(row, start);
            lemma_found(s, 0, '\n', n);
            assert(s.skip(n + 1) =~= Seq::<char>::empty());
            assert(lines_of(Seq::<char>::empty()) =~= Seq::<Seq<char>>::empty());
            assert(lines_of(s).len() == 1);
        }
    }
}

proof fn lemma_heading_one_line(row: Row, start: Timestamp, k: int)
    requires
        0 <= k < heading(row, start).len(),
    ensures
        heading(row, start)[k] != '\n',
{
    let c = time_text(row.created, start);
    lemma_time_chars(row.created, start);
    if row.edited is Some {
        lemma_time_chars(row.edited->0, start);
    }
}

proof fn lemma_time_chars(t: Timestamp, start: Timestamp)
    ensures
        forall|k: int| 0 <= k < time_text(t, start).len() ==> time_text(t, start)[k] != '\n',
{
    let n = session_secs(t, start);
    lemma_pad2_chars(n / 3600);
    lemma_pad2_chars((n % 3600) / 60);
    lemma_pad2_chars(n % 60);
}

proof fn lemma_pad2_chars(n: int)
    requires
        n >= 0,
    ensures
        forall|k: int| 0 <= k < pad2(n).len() ==> pad2(n)[k] != '\n',
{
    crate::parser::lemma_decimal(n);
    assert forall|k: int| 0 <= k < decimal(n).len() implies decimal(n)[k] != '\n' by {
        assert(is_digit(decimal(n)[k]));
    }
}

// --- What is read ---

/// Times are taken apart at their colons: minutes and seconds, or hours, minutes and
/// seconds. Fewer or more parts are no time.
pub proof fn lemma_time_parts(a: Seq<char>, b: Seq<char>, c: Seq<char>, rest: Seq<char>)
    requires
        forall|i: int| 0 <= i < a.len() ==> a[i] != ':',
        forall|i: int| 0 <= i < b.len() ==> b[i] != ':',
        forall|i: int| 0 <= i < c.len() ==> c[i] != ':',
    ensures
        time_secs(a) is None,
        time_secs(a + seq![':'] + b) == (if integer(a) is Some && integer(b) is Some {
            Some(integer(a)->0 * 60 + integer(b)->0)
        } else {
            None
        }),
        time_secs(a + seq![':'] + (b + seq![':'] + c)) == (if integer(a) is Some && integer(
            b,
        ) is Some && integer(c) is Some {
            Some(integer(a)->0 * 3600 + integer(b)->0 * 60 + integer(c)->0)
        } else {
            None
        }),
        time_secs(a + seq![':'] + (b + seq![':'] + (c + seq![':'] + rest))) is None,
        !is_clock(a),
        is_clock(a + seq![':'] + b) <==> {
            &&& a.len() > 0 && (forall|i: int| 0 <= i < a.len() ==> '0' <= #[trigger] a[i] <= '9')
            &&& b.len() == 2 && (forall|i: int| 0 <= i < b.len() ==> '0' <= #[trigger] b[i] <= '9')
        },
        is_clock(a + seq![':'] + (b + seq![':'] + c)) <==> {
            &&& a.len() > 0 && (forall|i: int| 0 <= i < a.len() ==> '0' <= #[trigger] a[i] <= '9')
            &&& b.len() == 2 && (forall|i: int| 0 <= i < b.len() ==> '0' <= #[trigger] b[i] <= '9')
            &&& c.len() == 2 && (forall|i: int| 0 <= i < c.len() ==> '0' <= #[trigger] c[i] <= '9')
        },
        !is_clock(a + seq![':'] + (b + seq![':'] + (c + seq![':'] + rest))),
{
    lemma_split_none(a, ':');
    lemma_split_none(b, ':');
    lemma_split_none(c, ':');
    lemma_split_at(a, ':', b);
    lemma_split_at(b, ':', c);
    lemma_split_at(a, ':', b + seq![':'] + c);
    lemma_split_at(c, ':', rest);
    lemma_split_at(b, ':', c + seq![':'] + rest);
    lemma_split_at(a, ':', b + seq![':'] + (c + seq![':'] + rest));
    crate::text::lemma_split_prefix(seq![], rest, ':');
    assert(split_on(a + seq![':'] + b, ':') =~= seq![a, b]);
    assert(split_on(a + seq![':'] + (b + seq![':'] + c), ':') =~= seq![a, b, c]);
    assert(split_on(a + seq![':'] + (b + seq![':'] + (c + seq![':'] + rest)), ':').len() >= 4);
    lemma_digits_are(a);
    lemma_digits_are(b);
    lemma_digits_are(c);
}

proof fn lemma_digits_are(a: Seq<char>)
    ensures
        all_digits(a) <==> (forall|i: int| 0 <= i < a.len() ==> '0' <= #[trigger] a[i] <= '9'),
{
    if forall|i: int| 0 <= i < a.len() ==> '0' <= #[trigger] a[i] <= '9' {
        assert forall|i: int| 0 <= i < a.len() implies is_digit(#[trigger] a[i]) by {
            assert('0' <= a[i] <= '9');
        }
    }
    if all_digits(a) {
        assert forall|i: int| 0 <= i < a.len() implies '0' <= #[trigger] a[i] <= '9' by {
            assert(is_digit(a[i]));
        }
    }
}

/// A line `[time] text` is read as the time and the text, whatever the text is.
pub proof fn lemma_simple_line_read(c: Seq<char>, text: Seq<char>)
    requires
        is_clock(c),
        time_secs(c) is Some,
    ensures
        stamp_of(seq!['['] + c + seq![']', ' '] + text) == Some(
            (Stamp { created: time_secs(c)->0, edited: None, text }),
        ),
{
    let line = seq!['['] + c + seq![']', ' '] + text;
    let n = c.len() as int;
    assert forall|k: int| 0 <= k < n implies c[k] != ' ' && c[k] != ']' by {
        lemma_clock_chars(c, k);
    }
    assert(line.subrange(1, 1 + n) =~= c);
    assert forall|k: int| 1 <= k < 1 + n implies line[k] == c[k - 1] by {}
    assert(line[1 + n] == ']' && line[2 + n] == ' ');
    lemma_found(line, 1, ']', 1 + n);
    lemma_found(line, 1, ' ', 2 + n);
    assert(line.skip(3 + n) =~= text);
    let wide = line.subrange(1, 2 + n);
    assert(wide[n] == ']');
    if is_clock(wide) {
        lemma_clock_chars(wide, n);
    }
}

/// A line that holds two times at their places is read as these and the text behind them.
proof fn lemma_edited_places(line: Seq<char>, c: Seq<char>, e: Seq<char>, text: Seq<char>)
    requires
        is_clock(c),
        time_secs(c) is Some,
        is_clock(e),
        time_secs(e) is Some,
        ({
            let n = c.len() as int;
            let m = e.len() as int;
            &&& line.len() == 5 + n + m + text.len()
            &&& line[0] == '['
            &&& line.subrange(1, 1 + n) == c
            &&& line[1 + n] == ' '
            &&& line[2 + n] == '~'
            &&& line.subrange(3 + n, 3 + n + m) == e
            &&& line[3 + n + m] == ']'
            &&& line[4 + n + m] == ' '
            &&& line.skip(5 + n + m) == text
        }),
    ensures
        stamp_of(line) == Some(
            (Stamp { created: time_secs(c)->0, edited: Some(time_secs(e)->0), text }),
        ),
{
    let n = c.len() as int;
    let m = e.len() as int;
    assert forall|k: int| 1 <= k < 1 + n implies line[k] != ' ' by {
        assert(line[k] == line.subrange(1, 1 + n)[k - 1]);
        lemma_clock_chars(c, k - 1);
    }
    assert forall|k: int| 3 + n <= k < 3 + n + m implies line[k] != ']' by {
        assert(line[k] == line.subrange(3 + n, 3 + n + m)[k - 3 - n]);
        lemma_clock_chars(e, k - 3 - n);
    }
    lemma_found(line, 1, ' ', 1 + n);
    lemma_found(line, 3 + n, ']', 3 + n + m);
}

/// A line `[time ~time] text` is read as the two times and the text, whatever the text is.
pub proof fn lemma_edited_line_read(c: Seq<char>, e: Seq<char>, text: Seq<char>)
    requires
        is_clock(c),
        time_secs(c) is Some,
        is_clock(e),
        time_secs(e) is Some,
    ensures
        stamp_of(seq!['['] + c + seq![' ', '~'] + e + seq![']', ' '] + text) == Some(
            (Stamp { created: time_secs(c)->0, edited: Some(time_secs(e)->0), text }),
        ),
{
    let line = seq!['['] + c + seq![' ', '~'] + e + seq![']', ' '] + text;
    let n = c.len() as int;
    let m = e.len() as int;
    assert(line.subrange(1, 1 + n) =~= c);
    assert(line.subrange(3 + n, 3 + n + m) =~= e);
    assert(line.skip(5 + n + m) =~= text);
    lemma_edited_places(line, c, e, text);
}

/// `line` is `[c] text` or, with an edit, `[c ~e] text`.
pub open spec fn has_form(
    line: Seq<char>,
    c: Seq<char>,
    e: Option<Seq<char>>,
    text: Seq<char>,
) -> bool {
    match e {
        Some(e) => line == seq!['['] + c + seq![' ', '~'] + e + seq![']', ' '] + text,
        None => line == seq!['['] + c + seq![']', ' '] + text,
    }
}

/// Only lines of the two forms are read as stamped, and their times are the ones that
/// stand in the brackets.
pub proof fn lemma_stamped_form(line: Seq<char>)
    requires
        stamp_of(line) is Some,
    ensures
        exists|c: Seq<char>, e: Option<Seq<char>>|
            {
                &&& #[trigger] has_form(line, c, e, stamp_of(line)->0.text)
                &&& is_clock(c) && time_secs(c) == Some(stamp_of(line)->0.created)
                &&& e is Some <==> stamp_of(line)->0.edited is Some
                &&& e matches Some(e) ==> is_clock(e) && time_secs(e) == stamp_of(line)->0.edited
            },
{
    let stamp = stamp_of(line)->0;
    if stamp.edited is Some {
        let (c, e, text) = edited_parts(line)->0;
        let i = find_from(line, 1, ' ');
        let j = find_from(line, i + 2, ']');
        lemma_find_from(line, 1, ' ');
        lemma_find_from(line, i + 2, ']');
        assert(line =~= seq!['['] + c + seq![' ', '~'] + e + seq![']', ' '] + text);
        assert(has_form(line, c, Some(e), stamp.text));
    } else {
        let (c, text) = simple_parts(line)->0;
        let i = find_from(line, 1, ']');
        lemma_find_from(line, 1, ']');
        assert(line =~= seq!['['] + c + seq![']', ' '] + text);
        assert(has_form(line, c, None, stamp.text));
    }
}

/// `end` ends a line: a line feed, or a carriage return and a line feed, or nothing behind
/// what is left over.
pub open spec fn ends_line(line: Seq<char>, end: Seq<char>) -> bool {
    &&& forall|i: int| 0 <= i < line.len() ==> line[i] != '\n'
    &&& {
        ||| end == seq!['\n'] && (line.len() == 0 || line.last() != '\r')
        ||| end == seq!['\r', '\n']
        ||| end == Seq::<char>::empty() && line.len() > 0
    }
}

/// The lines of a memo with one more at its end.
proof fn lemma_one_more_line(content: Seq<char>, line: Seq<char>, end: Seq<char>)
    requires
        content.len() == 0 || content.last() == '\n',
        ends_line(line, end),
    ensures
        lines_of(content + line + end) == lines_of(content).push(line),
{
    let none = Seq::<char>::empty();
    lemma_line_taken(line, none);
    let full = line + end;
    assert(line + end + none =~= full);
    assert(content + line + end =~= content + full);
    assert(seq![line] + lines_of(none) =~= seq![line]);
    if end.len() == 0 {
        assert(full =~= line);
    }
    lemma_lines_concat(content, full);
    assert(lines_of(content) + seq![line] =~= lines_of(content).push(line));
}

/// One more line at the end of a memo. A stamped one makes one more entry with its text and
/// its times, counted from the start; any other goes on the last entry, behind a line feed,
/// or makes the first one, with the start as its time. The entries before stay.
pub proof fn lemma_next_line(
    content: Seq<char>,
    line: Seq<char>,
    end: Seq<char>,
    start: Timestamp,
)
    requires
        content.len() == 0 || content.last() == '\n',
        ends_line(line, end),
    ensures
        ({
            let had = memo_entries(content, start);
            let has = memo_entries(content + line + end, start);
            let n = had.len();
            match stamp_of(line) {
                Some(stamp) => {
                    &&& has.len() == n + 1
                    &&& forall|i: int| 0 <= i < n ==> has[i] == had[i]
                    &&& has[n as int].text == stamp.text
                    &&& has[n as int].created == start.after(stamp.created)
                    &&& stamp.edited is None ==> has[n as int].edited is None
                    &&& stamp.edited matches Some(e) ==> has[n as int].edited == Some(
                        start.after(e),
                    )
                },
                None => if n > 0 {
                    &&& has.len() == n
                    &&& forall|i: int| 0 <= i < n - 1 ==> has[i] == had[i]
                    &&& has[n - 1].text == had[n - 1].text + seq!['\n'] + line
                    &&& has[n - 1].created == had[n - 1].created
                    &&& has[n - 1].edited == had[n - 1].edited
                } else {
                    &&& has.len() == 1
                    &&& has[0].text == line
                    &&& has[0].created == start
                    &&& has[0].edited is None
                },
            }
        }),
        memo_entries(seq![], start).len() == 0,
{
    lemma_one_more_line(content, line, end);
    let lines = lines_of(content).push(line);
    assert(lines.drop_last() =~= lines_of(content));
    assert(lines_of(Seq::<char>::empty()) =~= Seq::<Seq<char>>::empty());
    let had = memo_entries(content, start);
    assert(had.len() > 0 ==> had.last().text.push('\n') + line =~= had[had.len() - 1].text + seq![
        '\n',
    ] + line);
}

/// `secs` seconds from `start` on lie in the calendar; out of a leap second one that is
/// earlier counts from its end.
pub open spec fn in_calendar(start: Timestamp, secs: int) -> bool {
    if start.nanos >= 1_000_000_000 && secs < 0 {
        MIN_SECS <= start.secs + 1 + secs <= MAX_SECS
    } else {
        MIN_SECS <= start.secs + secs <= MAX_SECS
    }
}

/// One more stamped line can be given dates exactly if its times, counted from the start,
/// lie in the calendar; any other line always can.
pub proof fn lemma_next_line_fits(
    content: Seq<char>,
    line: Seq<char>,
    end: Seq<char>,
    start: Timestamp,
)
    requires
        content.len() == 0 || content.last() == '\n',
        ends_line(line, end),
    ensures
        memo_fits(seq![], start),
        memo_fits(content + line + end, start) <==> memo_fits(content, start) && (stamp_of(
            line,
        ) matches Some(stamp) ==> {
            &&& in_calendar(start, stamp.created)
            &&& stamp.edited matches Some(e) ==> in_calendar(start, e)
        }),
{
    lemma_one_more_line(content, line, end);
    assert(lines_of(Seq::<char>::empty()) =~= Seq::<Seq<char>>::empty());
    let old_lines = lines_of(content);
    let lines = lines_of(content + line + end);
    assert(lines =~= old_lines.push(line));
    if memo_fits(content + line + end, start) {
        assert(stamp_of(lines[old_lines.len() as int]) == stamp_of(line));
        assert forall|i: int| 0 <= i < old_lines.len() implies (stamp_of(
            #[trigger] old_lines[i],
        ) matches Some(stamp) ==> stamp_fits(stamp, start)) by {
            assert(lines[i] == old_lines[i]);
        }
    }
    if memo_fits(content, start) {
        assert forall|i: int| 0 <= i < old_lines.len() implies (stamp_of(
            #[trigger] lines[i],
        ) matches Some(stamp) ==> stamp_fits(stamp, start)) by {
            assert(lines[i] == old_lines[i]);
        }
    }
}

/// What was parsed is read in order, each line with its text and its times.
pub proof fn lemma_parsed_entries(v: Seq<ParsedLine>, i: int)
    requires
        0 <= i < v.len(),
    ensures
        entries(v).len() == v.len(),
        entries(v)[i].text == v[i].text@,
        entries(v)[i].created == v[i].created_at,
        entries(v)[i].edited == v[i].edited_at,
{
}

/// The seconds of a time can be added up exactly if each of the products and sums, from the
/// left on, has 64 bits. Where a part is no number, there is nothing to add.
pub proof fn lemma_time_adds_up(a: Seq<char>, b: Seq<char>, c: Seq<char>)
    requires
        forall|i: int| 0 <= i < a.len() ==> a[i] != ':',
        forall|i: int| 0 <= i < b.len() ==> b[i] != ':',
        forall|i: int| 0 <= i < c.len() ==> c[i] != ':',
    ensures
        time_fits(a),
        integer(a) is None || integer(b) is None ==> time_fits(a + seq![':'] + b),
        integer(a) is Some && integer(b) is Some ==> {
            let (x, y) = (integer(a)->0, integer(b)->0);
            time_fits(a + seq![':'] + b) <==> i64::MIN <= x * 60 <= i64::MAX && i64::MIN <= x * 60
                + y <= i64::MAX
        },
        integer(a) is Some && integer(b) is Some && integer(c) is Some ==> {
            let (x, y, z) = (integer(a)->0, integer(b)->0, integer(c)->0);
            time_fits(a + seq![':'] + (b + seq![':'] + c)) <==> {
                &&& i64::MIN <= x * 3600 <= i64::MAX
                &&& i64::MIN <= y * 60 <= i64::MAX
                &&& i64::MIN <= x * 3600 + y * 60 <= i64::MAX
                &&& i64::MIN <= x * 3600 + y * 60 + z <= i64::MAX
            }
        },
{
    lemma_split_none(a, ':');
    lemma_split_none(b, ':');
    lemma_split_none(c, ':');
    lemma_split_at(a, ':', b);
    lemma_split_at(b, ':', c);
    lemma_split_at(a, ':', b + seq![':'] + c);
    assert(split_on(a + seq![':'] + b, ':') =~= seq![a, b]);
    assert(split_on(a + seq![':'] + (b + seq![':'] + c), ':') =~= seq![a, b, c]);
}

/// The message after saving tells how many lines were written, and where to.
pub proof fn lemma_saved_message(content: Seq<char>, path: Seq<char>)
    ensures
        ({
            let said = saved_text(content, path);
            let count = decimal(lines_of(content).len() as int);
            let n = count.len() as int;
            &&& said.take(6) == "Saved "@
            &&& said.subrange(6, 6 + n) == count
            &&& said.subrange(6 + n, 16 + n) == " lines to "@
            &&& said.skip(16 + n) == path
        }),
{
    reveal_strlit("Saved ");
    reveal_strlit(" lines to ");
    let said = saved_text(content, path);
    let count = decimal(lines_of(content).len() as int);
    let n = count.len() as int;
    assert(said.take(6) =~= "Saved "@);
    assert(said.subrange(6, 6 + n) =~= count);
    assert(said.subrange(6 + n, 16 + n) =~= " lines to "@);
    assert(said.skip(16 + n) =~= path);
}

/// A resumed page has a row for each entry, in order, with its text and times; the rows are
/// settled, and their times are not given anew.
pub proof fn lemma_resumed_rows(found: Seq<Entry>, i: int)
    requires
        0 <= i < found.len(),
    ensures
        resumed_rows(found).len() == found.len(),
        resumed_rows(found)[i].text == found[i].text,
        resumed_rows(found)[i].created == found[i].created,
        resumed_rows(found)[i].edited == found[i].edited,
        resumed_rows(found)[i].settled,
        resumed_rows(found)[i].begun,
{
}

} // verus!
