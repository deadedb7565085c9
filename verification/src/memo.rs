//! The memo format: how a page of notes is written.

use vstd::prelude::*;

use crate::app::resumed_rows;
use crate::clock::{clock_text, Timestamp};
use crate::page::Row;
use crate::parser::{
    add_lines, all_digits, integer, is_clock, is_digit, lemma_decimal, lemma_decimal_long,
    memo_entries, memo_fits, number, reachable, stamp_fits, stamp_of, time_secs, Entry, Stamp,
};
use crate::text::{
    blank, find_from, lemma_find_from, lemma_found, lemma_lines_are_parts,
    lemma_lines_concat, lemma_split_at, lemma_split_chars, lemma_split_none, lemma_split_prefix,
    lines_of, pad2, split_on, without_cr,
};

verus! {

/// The seconds of the session at which `t` falls; a time before its start counts
/// as the start.
pub open spec fn session_secs(t: Timestamp, start: Timestamp) -> int {
    if t.seconds_since(start) < 0 {
        0
    } else {
        t.seconds_since(start)
    }
}

/// `t` as a time of the session.
pub open spec fn time_text(t: Timestamp, start: Timestamp) -> Seq<char> {
    clock_text(session_secs(t, start))
}

/// `[created] `, or `[created ~edited] `.
pub open spec fn heading(row: Row, start: Timestamp) -> Seq<char> {
    match row.edited {
        Some(e) => seq!['['] + time_text(row.created, start) + seq![' ', '~'] + time_text(e, start)
            + seq![']', ' '],
        None => seq!['['] + time_text(row.created, start) + seq![']', ' '],
    }
}

/// What is written of a row: nothing if it is blank, else its heading and its
/// text.
pub open spec fn row_text(row: Row, start: Timestamp) -> Seq<char> {
    if blank(row.text) {
        seq![]
    } else {
        heading(row, start) + row.text + seq!['\n']
    }
}

/// What is written of the rows.
pub open spec fn memo_text(rows: Seq<Row>, start: Timestamp) -> Seq<char>
    decreases rows.len(),
{
    if rows.len() == 0 {
        seq![]
    } else {
        memo_text(rows.drop_last(), start) + row_text(rows.last(), start)
    }
}

// --- Reading back what was written ---

/// A text that reading a memo gives back: no part of it between line feeds ends
/// with a carriage return, and none after the first looks like a stamped line.
pub open spec fn replayable(text: Seq<char>) -> bool {
    let p = split_on(text, '\n');
    &&& forall|k: int| 0 <= k < p.len() ==> without_cr(#[trigger] p[k]) == p[k]
    &&& forall|k: int| 1 <= k < p.len() ==> stamp_of(#[trigger] p[k]) is None
}

/// What is typed as one line, and does not end with a carriage return, is read
/// back.
pub proof fn lemma_single_line_replayable(text: Seq<char>)
    requires
        forall|k: int| 0 <= k < text.len() ==> text[k] != '\n',
        text.len() > 0 ==> text.last() != '\r',
    ensures
        replayable(text),
{
    lemma_split_none(text, '\n');
}

/// The time that reading `t` back gives: `t` to the second, and no earlier than
/// the start.
pub open spec fn reread(t: Timestamp, start: Timestamp) -> Timestamp {
    start.after(session_secs(t, start))
}

/// The entry that a row becomes when it is written and read.
pub open spec fn row_entry(row: Row, start: Timestamp) -> Entry {
    Entry {
        text: row.text,
        created: reread(row.created, start),
        edited: match row.edited {
            Some(e) => Some(reread(e, start)),
            None => None,
        },
    }
}

/// The entries of the rows that are not blank.
pub open spec fn kept_entries(rows: Seq<Row>, start: Timestamp) -> Seq<Entry>
    decreases rows.len(),
{
    if rows.len() == 0 {
        seq![]
    } else if blank(rows.last().text) {
        kept_entries(rows.drop_last(), start)
    } else {
        kept_entries(rows.drop_last(), start).push(row_entry(rows.last(), start))
    }
}

/// The times of the row are valid.
pub open spec fn row_valid(row: Row) -> bool {
    &&& row.created.valid()
    &&& row.edited matches Some(e) ==> e.valid()
}

proof fn lemma_pad2(n: int)
    requires
        n >= 0,
    ensures
        pad2(n).len() >= 2,
        all_digits(pad2(n)),
        number(pad2(n)) == n,
        n < 100 ==> pad2(n).len() == 2,
        n <= i64::MAX ==> integer(pad2(n)) == Some(n),
        forall|k: int| 0 <= k < pad2(n).len() ==> pad2(n)[k] != ':',
{
    lemma_decimal(n);
    if n < 10 {
        let s = pad2(n);
        assert(s.drop_last() =~= seq!['0']);
        assert(seq!['0'].drop_last() =~= Seq::<char>::empty());
        assert(number(Seq::<char>::empty()) == 0);
        assert(number(seq!['0']) == 0);
    } else if n >= 100 {
        lemma_decimal_long(n);
    }
    assert(is_digit(pad2(n)[0]));
    assert forall|k: int| 0 <= k < pad2(n).len() implies pad2(n)[k] != ':' by {
        assert(is_digit(pad2(n)[k]));
    }
}

/// The clock text of `n` seconds is a time of the memo format, and stands for `n`
/// seconds.
pub proof fn lemma_clock_text(n: int)
    requires
        0 <= n <= i64::MAX,
    ensures
        is_clock(clock_text(n)),
        time_secs(clock_text(n)) == Some(n),
{
    let m = (n % 3600) / 60;
    let s = n % 60;
    lemma_pad2(m);
    lemma_pad2(s);
    lemma_split_none(pad2(s), ':');
    lemma_split_at(pad2(m), ':', pad2(s));
    if n >= 3600 {
        let h = n / 3600;
        lemma_pad2(h);
        let tail = pad2(m) + seq![':'] + pad2(s);
        lemma_split_at(pad2(h), ':', tail);
        assert(clock_text(n) =~= pad2(h) + seq![':'] + tail);
        assert(split_on(clock_text(n), ':') =~= seq![pad2(h), pad2(m), pad2(s)]);
    } else {
        assert(split_on(clock_text(n), ':') =~= seq![pad2(m), pad2(s)]);
    }
}

/// A time of the memo format holds digits and colons alone.
pub proof fn lemma_clock_chars(t: Seq<char>, i: int)
    requires
        is_clock(t),
        0 <= i < t.len(),
    ensures
        is_digit(t[i]) || t[i] == ':',
{
    lemma_split_chars(t, ':', i);
    if t[i] != ':' {
        let p = split_on(t, ':');
        let (a, k) = choose|a: int, k: int|
            0 <= a < p.len() && 0 <= k < p[a].len() && #[trigger] p[a][k] == t[i];
        assert(all_digits(p[a]));
        assert(is_digit(p[a][k]));
    }
}

/// A heading followed by `t` is read as its times and `t`.
proof fn lemma_heading_read(row: Row, start: Timestamp, t: Seq<char>)
    requires
        start.valid(),
        row_valid(row),
    ensures
        stamp_of(heading(row, start) + t) == Some(
            (Stamp {
                created: session_secs(row.created, start),
                edited: match row.edited {
                    Some(e) => Some(session_secs(e, start)),
                    None => None,
                },
                text: t,
            }),
        ),
{
    let line = heading(row, start) + t;
    let c = time_text(row.created, start);
    lemma_clock_text(session_secs(row.created, start));
    assert(line[0] == '[');
    assert forall|k: int| 0 <= k < c.len() implies c[k] != ' ' && c[k] != ']' by {
        lemma_clock_chars(c, k);
    }
    let n = c.len() as int;
    assert(line.subrange(1, 1 + n) =~= c);
    assert forall|k: int| 1 <= k < 1 + n implies line[k] == c[k - 1] by {}
    match row.edited {
        Some(e) => {
            let d = time_text(e, start);
            let m = d.len() as int;
            lemma_clock_text(session_secs(e, start));
            assert forall|k: int| 0 <= k < m implies d[k] != ']' by {
                lemma_clock_chars(d, k);
            }
            assert(line[1 + n] == ' ' && line[2 + n] == '~');
            lemma_found(line, 1, ' ', 1 + n);
            assert(line.subrange(3 + n, 3 + n + m) =~= d);
            assert forall|k: int| 3 + n <= k < 3 + n + m implies line[k] == d[k - 3 - n] by {}
            assert(line[3 + n + m] == ']' && line[4 + n + m] == ' ');
            lemma_found(line, 3 + n, ']', 3 + n + m);
            assert(line.skip(5 + n + m) =~= t);
        },
        None => {
            assert(line[1 + n] == ']' && line[2 + n] == ' ');
            lemma_found(line, 1, ']', 1 + n);
            lemma_found(line, 1, ' ', 2 + n);
            assert(line.skip(3 + n) =~= t);
            let wide = line.subrange(1, 2 + n);
            assert(wide[n] == ']');
            if is_clock(wide) {
                lemma_clock_chars(wide, n);
            }
        },
    }
}

proof fn lemma_add_lines_concat(
    found: Seq<Entry>,
    a: Seq<Seq<char>>,
    b: Seq<Seq<char>>,
    start: Timestamp,
)
    ensures
        add_lines(found, a + b, start) == add_lines(add_lines(found, a, start), b, start),
    decreases b.len(),
{
    if b.len() == 0 {
        assert(a + b =~= a);
    } else {
        lemma_add_lines_concat(found, a, b.drop_last(), start);
        assert((a + b).drop_last() =~= a + b.drop_last());
    }
}

/// `text`, with each of `more` after it on a line of its own.
spec fn with_lines(text: Seq<char>, more: Seq<Seq<char>>) -> Seq<char>
    decreases more.len(),
{
    if more.len() == 0 {
        text
    } else {
        with_lines(text, more.drop_last()).push('\n') + more.last()
    }
}

proof fn lemma_with_lines_front(text: Seq<char>, more: Seq<Seq<char>>)
    requires
        more.len() > 0,
    ensures
        with_lines(text, more) == with_lines(text.push('\n') + more[0], more.skip(1)),
    decreases more.len(),
{
    if more.len() == 1 {
        assert(more.drop_last() =~= Seq::<Seq<char>>::empty());
        assert(more.skip(1) =~= Seq::<Seq<char>>::empty());
        assert(with_lines(text, more.drop_last()) == text);
    } else {
        lemma_with_lines_front(text, more.drop_last());
        assert(more.skip(1).drop_last() =~= more.drop_last().skip(1));
    }
}

/// The parts between line feeds, put together again.
proof fn lemma_with_lines_split(prefix: Seq<char>, t: Seq<char>)
    ensures
        split_on(t, '\n').len() > 0,
        with_lines(prefix + split_on(t, '\n')[0], split_on(t, '\n').skip(1)) == prefix + t,
    decreases t.len(),
{
    let e = find_from(t, 0, '\n');
    let p = split_on(t, '\n');
    lemma_find_from(t, 0, '\n');
    if e == t.len() {
        assert(p.skip(1) =~= Seq::<Seq<char>>::empty());
    } else {
        let a = t.take(e);
        let b = t.skip(e + 1);
        let q = split_on(b, '\n');
        assert(p.skip(1) =~= q);
        let longer = (prefix + a).push('\n');
        lemma_with_lines_split(longer, b);
        lemma_with_lines_front(prefix + a, q);
        assert(longer + b =~= prefix + t);
    }
}

/// Lines that are not stamped go on the last entry.
proof fn lemma_plain_lines(
    found: Seq<Entry>,
    entry: Entry,
    more: Seq<Seq<char>>,
    start: Timestamp,
)
    requires
        forall|k: int| 0 <= k < more.len() ==> stamp_of(#[trigger] more[k]) is None,
    ensures
        add_lines(found.push(entry), more, start) == found.push(
            Entry { text: with_lines(entry.text, more), ..entry },
        ),
    decreases more.len(),
{
    if more.len() > 0 {
        let less = more.drop_last();
        assert forall|k: int| 0 <= k < less.len() implies stamp_of(#[trigger] less[k]) is None by {
            assert(less[k] == more[k]);
        }
        lemma_plain_lines(found, entry, less, start);
        let last = found.push(Entry { text: with_lines(entry.text, less), ..entry });
        assert(last.drop_last() =~= found);
        assert(stamp_of(more[more.len() - 1]) is None);
    }
}

proof fn lemma_reachable(t: Timestamp, start: Timestamp)
    requires
        t.valid(),
        start.valid(),
    ensures
        reachable(start, session_secs(t, start)),
        0 <= session_secs(t, start) <= i64::MAX,
{
}

/// One written row is read as its entry, and all its lines can be read.
proof fn lemma_row_round_trip(found: Seq<Entry>, row: Row, start: Timestamp)
    requires
        start.valid(),
        row_valid(row),
        !blank(row.text),
        replayable(row.text),
    ensures
        add_lines(found, lines_of(row_text(row, start)), start) == found.push(
            row_entry(row, start),
        ),
        memo_fits(row_text(row, start), start),
        row_text(row, start).last() == '\n',
{
    let h = heading(row, start);
    let t = row.text;
    let p = split_on(t, '\n');
    lemma_reachable(row.created, start);
    lemma_clock_text(session_secs(row.created, start));
    let c = time_text(row.created, start);
    assert forall|k: int| 0 <= k < c.len() implies c[k] != '\n' by {
        lemma_clock_chars(c, k);
    }
    if row.edited is Some {
        let e = row.edited->0;
        lemma_reachable(e, start);
        lemma_clock_text(session_secs(e, start));
        let d = time_text(e, start);
        assert forall|k: int| 0 <= k < d.len() implies d[k] != '\n' by {
            lemma_clock_chars(d, k);
        }
    }
    assert(forall|k: int| 0 <= k < h.len() ==> h[k] != '\n');
    lemma_split_prefix(h, t, '\n');
    let lines = split_on(h + t, '\n');
    assert(h.last() == ' ');
    assert forall|k: int| 0 <= k < lines.len() implies without_cr(#[trigger] lines[k])
        == lines[k] by {
        if k == 0 {
            assert(without_cr(p[0]) == p[0]);
            if p[0].len() > 0 {
                assert((h + p[0]).last() == p[0].last());
                assert(p[0].last() != '\r') by {
                    if p[0].last() == '\r' {
                        assert(p[0].drop_last().len() == p[0].len() - 1);
                    }
                }
            } else {
                assert(h + p[0] =~= h);
            }
        } else {
            assert(lines[k] == p[k]);
        }
    }
    lemma_lines_are_parts(h + t);
    assert(row_text(row, start) =~= (h + t).push('\n'));
    lemma_heading_read(row, start, p[0]);
    let more = p.skip(1);
    assert forall|k: int| 0 <= k < more.len() implies stamp_of(#[trigger] more[k]) is None by {
        assert(more[k] == p[k + 1]);
    }
    let first = Entry { text: p[0], ..row_entry(row, start) };
    lemma_add_lines_concat(found, seq![h + p[0]], more, start);
    assert(add_lines(found, seq![h + p[0]], start) == found.push(first)) by {
        assert(seq![h + p[0]].drop_last() =~= Seq::<Seq<char>>::empty());
        assert(add_lines(found, Seq::<Seq<char>>::empty(), start) == found);
    }
    lemma_plain_lines(found, first, more, start);
    lemma_with_lines_split(seq![], t);
    assert(seq![] + p[0] =~= p[0]);
    assert(seq![] + t =~= t);
    assert forall|i: int|
        0 <= i < lines_of(row_text(row, start)).len() implies (stamp_of(
        #[trigger] lines_of(row_text(row, start))[i],
    ) matches Some(stamp) ==> stamp_fits(stamp, start)) by {
        if i > 0 {
            assert(lines[i] == more[i - 1]);
        }
    }
}

pub proof fn lemma_memo_text_end(rows: Seq<Row>, start: Timestamp)
    ensures
        memo_text(rows, start).len() == 0 || memo_text(rows, start).last() == '\n',
    decreases rows.len(),
{
    if rows.len() > 0 {
        lemma_memo_text_end(rows.drop_last(), start);
        if blank(rows.last().text) {
            assert(memo_text(rows, start) =~= memo_text(rows.drop_last(), start));
        }
    }
}

/// Reading a written memo gives back every note that is not blank, with its text
/// and with its times to the second.
pub proof fn lemma_memo_round_trip(rows: Seq<Row>, start: Timestamp)
    requires
        start.valid(),
        forall|i: int| 0 <= i < rows.len() ==> row_valid(#[trigger] rows[i]),
        forall|i: int|
            0 <= i < rows.len() && !blank((#[trigger] rows[i]).text) ==> replayable(rows[i].text),
    ensures
        memo_fits(memo_text(rows, start), start),
        memo_entries(memo_text(rows, start), start) == kept_entries(rows, start),
    decreases rows.len(),
{
    if rows.len() == 0 {
        assert(lines_of(Seq::<char>::empty()) =~= Seq::<Seq<char>>::empty());
    } else {
        let less = rows.drop_last();
        let row = rows.last();
        assert forall|i: int| 0 <= i < less.len() implies row_valid(#[trigger] less[i]) && (!blank(
            less[i].text,
        ) ==> replayable(less[i].text)) by {
            assert(less[i] == rows[i]);
        }
        lemma_memo_round_trip(less, start);
        assert(row == rows[rows.len() - 1]);
        let a = memo_text(less, start);
        let b = row_text(row, start);
        if blank(row.text) {
            assert(a + b =~= a);
        } else {
            lemma_memo_text_end(less, start);
            lemma_lines_concat(a, b);
            lemma_add_lines_concat(seq![], lines_of(a), lines_of(b), start);
            lemma_row_round_trip(kept_entries(less, start), row, start);
            assert forall|i: int| 0 <= i < lines_of(a + b).len() implies (stamp_of(
                #[trigger] lines_of(a + b)[i],
            ) matches Some(stamp) ==> stamp_fits(stamp, start)) by {
                if i < lines_of(a).len() {
                    assert(lines_of(a + b)[i] == lines_of(a)[i]);
                } else {
                    assert(lines_of(a + b)[i] == lines_of(b)[i - lines_of(a).len()]);
                }
            }
        }
    }
}

/// A time that was read back is written as it was before.
proof fn lemma_reread_text(t: Timestamp, start: Timestamp)
    requires
        t.valid(),
        start.valid(),
        !start.leap(),
    ensures
        time_text(reread(t, start), start) == time_text(t, start),
{
    lemma_reachable(t, start);
    let k = session_secs(t, start);
    let back = start.after(k);
    assert(back.nanos_since(start) == k * 1_000_000_000);
}

proof fn lemma_kept_rows_text(rows: Seq<Row>, start: Timestamp)
    requires
        start.valid(),
        !start.leap(),
        forall|i: int| 0 <= i < rows.len() ==> row_valid(#[trigger] rows[i]),
    ensures
        memo_text(resumed_rows(kept_entries(rows, start)), start) == memo_text(rows, start),
    decreases rows.len(),
{
    if rows.len() == 0 {
        assert(resumed_rows(kept_entries(rows, start)) =~= rows);
    } else {
        let less = rows.drop_last();
        let row = rows.last();
        assert forall|i: int| 0 <= i < less.len() implies row_valid(#[trigger] less[i]) by {
            assert(less[i] == rows[i]);
        }
        lemma_kept_rows_text(less, start);
        assert(row == rows[rows.len() - 1]);
        if blank(row.text) {
            assert(memo_text(rows, start) =~= memo_text(less, start));
        } else {
            let kept = resumed_rows(kept_entries(rows, start));
            assert(kept.drop_last() =~= resumed_rows(kept_entries(less, start)));
            lemma_reread_text(row.created, start);
            if row.edited is Some {
                lemma_reread_text(row.edited->0, start);
            }
            assert(row_text(kept.last(), start) == row_text(row, start));
        }
    }
}

/// Where every note is read back as it was, resuming a session that did not start
/// inside a leap second and writing its memo again changes nothing in it.
pub proof fn lemma_resume_keeps_memo(rows: Seq<Row>, start: Timestamp, now: Timestamp)
    requires
        start.valid(),
        !start.leap(),
        forall|i: int| 0 <= i < rows.len() ==> row_valid(#[trigger] rows[i]),
        forall|i: int|
            0 <= i < rows.len() && !blank((#[trigger] rows[i]).text) ==> replayable(rows[i].text),
    ensures
        ({
            let memo = memo_text(rows, start);
            let resumed = resumed_rows(memo_entries(memo, start)).push(Row::fresh(seq![], now));
            memo_text(resumed, start) == memo
        }),
{
    lemma_memo_round_trip(rows, start);
    lemma_kept_rows_text(rows, start);
    let kept = resumed_rows(kept_entries(rows, start));
    let resumed = kept.push(Row::fresh(seq![], now));
    assert(resumed.drop_last() =~= kept);
    assert(memo_text(resumed, start) =~= memo_text(kept, start));
}

} // verus!
