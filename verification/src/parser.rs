//! The memo format: reading timestamped lines back.

use vstd::prelude::*;

use crate::clock::{Timestamp, MAX_SECS, MIN_SECS};
use crate::text::{
    chars_of, decimal, find_char, find_from, lines_of, push_range, slice_of, split_chars,
    split_lines, split_on, views,
};

verus! {

pub struct ParsedLine {
    pub text: String,
    pub created_at: Timestamp,
    pub edited_at: Option<Timestamp>,
}

/// What a parsed line holds.
pub struct Entry {
    pub text: Seq<char>,
    pub created: Timestamp,
    pub edited: Option<Timestamp>,
}

/// The times at the head of a line, in seconds, and the text after them.
pub struct Stamp {
    pub created: int,
    pub edited: Option<int>,
    pub text: Seq<char>,
}

impl ParsedLine {
    pub open spec fn entry(&self) -> Entry {
        Entry { text: self.text@, created: self.created_at, edited: self.edited_at }
    }
}

pub open spec fn entries(v: Seq<ParsedLine>) -> Seq<Entry> {
    Seq::new(v.len(), |i: int| v[i].entry())
}

pub open spec fn is_digit(c: char) -> bool {
    '0' <= c <= '9'
}

pub open spec fn all_digits(s: Seq<char>) -> bool {
    forall|i: int| 0 <= i < s.len() ==> is_digit(#[trigger] s[i])
}

/// The number that the digits `s` write.
pub open spec fn number(s: Seq<char>) -> int
    decreases s.len(),
{
    if s.len() == 0 {
        0
    } else {
        number(s.drop_last()) * 10 + (s.last() as int - 48)
    }
}

/// `s` without a sign at its head.
pub open spec fn unsigned(s: Seq<char>) -> Seq<char> {
    if s.len() > 0 && (s[0] == '-' || s[0] == '+') {
        s.skip(1)
    } else {
        s
    }
}

/// The number that `s` writes: digits, with or without a sign. `None` where it is
/// no number, or one outside the range of `i64`.
pub open spec fn integer(s: Seq<char>) -> Option<int> {
    let body = unsigned(s);
    let v = if s.len() > 0 && s[0] == '-' {
        -number(body)
    } else {
        number(body)
    };
    if body.len() > 0 && all_digits(body) && i64::MIN <= v <= i64::MAX {
        Some(v)
    } else {
        None
    }
}

/// The seconds that `MM:SS` or `HH:MM:SS` stand for.
pub open spec fn time_secs(s: Seq<char>) -> Option<int> {
    let p = split_on(s, ':');
    if p.len() == 2 {
        match (integer(p[0]), integer(p[1])) {
            (Some(m), Some(s)) => Some(m * 60 + s),
            _ => None,
        }
    } else if p.len() == 3 {
        match (integer(p[0]), integer(p[1]), integer(p[2])) {
            (Some(h), Some(m), Some(s)) => Some(h * 3600 + m * 60 + s),
            _ => None,
        }
    } else {
        None
    }
}

pub open spec fn in_i64(n: int) -> bool {
    i64::MIN <= n <= i64::MAX
}

/// The seconds that a time stands for can be added up in an `i64`.
pub open spec fn time_fits(s: Seq<char>) -> bool {
    let p = split_on(s, ':');
    if p.len() == 2 {
        integer(p[0]) matches Some(m) ==> (integer(p[1]) matches Some(s) ==> {
            &&& in_i64(m * 60)
            &&& in_i64(m * 60 + s)
        })
    } else if p.len() == 3 {
        integer(p[0]) matches Some(h) ==> (integer(p[1]) matches Some(m) ==> (integer(
            p[2],
        ) matches Some(s) ==> {
            &&& in_i64(h * 3600)
            &&& in_i64(m * 60)
            &&& in_i64(h * 3600 + m * 60)
            &&& in_i64(h * 3600 + m * 60 + s)
        }))
    } else {
        true
    }
}

proof fn lemma_number_grows(s: Seq<char>)
    requires
        all_digits(s),
    ensures
        number(s) >= 0,
    decreases s.len(),
{
    if s.len() > 0 {
        assert(is_digit(s[s.len() - 1]));
        assert forall|i: int| 0 <= i < s.drop_last().len() implies is_digit(
            #[trigger] s.drop_last()[i],
        ) by {
            assert(is_digit(s[i]));
        }
        lemma_number_grows(s.drop_last());
    }
}

proof fn lemma_number_prefix(s: Seq<char>, i: int)
    requires
        all_digits(s),
        0 <= i <= s.len(),
    ensures
        0 <= number(s.take(i)) <= number(s),
    decreases s.len() - i,
{
    assert(all_digits(s.take(i)));
    lemma_number_grows(s.take(i));
    if i < s.len() {
        lemma_number_prefix(s, i + 1);
        assert(s.take(i + 1).drop_last() =~= s.take(i));
        assert(is_digit(s[i]));
    } else {
        assert(s.take(i) =~= s);
    }
}

/// What `decimal` writes is digits, and they write the number.
pub proof fn lemma_decimal(n: int)
    requires
        n >= 0,
    ensures
        decimal(n).len() > 0,
        all_digits(decimal(n)),
        number(decimal(n)) == n,
        10 <= n < 100 ==> decimal(n).len() == 2,
    decreases n,
{
    if n < 10 {
        assert(decimal(n).drop_last() =~= Seq::<char>::empty());
        assert(number(Seq::<char>::empty()) == 0);
    } else {
        lemma_decimal(n / 10);
        assert(decimal(n).drop_last() =~= decimal(n / 10));
        assert forall|i: int| 0 <= i < decimal(n).len() implies is_digit(
            #[trigger] decimal(n)[i],
        ) by {
            if i < decimal(n / 10).len() {
                assert(is_digit(decimal(n / 10)[i]));
            }
        }
    }
}

pub proof fn lemma_decimal_long(n: int)
    requires
        n >= 10,
    ensures
        decimal(n).len() >= 2,
{
    lemma_decimal(n / 10);
}

/// Reads a number.
pub fn parse_i64(v: &Vec<char>) -> (r: Option<i64>)
    ensures
        match r {
            Some(n) => integer(v@) == Some(n as int),
            None => integer(v@) is None,
        },
{
    let negative = v.len() > 0 && v[0] == '-';
    let start: usize = if v.len() > 0 && (v[0] == '-' || v[0] == '+') {
        1
    } else {
        0
    };
    let ghost body = unsigned(v@);
    assert(body =~= v@.skip(start as int));
    if start == v.len() {
        return None;
    }
    let mut i: usize = start;
    while i < v.len()
        invariant
            start <= i <= v@.len(),
            body == unsigned(v@),
            body == v@.skip(start as int),
            forall|k: int| 0 <= k < i - start ==> is_digit(#[trigger] body[k]),
        decreases v@.len() - i,
    {
        let c = v[i];
        assert(body[i - start] == c);
        if c < '0' || c > '9' {
            assert(!is_digit(body[i - start]));
            return None;
        }
        i += 1;
    }
    let mut n: i128 = 0;
    i = start;
    assert(body.take(0) =~= Seq::<char>::empty());
    while i < v.len()
        invariant
            start <= i <= v@.len(),
            body == unsigned(v@),
            body == v@.skip(start as int),
            all_digits(body),
            n == number(body.take(i - start)),
            0 <= n <= 0x8000_0000_0000_0000,
        decreases v@.len() - i,
    {
        proof {
            assert(is_digit(body[i - start]));
            assert(body.take(i - start + 1).drop_last() =~= body.take(i - start));
            lemma_number_prefix(body, i - start + 1);
        }
        n = n * 10 + (v[i] as u32 - 48) as i128;
        if n > 0x8000_0000_0000_0000 {
            return None;
        }
        i += 1;
    }
    assert(body.take(i - start) =~= body);
    let signed: i128 = if negative {
        -n
    } else {
        n
    };
    if signed > i64::MAX as i128 {
        None
    } else {
        Some(signed as i64)
    }
}

/// Parse a time string like "MM:SS" or "HH:MM:SS" into total seconds.
pub fn parse_time_str(s: &str) -> (r: Option<i64>)
    requires
        time_fits(s@),
    ensures
        match r {
            Some(n) => time_secs(s@) == Some(n as int),
            None => time_secs(s@) is None,
        },
{
    match time_value(&chars_of(s)) {
        Some(n) => Some(n as i64),
        None => None,
    }
}

fn time_value(v: &Vec<char>) -> (r: Option<i128>)
    ensures
        match r {
            Some(n) => time_secs(v@) == Some(n as int),
            None => time_secs(v@) is None,
        },
{
    let parts = split_chars(v, ':');
    let ghost p = split_on(v@, ':');
    assert(parts@.len() == p.len());
    if parts.len() == 2 {
        assert(parts@[0]@ == p[0] && parts@[1]@ == p[1]);
        match (parse_i64(&parts[0]), parse_i64(&parts[1])) {
            (Some(m), Some(s)) => Some(m as i128 * 60 + s as i128),
            _ => None,
        }
    } else if parts.len() == 3 {
        assert(parts@[0]@ == p[0] && parts@[1]@ == p[1] && parts@[2]@ == p[2]);
        match (parse_i64(&parts[0]), parse_i64(&parts[1]), parse_i64(&parts[2])) {
            (Some(h), Some(m), Some(s)) => Some(h as i128 * 3600 + m as i128 * 60 + s as i128),
            _ => None,
        }
    } else {
        None
    }
}

/// Two digits.
pub open spec fn two_digits(s: Seq<char>) -> bool {
    s.len() == 2 && all_digits(s)
}

/// How a time is written in a memo: digits, a colon and two digits, and maybe
/// another colon and two digits.
pub open spec fn is_clock(s: Seq<char>) -> bool {
    let p = split_on(s, ':');
    &&& p.len() == 2 || p.len() == 3
    &&& p[0].len() > 0 && all_digits(p[0])
    &&& two_digits(p[1])
    &&& p.len() == 3 ==> two_digits(p[2])
}

/// A line `[created ~edited] text`, taken apart.
pub open spec fn edited_parts(line: Seq<char>) -> Option<(Seq<char>, Seq<char>, Seq<char>)> {
    let i = find_from(line, 1, ' ');
    let j = find_from(line, i + 2, ']');
    let created = line.subrange(1, i);
    let edited = line.subrange(i + 2, j);
    if line.len() > 0 && line[0] == '[' && i + 1 < line.len() && line[i + 1] == '~' && j + 1
        < line.len() && line[j + 1] == ' ' && is_clock(created) && is_clock(edited) {
        Some((created, edited, line.skip(j + 2)))
    } else {
        None
    }
}

/// A line `[created] text`, taken apart.
pub open spec fn simple_parts(line: Seq<char>) -> Option<(Seq<char>, Seq<char>)> {
    let i = find_from(line, 1, ']');
    let created = line.subrange(1, i);
    if line.len() > 0 && line[0] == '[' && i + 1 < line.len() && line[i + 1] == ' ' && is_clock(
        created,
    ) {
        Some((created, line.skip(i + 2)))
    } else {
        None
    }
}

/// The stamp of a line of the form `[MM:SS] text` or `[MM:SS ~MM:SS] text`, where
/// a time may have hours too; `None` for any other line.
pub open spec fn stamp_of(line: Seq<char>) -> Option<Stamp> {
    match edited_parts(line) {
        Some((c, e, text)) => match (time_secs(c), time_secs(e)) {
            (Some(c), Some(e)) => Some(Stamp { created: c, edited: Some(e), text }),
            _ => simple_stamp(line),
        },
        None => simple_stamp(line),
    }
}

pub open spec fn simple_stamp(line: Seq<char>) -> Option<Stamp> {
    match simple_parts(line) {
        Some((c, text)) => match time_secs(c) {
            Some(c) => Some(Stamp { created: c, edited: None, text }),
            None => None,
        },
        None => None,
    }
}

/// `secs` seconds after `start` is a time that a date can be given for.
pub open spec fn reachable(start: Timestamp, secs: int) -> bool {
    MIN_SECS <= start.second_after(secs) <= MAX_SECS
}

pub open spec fn stamp_fits(stamp: Stamp, start: Timestamp) -> bool {
    &&& reachable(start, stamp.created)
    &&& stamp.edited matches Some(e) ==> reachable(start, e)
}

/// The entry that a stamped line makes, with its times counted from `start`.
pub open spec fn stamped_entry(stamp: Stamp, start: Timestamp) -> Entry {
    Entry {
        text: stamp.text,
        created: start.after(stamp.created),
        edited: match stamp.edited {
            Some(e) => Some(start.after(e)),
            None => None,
        },
    }
}

/// One more line: a stamped one makes an entry; any other goes on the last entry,
/// or, where there is none, makes one with the start time.
pub open spec fn add_line(found: Seq<Entry>, line: Seq<char>, start: Timestamp) -> Seq<Entry> {
    match stamp_of(line) {
        Some(stamp) => found.push(stamped_entry(stamp, start)),
        None => if found.len() > 0 {
            found.drop_last().push(
                Entry { text: found.last().text.push('\n') + line, ..found.last() },
            )
        } else {
            found.push(Entry { text: line, created: start, edited: None })
        },
    }
}

/// The entries that the lines make, after those in `found`.
pub open spec fn add_lines(
    found: Seq<Entry>,
    lines: Seq<Seq<char>>,
    start: Timestamp,
) -> Seq<Entry>
    decreases lines.len(),
{
    if lines.len() == 0 {
        found
    } else {
        add_line(add_lines(found, lines.drop_last(), start), lines.last(), start)
    }
}

/// The entries of a memo.
pub open spec fn memo_entries(content: Seq<char>, start: Timestamp) -> Seq<Entry> {
    add_lines(seq![], lines_of(content), start)
}

/// All times of a memo can be given dates.
pub open spec fn memo_fits(content: Seq<char>, start: Timestamp) -> bool {
    forall|i: int|
        0 <= i < lines_of(content).len() ==> (stamp_of(#[trigger] lines_of(content)[i]) matches Some(
            stamp,
        ) ==> stamp_fits(stamp, start))
}

fn two_digits_at(v: &Vec<char>) -> (r: bool)
    ensures
        r == two_digits(v@),
{
    v.len() == 2 && digits_only(v)
}

fn digits_only(v: &Vec<char>) -> (r: bool)
    ensures
        r == all_digits(v@),
{
    let mut i: usize = 0;
    while i < v.len()
        invariant
            i <= v@.len(),
            forall|k: int| 0 <= k < i ==> is_digit(#[trigger] v@[k]),
        decreases v@.len() - i,
    {
        if v[i] < '0' || v[i] > '9' {
            assert(!is_digit(v@[i as int]));
            return false;
        }
        i += 1;
    }
    true
}

fn clock_written(v: &Vec<char>) -> (r: bool)
    ensures
        r == is_clock(v@),
{
    let parts = split_chars(v, ':');
    let ghost p = split_on(v@, ':');
    assert(parts@.len() == p.len());
    assert(forall|i: int| 0 <= i < p.len() ==> (#[trigger] parts@[i])@ == p[i]);
    if parts.len() != 2 && parts.len() != 3 {
        return false;
    }
    parts[0].len() > 0 && digits_only(&parts[0]) && two_digits_at(&parts[1]) && (parts.len() == 2
        || two_digits_at(&parts[2]))
}

/// The stamp of a line: its times, and where its text starts.
fn read_stamp(line: &Vec<char>) -> (r: Option<(i128, Option<i128>, usize)>)
    ensures
        match r {
            Some((c, e, at)) => {
                &&& at <= line@.len()
                &&& stamp_of(line@) == Some(
                    (Stamp {
                        created: c as int,
                        edited: match e {
                            Some(e) => Some(e as int),
                            None => None,
                        },
                        text: line@.skip(at as int),
                    }),
                )
            },
            None => stamp_of(line@) is None,
        },
{
    if line.len() == 0 || line[0] != '[' {
        return None;
    }
    let i = find_char(line, 1, ' ');
    if i < line.len() - 1 && line[i + 1] == '~' {
        let j = find_char(line, i + 2, ']');
        if j < line.len() - 1 && line[j + 1] == ' ' {
            let created = slice_of(line, 1, i);
            let edited = slice_of(line, i + 2, j);
            if clock_written(&created) && clock_written(&edited) {
                if let Some(c) = time_value(&created) {
                    if let Some(e) = time_value(&edited) {
                        return Some((c, Some(e), j + 2));
                    }
                }
            }
        }
    }
    let k = find_char(line, 1, ']');
    if k < line.len() - 1 && line[k + 1] == ' ' {
        let created = slice_of(line, 1, k);
        if clock_written(&created) {
            if let Some(c) = time_value(&created) {
                return Some((c, None, k + 2));
            }
        }
    }
    None
}

/// The time `secs` seconds after `start`, where it can be given a date.
fn time_after(start: &Timestamp, secs: i128) -> (r: Option<Timestamp>)
    requires
        start.valid(),
    ensures
        match r {
            Some(t) => reachable(*start, secs as int) && t == start.after(secs as int)
                && t.valid(),
            None => !reachable(*start, secs as int),
        },
{
    let at: i128 = if start.nanos >= 1_000_000_000 && secs < 0 {
        start.secs as i128 + 1
    } else {
        start.secs as i128
    };
    if MIN_SECS as i128 - at <= secs && secs <= MAX_SECS as i128 - at {
        Some(start.plus_secs(secs as i64))
    } else {
        None
    }
}

/// Adds what one line makes. False, with `found` as it was, where a time of the
/// line cannot be given a date.
fn take_line(found: &mut Vec<ParsedLine>, line: &Vec<char>, start: &Timestamp) -> (r: bool)
    requires
        start.valid(),
        forall|i: int|
            0 <= i < old(found)@.len() ==> (#[trigger] old(found)@[i]).valid(),
    ensures
        r == (stamp_of(line@) matches Some(stamp) ==> stamp_fits(stamp, *start)),
        !r ==> *final(found) == *old(found),
        r ==> entries(final(found)@) == add_line(entries(old(found)@), line@, *start),
        r ==> forall|i: int|
            0 <= i < final(found)@.len() ==> (#[trigger] final(found)@[i]).valid(),
{
    let ghost before = entries(found@);
    match read_stamp(line) {
        Some((c, e, at)) => {
            let created_at = match time_after(start, c) {
                Some(t) => t,
                None => {
                    return false;
                },
            };
            let edited_at = match e {
                Some(e) => match time_after(start, e) {
                    Some(t) => Some(t),
                    None => {
                        return false;
                    },
                },
                None => None,
            };
            let mut text = String::new();
            push_range(&mut text, line, at, line.len());
            assert(text@ =~= line@.skip(at as int));
            let made = ParsedLine { text, created_at, edited_at };
            found.push(made);
            assert(entries(found@) =~= before.push(made.entry()));
        },
        None => {
            match found.pop() {
                Some(last) => {
                    let mut text = last.text.as_str().to_owned();
                    text.push('\n');
                    push_range(&mut text, line, 0, line.len());
                    assert(text@ =~= last.text@.push('\n') + line@);
                    let made = ParsedLine {
                        text,
                        created_at: last.created_at,
                        edited_at: last.edited_at,
                    };
                    found.push(made);
                    assert(entries(found@) =~= before.drop_last().push(made.entry()));
                },
                None => {
                    let mut text = String::new();
                    push_range(&mut text, line, 0, line.len());
                    assert(text@ =~= line@);
                    let made = ParsedLine { text, created_at: *start, edited_at: None };
                    found.push(made);
                    assert(entries(found@) =~= before.push(made.entry()));
                },
            }
        },
    }
    true
}

impl ParsedLine {
    /// Its times are valid.
    pub open spec fn valid(&self) -> bool {
        &&& self.created_at.valid()
        &&& self.edited_at matches Some(t) ==> t.valid()
    }
}

/// As `parse_markdown`, for any memo: `None` where a time of it lies outside the
/// calendar's range.
pub fn try_parse_markdown(content: &str, start_time: &Timestamp) -> (r: Option<Vec<ParsedLine>>)
    requires
        start_time.valid(),
    ensures
        match r {
            Some(v) => {
                &&& memo_fits(content@, *start_time)
                &&& entries(v@) == memo_entries(content@, *start_time)
                &&& forall|i: int| 0 <= i < v@.len() ==> (#[trigger] v@[i]).valid()
            },
            None => !memo_fits(content@, *start_time),
        },
{
    let raw = split_lines(&chars_of(content));
    let ghost lines = lines_of(content@);
    let mut found: Vec<ParsedLine> = Vec::new();
    let mut i: usize = 0;
    assert(lines.take(0) =~= seq![]);
    assert(entries(found@) =~= seq![]);
    while i < raw.len()
        invariant
            i <= raw@.len(),
            start_time.valid(),
            lines == lines_of(content@),
            views(raw@) == lines,
            entries(found@) == add_lines(seq![], lines.take(i as int), *start_time),
            forall|k: int| 0 <= k < found@.len() ==> (#[trigger] found@[k]).valid(),
            forall|k: int|
                0 <= k < i ==> (stamp_of(#[trigger] lines[k]) matches Some(stamp) ==> stamp_fits(
                    stamp,
                    *start_time,
                )),
        decreases raw@.len() - i,
    {
        assert(views(raw@)[i as int] == raw@[i as int]@);
        assert(lines.take(i + 1).drop_last() =~= lines.take(i as int));
        if !take_line(&mut found, &raw[i], start_time) {
            assert(!(stamp_of(lines[i as int]) matches Some(stamp) ==> stamp_fits(
                stamp,
                *start_time,
            )));
            return None;
        }
        i += 1;
    }
    assert(lines.take(i as int) =~= lines);
    Some(found)
}

/// Parse markdown lines back into structured data for resume.
///
/// Recognizes two formats:
///   `[MM:SS] text`           → created_at only
///   `[MM:SS ~MM:SS] text`    → created_at + edited_at
///
/// Unrecognized lines are appended to the previous parsed line.
pub fn parse_markdown(content: &str, start_time: &Timestamp) -> (r: Vec<ParsedLine>)
    requires
        start_time.valid(),
        memo_fits(content@, *start_time),
    ensures
        entries(r@) == memo_entries(content@, *start_time),
        forall|i: int| 0 <= i < r@.len() ==> (#[trigger] r@[i]).valid(),
{
    try_parse_markdown(content, start_time).unwrap()
}

// --- Laws ---

/// A line of one of the two stamped forms.
pub open spec fn recognized(line: Seq<char>) -> bool {
    edited_parts(line) is Some || simple_parts(line) is Some
}

/// The time's first part has no more digits than a number of 64 bits can hold.
pub open spec fn short_time(s: Seq<char>) -> bool {
    split_on(s, ':')[0].len() <= 18
}

/// The times of a stamped line are short.
pub open spec fn short_times(line: Seq<char>) -> bool {
    &&& edited_parts(line) matches Some(p) ==> short_time(p.0) && short_time(p.1)
    &&& simple_parts(line) matches Some(p) ==> short_time(p.0)
}

/// What a line brings to the notes: the text after its stamp, or, without one, all of
/// it.
pub open spec fn payload(line: Seq<char>) -> Seq<char> {
    match stamp_of(line) {
        Some(stamp) => stamp.text,
        None => line,
    }
}

pub open spec fn payloads(lines: Seq<Seq<char>>) -> Seq<Seq<char>> {
    Seq::new(lines.len(), |i: int| payload(lines[i]))
}

pub open spec fn entry_texts(found: Seq<Entry>) -> Seq<Seq<char>> {
    Seq::new(found.len(), |i: int| found[i].text)
}

/// The parts with a line feed between each two.
pub open spec fn joined(parts: Seq<Seq<char>>) -> Seq<char>
    decreases parts.len(),
{
    if parts.len() == 0 {
        seq![]
    } else if parts.len() == 1 {
        parts[0]
    } else {
        joined(parts.drop_last()).push('\n') + parts.last()
    }
}

/// The number of stamped lines.
pub open spec fn stamped_count(lines: Seq<Seq<char>>) -> int
    decreases lines.len(),
{
    if lines.len() == 0 {
        0
    } else if stamp_of(lines.last()) is Some {
        stamped_count(lines.drop_last()) + 1
    } else {
        stamped_count(lines.drop_last())
    }
}

/// The number of entries: one for each stamped line, and one more where the first line
/// is not stamped.
pub open spec fn entry_count(lines: Seq<Seq<char>>) -> int {
    stamped_count(lines) + (if lines.len() > 0 && stamp_of(lines[0]) is None {
        1int
    } else {
        0
    })
}

proof fn lemma_joined_push(parts: Seq<Seq<char>>, part: Seq<char>)
    requires
        parts.len() > 0,
    ensures
        joined(parts.push(part)) == joined(parts).push('\n') + part,
{
    assert(parts.push(part).drop_last() =~= parts);
}

/// A line put after the last part is a line put after the whole.
proof fn lemma_joined_extend(parts: Seq<Seq<char>>, line: Seq<char>)
    requires
        parts.len() > 0,
    ensures
        joined(parts.drop_last().push(parts.last().push('\n') + line)) == joined(parts).push('\n')
            + line,
{
    let rest = parts.drop_last();
    let longer = rest.push(parts.last().push('\n') + line);
    if parts.len() > 1 {
        assert(longer.drop_last() =~= rest);
        assert(joined(longer) =~= joined(parts).push('\n') + line);
    }
}

proof fn lemma_lines_keep_text(lines: Seq<Seq<char>>, start: Timestamp)
    ensures
        ({
            let found = add_lines(seq![], lines, start);
            &&& joined(entry_texts(found)) == joined(payloads(lines))
            &&& found.len() == entry_count(lines)
            &&& found.len() == 0 <==> lines.len() == 0
        }),
    decreases lines.len(),
{
    let found = add_lines(seq![], lines, start);
    if lines.len() == 0 {
        assert(entry_texts(found) =~= seq![]);
        assert(payloads(lines) =~= seq![]);
    } else {
        let less = lines.drop_last();
        let line = lines.last();
        let before = add_lines(seq![], less, start);
        lemma_lines_keep_text(less, start);
        assert(payloads(lines) =~= payloads(less).push(payload(line)));
        assert(less.len() > 0 ==> less[0] == lines[0]);
        if less.len() > 0 {
            lemma_joined_push(payloads(less), payload(line));
            match stamp_of(line) {
                Some(stamp) => {
                    assert(entry_texts(found) =~= entry_texts(before).push(stamp.text));
                    lemma_joined_push(entry_texts(before), stamp.text);
                },
                None => {
                    let texts = entry_texts(before);
                    assert(entry_texts(found) =~= texts.drop_last().push(
                        texts.last().push('\n') + line,
                    ));
                    lemma_joined_extend(texts, line);
                },
            }
        } else {
            assert(before =~= seq![]);
            assert(entry_texts(found) =~= seq![payload(line)]);
            assert(payloads(lines) =~= seq![payload(line)]);
            assert(stamped_count(less) == 0);
        }
    }
}

/// Reading a memo loses, adds and reorders no text: the texts of the entries, joined by
/// line feeds, are what the lines bring, joined in the same way. There is one entry for
/// each stamped line, and one more where the first line is not stamped, so none only
/// where there is no line.
pub proof fn lemma_memo_keeps_text(content: Seq<char>, start: Timestamp)
    ensures
        joined(entry_texts(memo_entries(content, start))) == joined(payloads(lines_of(content))),
        memo_entries(content, start).len() == entry_count(lines_of(content)),
        memo_entries(content, start).len() == 0 <==> lines_of(content).len() == 0,
{
    lemma_lines_keep_text(lines_of(content), start);
}

/// Ten times ten and so on, `n` times.
spec fn ten_to(n: nat) -> int
    decreases n,
{
    if n == 0 {
        1
    } else {
        10 * ten_to((n - 1) as nat)
    }
}

proof fn lemma_ten_to_grows(m: nat, n: nat)
    requires
        m <= n,
    ensures
        1 <= ten_to(m) <= ten_to(n),
    decreases n,
{
    if m < n {
        lemma_ten_to_grows(m, (n - 1) as nat);
    } else if n > 0 {
        lemma_ten_to_grows((n - 1) as nat, (n - 1) as nat);
    }
}

proof fn lemma_number_bounded(s: Seq<char>)
    requires
        all_digits(s),
    ensures
        0 <= number(s) < ten_to(s.len()),
    decreases s.len(),
{
    if s.len() > 0 {
        assert(is_digit(s[s.len() - 1]));
        assert(all_digits(s.drop_last())) by {
            assert forall|i: int| 0 <= i < s.drop_last().len() implies is_digit(
                #[trigger] s.drop_last()[i],
            ) by {
                assert(is_digit(s[i]));
            }
        }
        lemma_number_bounded(s.drop_last());
    }
}

proof fn lemma_digits_read(s: Seq<char>)
    requires
        all_digits(s),
        0 < s.len() <= 18,
    ensures
        integer(s) == Some(number(s)),
{
    lemma_number_bounded(s);
    lemma_ten_to_grows(s.len(), 18);
    assert(ten_to(18) == 1_000_000_000_000_000_000) by {
        reveal_with_fuel(ten_to, 19);
    }
    assert(is_digit(s[0]));
    assert(unsigned(s) == s);
}

proof fn lemma_short_time_read(s: Seq<char>)
    requires
        is_clock(s),
        short_time(s),
    ensures
        time_secs(s) is Some,
{
    let p = split_on(s, ':');
    lemma_digits_read(p[0]);
    lemma_digits_read(p[1]);
    if p.len() == 3 {
        lemma_digits_read(p[2]);
    }
}

/// A line of one of the stamped forms, with times of no more than eighteen digits, is
/// read as such, and what it brings is its text; any other line is not.
pub proof fn lemma_recognized_read(line: Seq<char>)
    requires
        short_times(line),
    ensures
        stamp_of(line) is Some <==> recognized(line),
        edited_parts(line) matches Some(p) ==> payload(line) == p.2,
        edited_parts(line) is None ==> (simple_parts(line) matches Some(p) ==> payload(line) == p.1),
{
    if let Some((c, e, _)) = edited_parts(line) {
        lemma_short_time_read(c);
        lemma_short_time_read(e);
    }
    if let Some((c, _)) = simple_parts(line) {
        lemma_short_time_read(c);
    }
}

} // verus!
