//! Instants, the time between them, and how they are written.

use std::fmt::Write;

use vstd::prelude::*;

use crate::text::{pad2, push_pad2};

verus! {

/// The earliest and the latest second, counted from the Unix epoch, that a
/// calendar date can be given for.
pub const MIN_SECS: i64 = -8334601228800;
pub const MAX_SECS: i64 = 8210266876799;

/// An instant: whole seconds since the Unix epoch, and the nanoseconds past them.
/// Inside a leap second, which belongs to the last second of its minute, the
/// nanoseconds are a billion or more.
#[derive(Clone, Copy, Debug, PartialEq, Eq, Structural)]
pub struct Timestamp {
    pub secs: i64,
    pub nanos: u32,
}

/// An instant together with the offset, in seconds east of UTC, of the place
/// where it is read.
#[derive(Clone, Copy, Debug, PartialEq, Eq, Structural)]
pub struct LocalTime {
    pub at: Timestamp,
    pub offset_secs: i32,
}

/// `a / b`, rounded toward zero.
pub open spec fn trunc_div(a: int, b: int) -> int {
    if a >= 0 {
        a / b
    } else {
        -((-a) / b)
    }
}

/// The second of its day that a second falls on.
pub open spec fn second_of_day(secs: int) -> int {
    secs % 86400
}

fn day_second(secs: i64) -> (r: i64)
    ensures
        r == second_of_day(secs as int),
{
    if secs >= 0 {
        secs % 86400
    } else {
        86399 - (-(secs + 1)) % 86400
    }
}

impl Timestamp {
    /// The instant lies in the calendar's range.
    pub open spec fn valid(self) -> bool {
        &&& MIN_SECS <= self.secs <= MAX_SECS
        &&& self.nanos < 2_000_000_000
        &&& self.leap() ==> self.secs % 60 == 59 && self.secs < MAX_SECS
    }

    /// The instant lies inside a leap second.
    pub open spec fn leap(self) -> bool {
        self.nanos >= 1_000_000_000
    }

    /// The leap second that lies between `start` and this instant without being among
    /// their seconds: that of the one that comes first in the day.
    pub open spec fn leap_between(self, start: Timestamp) -> int {
        if second_of_day(self.secs as int) > second_of_day(start.secs as int) && start.leap() {
            1
        } else if second_of_day(self.secs as int) < second_of_day(start.secs as int)
            && self.leap() {
            -1
        } else {
            0
        }
    }

    /// The nanoseconds from `start` to this instant. Leap seconds are counted where
    /// one of the two lies in one; no others are known of.
    pub open spec fn nanos_since(self, start: Timestamp) -> int {
        (self.secs - start.secs + self.leap_between(start)) * 1_000_000_000 + self.nanos
            - start.nanos
    }

    /// The whole seconds from `start` to this instant, rounded toward zero.
    pub open spec fn seconds_since(self, start: Timestamp) -> int {
        trunc_div(self.nanos_since(start), 1_000_000_000)
    }

    /// The whole milliseconds from `start` to this instant, rounded toward zero.
    pub open spec fn milliseconds_since(self, start: Timestamp) -> int {
        trunc_div(self.nanos_since(start), 1_000_000)
    }

    /// The second `c` seconds later; out of a leap second, one that counts from its end
    /// if it is earlier.
    pub open spec fn second_after(self, c: int) -> int {
        if self.leap() && c < 0 {
            self.secs + c + 1
        } else {
            self.secs + c
        }
    }

    /// The instant `c` seconds later. Only no time at all stays inside a leap second.
    pub open spec fn after(self, c: int) -> Timestamp {
        Timestamp {
            secs: self.second_after(c) as i64,
            nanos: if self.leap() && c != 0 {
                (self.nanos - 1_000_000_000) as u32
            } else {
                self.nanos
            },
        }
    }

    fn gap(&self, start: &Timestamp) -> (r: i128)
        requires
            self.valid(),
            start.valid(),
        ensures
            r == self.nanos_since(*start),
            -20_000_000_000_000_000_000_000 < r < 20_000_000_000_000_000_000_000,
    {
        let mine = day_second(self.secs);
        let its = day_second(start.secs);
        let leap: i128 = if mine > its && start.nanos >= 1_000_000_000 {
            1
        } else if mine < its && self.nanos >= 1_000_000_000 {
            -1
        } else {
            0
        };
        (self.secs as i128 - start.secs as i128 + leap) * 1_000_000_000 + self.nanos as i128
            - start.nanos as i128
    }

    pub fn secs_since(&self, start: &Timestamp) -> (r: i64)
        requires
            self.valid(),
            start.valid(),
        ensures
            r == self.seconds_since(*start),
    {
        let gap = self.gap(start);
        if gap >= 0 {
            (gap / 1_000_000_000) as i64
        } else {
            -(((-gap) / 1_000_000_000) as i64)
        }
    }

    pub fn millis_since(&self, start: &Timestamp) -> (r: i64)
        requires
            self.valid(),
            start.valid(),
        ensures
            r == self.milliseconds_since(*start),
    {
        let gap = self.gap(start);
        if gap >= 0 {
            (gap / 1_000_000) as i64
        } else {
            -(((-gap) / 1_000_000) as i64)
        }
    }

    pub fn plus_secs(&self, c: i64) -> (r: Timestamp)
        requires
            self.valid(),
            MIN_SECS <= self.second_after(c as int) <= MAX_SECS,
        ensures
            r == self.after(c as int),
            r.valid(),
    {
        if self.nanos < 1_000_000_000 || c == 0 {
            Timestamp { secs: self.secs + c, nanos: self.nanos }
        } else if c > 0 {
            Timestamp { secs: self.secs + c, nanos: self.nanos - 1_000_000_000 }
        } else {
            Timestamp { secs: self.secs + (c + 1), nanos: self.nanos - 1_000_000_000 }
        }
    }
}

/// `MM:SS`, or `HH:MM:SS` from the first full hour on; each part has two digits
/// at least.
pub open spec fn clock_text(secs: int) -> Seq<char> {
    let m = (secs % 3600) / 60;
    let s = secs % 60;
    if secs >= 3600 {
        pad2(secs / 3600) + seq![':'] + pad2(m) + seq![':'] + pad2(s)
    } else {
        pad2(m) + seq![':'] + pad2(s)
    }
}

/// `HH:MM:SS`, each part with two digits at least.
pub open spec fn long_clock_text(secs: int) -> Seq<char> {
    pad2(secs / 3600) + seq![':'] + pad2((secs % 3600) / 60) + seq![':'] + pad2(secs % 60)
}

/// Appends the clock text of a number of seconds.
pub fn push_clock(out: &mut String, secs: i64)
    requires
        secs >= 0,
    ensures
        final(out)@ == old(out)@ + clock_text(secs as int),
{
    if secs >= 3600 {
        push_long_clock(out, secs as u64);
    } else {
        push_pad2(out, (secs % 3600) / 60);
        out.push(':');
        push_pad2(out, secs % 60);
    }
    assert(out@ =~= old(out)@ + clock_text(secs as int));
}

/// Appends hours, minutes and seconds.
pub fn push_long_clock(out: &mut String, secs: u64)
    ensures
        final(out)@ == old(out)@ + long_clock_text(secs as int),
{
    push_pad2(out, (secs / 3600) as i64);
    out.push(':');
    push_pad2(out, ((secs % 3600) / 60) as i64);
    out.push(':');
    push_pad2(out, (secs % 60) as i64);
    assert(out@ =~= old(out)@ + long_clock_text(secs as int));
}

impl LocalTime {
    /// The instant is valid and the offset is less than a day.
    pub open spec fn valid(self) -> bool {
        &&& self.at.valid()
        &&& -86400 < self.offset_secs < 86400
    }

    /// A local date with a year of four digits, and an offset of whole minutes.
    pub open spec fn common_era(self) -> bool {
        &&& self.valid()
        &&& -62167219200 <= self.at.secs + self.offset_secs <= 253402300799
        &&& self.offset_secs % 60 == 0
    }
}

/// What chrono's `DateTime::format` writes for the instant (seconds, nanoseconds)
/// read at an offset, under a strftime format; `None` where the format is not
/// one that it can write.
pub uninterp spec fn strftime(secs: int, nanos: int, offset: int, format: Seq<char>) -> Option<Seq<char>>;

/// What chrono's `DateTime::to_rfc3339` writes for the instant read at an offset.
pub uninterp spec fn rfc3339_text(secs: int, nanos: int, offset: int) -> Seq<char>;

/// The seconds, the nanoseconds (a billion or more inside a leap second) and the
/// offset that chrono's `DateTime::parse_from_rfc3339` reads; `None` where it
/// reports an error.
pub uninterp spec fn rfc3339_parts(text: Seq<char>) -> Option<(i64, u32, i32)>;

/// Calls chrono's `DateTime::format` and writes out what it returns. Nothing is
/// claimed of the text but that the instant, the offset and the format determine
/// it; `None` stands for a format that cannot be written.
#[verifier::external_body]
pub(crate) fn format_at(t: LocalTime, format: &str) -> (r: Option<String>)
    requires
        t.valid(),
    ensures
        match r {
            Some(s) => strftime(
                t.at.secs as int,
                t.at.nanos as int,
                t.offset_secs as int,
                format@,
            ) == Some(s@),
            None => strftime(
                t.at.secs as int,
                t.at.nanos as int,
                t.offset_secs as int,
                format@,
            ) is None,
        },
{
    let zone = chrono::FixedOffset::east_opt(t.offset_secs)?;
    let date = chrono::DateTime::from_timestamp(t.at.secs, t.at.nanos)?.with_timezone(&zone);
    let mut out = String::new();
    write!(out, "{}", date.format(format)).ok()?;
    Some(out)
}

/// Calls chrono's `DateTime::to_rfc3339`. The text is determined by the instant
/// and the offset; where the local year has four digits and the offset is of whole
/// minutes, reading the text gives the instant and the offset back.
#[verifier::external_body]
pub(crate) fn to_rfc3339(t: LocalTime) -> (r: String)
    requires
        t.valid(),
    ensures
        r@ == rfc3339_text(t.at.secs as int, t.at.nanos as int, t.offset_secs as int),
        t.common_era() ==> rfc3339_parts(r@) == Some((t.at.secs, t.at.nanos, t.offset_secs)),
{
    let zone = chrono::FixedOffset::east_opt(t.offset_secs).unwrap();
    let date = chrono::DateTime::from_timestamp(t.at.secs, t.at.nanos).unwrap();
    date.with_timezone(&zone).to_rfc3339()
}

/// Calls chrono's `DateTime::parse_from_rfc3339`. What it reads is determined by
/// the text; years have four digits there, offsets are whole minutes under a day, and a
/// leap second shows as nanoseconds from a billion on past the last second of a minute.
#[verifier::external_body]
pub(crate) fn parse_rfc3339(text: &str) -> (r: Option<(i64, u32, i32)>)
    ensures
        r == rfc3339_parts(text@),
        r matches Some(p) ==> -62167305600 < p.0 < 253402387200 && p.1 < 2_000_000_000 && -86400
            < p.2 < 86400,
        r matches Some(p) ==> (p.1 >= 1_000_000_000 ==> p.0 % 60 == 59),
{
    let date = chrono::DateTime::parse_from_rfc3339(text).ok()?;
    Some((date.timestamp(), date.timestamp_subsec_nanos(), date.offset().local_minus_utc()))
}

// --- Laws ---

/// The whole seconds and milliseconds between two instants are as many as fit in the time
/// between them, and negative where the first comes earlier. Outside leap seconds that time
/// is the difference of the two.
pub proof fn lemma_time_between(t: Timestamp, start: Timestamp)
    ensures
        ({
            let gone = t.nanos_since(start);
            let n = t.seconds_since(start);
            let k = t.milliseconds_since(start);
            &&& !t.leap() && !start.leap() ==> gone == (t.secs - start.secs) * 1_000_000_000
                + t.nanos - start.nanos
            &&& gone >= 0 ==> n * 1_000_000_000 <= gone < (n + 1) * 1_000_000_000
            &&& gone <= 0 ==> (n - 1) * 1_000_000_000 < gone <= n * 1_000_000_000
            &&& gone >= 0 ==> k * 1_000_000 <= gone < (k + 1) * 1_000_000
            &&& gone <= 0 ==> (k - 1) * 1_000_000 < gone <= k * 1_000_000
        }),
{
}

/// From one instant to another is as long as back.
pub proof fn lemma_time_back(a: Timestamp, b: Timestamp)
    ensures
        a.nanos_since(b) == -b.nanos_since(a),
        a.seconds_since(b) == -b.seconds_since(a),
        a.milliseconds_since(b) == -b.milliseconds_since(a),
        a.nanos_since(a) == 0,
        a.seconds_since(a) == 0,
{
}

/// A leap second that one of two instants lies in counts toward the time between them
/// where the other comes later in the day; elsewhere it is one with the second that it
/// belongs to.
pub proof fn lemma_leap_second_counted(t: Timestamp, start: Timestamp)
    ensures
        ({
            let gone = (t.secs - start.secs) * 1_000_000_000 + t.nanos - start.nanos;
            let later = t.secs % 86400 > start.secs % 86400;
            let earlier = t.secs % 86400 < start.secs % 86400;
            &&& later && start.nanos >= 1_000_000_000 ==> t.nanos_since(start) == gone
                + 1_000_000_000
            &&& earlier && t.nanos >= 1_000_000_000 ==> t.nanos_since(start) == gone
                - 1_000_000_000
            &&& !(later && start.nanos >= 1_000_000_000) && !(earlier && t.nanos >= 1_000_000_000)
                ==> t.nanos_since(start) == gone
        }),
{
}

/// An instant some seconds later is that many seconds since, with the same part of a
/// second; one later and then another is both later. Out of a leap second the part is
/// counted from the next second on.
pub proof fn lemma_seconds_later(t: Timestamp, c: int, d: int)
    requires
        t.valid(),
        MIN_SECS <= t.secs + c <= MAX_SECS,
        MIN_SECS <= t.secs + c + d <= MAX_SECS,
    ensures
        !t.leap() ==> {
            &&& t.after(c).secs == t.secs + c
            &&& t.after(c).nanos == t.nanos
            &&& t.after(c).seconds_since(t) == c
            &&& t.after(c).after(d) == t.after(c + d)
        },
        t.after(0) == t,
        t.leap() && c > 0 ==> {
            &&& t.after(c).secs == t.secs + c
            &&& t.after(c).nanos == t.nanos - 1_000_000_000
        },
        t.leap() && c < 0 ==> {
            &&& t.after(c).secs == t.secs + c + 1
            &&& t.after(c).nanos == t.nanos - 1_000_000_000
        },
{
    if !t.leap() {
        assert(t.after(c).nanos_since(t) == c * 1_000_000_000);
    }
}

} // verus!
