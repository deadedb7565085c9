//! How texts, numbers and times are written, taken apart and read.

use vstd::arithmetic::power::{lemma_pow0, lemma_pow1, lemma_pow_positive, pow};
use vstd::prelude::*;
use vstd::utf8::*;

use crate::clock::{clock_text, long_clock_text};
use crate::parser::{
    all_digits, integer, is_digit, lemma_decimal, lemma_decimal_long, number, unsigned,
};
use crate::text::{
    blank, char_width, decimal, lemma_found, lines_of, pad2, pad_right, signed, strings_view,
    views, white_space,
};

verus! {

// --- Characters ---

/// A text is blank exactly if there is no character in it, at any place, that is not white
/// space.
pub proof fn lemma_blank(s: Seq<char>)
    ensures
        blank(s) <==> !(exists|i: int| 0 <= i < s.len() && !white_space(#[trigger] s[i])),
{
    if !blank(s) {
        let i = choose|i: int| 0 <= i < s.len() && !white_space(#[trigger] s[i]);
        assert(!white_space(s[i]));
    }
}

/// Two texts one behind the other are blank exactly if both are; one character is if it is
/// white space.
pub proof fn lemma_blank_concat(a: Seq<char>, c: char, b: Seq<char>)
    ensures
        blank(a + b) <==> blank(a) && blank(b),
        blank(seq![c]) <==> white_space(c),
        blank(a + seq![c] + b) ==> white_space(c),
{
    let s = a + b;
    if blank(s) {
        assert forall|i: int| 0 <= i < a.len() implies white_space(#[trigger] a[i]) by {
            assert(s[i] == a[i]);
        }
        assert forall|i: int| 0 <= i < b.len() implies white_space(#[trigger] b[i]) by {
            assert(s[a.len() + i] == b[i]);
        }
    }
    if blank(seq![c]) {
        assert(white_space(seq![c][0]));
    }
    let t = a + seq![c] + b;
    if blank(t) {
        assert(white_space(t[a.len() as int]));
    }
}

/// The bytes of a character go by its code point.
pub proof fn lemma_char_width(c: char)
    ensures
        (c as u32) < 0x80 ==> char_width(c) == 1,
        0x80 <= c as u32 && (c as u32) < 0x800 ==> char_width(c) == 2,
        0x800 <= c as u32 && (c as u32) < 0x10000 ==> char_width(c) == 3,
        0x10000 <= c as u32 ==> char_width(c) == 4,
        encode_utf8(seq![c]).len() == char_width(c),
{
    crate::text::lemma_encode_one(c);
}

/// A text that is filled up keeps its characters, has spaces after them, and is as wide as
/// asked, or as it was where that is more.
pub proof fn lemma_padded(s: Seq<char>, w: int)
    ensures
        pad_right(s, w).len() >= s.len(),
        pad_right(s, w).len() >= w,
        pad_right(s, w).len() == s.len() || pad_right(s, w).len() == w,
        forall|i: int| 0 <= i < s.len() ==> pad_right(s, w)[i] == s[i],
        forall|i: int| s.len() <= i < pad_right(s, w).len() ==> pad_right(s, w)[i] == ' ',
{
}

/// The views of a list are those of its members, in order.
pub proof fn lemma_views_in_order(strings: Seq<String>, parts: Seq<Vec<char>>, i: int)
    ensures
        strings_view(strings).len() == strings.len(),
        0 <= i < strings.len() ==> strings_view(strings)[i] == strings[i]@,
        views(parts).len() == parts.len(),
        0 <= i < parts.len() ==> views(parts)[i] == parts[i]@,
{
}

// --- Numbers ---

/// The digits of a number stand for ones, tens, hundreds and so on from the last one back,
/// and the first is not nought unless it is the only one.
pub proof fn lemma_decimal_places(n: int, i: nat)
    requires
        n >= 0,
    ensures
        i < decimal(n).len() ==> decimal(n)[decimal(n).len() - 1 - i] as int == 48 + (n / pow(
            10,
            i,
        )) % 10,
        n < pow(10, decimal(n).len()),
        n >= 10 ==> n >= pow(10, (decimal(n).len() - 1) as nat),
        n < 10 ==> decimal(n).len() == 1,
    decreases n,
{
    let d = decimal(n);
    lemma_decimal(n);
    lemma_pow0(10);
    lemma_pow1(10);
    if n >= 10 {
        let k = (d.len() - 1) as nat;
        lemma_decimal(n / 10);
        assert(d.drop_last() =~= decimal(n / 10));
        lemma_decimal_places(n / 10, 0);
        assert(pow(10, d.len()) == 10 * pow(10, k)) by {
            reveal(pow);
        }
        if i > 0 && i < d.len() {
            let j = (i - 1) as nat;
            lemma_decimal_places(n / 10, j);
            assert(d[d.len() - 1 - i] == decimal(n / 10)[k - 1 - j]);
            lemma_pow_positive(10, j);
            assert(pow(10, i) == 10 * pow(10, j)) by {
                reveal(pow);
            }
            vstd::arithmetic::div_mod::lemma_div_denominator(n, 10, pow(10, j));
        }
        if n >= 100 {
            assert(pow(10, k) == 10 * pow(10, (k - 1) as nat)) by {
                reveal(pow);
            }
        } else {
            assert(decimal(n / 10).len() == 1);
        }
    }
}

/// Digits are read from the left, each ten times what comes after it.
pub proof fn lemma_number_reads(s: Seq<char>, c: char)
    ensures
        number(seq![]) == 0,
        number(s.push(c)) == 10 * number(s) + (c as int - '0' as int),
        is_digit(c) <==> 48 <= c as int <= 57,
{
    assert(s.push(c).drop_last() =~= s);
}

/// Two texts of digits, of the same length, that write the same number are the same.
pub proof fn lemma_number_injective(a: Seq<char>, b: Seq<char>)
    requires
        a.len() == b.len(),
        all_digits(a),
        all_digits(b),
        number(a) == number(b),
    ensures
        a == b,
    decreases a.len(),
{
    if a.len() > 0 {
        let (x, y) = (a.drop_last(), b.drop_last());
        assert(is_digit(a[a.len() - 1]) && is_digit(b[b.len() - 1]));
        assert forall|i: int| 0 <= i < x.len() implies is_digit(#[trigger] x[i]) && is_digit(
            y[i],
        ) by {
            assert(is_digit(a[i]) && is_digit(b[i]));
        }
        assert(all_digits(y)) by {
            assert forall|i: int| 0 <= i < y.len() implies is_digit(#[trigger] y[i]) by {
                assert(is_digit(b[i]));
            }
        }
        lemma_number_injective(x, y);
        assert(a =~= x.push(a.last()) && b =~= y.push(b.last()));
    } else {
        assert(a =~= b);
    }
}

/// A number that is written with its sign is read as the same number.
pub proof fn lemma_signed_read(n: int)
    requires
        i64::MIN <= n <= i64::MAX,
    ensures
        integer(signed(n)) == Some(n),
        n >= 0 ==> all_digits(signed(n)),
        n < 0 ==> signed(n)[0] == '-' && all_digits(signed(n).skip(1)),
{
    if n < 0 {
        lemma_decimal(-n);
        assert(signed(n).skip(1) =~= decimal(-n));
    } else {
        lemma_decimal(n);
        assert(is_digit(decimal(n)[0]));
    }
}

/// Digits are read as the number that they write, with a plus too, and with a minus as its
/// negative, where it has 64 bits; nothing else is read.
pub proof fn lemma_integer_read(d: Seq<char>)
    ensures
        d.len() > 0 && all_digits(d) ==> {
            &&& integer(d) == (if number(d) <= i64::MAX {
                Some(number(d))
            } else {
                None
            })
            &&& integer(seq!['+'] + d) == integer(d)
            &&& integer(seq!['-'] + d) == (if number(d) <= -i64::MIN {
                Some(-number(d))
            } else {
                None
            })
        },
        d.len() == 0 ==> integer(d) is None && integer(seq!['+'] + d) is None && integer(
            seq!['-'] + d,
        ) is None,
        forall|i: int| 1 <= i < d.len() && !is_digit(#[trigger] d[i]) ==> integer(d) is None,
        d.len() > 0 && !is_digit(d[0]) && d[0] != '+' && d[0] != '-' ==> integer(d) is None,
{
    assert((seq!['+'] + d).skip(1) =~= d);
    assert((seq!['-'] + d).skip(1) =~= d);
    if d.len() > 0 && all_digits(d) {
        assert(is_digit(d[0]));
        lemma_number_positive(d);
    }
    assert forall|i: int| 1 <= i < d.len() && !is_digit(#[trigger] d[i]) implies integer(
        d,
    ) is None by {
        let body = unsigned(d);
        if d[0] == '-' || d[0] == '+' {
            assert(body[i - 1] == d[i]);
        }
        assert(!all_digits(body));
    }
    if d.len() > 0 && !is_digit(d[0]) && d[0] != '+' && d[0] != '-' {
        assert(unsigned(d)[0] == d[0]);
    }
}

proof fn lemma_number_positive(s: Seq<char>)
    requires
        all_digits(s),
    ensures
        number(s) >= 0,
    decreases s.len(),
{
    if s.len() > 0 {
        let less = s.drop_last();
        assert(is_digit(s[s.len() - 1]));
        assert forall|i: int| 0 <= i < less.len() implies is_digit(#[trigger] less[i]) by {
            assert(is_digit(s[i]));
        }
        lemma_number_positive(less);
    }
}

/// Below a hundred two digits are written, tens and ones; from there on all the digits; a
/// negative number with its sign and without filling.
pub proof fn lemma_two_places(n: int)
    ensures
        0 <= n < 100 ==> {
            &&& pad2(n).len() == 2
            &&& pad2(n)[0] as int == 48 + n / 10
            &&& pad2(n)[1] as int == 48 + n % 10
        },
        n >= 100 ==> pad2(n) == decimal(n),
        n < 0 ==> pad2(n) == seq!['-'] + decimal(-n),
{
    if 10 <= n < 100 {
        lemma_decimal(n);
        lemma_decimal_long(n);
        assert(decimal(n / 10) =~= seq![crate::text::digit(n / 10)]);
    }
}

/// Hours, minutes and seconds are written one after the other, the hours left out of the
/// short form where there are none.
pub proof fn lemma_clock_parts(h: int, m: int, s: int)
    requires
        h >= 0,
        0 <= m < 60,
        0 <= s < 60,
    ensures
        long_clock_text(h * 3600 + m * 60 + s) == pad2(h) + seq![':'] + pad2(m) + seq![':']
            + pad2(s),
        h > 0 ==> clock_text(h * 3600 + m * 60 + s) == pad2(h) + seq![':'] + pad2(m) + seq![':']
            + pad2(s),
        h == 0 ==> clock_text(h * 3600 + m * 60 + s) == pad2(m) + seq![':'] + pad2(s),
{
    let n = h * 3600 + m * 60 + s;
    assert(n / 3600 == h);
    assert(n % 3600 == m * 60 + s);
    assert((n % 3600) / 60 == m);
    assert(n % 60 == s);
}

// --- Lines ---

/// A line ends before a line feed, or before a carriage return and a line feed; what is
/// left at the end is a line too, if it holds anything.
pub proof fn lemma_line_taken(line: Seq<char>, rest: Seq<char>)
    requires
        forall|i: int| 0 <= i < line.len() ==> line[i] != '\n',
    ensures
        lines_of(seq![]) == Seq::<Seq<char>>::empty(),
        line.len() > 0 ==> lines_of(line) == seq![line],
        line.len() == 0 || line.last() != '\r' ==> lines_of(line + seq!['\n'] + rest) == seq![line]
            + lines_of(rest),
        lines_of(line + seq!['\r', '\n'] + rest) == seq![line] + lines_of(rest),
{
    let n = line.len() as int;
    if n > 0 {
        lemma_found(line, 0, '\n', n);
    }
    let s = line + seq!['\n'] + rest;
    lemma_found(s, 0, '\n', n);
    assert(s.take(n) =~= line);
    assert(s.skip(n + 1) =~= rest);
    let t = line + seq!['\r', '\n'] + rest;
    lemma_found(t, 0, '\n', n + 1);
    assert(t.take(n + 1) =~= line.push('\r'));
    assert(line.push('\r').drop_last() =~= line);
    assert(t.skip(n + 2) =~= rest);
}

} // verus!
