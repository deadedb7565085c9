//! Strings as sequences of characters and as UTF-8 bytes.
//!
//! The editor's columns are byte offsets into a line. This module relates such
//! offsets to positions in the line's sequence of characters, and holds the
//! small string functions that the rest of the library is written with.

use vstd::prelude::*;
use vstd::utf8::*;

verus! {

broadcast use vstd::utf8::encode_utf8_valid_utf8;

/// The number of bytes that `s` takes in UTF-8.
pub open spec fn byte_len(s: Seq<char>) -> int {
    encode_utf8(s).len() as int
}

/// The byte offset at which the `k`-th character of `s` starts; for `k` equal to
/// the number of characters, the length of `s` in bytes.
pub open spec fn offset(s: Seq<char>, k: int) -> int {
    byte_len(s.take(k))
}

/// The number of characters in the first `i` bytes of `s`, for an `i` between
/// two characters.
pub open spec fn char_count(s: Seq<char>, i: int) -> int {
    decode_utf8(encode_utf8(s).subrange(0, i)).len() as int
}

/// Whether byte offset `i` of `s` lies between two characters, or at an end.
pub open spec fn boundary(s: Seq<char>, i: int) -> bool {
    is_char_boundary(encode_utf8(s), i)
}

/// The number of bytes of one character.
pub open spec fn char_width(c: char) -> int {
    encode_scalar(c as u32).len() as int
}

pub proof fn lemma_encode_one(c: char)
    ensures
        encode_utf8(seq![c]) == encode_scalar(c as u32),
        1 <= char_width(c) <= 4,
{
    assert(seq![c].drop_first() =~= Seq::<char>::empty());
    assert(encode_utf8(seq![c].drop_first()) =~= Seq::<u8>::empty());
    assert(encode_utf8(seq![c]) =~= encode_scalar(c as u32));
}

pub proof fn lemma_encode_concat(a: Seq<char>, b: Seq<char>)
    ensures
        encode_utf8(a + b) == encode_utf8(a) + encode_utf8(b),
    decreases a.len(),
{
    if a.len() == 0 {
        assert(a + b =~= b);
        assert(encode_utf8(a) + encode_utf8(b) =~= encode_utf8(b));
    } else {
        lemma_encode_concat(a.drop_first(), b);
        assert((a + b).drop_first() =~= a.drop_first() + b);
        assert(encode_utf8(a + b) =~= encode_utf8(a) + encode_utf8(b));
    }
}

/// Two strings with the same bytes are the same.
pub proof fn lemma_encode_injective(a: Seq<char>, b: Seq<char>)
    requires
        encode_utf8(a) == encode_utf8(b),
    ensures
        a == b,
{
    encode_utf8_decode_utf8(a);
    encode_utf8_decode_utf8(b);
}

pub proof fn lemma_offset_split(s: Seq<char>, k: int)
    requires
        0 <= k <= s.len(),
    ensures
        encode_utf8(s) == encode_utf8(s.take(k)) + encode_utf8(s.skip(k)),
        byte_len(s) == offset(s, k) + byte_len(s.skip(k)),
        0 <= offset(s, k) <= byte_len(s),
        encode_utf8(s).subrange(0, offset(s, k)) == encode_utf8(s.take(k)),
        encode_utf8(s).subrange(offset(s, k), byte_len(s)) == encode_utf8(s.skip(k)),
{
    lemma_encode_concat(s.take(k), s.skip(k));
    assert(s.take(k) + s.skip(k) =~= s);
    assert(encode_utf8(s).subrange(0, offset(s, k)) =~= encode_utf8(s.take(k)));
    assert(encode_utf8(s).subrange(offset(s, k), byte_len(s)) =~= encode_utf8(s.skip(k)));
}

pub proof fn lemma_offset_step(s: Seq<char>, k: int)
    requires
        0 <= k < s.len(),
    ensures
        offset(s, k + 1) == offset(s, k) + char_width(s[k]),
        1 <= char_width(s[k]) <= 4,
{
    lemma_encode_one(s[k]);
    lemma_encode_concat(s.take(k), seq![s[k]]);
    assert(s.take(k) + seq![s[k]] =~= s.take(k + 1));
}

pub proof fn lemma_offset_ends(s: Seq<char>)
    ensures
        offset(s, 0) == 0,
        offset(s, s.len() as int) == byte_len(s),
{
    assert(s.take(0) =~= Seq::<char>::empty());
    assert(s.take(s.len() as int) =~= s);
}

pub proof fn lemma_offset_monotone(s: Seq<char>, j: int, k: int)
    requires
        0 <= j < k <= s.len(),
    ensures
        offset(s, j) + (k - j) <= offset(s, k),
    decreases k - j,
{
    lemma_offset_step(s, k - 1);
    if j < k - 1 {
        lemma_offset_monotone(s, j, k - 1);
    }
}

/// An offset counts the characters before it.
pub proof fn lemma_char_count_offset(s: Seq<char>, k: int)
    requires
        0 <= k <= s.len(),
    ensures
        char_count(s, offset(s, k)) == k,
{
    lemma_offset_split(s, k);
    encode_utf8_decode_utf8(s.take(k));
}

/// The starts of characters are boundaries.
pub proof fn lemma_offset_is_boundary(s: Seq<char>, k: int)
    requires
        0 <= k <= s.len(),
    ensures
        boundary(s, offset(s, k)),
    decreases s.len(),
{
    lemma_offset_ends(s);
    if k > 0 {
        let rest = s.drop_first();
        lemma_offset_is_boundary(rest, k - 1);
        lemma_offset_split(s, k);
        lemma_first_scalar(s);
        lemma_encode_one(s[0]);
        lemma_encode_concat(seq![s[0]], rest.take(k - 1));
        assert(seq![s[0]] + rest.take(k - 1) =~= s.take(k));
    }
}

proof fn lemma_first_scalar(s: Seq<char>)
    requires
        s.len() > 0,
    ensures
        length_of_first_scalar(encode_utf8(s)) == char_width(s[0]),
        pop_first_scalar(encode_utf8(s)) == encode_utf8(s.drop_first()),
        valid_utf8(encode_utf8(s)),
{
    encode_utf8_first_scalar(s);
    assert(pop_first_scalar(encode_utf8(s)) =~= encode_utf8(s.drop_first()));
}

/// Every boundary is the start of a character, or the end: the one that
/// `char_count` counts.
pub proof fn lemma_boundary_is_offset(s: Seq<char>, i: int)
    requires
        boundary(s, i),
    ensures
        0 <= char_count(s, i) <= s.len(),
        offset(s, char_count(s, i)) == i,
    decreases s.len(),
{
    lemma_offset_ends(s);
    if i == 0 {
        lemma_char_count_offset(s, 0);
    } else if s.len() == 0 {
        assert(encode_utf8(s).len() == 0);
    } else {
        let rest = s.drop_first();
        lemma_first_scalar(s);
        lemma_encode_one(s[0]);
        let w = char_width(s[0]);
        assert(boundary(rest, i - w));
        lemma_boundary_is_offset(rest, i - w);
        let k = char_count(rest, i - w);
        lemma_encode_concat(seq![s[0]], rest.take(k));
        assert(seq![s[0]] + rest.take(k) =~= s.take(k + 1));
        assert(offset(s, k + 1) == i);
        lemma_char_count_offset(s, k + 1);
    }
}

/// The characters that Unicode gives the property White_Space.
pub open spec fn white_space(c: char) -> bool {
    let v = c as u32;
    ||| 0x09 <= v <= 0x0d
    ||| v == 0x20
    ||| v == 0x85
    ||| v == 0xa0
    ||| v == 0x1680
    ||| 0x2000 <= v <= 0x200a
    ||| v == 0x2028
    ||| v == 0x2029
    ||| v == 0x202f
    ||| v == 0x205f
    ||| v == 0x3000
}

/// `char::is_whitespace` of std: documented as the test for Unicode's White_Space
/// property, whose members `white_space` lists.
pub assume_specification[ char::is_whitespace ](c: char) -> (r: bool)
    ensures
        r == white_space(c),
;

/// `String::push` of std: appends one character.
pub assume_specification[ String::push ](s: &mut String, c: char)
    ensures
        final(s)@ == old(s)@.push(c),
;

/// The characters of `s`, in order.
pub fn chars_of(s: &str) -> (r: Vec<char>)
    ensures
        r@ == s@,
{
    let mut out: Vec<char> = Vec::new();
    for c in it: s.chars()
        invariant
            out@ == it.seq().take(it.index() as int),
            it.seq() == s@,
    {
        out.push(c);
    }
    out
}

/// Appends the characters of `v` from `from` up to `to`.
pub fn push_range(out: &mut String, v: &Vec<char>, from: usize, to: usize)
    requires
        from <= to <= v@.len(),
    ensures
        final(out)@ == old(out)@ + v@.subrange(from as int, to as int),
{
    let mut i: usize = from;
    while i < to
        invariant
            from <= i <= to <= v@.len(),
            out@ == old(out)@ + v@.subrange(from as int, i as int),
        decreases to - i,
    {
        out.push(v[i]);
        i += 1;
    }
}

/// The number of bytes that `c` takes in UTF-8.
pub fn len_utf8(c: char) -> (r: usize)
    ensures
        r == char_width(c),
{
    let v = c as u32;
    if v < 0x80 {
        1
    } else if v < 0x800 {
        2
    } else if v < 0x10000 {
        3
    } else {
        4
    }
}

/// The length of `s` in bytes.
pub fn str_len(s: &str) -> (r: usize)
    ensures
        r == byte_len(s@),
{
    s.as_bytes().len()
}

/// The character for the digit `d`.
pub open spec fn digit(d: int) -> char {
    (48 + d) as char
}

/// `n` in decimal.
pub open spec fn decimal(n: int) -> Seq<char>
    decreases n,
{
    if n < 10 {
        seq![digit(n)]
    } else {
        decimal(n / 10).push(digit(n % 10))
    }
}

/// `n` in decimal, with its sign, filled with zeros to a width of two.
pub open spec fn pad2(n: int) -> Seq<char> {
    if n < 0 {
        seq!['-'] + decimal(-n)
    } else if n < 10 {
        seq!['0', digit(n)]
    } else {
        decimal(n)
    }
}

/// `n` in decimal, with its sign.
pub open spec fn signed(n: int) -> Seq<char> {
    if n < 0 {
        seq!['-'] + decimal(-n)
    } else {
        decimal(n)
    }
}

/// `s` filled with spaces to a width of `w` characters.
pub open spec fn pad_right(s: Seq<char>, w: int) -> Seq<char> {
    if s.len() < w {
        s + Seq::new((w - s.len()) as nat, |i: int| ' ')
    } else {
        s
    }
}

/// Appends `n` in decimal.
pub fn push_decimal(out: &mut String, n: u64)
    ensures
        final(out)@ == old(out)@ + decimal(n as int),
    decreases n,
{
    if n >= 10 {
        push_decimal(out, n / 10);
    }
    out.push((48u8 + (n % 10) as u8) as char);
    assert(out@ =~= old(out)@ + decimal(n as int));
}

/// Appends `n` in decimal with its sign.
pub fn push_signed(out: &mut String, n: i64)
    ensures
        final(out)@ == old(out)@ + signed(n as int),
{
    if n < 0 {
        out.push('-');
        push_decimal(out, (-(n as i128)) as u64);
    } else {
        push_decimal(out, n as u64);
    }
    assert(out@ =~= old(out)@ + signed(n as int));
}

/// Appends `n` in decimal with its sign, filled with zeros to a width of two.
pub fn push_pad2(out: &mut String, n: i64)
    requires
        n > i64::MIN,
    ensures
        final(out)@ == old(out)@ + pad2(n as int),
{
    if n < 0 {
        out.push('-');
        push_decimal(out, (-n) as u64);
    } else {
        if n < 10 {
            out.push('0');
        }
        push_decimal(out, n as u64);
    }
    assert(out@ =~= old(out)@ + pad2(n as int));
}

/// Appends `s` filled with spaces to a width of `w` characters.
pub fn push_padded(out: &mut String, s: &str, w: usize)
    ensures
        final(out)@ == old(out)@ + pad_right(s@, w as int),
{
    let n = chars_of(s).len();
    out.append(s);
    let mut i: usize = n;
    while i < w
        invariant
            n == s@.len(),
            n <= i,
            i <= w || i == n,
            out@ == old(out)@ + s@ + Seq::new((i - n) as nat, |j: int| ' '),
        decreases w - i,
    {
        out.push(' ');
        i += 1;
        assert(out@ =~= old(out)@ + s@ + Seq::new((i - n) as nat, |j: int| ' '));
    }
    assert(out@ =~= old(out)@ + pad_right(s@, w as int));
}

/// The first position from `i` on at which `s` holds `c`; its length where there
/// is none.
pub open spec fn find_from(s: Seq<char>, i: int, c: char) -> int
    decreases s.len() - i,
{
    if i < 0 || i >= s.len() {
        s.len() as int
    } else if s[i] == c {
        i
    } else {
        find_from(s, i + 1, c)
    }
}

/// The parts of `s` between the occurrences of `c`.
pub open spec fn split_on(s: Seq<char>, c: char) -> Seq<Seq<char>>
    decreases s.len(),
    via split_on_shrinks
{
    let e = find_from(s, 0, c);
    if e == s.len() {
        seq![s]
    } else {
        seq![s.take(e)] + split_on(s.skip(e + 1), c)
    }
}

#[via_fn]
proof fn split_on_shrinks(s: Seq<char>, c: char) {
    lemma_find_from(s, 0, c);
}

/// A line without the carriage return at its end, if it has one there.
pub open spec fn without_cr(s: Seq<char>) -> Seq<char> {
    if s.len() > 0 && s.last() == '\r' {
        s.drop_last()
    } else {
        s
    }
}

/// The lines of `s`: each ends with a line feed, or a carriage return and a line
/// feed, which are not part of it; the last may lack them.
pub open spec fn lines_of(s: Seq<char>) -> Seq<Seq<char>>
    decreases s.len(),
    via lines_of_shrinks
{
    let e = find_from(s, 0, '\n');
    if s.len() == 0 {
        seq![]
    } else if e == s.len() {
        seq![s]
    } else {
        seq![without_cr(s.take(e))] + lines_of(s.skip(e + 1))
    }
}

#[via_fn]
proof fn lines_of_shrinks(s: Seq<char>) {
    lemma_find_from(s, 0, '\n');
}

pub proof fn lemma_find_from(s: Seq<char>, i: int, c: char)
    requires
        0 <= i <= s.len(),
    ensures
        i <= find_from(s, i, c) <= s.len(),
        find_from(s, i, c) < s.len() ==> s[find_from(s, i, c)] == c,
        forall|k: int| i <= k < find_from(s, i, c) ==> s[k] != c,
    decreases s.len() - i,
{
    if i < s.len() && s[i] != c {
        lemma_find_from(s, i + 1, c);
    }
}

/// A position that holds `c`, with none before it that does, is the one found.
pub proof fn lemma_found(s: Seq<char>, i: int, c: char, e: int)
    requires
        0 <= i <= e <= s.len(),
        e < s.len() ==> s[e] == c,
        forall|k: int| i <= k < e ==> s[k] != c,
    ensures
        find_from(s, i, c) == e,
{
    lemma_find_from(s, i, c);
    let f = find_from(s, i, c);
    if f < e {
        assert(s[f] != c);
    } else if e < f {
        assert(s[e] != c);
    }
}

/// The first position from `i` on at which `v` holds `c`, or its length.
pub fn find_char(v: &Vec<char>, i: usize, c: char) -> (r: usize)
    requires
        i <= v@.len(),
    ensures
        r == find_from(v@, i as int, c),
        i <= r <= v@.len(),
        r < v@.len() ==> v@[r as int] == c,
        forall|k: int| i <= k < r ==> v@[k] != c,
{
    let mut k: usize = i;
    while k < v.len() && v[k] != c
        invariant
            i <= k <= v@.len(),
            find_from(v@, k as int, c) == find_from(v@, i as int, c),
            forall|j: int| i <= j < k ==> v@[j] != c,
        decreases v@.len() - k,
    {
        k += 1;
    }
    k
}

/// The characters of `v` from `from` up to `to`.
pub fn slice_of(v: &Vec<char>, from: usize, to: usize) -> (r: Vec<char>)
    requires
        from <= to <= v@.len(),
    ensures
        r@ == v@.subrange(from as int, to as int),
{
    let mut out: Vec<char> = Vec::new();
    let mut i: usize = from;
    while i < to
        invariant
            from <= i <= to <= v@.len(),
            out@ == v@.subrange(from as int, i as int),
        decreases to - i,
    {
        out.push(v[i]);
        i += 1;
    }
    out
}

/// The views of a list of character vectors.
pub open spec fn views(v: Seq<Vec<char>>) -> Seq<Seq<char>> {
    Seq::new(v.len(), |i: int| v[i]@)
}

/// The views of a list of strings.
pub open spec fn strings_view(v: Seq<String>) -> Seq<Seq<char>> {
    Seq::new(v.len(), |i: int| v[i]@)
}

/// The parts of `v` between the occurrences of `c`.
pub fn split_chars(v: &Vec<char>, c: char) -> (r: Vec<Vec<char>>)
    ensures
        views(r@) == split_on(v@, c),
{
    let mut out: Vec<Vec<char>> = Vec::new();
    let mut i: usize = 0;
    assert(v@.skip(0) =~= v@);
    assert(views(out@) + split_on(v@, c) =~= split_on(v@, c));
    loop
        invariant
            i <= v@.len(),
            views(out@) + split_on(v@.skip(i as int), c) == split_on(v@, c),
        decreases v@.len() - i,
    {
        let e = find_char(v, i, c);
        let ghost rest = v@.skip(i as int);
        proof {
            lemma_find_from(v@, i as int, c);
            lemma_found(rest, 0, c, e - i);
        }
        let part = slice_of(v, i, e);
        let ghost before = views(out@);
        let ghost old_out = out@;
        out.push(part);
        assert(views(out@) =~= before.push(part@));
        assert(rest.take(e - i) =~= part@);
        if e == v.len() {
            assert(rest =~= part@);
            assert(views(out@) =~= before + seq![rest]);
            return out;
        }
        assert(rest.skip(e - i + 1) =~= v@.skip(e + 1));
        i = e + 1;
        assert(views(out@) + split_on(v@.skip(i as int), c) =~= before + split_on(rest, c));
    }
}

/// The lines of `v`.
pub fn split_lines(v: &Vec<char>) -> (r: Vec<Vec<char>>)
    ensures
        views(r@) == lines_of(v@),
{
    let mut out: Vec<Vec<char>> = Vec::new();
    let mut i: usize = 0;
    assert(v@.skip(0) =~= v@);
    assert(views(out@) + lines_of(v@) =~= lines_of(v@));
    while i < v.len()
        invariant
            i <= v@.len(),
            views(out@) + lines_of(v@.skip(i as int)) == lines_of(v@),
        decreases v@.len() - i,
    {
        let e = find_char(v, i, '\n');
        let ghost rest = v@.skip(i as int);
        let ghost before = views(out@);
        proof {
            lemma_find_from(v@, i as int, '\n');
            lemma_found(rest, 0, '\n', e - i);
        }
        if e == v.len() {
            let part = slice_of(v, i, e);
            out.push(part);
            assert(rest =~= part@);
            assert(views(out@) =~= before.push(part@));
            i = e;
            assert(v@.skip(i as int).len() == 0);
            assert(views(out@) + lines_of(v@.skip(i as int)) =~= before + lines_of(rest));
        } else {
            let end = if e > i && v[e - 1] == '\r' {
                e - 1
            } else {
                e
            };
            let part = slice_of(v, i, end);
            out.push(part);
            assert(views(out@) =~= before.push(part@));
            assert(part@ =~= without_cr(rest.take(e - i)));
            assert(rest.skip(e - i + 1) =~= v@.skip(e + 1));
            i = e + 1;
            assert(views(out@) + lines_of(v@.skip(i as int)) =~= before + lines_of(rest));
        }
    }
    assert(v@.skip(i as int).len() == 0);
    assert(views(out@) + lines_of(v@.skip(i as int)) =~= views(out@));
    out
}

/// Nothing but white space.
pub open spec fn blank(s: Seq<char>) -> bool {
    forall|i: int| 0 <= i < s.len() ==> white_space(#[trigger] s[i])
}

/// Whether `s` holds nothing but white space.
pub fn is_blank(s: &str) -> (r: bool)
    ensures
        r == blank(s@),
        r <==> (forall|i: int| 0 <= i < s@.len() ==> white_space(#[trigger] s@[i])),
{
    let v = chars_of(s);
    let mut i: usize = 0;
    while i < v.len()
        invariant
            i <= v@.len(),
            v@ == s@,
            forall|k: int| 0 <= k < i ==> white_space(#[trigger] s@[k]),
        decreases v@.len() - i,
    {
        if !v[i].is_whitespace() {
            assert(!white_space(s@[i as int]));
            return false;
        }
        i += 1;
    }
    true
}

/// A string with `c` in it splits there.
pub proof fn lemma_split_at(a: Seq<char>, c: char, b: Seq<char>)
    requires
        forall|k: int| 0 <= k < a.len() ==> a[k] != c,
    ensures
        split_on(a + seq![c] + b, c) == seq![a] + split_on(b, c),
{
    let s = a + seq![c] + b;
    lemma_found(s, 0, c, a.len() as int);
    assert(s.take(a.len() as int) =~= a);
    assert(s.skip(a.len() as int + 1) =~= b);
}

/// A string without `c` does not split.
pub proof fn lemma_split_none(a: Seq<char>, c: char)
    requires
        forall|k: int| 0 <= k < a.len() ==> a[k] != c,
    ensures
        split_on(a, c) == seq![a],
{
    lemma_found(a, 0, c, a.len() as int);
}

/// What stands before a string goes to its first part.
pub proof fn lemma_split_prefix(h: Seq<char>, t: Seq<char>, c: char)
    requires
        forall|k: int| 0 <= k < h.len() ==> h[k] != c,
    ensures
        split_on(t, c).len() > 0,
        split_on(h + t, c) == seq![h + split_on(t, c)[0]] + split_on(t, c).skip(1),
{
    let e = find_from(t, 0, c);
    lemma_find_from(t, 0, c);
    lemma_found(h + t, 0, c, h.len() + e);
    if e == t.len() {
        assert(seq![h + t] =~= seq![h + split_on(t, c)[0]] + split_on(t, c).skip(1));
    } else {
        assert((h + t).take(h.len() + e) =~= h + t.take(e));
        assert((h + t).skip(h.len() + e + 1) =~= t.skip(e + 1));
        assert(split_on(t, c).skip(1) =~= split_on(t.skip(e + 1), c));
    }
}

/// The lines before a line feed and the lines after it are the lines of the whole.
pub proof fn lemma_lines_concat(a: Seq<char>, b: Seq<char>)
    requires
        a.len() == 0 || a.last() == '\n',
    ensures
        lines_of(a + b) == lines_of(a) + lines_of(b),
    decreases a.len(),
{
    if a.len() == 0 {
        assert(a + b =~= b);
        assert(lines_of(a) + lines_of(b) =~= lines_of(b));
    } else {
        let e = find_from(a, 0, '\n');
        lemma_find_from(a, 0, '\n');
        if e == a.len() {
            assert(a[a.len() - 1] != '\n');
        }
        lemma_found(a + b, 0, '\n', e);
        assert((a + b).take(e) =~= a.take(e));
        assert((a + b).skip(e + 1) =~= a.skip(e + 1) + b);
        lemma_lines_concat(a.skip(e + 1), b);
        assert(lines_of(a + b) =~= lines_of(a) + lines_of(b));
    }
}

/// Where no part of `u` between line feeds ends with a carriage return, those parts
/// are the lines of `u` written with a line feed at its end.
pub proof fn lemma_lines_are_parts(u: Seq<char>)
    requires
        forall|k: int|
            0 <= k < split_on(u, '\n').len() ==> without_cr(#[trigger] split_on(u, '\n')[k])
                == split_on(u, '\n')[k],
    ensures
        lines_of(u.push('\n')) == split_on(u, '\n'),
    decreases u.len(),
{
    let e = find_from(u, 0, '\n');
    let s = u.push('\n');
    lemma_find_from(u, 0, '\n');
    lemma_found(s, 0, '\n', e);
    assert(s.take(e) =~= u.take(e));
    let p = split_on(u, '\n');
    assert(without_cr(p[0]) == p[0]);
    if e == u.len() {
        assert(u.take(e) =~= u);
        assert(s.skip(e + 1) =~= Seq::<char>::empty());
        assert(lines_of(Seq::<char>::empty()) =~= Seq::<Seq<char>>::empty());
        assert(lines_of(s) =~= p);
    } else {
        let rest = u.skip(e + 1);
        assert(s.skip(e + 1) =~= rest.push('\n'));
        assert(p.skip(1) =~= split_on(rest, '\n'));
        assert forall|k: int| 0 <= k < split_on(rest, '\n').len() implies without_cr(
            #[trigger] split_on(rest, '\n')[k],
        ) == split_on(rest, '\n')[k] by {
            assert(split_on(rest, '\n')[k] == p[k + 1]);
        }
        lemma_lines_are_parts(rest);
        assert(lines_of(s) =~= p);
    }
}

/// Every character of a string is the one it is split on, or in one of the parts.
pub proof fn lemma_split_chars(s: Seq<char>, c: char, i: int)
    requires
        0 <= i < s.len(),
    ensures
        s[i] == c || exists|p: int, k: int|
            0 <= p < split_on(s, c).len() && 0 <= k < split_on(s, c)[p].len() && #[trigger] split_on(
                s,
                c,
            )[p][k] == s[i],
    decreases s.len(),
{
    let e = find_from(s, 0, c);
    lemma_find_from(s, 0, c);
    if e == s.len() {
        assert(split_on(s, c)[0][i] == s[i]);
    } else if i < e {
        assert(split_on(s, c)[0] =~= s.take(e));
        assert(split_on(s, c)[0][i] == s[i]);
    } else if i > e {
        let rest = s.skip(e + 1);
        lemma_split_chars(rest, c, i - e - 1);
        assert(rest[i - e - 1] == s[i]);
        if s[i] != c {
            let (p, k) = choose|p: int, k: int|
                0 <= p < split_on(rest, c).len() && 0 <= k < split_on(rest, c)[p].len()
                    && #[trigger] split_on(rest, c)[p][k] == rest[i - e - 1];
            assert(split_on(s, c)[p + 1] == split_on(rest, c)[p]);
            assert(split_on(s, c)[p + 1][k] == s[i]);
        }
    }
}

} // verus!
