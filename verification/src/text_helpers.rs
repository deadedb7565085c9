//! Character and word boundaries in a line, as byte offsets.

use vstd::prelude::*;
use vstd::utf8::*;

use crate::text::{
    boundary, byte_len, char_count, chars_of, lemma_boundary_is_offset, lemma_encode_concat,
    lemma_encode_injective, lemma_offset_ends, lemma_offset_is_boundary, lemma_offset_monotone,
    lemma_offset_split, lemma_offset_step, len_utf8, offset, str_len, white_space,
};

verus! {

broadcast use vstd::utf8::encode_utf8_valid_utf8;

/// `r` is the last boundary of `s` before byte `i`.
pub open spec fn last_boundary_before(s: Seq<char>, i: int, r: int) -> bool {
    &&& boundary(s, r)
    &&& 0 <= r < i
    &&& forall|j: int| r < j < i ==> !#[trigger] boundary(s, j)
}

/// `r` is the first boundary of `s` after byte `i`.
pub open spec fn first_boundary_after(s: Seq<char>, i: int, r: int) -> bool {
    &&& boundary(s, r)
    &&& i < r <= byte_len(s)
    &&& forall|j: int| i < j < r ==> !#[trigger] boundary(s, j)
}

/// Going back from character `i` over the characters that are white space
/// (or, for `white` false, over those that are not): where that stops.
pub open spec fn skip_back(s: Seq<char>, i: int, white: bool) -> int
    decreases i,
{
    if 0 < i <= s.len() && white_space(s[i - 1]) == white {
        skip_back(s, i - 1, white)
    } else {
        i
    }
}

/// Going forward from character `i` over the characters that are white space
/// (or, for `white` false, over those that are not): where that stops.
pub open spec fn skip_forward(s: Seq<char>, i: int, white: bool) -> int
    decreases s.len() - i,
{
    if 0 <= i < s.len() && white_space(s[i]) == white {
        skip_forward(s, i + 1, white)
    } else {
        i
    }
}

/// The start of the word that ends at or before character `i`.
pub open spec fn word_start_before(s: Seq<char>, i: int) -> int {
    skip_back(s, skip_back(s, i, true), false)
}

/// The start of the first word after the one that character `i` stands in.
pub open spec fn next_word_start(s: Seq<char>, i: int) -> int {
    skip_forward(s, skip_forward(s, i, false), true)
}

/// The end of the first word that ends after character `i`.
pub open spec fn word_end_after(s: Seq<char>, i: int) -> int {
    skip_forward(s, skip_forward(s, i, true), false)
}

pub proof fn lemma_skip_back_range(s: Seq<char>, i: int, white: bool)
    requires
        0 <= i <= s.len(),
    ensures
        0 <= skip_back(s, i, white) <= i,
    decreases i,
{
    if 0 < i && white_space(s[i - 1]) == white {
        lemma_skip_back_range(s, i - 1, white);
    }
}

pub proof fn lemma_skip_forward_range(s: Seq<char>, i: int, white: bool)
    requires
        0 <= i <= s.len(),
    ensures
        i <= skip_forward(s, i, white) <= s.len(),
    decreases s.len() - i,
{
    if i < s.len() && white_space(s[i]) == white {
        lemma_skip_forward_range(s, i + 1, white);
    }
}

/// A word motion goes at least one character, unless it is at its end already,
/// and stays inside the line.
pub proof fn lemma_word_motions_move(s: Seq<char>, i: int)
    requires
        0 <= i <= s.len(),
    ensures
        0 <= word_start_before(s, i) <= i,
        i > 0 ==> word_start_before(s, i) < i,
        i <= next_word_start(s, i) <= s.len(),
        i < s.len() ==> i < next_word_start(s, i),
        i <= word_end_after(s, i) <= s.len(),
        i < s.len() ==> i < word_end_after(s, i),
{
    lemma_skip_back_range(s, i, true);
    lemma_skip_back_range(s, skip_back(s, i, true), false);
    lemma_skip_forward_range(s, i, true);
    lemma_skip_forward_range(s, skip_forward(s, i, true), false);
    lemma_skip_forward_range(s, i, false);
    lemma_skip_forward_range(s, skip_forward(s, i, false), true);
    if i > 0 {
        lemma_skip_back_range(s, i - 1, true);
        lemma_skip_back_range(s, i - 1, false);
    }
    if i < s.len() {
        lemma_skip_forward_range(s, i + 1, true);
        lemma_skip_forward_range(s, i + 1, false);
    }
}

proof fn lemma_skip_back_local(a: Seq<char>, b: Seq<char>, i: int, white: bool)
    requires
        0 <= i <= a.len(),
        i <= b.len(),
        a.take(i) == b.take(i),
    ensures
        skip_back(a, i, white) == skip_back(b, i, white),
    decreases i,
{
    if i > 0 {
        assert(a[i - 1] == a.take(i)[i - 1] && b[i - 1] == b.take(i)[i - 1]);
        assert(a.take(i - 1) =~= a.take(i).take(i - 1));
        assert(b.take(i - 1) =~= b.take(i).take(i - 1));
        lemma_skip_back_local(a, b, i - 1, white);
    }
}

proof fn lemma_skip_forward_local(s: Seq<char>, k: int, i: int, white: bool)
    requires
        0 <= k <= s.len(),
        0 <= i <= s.skip(k).len(),
    ensures
        skip_forward(s.skip(k), i, white) + k == skip_forward(s, i + k, white),
    decreases s.len() - i,
{
    if i < s.skip(k).len() {
        lemma_skip_forward_local(s, k, i + 1, white);
    }
}

/// Where the neighbours of a boundary lie, in characters.
pub proof fn lemma_boundary_neighbours(s: Seq<char>, k: int)
    requires
        0 <= k <= s.len(),
    ensures
        k > 0 ==> last_boundary_before(s, offset(s, k), offset(s, k - 1)),
        k < s.len() ==> first_boundary_after(s, offset(s, k), offset(s, k + 1)),
{
    if k > 0 {
        lemma_no_boundary_between(s, k - 1);
        lemma_offset_is_boundary(s, k - 1);
        lemma_offset_monotone(s, k - 1, k);
    }
    if k < s.len() {
        lemma_no_boundary_between(s, k);
        lemma_offset_is_boundary(s, k + 1);
        lemma_offset_monotone(s, k, k + 1);
        lemma_offset_split(s, k + 1);
    }
}

proof fn lemma_no_boundary_between(s: Seq<char>, k: int)
    requires
        0 <= k < s.len(),
    ensures
        forall|j: int| offset(s, k) < j < offset(s, k + 1) ==> !#[trigger] boundary(s, j),
{
    assert forall|j: int| offset(s, k) < j < offset(s, k + 1) implies !#[trigger] boundary(s, j) by {
        if boundary(s, j) {
            lemma_boundary_is_offset(s, j);
            let m = char_count(s, j);
            if m < k {
                lemma_offset_monotone(s, m, k);
            } else if m > k + 1 {
                lemma_offset_monotone(s, k + 1, m);
            }
        }
    }
}

/// The last boundary before byte `col` of `s` (an offset past the end counts as
/// the end), or 0 where there is none.
pub fn prev_char_boundary(s: &str, col: usize) -> (r: usize)
    ensures
        ({
            let i = if col <= byte_len(s@) { col as int } else { byte_len(s@) };
            if i == 0 {
                r == 0
            } else {
                last_boundary_before(s@, i, r as int)
            }
        }),
{
    let len = str_len(s);
    let start = if col <= len { col } else { len };
    if start == 0 {
        return 0;
    }
    let mut i: usize = start - 1;
    while i > 0 && !s.is_char_boundary(i)
        invariant
            0 <= i < start <= byte_len(s@),
            forall|j: int| i < j < start ==> !#[trigger] boundary(s@, j),
        decreases i,
    {
        i -= 1;
    }
    proof {
        is_char_boundary_start_end_of_seq(encode_utf8(s@));
    }
    i
}

/// The first boundary after byte `col` of `s`, or its end where there is none.
pub fn next_char_boundary(s: &str, col: usize) -> (r: usize)
    requires
        col < usize::MAX,
    ensures
        if col >= byte_len(s@) {
            r == byte_len(s@)
        } else {
            first_boundary_after(s@, col as int, r as int)
        },
{
    let len = str_len(s);
    let mut i: usize = col + 1;
    while i < len && !s.is_char_boundary(i)
        invariant
            col < i,
            len == byte_len(s@),
            i <= len || i == col + 1,
            forall|j: int| col < j < i ==> !#[trigger] boundary(s@, j),
        decreases len - i,
    {
        i += 1;
    }
    proof {
        is_char_boundary_start_end_of_seq(encode_utf8(s@));
    }
    if i <= len {
        i
    } else {
        len
    }
}

/// The byte offset of character `k` of the characters `v`.
fn offset_of(v: &Vec<char>, k: usize, Ghost(bound): Ghost<usize>) -> (r: usize)
    requires
        k <= v@.len(),
        byte_len(v@) <= bound,
    ensures
        r == offset(v@, k as int),
{
    let mut i: usize = 0;
    let mut at: usize = 0;
    proof {
        lemma_offset_ends(v@);
    }
    while i < k
        invariant
            i <= k <= v@.len(),
            byte_len(v@) <= bound,
            at == offset(v@, i as int),
        decreases k - i,
    {
        proof {
            lemma_offset_step(v@, i as int);
            lemma_offset_split(v@, i + 1);
        }
        at = at + len_utf8(v[i]);
        i += 1;
    }
    at
}

/// Where going back a word from byte `col` leads: over white space, then to the
/// start of the word before it.
pub fn prev_word_boundary(line: &str, col: usize) -> (r: usize)
    requires
        boundary(line@, col as int),
    ensures
        r == offset(line@, word_start_before(line@, char_count(line@, col as int))),
{
    let ghost k = char_count(line@, col as int);
    proof {
        lemma_boundary_is_offset(line@, col as int);
        lemma_offset_split(line@, k);
    }
    let head = line.split_at(col).0;
    proof {
        lemma_encode_injective(head@, line@.take(k));
        lemma_offset_split(line@, k);
    }
    let chars = chars_of(head);
    let mut i: usize = chars.len();
    while i > 0 && chars[i - 1].is_whitespace()
        invariant
            i <= chars@.len(),
            skip_back(chars@, i as int, true) == skip_back(chars@, chars@.len() as int, true),
        decreases i,
    {
        i -= 1;
    }
    let ghost j = i as int;
    while i > 0 && !chars[i - 1].is_whitespace()
        invariant
            i <= chars@.len(),
            skip_back(chars@, i as int, false) == skip_back(chars@, j, false),
        decreases i,
    {
        i -= 1;
    }
    proof {
        lemma_skip_back_range(line@, k, true);
        lemma_skip_back_range(line@, skip_back(line@, k, true), false);
        assert(chars@.take(k) =~= line@.take(k));
        lemma_skip_back_local(chars@, line@, k, true);
        assert(chars@.take(j) =~= line@.take(j));
        lemma_skip_back_local(chars@, line@, j, false);
        assert(chars@.take(i as int) =~= line@.take(i as int));
    }
    offset_of(&chars, i, Ghost(col))
}

/// Where going forward to the next word from byte `col` leads: over the rest of
/// the word, then over white space.
pub fn next_word_boundary(line: &str, col: usize) -> (r: usize)
    requires
        col < byte_len(line@) ==> boundary(line@, col as int),
    ensures
        if col >= byte_len(line@) {
            r == byte_len(line@)
        } else {
            r == offset(line@, next_word_start(line@, char_count(line@, col as int)))
        },
{
    skip_two(line, col, false)
}

/// Where going forward to a word's end from byte `col` leads: over white space,
/// then over the word.
pub fn next_word_end(line: &str, col: usize) -> (r: usize)
    requires
        col < byte_len(line@) ==> boundary(line@, col as int),
    ensures
        if col >= byte_len(line@) {
            r == byte_len(line@)
        } else {
            r == offset(line@, word_end_after(line@, char_count(line@, col as int)))
        },
{
    skip_two(line, col, true)
}

/// Forward from byte `col` over two runs, the first of white space or not as
/// `white_first` says, the second of the other kind.
fn skip_two(line: &str, col: usize, white_first: bool) -> (r: usize)
    requires
        col < byte_len(line@) ==> boundary(line@, col as int),
    ensures
        if col >= byte_len(line@) {
            r == byte_len(line@)
        } else {
            r == offset(
                line@,
                skip_forward(
                    line@,
                    skip_forward(line@, char_count(line@, col as int), white_first),
                    !white_first,
                ),
            )
        },
{
    let len = str_len(line);
    if col >= len {
        return len;
    }
    let ghost k = char_count(line@, col as int);
    proof {
        lemma_boundary_is_offset(line@, col as int);
        lemma_offset_split(line@, k);
    }
    let tail = line.split_at(col).1;
    proof {
        lemma_encode_injective(tail@, line@.skip(k));
        lemma_offset_split(line@, k);
    }
    let chars = chars_of(tail);
    let mut i: usize = 0;
    while i < chars.len() && chars[i].is_whitespace() == white_first
        invariant
            i <= chars@.len(),
            skip_forward(chars@, i as int, white_first) == skip_forward(chars@, 0, white_first),
        decreases chars@.len() - i,
    {
        i += 1;
    }
    let ghost j = i as int;
    while i < chars.len() && chars[i].is_whitespace() != white_first
        invariant
            i <= chars@.len(),
            skip_forward(chars@, i as int, !white_first) == skip_forward(chars@, j, !white_first),
        decreases chars@.len() - i,
    {
        i += 1;
    }
    proof {
        lemma_skip_forward_local(line@, k, 0, white_first);
        lemma_skip_forward_local(line@, k, j, !white_first);
        lemma_offset_split(chars@, i as int);
        lemma_encode_concat(line@.take(k), chars@.take(i as int));
        assert(line@.take(k) + chars@.take(i as int) =~= line@.take(k + i));
    }
    col + offset_of(&chars, i, Ghost(len))
}

} // verus!
