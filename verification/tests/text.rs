use aside::text::{is_blank, len_utf8, str_len};
use aside::text_helpers::{
    next_char_boundary, next_word_boundary, next_word_end, prev_char_boundary, prev_word_boundary,
};

#[test]
fn boundaries_of_ascii_text() {
    assert_eq!(prev_char_boundary("abc", 2), 1);
    assert_eq!(next_char_boundary("abc", 1), 2);
    assert_eq!(prev_word_boundary("one two", 7), 4);
    assert_eq!(next_word_boundary("one two", 0), 4);
    assert_eq!(next_word_end("one two", 3), 7);
}

#[test]
fn boundaries_at_the_ends() {
    assert_eq!(prev_char_boundary("abc", 0), 0);
    assert_eq!(prev_char_boundary("abc", 99), 2);
    assert_eq!(prev_char_boundary("", 5), 0);
    assert_eq!(next_char_boundary("abc", 3), 3);
    assert_eq!(next_char_boundary("abc", 99), 3);
    assert_eq!(prev_word_boundary("one", 0), 0);
    assert_eq!(next_word_boundary("one", 3), 3);
    assert_eq!(next_word_boundary("one", 9), 3);
    assert_eq!(next_word_end("one", 3), 3);
}

#[test]
fn boundaries_of_wide_characters() {
    // a (1 byte), é (2), € (3), 😀 (4)
    let s = "aé€😀";
    assert_eq!(str_len(s), 10);
    assert_eq!(prev_char_boundary(s, 10), 6);
    assert_eq!(prev_char_boundary(s, 8), 6);
    assert_eq!(prev_char_boundary(s, 6), 3);
    assert_eq!(next_char_boundary(s, 1), 3);
    assert_eq!(next_char_boundary(s, 2), 3);
    assert_eq!(next_char_boundary(s, 6), 10);
    assert_eq!(prev_word_boundary("é €a", 7), 3);
    assert_eq!(next_word_boundary("é €a", 0), 3);
    assert_eq!(next_word_end("é €a", 2), 7);
}

#[test]
fn word_motions_skip_runs_of_white_space() {
    assert_eq!(prev_word_boundary("one   two   ", 12), 6);
    assert_eq!(prev_word_boundary("   ", 3), 0);
    assert_eq!(next_word_boundary("one   two", 1), 6);
    assert_eq!(next_word_boundary("one   ", 0), 6);
    assert_eq!(next_word_end("one   two x", 3), 9);
    assert_eq!(next_word_end("one two", 0), 3);
}

#[test]
fn widths_of_characters() {
    for c in ['a', 'é', '€', '😀', '\u{7f}', '\u{80}', '\u{7ff}', '\u{800}', '\u{ffff}', '\u{10000}', '\u{10ffff}'] {
        assert_eq!(len_utf8(c), c.len_utf8());
    }
}

#[test]
fn white_space_is_the_unicode_property() {
    let listed = [
        0x09u32, 0x0a, 0x0b, 0x0c, 0x0d, 0x20, 0x85, 0xa0, 0x1680, 0x2000, 0x2001, 0x2002, 0x2003, 0x2004, 0x2005,
        0x2006, 0x2007, 0x2008, 0x2009, 0x200a, 0x2028, 0x2029, 0x202f, 0x205f, 0x3000,
    ];
    for v in 0..0x110000u32 {
        if let Some(c) = char::from_u32(v) {
            let mut buf = [0u8; 4];
            assert_eq!(is_blank(c.encode_utf8(&mut buf)), listed.contains(&v));
        }
    }
}

#[test]
fn blank_texts() {
    assert!(is_blank(""));
    assert!(is_blank(" \t\u{3000}"));
    assert!(!is_blank(" x "));
}
