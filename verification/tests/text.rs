use merk_migrations::text::{
    bare_name, comes_before, decimal_text, is_keyword, is_white_space, push_padded, push_repeated,
    to_chars, to_text, trimmed, truncate,
};

#[test]
fn white_space_is_that_of_unicode() {
    let mut n: u32 = 0;
    while n <= 0x10ffff {
        if let Some(c) = char::from_u32(n) {
            assert_eq!(is_white_space(c), c.is_whitespace());
        }
        n += 1;
    }
}

#[test]
fn characters_come_and_go() {
    let chars = to_chars("a\u{e9}\u{1f600}");
    assert_eq!(chars, vec!['a', '\u{e9}', '\u{1f600}']);
    assert_eq!(to_text(&chars, 1, 3), "\u{e9}\u{1f600}");
    assert_eq!(to_text(&chars, 2, 2), "");
}

#[test]
fn trimming_agrees_with_std() {
    for s in ["", " ", " a b\n", "\u{2003}x\u{85}", "y"] {
        assert_eq!(trimmed(&to_chars(s)), s.trim());
    }
}

#[test]
fn bare_names_keep_what_is_inside() {
    assert_eq!(bare_name(&to_chars("`a-b_;")), "a-b_");
    assert_eq!(bare_name(&to_chars("--")), "");
}

#[test]
fn keywords_ignore_the_case_of_ascii_letters() {
    assert!(is_keyword(&to_chars("tAbLe"), "TABLE"));
    assert!(!is_keyword(&to_chars("tables"), "TABLE"));
    assert!(!is_keyword(&to_chars("t\u{e4}ble"), "T\u{c4}BLE"));
}

#[test]
fn the_order_is_that_of_strings() {
    let names = ["", "0001_a", "0002", "0010", "A", "a", "ab", "b", "\u{e9}", "\u{ffff}", "\u{10000}"];
    for a in names {
        for b in names {
            assert_eq!(comes_before(a, b), a < b);
        }
    }
}

#[test]
fn numbers_are_written_in_decimal() {
    for n in [0, 7, 10, 42, 100, 999, 4294967295, u64::MAX] {
        assert_eq!(decimal_text(n), n.to_string());
    }
}

#[test]
fn padding_counts_characters() {
    let mut s = String::from("x");
    push_padded(&mut s, "\u{e9}", 3);
    push_padded(&mut s, "long", 2);
    push_repeated(&mut s, '-', 2);
    assert_eq!(s, "x\u{e9}  long--");
}

#[test]
fn long_text_is_cut_with_an_ellipsis() {
    assert_eq!(truncate("abc", 3), "abc");
    assert_eq!(truncate("abcd", 3), "abc\u{2026}");
    assert_eq!(truncate("a\u{e9}b", 3), "a\u{e9}\u{2026}");
    assert_eq!(truncate("", 0), "");
    assert_eq!(truncate("a", 0), "\u{2026}");
}

#[test]
fn no_character_is_cut_in_two() {
    assert_eq!(truncate("a\u{e9}b", 2), "a\u{2026}");
    assert_eq!(truncate("\u{e9}", 1), "\u{2026}");
    assert_eq!(truncate("ab\u{1f600}c", 5), "ab\u{2026}");
    assert_eq!(truncate("ab\u{1f600}c", 6), "ab\u{1f600}\u{2026}");
    assert_eq!(truncate("\u{7f}\u{80}\u{7ff}\u{800}\u{ffff}", 11), "\u{7f}\u{80}\u{7ff}\u{800}\u{ffff}");
    assert_eq!(truncate("\u{7f}\u{80}\u{7ff}\u{800}\u{ffff}", 10), "\u{7f}\u{80}\u{7ff}\u{800}\u{2026}");
}
