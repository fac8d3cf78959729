use microdot_core::text::{
    chars_of, comes_before, ends_with_at, is_digit_char, is_letter_char, is_space_char,
    is_word_char, leading_spaces, same_chars, starts_with,
};

fn chars(text: &str) -> Vec<char> {
    text.chars().collect()
}

#[test]
fn white_space_is_what_trim_takes() {
    for code in 0..=0x10ffffu32 {
        if let Some(c) = char::from_u32(code) {
            assert_eq!(is_space_char(c), c.is_whitespace(), "U+{:04X}", code);
        }
    }
}

#[test]
fn the_classes_of_the_label_grammar() {
    for code in 0..=0x10ffffu32 {
        if let Some(c) = char::from_u32(code) {
            assert_eq!(is_letter_char(c), c.is_ascii_alphabetic(), "U+{:04X}", code);
            assert_eq!(is_digit_char(c), c.is_ascii_digit(), "U+{:04X}", code);
            assert_eq!(
                is_word_char(c),
                c.is_ascii_alphanumeric() || c == '_' || c == '-',
                "U+{:04X}",
                code
            );
        }
    }
}

#[test]
fn chars_of_gives_each_character() {
    assert_eq!(chars_of(""), Vec::<char>::new());
    assert_eq!(chars_of("a#b"), vec!['a', '#', 'b']);
    assert_eq!(chars_of("\u{e9}x\u{1f600}"), vec!['\u{e9}', 'x', '\u{1f600}']);
}

#[test]
fn leading_spaces_counts_the_white_space_in_front() {
    assert_eq!(leading_spaces(&chars("")), 0);
    assert_eq!(leading_spaces(&chars("x ")), 0);
    assert_eq!(leading_spaces(&chars("  x ")), 2);
    assert_eq!(leading_spaces(&chars(" \t\r\n\u{a0}\u{3000}x")), 6);
    assert_eq!(leading_spaces(&chars("   ")), 3);
}

#[test]
fn leading_spaces_agrees_with_trim_start() {
    for text in ["", "x", " x", "\u{2003} \u{85}x y ", "\u{200b}x", "   ", "\u{feff}x"] {
        let n = leading_spaces(&chars(text));
        let rest: String = text.chars().skip(n).collect();
        assert_eq!(rest, text.trim_start(), "{:?}", text);
    }
}

#[test]
fn ends_with_at_tests_a_part_of_the_text() {
    let text = chars("ab #tag #end");
    assert!(ends_with_at(&text, 0, 12, &chars("#end")));
    assert!(ends_with_at(&text, 0, 12, &chars("")));
    assert!(ends_with_at(&text, 0, 7, &chars("#tag")));
    assert!(ends_with_at(&text, 3, 7, &chars("#tag")));
    assert!(!ends_with_at(&text, 4, 7, &chars("#tag")));
    assert!(!ends_with_at(&text, 0, 12, &chars("#tag")));
    assert!(!ends_with_at(&text, 0, 11, &chars("#end")));
    assert!(ends_with_at(&text, 5, 5, &chars("")));
    assert!(!ends_with_at(&text, 5, 5, &chars("t")));
}

#[test]
fn starts_with_tests_the_front() {
    assert!(starts_with(&chars("#SG_x"), &chars("#SG_")));
    assert!(starts_with(&chars("#SG_"), &chars("#SG_")));
    assert!(starts_with(&chars("x"), &chars("")));
    assert!(!starts_with(&chars("#SG"), &chars("#SG_")));
    assert!(!starts_with(&chars("#sG_x"), &chars("#SG_")));
}

#[test]
fn same_chars_compares_place_by_place() {
    assert!(same_chars(&chars(""), &chars("")));
    assert!(same_chars(&chars("abc"), &chars("abc")));
    assert!(!same_chars(&chars("abc"), &chars("abd")));
    assert!(!same_chars(&chars("abc"), &chars("ab")));
    assert!(!same_chars(&chars("ab"), &chars("abc")));
}

#[test]
fn comes_before_is_the_order_of_strings() {
    let texts = [
        "", "#", "#A", "#B", "#a", "#a-", "#a0", "#a_", "#aa", "#b", "a", "ab", "b",
        "\u{7f}", "\u{80}", "\u{e9}", "\u{7ff}", "\u{800}", "\u{ffff}", "\u{10000}", "\u{10ffff}",
    ];
    for a in texts {
        for b in texts {
            assert_eq!(comes_before(&chars(a), &chars(b)), a < b, "{:?} {:?}", a, b);
        }
    }
}
