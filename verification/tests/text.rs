use typespec::grammar::{range_is, range_is_primitive};
use typespec::text::{
    chars_of, is_space_char, is_word_char, rank, skip_spaces, starts_at, text_is, trim, Rank,
};

fn chars(s: &str) -> Vec<char> {
    s.chars().collect()
}

#[test]
fn white_space_is_that_of_unicode() {
    for n in 0..=0x11_0000u32 {
        if let Some(c) = char::from_u32(n) {
            assert_eq!(is_space_char(c), c.is_whitespace(), "for U+{:04X}", n);
        }
    }
}

#[test]
fn ascii_word_characters_are_letters_digits_and_underscore() {
    for n in 0..0x80u32 {
        let c = char::from_u32(n).unwrap();
        assert_eq!(is_word_char(c), c.is_ascii_alphanumeric() || c == '_', "for U+{:04X}", n);
    }
}

#[test]
fn word_characters_beyond_ascii_go_by_the_tables() {
    for c in ['\u{00E9}', '\u{00DF}', '\u{4E2D}', '\u{0301}', '\u{0663}', '\u{203F}', '\u{200D}', '\u{00AA}'] {
        assert!(is_word_char(c), "for {:?}", c);
    }
    for c in ['\u{20AC}', '\u{00B2}', '\u{00A0}', '\u{2028}', '\u{00D7}', '\u{1F600}', '\u{00AB}', '\u{2160}'] {
        assert_eq!(is_word_char(c), c == '\u{2160}', "for {:?}", c);
    }
}

#[test]
fn characters_come_out_in_order() {
    assert_eq!(chars_of(""), Vec::<char>::new());
    assert_eq!(chars_of("a\u{00E9}\u{1F600}z"), vec!['a', '\u{00E9}', '\u{1F600}', 'z']);
}

#[test]
fn literal_is_found_where_it_stands() {
    let cs = chars("\u{00E9}array[x]");
    assert!(starts_at(&cs, 1, "array["));
    assert!(starts_at(&cs, 1, ""));
    assert!(starts_at(&cs, 9, ""));
    assert!(!starts_at(&cs, 10, ""));
    assert!(!starts_at(&cs, 0, "array["));
    assert!(!starts_at(&cs, 2, "array["));
    assert!(starts_at(&cs, 8, "]"));
    assert!(!starts_at(&cs, 8, "]]"));
    assert!(!starts_at(&cs, usize::MAX, "]"));
}

#[test]
fn ranges_are_compared_with_literals() {
    let cs = chars("x null string");
    assert!(range_is(&cs, 2, 6, "null"));
    assert!(!range_is(&cs, 2, 5, "null"));
    assert!(!range_is(&cs, 2, 7, "null"));
    assert!(range_is(&cs, 3, 3, ""));
    assert!(range_is_primitive(&cs, 2, 6));
    assert!(range_is_primitive(&cs, 7, 13));
    assert!(!range_is_primitive(&cs, 7, 12));
    assert!(!range_is_primitive(&cs, 0, 1));
    assert!(!range_is_primitive(&cs, 0, 0));
}

#[test]
fn strings_are_compared_by_their_characters() {
    assert!(text_is(&"type".to_string(), "type"));
    assert!(!text_is(&"Type".to_string(), "type"));
    assert!(!text_is(&"types".to_string(), "type"));
    assert!(text_is(&String::new(), ""));
}

#[test]
fn white_space_is_skipped_up_to_the_next_character() {
    let cs = chars("a \t\u{00A0}b ");
    assert_eq!(skip_spaces(&cs, 0), 0);
    assert_eq!(skip_spaces(&cs, 1), 4);
    assert_eq!(skip_spaces(&cs, 3), 4);
    assert_eq!(skip_spaces(&cs, 5), 6);
    assert_eq!(skip_spaces(&cs, 6), 6);
}

#[test]
fn trimming_takes_the_white_space_off_both_ends() {
    assert_eq!(trim("  a b \t\r\n"), "a b");
    assert_eq!(trim("\u{3000}x\u{2003}"), "x");
    assert_eq!(trim(" \t "), "");
    assert_eq!(trim(""), "");
    assert_eq!(trim("x"), "x");
    assert_eq!(trim("\u{200B}x"), "\u{200B}x");
}

#[test]
fn texts_are_ranked_as_in_a_dictionary() {
    assert_eq!(rank(&chars(""), &chars("")), Rank::Same);
    assert_eq!(rank(&chars(""), &chars("a")), Rank::Before);
    assert_eq!(rank(&chars("a"), &chars("")), Rank::After);
    assert_eq!(rank(&chars("ab"), &chars("abc")), Rank::Before);
    assert_eq!(rank(&chars("abd"), &chars("abc")), Rank::After);
    assert_eq!(rank(&chars("_"), &chars("a")), Rank::Before);
    assert_eq!(rank(&chars("Z"), &chars("_")), Rank::Before);
    assert_eq!(rank(&chars("abc"), &chars("abc")), Rank::Same);
}

#[test]
fn ranking_is_the_order_of_strings() {
    let words = ["", "a", "ab", "abc", "b", "_", "_a", "z\u{00E9}", "z", "\u{1F600}", "\u{00E9}", "A", "a_"];
    for x in words {
        for y in words {
            let expected = match x.cmp(y) {
                std::cmp::Ordering::Less => Rank::Before,
                std::cmp::Ordering::Equal => Rank::Same,
                std::cmp::Ordering::Greater => Rank::After,
            };
            assert_eq!(rank(&chars(x), &chars(y)), expected, "for {:?} and {:?}", x, y);
        }
    }
}
