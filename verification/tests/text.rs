use tml::text::{
    blank, byte_length, chars_of, digit, ident_part, ident_start, push_decimal, same_text, utf8_len,
};

#[test]
fn ascii_classes_agree_with_std() {
    for code in 0u32..128 {
        let c = char::from_u32(code).unwrap();
        assert_eq!(blank(c), c.is_whitespace(), "{:?}", c);
        assert_eq!(digit(c), c.is_ascii_digit(), "{:?}", c);
        assert_eq!(ident_start(c), c.is_alphabetic() || c == '_', "{:?}", c);
        assert_eq!(ident_part(c), c.is_alphanumeric() || c == '_', "{:?}", c);
    }
}

#[test]
fn classes_agree_with_std_beyond_ascii() {
    for code in (128u32..0x3100).chain(0x1F600..0x1F650) {
        if let Some(c) = char::from_u32(code) {
            assert_eq!(blank(c), c.is_whitespace(), "{:?}", c);
            assert!(!digit(c));
            assert_eq!(ident_start(c), c.is_alphabetic(), "{:?}", c);
            assert_eq!(ident_part(c), c.is_alphanumeric(), "{:?}", c);
        }
    }
    assert!(blank('\u{a0}') && blank('\u{2003}') && blank('\u{3000}'));
    assert!(!blank('é') && !blank('数'));
    assert!(ident_start('é') && ident_start('数') && !ident_start('٣') && !ident_start('😀'));
    assert!(ident_part('é') && ident_part('٣') && !ident_part('😀') && !ident_part('\u{a0}'));
}

#[test]
fn widths_are_those_of_utf8() {
    for c in ['\0', 'a', '\u{7f}', '\u{80}', 'é', '\u{7ff}', '\u{800}', '数', '\u{ffff}', '\u{10000}', '😀', '\u{10ffff}'] {
        assert_eq!(utf8_len(c), c.len_utf8(), "{:?}", c);
    }
    assert_eq!(utf8_len('a'), 1);
    assert_eq!(utf8_len('é'), 2);
    assert_eq!(utf8_len('数'), 3);
    assert_eq!(utf8_len('😀'), 4);
    for text in ["", "abc", "é数😀", " \u{a0}x"] {
        assert_eq!(byte_length(text), text.len());
        assert_eq!(chars_of(text), text.chars().collect::<Vec<char>>());
    }
    assert_eq!(byte_length("é数😀"), 9);
}

#[test]
fn texts_are_compared_by_their_characters() {
    assert!(same_text("", ""));
    assert!(same_text("PI", "PI"));
    assert!(!same_text("PI", "Pi"));
    assert!(!same_text("PI", "PI "));
    assert!(!same_text("a", ""));
}

#[test]
fn numbers_are_written_in_base_ten() {
    for n in 0u8..=255 {
        let mut out = String::from("x");
        push_decimal(&mut out, n);
        assert_eq!(out, format!("x{}", n));
    }
    let mut out = String::new();
    push_decimal(&mut out, 0);
    push_decimal(&mut out, 90);
    push_decimal(&mut out, 105);
    assert_eq!(out, "090105");
}
