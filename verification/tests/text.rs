use clam_core::text::{
    chars_of, copy_text, same_ignoring_ascii_case, same_text, string_of, trim, white_space,
};

#[test]
fn characters_make_the_string_again() {
    let text = "h\u{e9}llo \u{1f980}";
    assert_eq!(string_of(&chars_of(text)), text);
    assert_eq!(chars_of(text).len(), 7);
}

#[test]
fn trimming_takes_off_unicode_white_space() {
    for text in ["", " ", "a", " a b ", "\u{3000}x\u{a0}", "\r\n{}\t", "\u{200b}z\u{200b}", "\u{85}q\u{2028}"] {
        assert_eq!(string_of(&trim(&chars_of(text))), text.trim());
    }
}

#[test]
fn white_space_is_what_unicode_says() {
    for code in 0..=0x10ffff {
        if let Some(c) = char::from_u32(code) {
            assert_eq!(white_space(c), c.is_whitespace(), "{code:x}");
        }
    }
}

#[test]
fn case_is_ignored_for_ascii_letters_only() {
    assert!(same_ignoring_ascii_case("EPjF", "epJf"));
    assert!(!same_ignoring_ascii_case("EPjF", "epJ"));
    assert!(!same_ignoring_ascii_case("\u{c9}", "\u{e9}"));
    assert!(!same_ignoring_ascii_case("@", "`"));
    assert!(same_text("a", "a"));
    assert!(!same_text("a", "A"));
}

#[test]
fn a_missing_text_is_copied_as_missing() {
    assert_eq!(copy_text(&None), None);
    assert_eq!(copy_text(&Some("x".to_string())), Some("x".to_string()));
}
