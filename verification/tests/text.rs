use noil::text::{
    any_uppercase, chars_of, is_uppercase_char, is_whitespace_char, push_chars, push_spaces,
    push_text, same_chars, same_text, string_of, trim,
};

fn chars(s: &str) -> Vec<char> {
    s.chars().collect()
}

#[test]
fn whitespace_is_what_the_standard_library_says() {
    for code in 0..=0x10FFFFu32 {
        if let Some(c) = char::from_u32(code) {
            assert_eq!(is_whitespace_char(c), c.is_whitespace(), "U+{code:04X}");
        }
    }
}

#[test]
fn uppercase_is_what_the_standard_library_says() {
    for code in 0..=0x10FFFFu32 {
        if let Some(c) = char::from_u32(code) {
            assert_eq!(is_uppercase_char(c), c.is_uppercase(), "U+{code:04X}");
        }
    }
    assert!(any_uppercase(&chars("abCd")));
    assert!(any_uppercase(&chars("ab\u{394}")));
    assert!(!any_uppercase(&chars("ab1-\u{3b4}")));
    assert!(!any_uppercase(&chars("")));
}

#[test]
fn trim_is_what_the_standard_library_says() {
    for text in [
        "",
        " ",
        "\t\r\n",
        "a",
        "  a",
        "a  ",
        " \u{a0}a b\u{3000}\n",
        "\u{2003}x\u{2003}y\u{2003}",
        "no space",
        " : ",
    ] {
        assert_eq!(string_of(trim(&chars(text))), text.trim(), "{text:?}");
    }
}

#[test]
fn characters_round_through_strings() {
    for text in ["", "abc", "\u{e9}t\u{e9} \u{1f600}", "a\nb"] {
        assert_eq!(chars_of(text), chars(text));
        assert_eq!(string_of(&chars(text)), text);
    }
}

#[test]
fn strings_grow_at_the_end() {
    let mut out = String::from("ab");
    push_chars(&mut out, &chars("cd"));
    push_spaces(&mut out, 3);
    push_text(&mut out, "\u{e9}f");
    push_spaces(&mut out, 0);
    assert_eq!(out, "abcd   \u{e9}f");
}

#[test]
fn texts_are_compared_character_by_character() {
    assert!(same_text("abc", "abc"));
    assert!(same_text("", ""));
    assert!(!same_text("abc", "abd"));
    assert!(!same_text("abc", "ab"));
    assert!(same_chars(&chars("x\u{e9}"), &chars("x\u{e9}")));
    assert!(!same_chars(&chars("x"), &chars("")));
}
