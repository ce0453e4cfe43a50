use hid_scanner::text::{clean_line, decode_line, is_padding_char, trim_bounds, trim_padding};

#[test]
fn padding_is_unicode_whitespace_or_control() {
    let mut code: u32 = 0;
    while code <= 0x10FFFF {
        if let Some(c) = char::from_u32(code) {
            assert_eq!(
                is_padding_char(c),
                c.is_whitespace() || c.is_control(),
                "U+{:04X}",
                code
            );
        }
        code += 1;
    }
}

#[test]
fn digits_letters_and_the_replacement_character_are_not_padding() {
    for c in ['0', '9', 'a', 'Z', '-', '_', '\u{FFFD}', '\u{200B}', '\u{180E}', 'é'] {
        assert!(!is_padding_char(c), "{:?}", c);
    }
}

#[test]
fn each_kind_of_padding_is_recognised() {
    for c in [
        ' ', '\t', '\n', '\r', '\u{0B}', '\u{0C}', '\u{0}', '\u{1F}', '\u{7F}', '\u{85}',
        '\u{9F}', '\u{A0}', '\u{1680}', '\u{2000}', '\u{200A}', '\u{2028}', '\u{2029}',
        '\u{202F}', '\u{205F}', '\u{3000}',
    ] {
        assert!(is_padding_char(c), "{:?}", c);
    }
}

#[test]
fn trim_bounds_count_characters() {
    assert_eq!(trim_bounds(" 12345 "), (1, 6));
    assert_eq!(trim_bounds("12345"), (0, 5));
    assert_eq!(trim_bounds("\u{3000}é\u{A0}"), (1, 2));
    assert_eq!(trim_bounds("  a b  c \r"), (2, 8));
}

#[test]
fn trim_bounds_of_blank_text_are_empty() {
    assert_eq!(trim_bounds(""), (0, 0));
    assert_eq!(trim_bounds(" \t\r\n"), (0, 0));
    assert_eq!(trim_bounds("\u{0}\u{1F}"), (0, 0));
}

#[test]
fn trim_padding_strips_both_ends() {
    assert_eq!(trim_padding(" 12345 "), "12345");
    assert_eq!(trim_padding("\r\n12345\t"), "12345");
    assert_eq!(trim_padding("12345"), "12345");
    assert_eq!(trim_padding(""), "");
    assert_eq!(trim_padding("   "), "");
}

#[test]
fn trim_padding_keeps_what_is_inside() {
    assert_eq!(trim_padding(" AB 12\t34 "), "AB 12\t34");
    assert_eq!(trim_padding("x\u{0}y"), "x\u{0}y");
}

#[test]
fn trim_padding_strips_control_characters() {
    assert_eq!(trim_padding("\u{0}12345\u{1F}"), "12345");
    assert_eq!(trim_padding("\u{2}ABC\u{3}"), "ABC");
    assert_eq!(trim_padding("\u{7F}7\u{9F}"), "7");
}

#[test]
fn trim_padding_strips_wide_whitespace() {
    assert_eq!(trim_padding("\u{3000}東京\u{2003}"), "東京");
    assert_eq!(trim_padding("\u{A0}é\u{85}"), "é");
}

#[test]
fn trim_padding_agrees_with_std_where_no_control_characters_stand() {
    for text in [" a ", "\t\tb", "c\n", "  d e  ", "", "\u{2028}f\u{205F}"] {
        assert_eq!(trim_padding(text), text.trim());
    }
}

#[test]
fn trimming_twice_is_trimming_once() {
    for text in [" 12345 ", "\u{0} a b \u{7F}", "", "\n"] {
        let once = trim_padding(text);
        assert_eq!(trim_padding(&once), once);
    }
}

#[test]
fn clean_line_drops_blank_lines() {
    assert_eq!(clean_line(""), None);
    assert_eq!(clean_line(" \r\t "), None);
    assert_eq!(clean_line("\u{0}"), None);
}

#[test]
fn clean_line_keeps_trimmed_text() {
    assert_eq!(clean_line(" 12345 "), Some("12345".to_string()));
    assert_eq!(clean_line("x"), Some("x".to_string()));
}

#[test]
fn decode_line_decodes_ascii_byte_by_byte() {
    assert_eq!(decode_line(b" 12345 "), Some("12345".to_string()));
    assert_eq!(decode_line(b"ABC-abc_09\r"), Some("ABC-abc_09".to_string()));
}

#[test]
fn decode_line_decodes_multibyte_characters() {
    assert_eq!(decode_line("  é€😀 ".as_bytes()), Some("é€😀".to_string()));
}

#[test]
fn decode_line_replaces_ill_formed_bytes() {
    assert_eq!(decode_line(b"ab\xFFcd"), Some("ab\u{FFFD}cd".to_string()));
    assert_eq!(decode_line(b"\xC3"), Some("\u{FFFD}".to_string()));
    assert_eq!(decode_line(b" \xF0\x9F\x98 x "), Some("\u{FFFD} x".to_string()));
    assert_eq!(decode_line(b"\xED\xA0\x80"), Some("\u{FFFD}\u{FFFD}\u{FFFD}".to_string()));
}

#[test]
fn decode_line_of_nothing_but_padding_is_none() {
    assert_eq!(decode_line(b""), None);
    assert_eq!(decode_line(b" \r"), None);
    assert_eq!(decode_line("\u{A0}\u{3000}".as_bytes()), None);
}
