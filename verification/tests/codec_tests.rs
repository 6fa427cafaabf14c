use redumb::codec::{replace_special_chars, restore_special_chars};

#[test]
fn ascii_text_passes_through() {
    let s = "hello world";
    assert_eq!(replace_special_chars(s), "hello world");
    assert_eq!(restore_special_chars("hello world"), "hello world");
}

#[test]
fn newline_and_tab_are_escaped() {
    assert_eq!(replace_special_chars("a\nb"), "a\u{3}b");
    assert_eq!(replace_special_chars("a\tb"), "a\u{1}b");
    assert_eq!(restore_special_chars("a\u{3}b"), "a\nb");
    assert_eq!(restore_special_chars("a\u{1}b"), "a\tb");
}

#[test]
fn line_endings_are_normalized() {
    assert_eq!(replace_special_chars("a\r\nb"), "a\u{3}b");
    assert_eq!(replace_special_chars("a\rb"), "a\u{3}b");
}

#[test]
fn non_ascii_char_becomes_base64_span() {
    // 'é' is C3 A9 in UTF-8, whose base64 encoding is "w6k="
    assert_eq!(replace_special_chars("é"), "\u{4}w6k=\u{5}");
    assert_eq!(restore_special_chars("\u{4}w6k=\u{5}"), "é");
}

#[test]
fn non_ascii_round_trip_single_chars() {
    for s in ["é", "日", "ß", "𝄞"] {
        let escaped = replace_special_chars(s);
        assert!(escaped.is_ascii());
        assert_eq!(restore_special_chars(&escaped), s);
    }
}

#[test]
fn space_run_before_digit_stays_literal() {
    assert_eq!(replace_special_chars("a   5"), "a   5");
}

#[test]
fn space_run_before_letter_is_escaped_and_restores() {
    let escaped = replace_special_chars("a   b");
    assert_eq!(escaped, "a\u{2}3\u{2}b");
    assert_eq!(restore_special_chars(&escaped), "a   b");
}

#[test]
fn single_space_stays_literal() {
    assert_eq!(replace_special_chars("a b"), "a b");
}

#[test]
fn trailing_space_run_is_escaped() {
    assert_eq!(replace_special_chars("ab  "), "ab\u{2}2\u{2}");
    assert_eq!(restore_special_chars("ab\u{2}2\u{2}"), "ab  ");
}

#[test]
fn space_run_restore_by_count() {
    assert_eq!(restore_special_chars("\u{2}12\u{2}"), " ".repeat(12));
}

#[test]
fn malformed_space_span_stays_literal() {
    assert_eq!(restore_special_chars("\u{2}x\u{2}"), "\u{2}x\u{2}");
    assert_eq!(restore_special_chars("\u{2}\u{2}"), "\u{2}\u{2}");
}

#[test]
fn oversized_space_count_restores_to_nothing() {
    // a run length that cannot be held in a machine integer parses to zero
    let s = "\u{2}99999999999999999999999999999999\u{2}";
    assert_eq!(restore_special_chars(s), "");
}

#[test]
fn undecodable_base64_span_becomes_replacement_char() {
    // "abc" re-pads to "abc=", which decodes to bytes that are not UTF-8
    assert_eq!(restore_special_chars("\u{4}abc\u{5}"), "\u{FFFD}");
}

#[test]
fn unterminated_base64_span_stays_literal() {
    assert_eq!(restore_special_chars("\u{4}w6k="), "\u{4}w6k=");
    assert_eq!(restore_special_chars("\u{4}\u{5}"), "\u{4}\u{5}");
}

#[test]
fn codec_round_trip_mixed_text() {
    for s in [
        "",
        "plain",
        "tabs\tand\nlines",
        "ends  ",
        "  starts",
        "mixé:  ein Grüß\tvon 東京\n42",
        "a b  c   d    e",
    ] {
        let escaped = replace_special_chars(s);
        assert_eq!(restore_special_chars(&escaped), s);
    }
}
