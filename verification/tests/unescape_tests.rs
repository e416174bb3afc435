use miqro_lexer::UnescapeError;
use miqro_lexer::unescape;

#[test]
fn empty_input_decodes_to_empty() {
    assert_eq!(unescape(""), Ok(String::new()));
}

#[test]
fn plain_text_is_copied_through() {
    assert_eq!(unescape("abc def"), Ok("abc def".to_string()));
}

#[test]
fn simple_escapes_round_trip() {
    let decoded = unescape(r"\n\t\r\b\\\'").unwrap();
    assert_eq!(decoded, "\n\t\r\u{0008}\\'");
}

#[test]
fn hex_escape_decodes_ascii() {
    assert_eq!(unescape(r"\x41").unwrap(), "A");
}

#[test]
fn unicode_escape_decodes_scalar() {
    assert_eq!(unescape(r"\u{1F600}").unwrap(), "\u{1F600}");
}

#[test]
fn unicode_escape_small_value() {
    assert_eq!(unescape(r"\u{41}").unwrap(), "A");
}

#[test]
fn escapes_mixed_with_plain_text() {
    assert_eq!(unescape(r"a\x41b\nc").unwrap(), "aAb\nc");
}

#[test]
fn unknown_escape_fails() {
    assert_eq!(unescape(r"\q"), Err(UnescapeError::IllegalEscape));
}

#[test]
fn lone_trailing_backslash_fails() {
    assert_eq!(unescape("\\"), Err(UnescapeError::OnlyOneSlashError));
}

#[test]
fn bad_second_hex_digit_fails() {
    assert_eq!(unescape(r"\x7g"), Err(UnescapeError::InvalidCharInHex));
}

#[test]
fn bad_first_hex_digit_fails() {
    assert_eq!(unescape(r"\xg7"), Err(UnescapeError::InvalidCharInHex));
}

#[test]
fn missing_hex_digits_fail() {
    assert_eq!(unescape(r"\x"), Err(UnescapeError::TooShortEscape));
    assert_eq!(unescape(r"\x4"), Err(UnescapeError::TooShortEscape));
}

#[test]
fn hex_value_above_ascii_fails() {
    assert_eq!(unescape(r"\x80"), Err(UnescapeError::ValueOutOfHex));
    assert_eq!(unescape(r"\x7F").unwrap(), "\u{7F}");
}

#[test]
fn unicode_without_close_brace_fails() {
    assert_eq!(unescape(r"\u{12"), Err(UnescapeError::UnclosedUnicode));
    assert_eq!(unescape(r"\u"), Err(UnescapeError::UnclosedUnicode));
}

#[test]
fn unicode_without_open_brace_fails() {
    assert_eq!(unescape(r"\ux}"), Err(UnescapeError::IllegalUnicode));
}

#[test]
fn unicode_with_no_digits_fails() {
    assert_eq!(unescape(r"\u{}"), Err(UnescapeError::EmptyUnicode));
}

#[test]
fn unicode_with_seven_digits_fails() {
    assert_eq!(unescape(r"\u{1234567}"), Err(UnescapeError::TooLongUnicode));
    assert_eq!(unescape(r"\u{12345678}"), Err(UnescapeError::TooLongUnicode));
}

#[test]
fn unicode_value_above_maximum_fails() {
    assert_eq!(unescape(r"\u{110000}"), Err(UnescapeError::ValueOutOfUnicode));
    assert_eq!(unescape(r"\u{10FFFF}").unwrap(), "\u{10FFFF}");
}

#[test]
fn unicode_surrogate_fails() {
    assert_eq!(unescape(r"\u{D800}"), Err(UnescapeError::IllegalSurrogate));
    assert_eq!(unescape(r"\u{DFFF}"), Err(UnescapeError::IllegalSurrogate));
}

#[test]
fn unicode_with_non_hex_digit_fails() {
    assert_eq!(unescape(r"\u{1g}"), Err(UnescapeError::InvalidCharInUnicode));
}

#[test]
fn decoding_stops_at_first_error() {
    assert_eq!(unescape(r"ab\q\n"), Err(UnescapeError::IllegalEscape));
}

#[test]
fn error_messages_are_fixed() {
    assert_eq!(
        UnescapeError::OnlyOneSlashError.message(),
        "Only one slash found, expected an escape sequence"
    );
    assert_eq!(UnescapeError::IllegalEscape.message(), "Illegal escape sequence");
    assert_eq!(UnescapeError::EmptyUnicode.message(), "Empty unicode escape sequence");
    assert_eq!(UnescapeError::UnclosedUnicode.message(), "Unclosed unicode escape sequence");
    assert_eq!(UnescapeError::IllegalUnicode.message(), "Illegal unicode escape sequence");
    assert_eq!(UnescapeError::TooLongUnicode.message(), "Too long unicode escape sequence");
    assert_eq!(UnescapeError::ValueOutOfUnicode.message(), "Value out of unicode range");
    assert_eq!(
        UnescapeError::IllegalSurrogate.message(),
        "Illegal surrogate pairs in unicode escape sequence"
    );
    assert_eq!(
        UnescapeError::InvalidCharInUnicode.message(),
        "Invalid character in unicode escape sequence"
    );
    assert_eq!(UnescapeError::TooShortEscape.message(), "Too short escape sequence");
    assert_eq!(
        UnescapeError::InvalidCharInHex.message(),
        "Invalid character in hexadecimal escape sequence"
    );
    assert_eq!(UnescapeError::ValueOutOfHex.message(), "Value out of hexadecimal range");
}
