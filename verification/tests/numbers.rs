use stacklang::mylexer::{Lexer, TokenKind};
use stacklang::numbers::{dec_string, parse_dec_i64};

#[test]
fn parses_plain_values() {
    assert_eq!(parse_dec_i64("0"), Some(0));
    assert_eq!(parse_dec_i64("7"), Some(7));
    assert_eq!(parse_dec_i64("42"), Some(42));
    assert_eq!(parse_dec_i64("12345"), Some(12345));
}

#[test]
fn leading_zeros_are_accepted() {
    assert_eq!(parse_dec_i64("007"), Some(7));
    assert_eq!(parse_dec_i64("000"), Some(0));
}

#[test]
fn round_trip_for_canonical_runs() {
    // Parsing a run without leading zeros and spelling the value again in
    // decimal gives back the run.
    for s in ["0", "5", "10", "907", "12345", "9223372036854775807"] {
        let v = parse_dec_i64(s).unwrap();
        assert_eq!(dec_string(v as u64), s);
    }
}

#[test]
fn round_trip_through_a_scanned_token() {
    // A maximal digit run becomes an integer token whose text parses back to
    // the same run.
    let mut lx = Lexer::new("test".to_string(), "40320 print".to_string());
    let t = lx.next_token();
    assert_eq!(t.kind, TokenKind::Integer);
    assert_eq!(t.value, "40320");
    let v = parse_dec_i64(t.val()).unwrap();
    assert_eq!(v, 40320);
    assert_eq!(dec_string(v as u64), t.value);
}

#[test]
fn empty_and_non_digit_text_is_rejected() {
    assert_eq!(parse_dec_i64(""), None);
    assert_eq!(parse_dec_i64("abc"), None);
    assert_eq!(parse_dec_i64("12a"), None);
    assert_eq!(parse_dec_i64("-5"), None);
    assert_eq!(parse_dec_i64(" 5"), None);
}

#[test]
fn boundary_of_the_signed_range() {
    assert_eq!(parse_dec_i64("9223372036854775807"), Some(i64::MAX));
    assert_eq!(parse_dec_i64("9223372036854775808"), None);
    assert_eq!(parse_dec_i64("99999999999999999999999"), None);
}
