use generator::general::{ParseError, ParserState};

#[test]
fn expect_consumes_literal_after_spaces() {
    let mut p = ParserState::new("   if x");
    assert_eq!(p.expect("if"), Some("if"));
    assert_eq!(p.remainder(), " x");
}

#[test]
fn expect_leaves_input_on_mismatch() {
    let mut p = ParserState::new("  then");
    assert_eq!(p.expect("if"), None);
    assert_eq!(p.remainder(), "then");
}

#[test]
fn expect_re_consumes_anchored_match() {
    let mut p = ParserState::new("  123abc");
    assert_eq!(p.expect_re("[0-9]+"), Some("123"));
    assert_eq!(p.remainder(), "abc");
}

#[test]
fn expect_re_rejects_unanchored_match() {
    let mut p = ParserState::new("abc123");
    assert_eq!(p.expect_re("[0-9]+"), None);
    assert_eq!(p.remainder(), "abc123");
}

#[test]
fn expect_re_rejects_bad_pattern() {
    let mut p = ParserState::new("abc");
    assert_eq!(p.expect_re("["), None);
}

#[test]
fn is_prefix_does_not_consume() {
    let mut p = ParserState::new(" ab");
    assert!(p.is_prefix("a"));
    assert!(p.is_prefix("ab"));
    assert_eq!(p.remainder(), "ab");
}

#[test]
fn bump_drops_characters() {
    let mut p = ParserState::new("hello");
    p.bump(2);
    assert_eq!(p.remainder(), "llo");
}

#[test]
fn push_spaces_trims_leading_whitespace() {
    let mut p = ParserState::new(" \t\n x y");
    p.push_spaces();
    assert_eq!(p.remainder(), "x y");
}

// declaration order is the disambiguation order: a literal keyword listed
// before an identifier regex shadows identifiers at the token level
#[test]
fn scanner_order_disambiguation() {
    // the scanner tries checkers in declaration order: KW_IF before IDENT
    let mut p = ParserState::new("if");
    assert!(p.is_prefix("if"));
    // the literal checker only tests the prefix, so it also accepts "ifx"
    // and the keyword shadows the identifier there too
    let mut q = ParserState::new("ifx");
    assert!(q.is_prefix("if"));
    assert!(q.is_prefix_re("[a-z]+"));
    // a token that the keyword checker rejects falls through to the regex
    let mut r = ParserState::new("x");
    assert!(!r.is_prefix("if"));
    assert!(r.is_prefix_re("[a-z]+"));
}

#[test]
fn parse_error_messages() {
    let e: ParseError<String> = ParseError::UnexpectedToken {
        actual: Some("Plus".to_string()),
        expected: "Number".to_string(),
    };
    assert_eq!(e.message(), "Unexpected token: Expect Number, but found Plus");
    let e2: ParseError<String> =
        ParseError::UnexpectedToken { actual: None, expected: "Number".to_string() };
    assert_eq!(e2.message(), "Unexpected token: Expect Number, but found None");
    let e3: ParseError<String> = ParseError::NoRuleFound("expr");
    assert_eq!(e3.message(), "while parsing expr, found no rules");
}
