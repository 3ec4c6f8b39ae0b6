use nfa_grep::pattern::{any_char, handle_alpha_numeric, handle_digit, match_pattern, Pattern};
use nfa_grep::matcher::CharPredicate;

#[test]
fn pattern_from_returns_correct_enum() {
    assert!(matches!(Pattern::from("\\d"), Pattern::Digit(_)));
    assert!(matches!(Pattern::from("\\w"), Pattern::AlphaNumeric(_)));
    assert!(matches!(Pattern::from("f"), Pattern::Literal(_)));
}

#[test]
fn digit_character_class() {
    let p = Pattern::Digit("\\d".to_string());
    assert!(matches!(p.match_on("apple123"), Ok(true)));
    assert!(matches!(p.match_on("apple"), Ok(false)));
    assert!(matches!(p.match_on("---"), Ok(false)));
}

#[test]
fn alphanumeric_character_class() {
    let p = Pattern::AlphaNumeric("\\w".to_string());
    assert!(matches!(p.match_on("apple123"), Ok(true)));
    assert!(matches!(p.match_on("apple"), Ok(true)));
    // punctuation alone is not enough
    assert!(matches!(p.match_on("---"), Ok(false)));
    // letters and digits among punctuation are
    assert!(matches!(p.match_on("alph4-num3ric"), Ok(true)));
}

#[test]
fn literal_match_on() {
    let p = Pattern::Literal("f".to_string());
    assert!(matches!(p.match_on("f"), Ok(true)));
    assert!(matches!(p.match_on("a"), Ok(false)));
    assert!(matches!(p.match_on(""), Ok(false)));
}

#[test]
fn pattern_keeps_its_text() {
    match Pattern::from("\\d") {
        Pattern::Digit(text) => assert_eq!(text, "\\d"),
        _ => panic!("expected the digit class"),
    }
    match Pattern::from("hello") {
        Pattern::Literal(text) => assert_eq!(text, "hello"),
        _ => panic!("expected a literal"),
    }
    assert!(matches!(Pattern::from(""), Pattern::Literal(_)));
    assert!(matches!(Pattern::from("\\D"), Pattern::Literal(_)));
}

#[test]
fn long_literal_is_an_error() {
    let p = Pattern::from("ab");
    assert_eq!(p.match_on("ab"), Err("unknown literal pattern: ab".to_string()));
    let empty = Pattern::from("");
    assert_eq!(empty.match_on("ab"), Err("unknown literal pattern: ".to_string()));
}

#[test]
fn literal_of_one_wide_character() {
    let p = Pattern::from("é");
    assert_eq!(p.match_on("café"), Ok(true));
    assert_eq!(p.match_on("cafe"), Ok(false));
}

#[test]
fn literal_in_the_middle_of_a_line() {
    let p = Pattern::from("x");
    assert_eq!(p.match_on("abxcd"), Ok(true));
    assert_eq!(p.match_on("abcdx"), Ok(true));
}

#[test]
fn handlers_ignore_the_pattern() {
    assert!(handle_digit("a1", "whatever"));
    assert!(!handle_digit("a", "\\d"));
    assert!(!handle_digit("", "\\d"));
    assert!(handle_alpha_numeric("-a-", ""));
    assert!(!handle_alpha_numeric("-+-", "\\w"));
    assert!(handle_alpha_numeric("٣", "\\w"));
    assert!(!handle_digit("٣", "\\d"));
}

#[test]
fn any_char_looks_at_every_character() {
    assert!(any_char("xyz", CharPredicate::Literal('z')));
    assert!(any_char("xyz", CharPredicate::Literal('x')));
    assert!(!any_char("xyz", CharPredicate::Literal('a')));
    assert!(!any_char("", CharPredicate::Digit));
}

#[test]
fn match_pattern_on_supported_patterns() {
    assert!(match_pattern("apple123", "\\d"));
    assert!(!match_pattern("apple", "\\d"));
    assert!(match_pattern("apple", "\\w"));
    assert!(!match_pattern("$!?", "\\w"));
    assert!(match_pattern("apple", "p"));
    assert!(!match_pattern("apple", "q"));
}
