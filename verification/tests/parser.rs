use nfa_grep::parser::{filter, join_strings, one_or_more, zero_or_more, ParseError, ParseResult};

#[test]
fn char_parser() {
    let parse = nfa_grep::parser::char_parser();
    match parse("william") {
        Ok((rest, c)) => {
            assert!(c == 'w');
            assert!(rest == "illiam");
        }
        Err(_) => panic!("unexpected error!"),
    }
}

#[test]
fn digit_parser() {
    let parser = nfa_grep::parser::digit_parser();
    match parser("1william") {
        Ok((rest, d)) => {
            assert!(d == "1");
            assert!(rest == "william")
        }
        Err(e) => panic!("unexpected error! {}", e),
    }
}

#[test]
fn number_parser() {
    let parse = nfa_grep::parser::number_parser();
    match parse("12a3william") {
        Ok((rest, num)) => {
            assert!(num == "12");
            assert!(rest == "a3william");
        }
        Err(_) => panic!("number parser unexpected error!"),
    }
}

#[test]
fn char_parser_on_empty_input() {
    let parse = nfa_grep::parser::char_parser();
    assert_eq!(parse(""), Err(""));
}

#[test]
fn char_parser_takes_a_whole_character() {
    let parse = nfa_grep::parser::char_parser();
    assert_eq!(parse("éa"), Ok(("a", 'é')));
    assert_eq!(parse("x"), Ok(("", 'x')));
}

#[test]
fn digit_parser_fails_at_its_input() {
    let parse = nfa_grep::parser::digit_parser();
    assert_eq!(parse("a1"), Err("a1"));
    assert_eq!(parse(""), Err(""));
    assert_eq!(parse("٣"), Err("٣"));
    assert_eq!(parse("9"), Ok(("", "9".to_string())));
}

#[test]
fn number_parser_takes_all_leading_digits() {
    let parse = nfa_grep::parser::number_parser();
    assert_eq!(parse("2024"), Ok(("", "2024".to_string())));
    assert_eq!(parse("7 up"), Ok((" up", "7".to_string())));
    assert_eq!(parse("x7"), Err("x7"));
    assert_eq!(parse(""), Err(""));
}

#[test]
fn filter_turns_a_rejected_value_into_a_failure() {
    let vowel = filter(nfa_grep::parser::char_parser(), |c: &char| "aeiou".contains(*c));
    assert_eq!(vowel("at"), Ok(("t", 'a')));
    assert_eq!(vowel("ta"), Err("ta"));
    assert_eq!(vowel(""), Err(""));
}

#[test]
fn map_changes_the_value_only() {
    let upper = nfa_grep::parser::map(nfa_grep::parser::char_parser(), |c: char| c.to_ascii_uppercase());
    assert_eq!(upper("abc"), Ok(("bc", 'A')));
    assert_eq!(upper(""), Err(""));
}

#[test]
fn one_or_more_needs_one() {
    let letters = one_or_more(filter(nfa_grep::parser::char_parser(), |c: &char| {
        c.is_ascii_lowercase()
    }));
    assert_eq!(letters("abC"), Ok(("C", vec!['a', 'b'])));
    assert_eq!(letters("abc"), Ok(("", vec!['a', 'b', 'c'])));
    assert_eq!(letters("Abc"), Err("Abc"));
    assert_eq!(letters(""), Err(""));
}

fn first_two(input: &str) -> ParseResult<&str> {
    if input.starts_with("ab") {
        Ok((&input[2..], &input[..2]))
    } else {
        Err(input)
    }
}

#[test]
fn zero_or_more_never_fails() {
    let pairs = zero_or_more(first_two);
    assert_eq!(pairs("ababx"), Ok(("x", vec!["ab", "ab"])));
    assert_eq!(pairs("abab"), Ok(("", vec!["ab", "ab"])));
    assert_eq!(pairs("xab"), Ok(("xab", vec![])));
    assert_eq!(pairs(""), Ok(("", vec![])));
}

#[test]
fn join_strings_joins_in_order() {
    assert_eq!(join_strings(vec!["ab".to_string(), "".to_string(), "c".to_string()]), "abc");
    assert_eq!(join_strings(vec![]), "");
}

#[test]
fn parse_error_messages() {
    assert_eq!(ParseError::InvalidNumber.message(), "Failed to parse number");
    assert_eq!(ParseError::NoMatchFound.message(), "No match found");
}
