use nfa_grep::matcher::{CharPredicate, Matchers};
use nfa_grep::state::State;

#[test]
fn literal_matcher_matches_its_character_only() {
    let m = Matchers::new_char('b');
    assert!(!m.matches("abc", 0));
    assert!(m.matches("abc", 1));
    assert!(!m.matches("abc", 2));
}

#[test]
fn character_matcher_fails_past_the_end() {
    let m = Matchers::new_char('a');
    assert!(m.matches("a", 0));
    assert!(!m.matches("a", 1));
    assert!(!m.matches("a", 100));
    assert!(!m.matches("", 0));
}

#[test]
fn epsilon_matches_everywhere() {
    let m = Matchers::new_epsilon();
    assert!(m.matches("", 0));
    assert!(m.matches("abc", 1));
    assert!(m.matches("abc", 17));
}

#[test]
fn matcher_tags() {
    assert_eq!(Matchers::new_char('x').name(), "Character");
    assert_eq!(Matchers::Character(CharPredicate::Digit).name(), "Character");
    assert_eq!(Matchers::new_epsilon().name(), "Epsilon");
    assert!(Matchers::new_epsilon().is_epsilon());
    assert!(!Matchers::new_char('x').is_epsilon());
}

#[test]
fn predicates_on_single_characters() {
    assert!(CharPredicate::Literal('q').test('q'));
    assert!(!CharPredicate::Literal('q').test('Q'));
    assert!(CharPredicate::Digit.test('0'));
    assert!(CharPredicate::Digit.test('9'));
    assert!(!CharPredicate::Digit.test('a'));
    assert!(!CharPredicate::Digit.test('/'));
    assert!(!CharPredicate::Digit.test(':'));
    assert!(!CharPredicate::Digit.test('٣'));
    assert!(CharPredicate::AlphaNumeric.test('a'));
    assert!(CharPredicate::AlphaNumeric.test('7'));
    assert!(CharPredicate::AlphaNumeric.test('٣'));
    assert!(CharPredicate::AlphaNumeric.test('藏'));
    assert!(!CharPredicate::AlphaNumeric.test('-'));
    assert!(!CharPredicate::AlphaNumeric.test(' '));
}

#[test]
fn new_state_has_no_transitions() {
    let s = State::new("s");
    assert_eq!(s.name(), "s");
    assert!(s.transitions().is_empty());
}

#[test]
fn from_collection_keeps_the_order_of_the_names() {
    let states = State::from_collection(&["x", "y", "x"]);
    let names: Vec<&str> = states.iter().map(|s| s.name().as_str()).collect();
    assert_eq!(names, vec!["x", "y", "x"]);
    assert!(State::from_collection(&[]).is_empty());
}

#[test]
fn state_transitions_in_priority_order() {
    let mut s = State::new("s");
    s.add_transition(State::new("a"), Matchers::new_char('1'));
    s.add_transition(State::new("b"), Matchers::new_epsilon());
    s.unshift_transition(State::new("c"), Matchers::new_char('3'));

    let targets: Vec<&str> = s.transitions().iter().map(|t| t.target().as_str()).collect();
    assert_eq!(targets, vec!["c", "a", "b"]);
    assert_eq!(s.name(), "s");
    assert!(s.transitions()[2].matcher().is_epsilon());
}

#[test]
fn matchers_are_equal_by_tag() {
    assert!(Matchers::new_char('a') == Matchers::new_char('b'));
    assert!(Matchers::new_char('a') == Matchers::Character(CharPredicate::Digit));
    assert!(Matchers::new_epsilon() == Matchers::Epsilon);
    assert!(Matchers::new_char('a') != Matchers::new_epsilon());
    assert!(Matchers::new_epsilon() != Matchers::new_char('a'));
}

#[test]
fn states_are_equal_by_name() {
    let mut with_transition = State::new("s");
    with_transition.add_transition(State::new("t"), Matchers::new_epsilon());

    assert!(with_transition == State::new("s"));
    assert!(State::new("s") != State::new("t"));
}

#[test]
fn cloned_state_keeps_its_transitions() {
    let mut s = State::new("s");
    s.add_transition(State::new("t"), Matchers::new_char('x'));
    let copy = s.clone();

    assert_eq!(copy.name(), "s");
    assert_eq!(copy.transitions().len(), 1);
    assert_eq!(copy.transitions()[0].target(), "t");
}
