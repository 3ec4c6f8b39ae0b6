use nfa_grep::engine::NFAEngine;
use nfa_grep::matcher::{CharPredicate, Matchers};
use nfa_grep::state::State;

#[test]
fn engine_construct_has_initial_state() {
    let engine = NFAEngine::new("hello");

    assert_eq!(engine.initial_state(), "hello");
    assert_eq!(engine.state_len(), 1);
    assert!(engine.has_state("hello"));

    assert!(engine.get_state("hello").is_some(), "'hello' state should exist");
}

#[test]
fn engine_has_declared_states() {
    let mut engine = NFAEngine::new("a");

    let extra_states = ["a", "b", "c"];
    engine.declare_states_with_names(&extra_states);

    // "a" is the initial state already, so three states are there in all
    assert_eq!(engine.state_len(), extra_states.len());

    for state_name in extra_states {
        assert!(engine.has_state(state_name));
    }
}

#[test]
fn engine_has_ending_states() {
    let mut engine = NFAEngine::new("a");

    let ending_states = &["a", "b"];

    assert_eq!(engine.state_len(), 1);
    engine.set_ending_states(ending_states);
    // "b" was missing and has been added
    assert_eq!(engine.state_len(), 2);

    assert!(engine.get_state("b").is_some());
}

#[test]
fn compute() {
    let mut engine = NFAEngine::new_with_states("q0", &["q0", "q1", "q2", "q3"]);

    engine.set_ending_states(&["q3"]);
    engine.add_transition("q0", "q1", Matchers::new_char('a'));
    engine.add_transition("q1", "q2", Matchers::new_char('b'));
    engine.add_transition("q2", "q3", Matchers::new_epsilon());

    assert!(engine.compute("abbbbbb"));
    assert!(!engine.compute("aabbbbbb"));
    assert!(engine.compute("ab"));
    assert!(engine.compute("abc"));
    assert!(!engine.compute("a"));
}

#[test]
fn stuck_forever() {
    let mut engine = NFAEngine::new_with_states("q0", &["q0", "q1", "q2"]);
    engine.set_ending_states(&["q2"]);
    engine.add_transition("q0", "q1", Matchers::new_char('a'));
    engine.add_transition("q1", "q1", Matchers::Epsilon);
    engine.add_transition("q1", "q2", Matchers::new_char('b'));

    assert!(engine.compute("ab"));
}

#[test]
fn no_transition_out_of_the_initial_state() {
    let mut engine = NFAEngine::new_with_states("q0", &["q0", "q1"]);
    engine.set_ending_states(&["q1"]);

    assert!(!engine.compute(""));
    assert!(!engine.compute("x"));
}

#[test]
fn accepting_initial_state_accepts_everything() {
    let mut engine = NFAEngine::new("q0");
    engine.set_ending_states(&["q0"]);

    assert!(engine.compute(""));
    assert!(engine.compute("anything"));
}

#[test]
fn no_accepting_state_accepts_nothing() {
    let mut engine = NFAEngine::new_with_states("q0", &["q1"]);
    engine.add_transition("q0", "q1", Matchers::new_epsilon());

    assert!(!engine.compute(""));
    assert!(!engine.compute("a"));
}

#[test]
fn compute_is_repeatable() {
    let mut engine = NFAEngine::new_with_states("q0", &["q1", "q2"]);
    engine.set_ending_states(&["q2"]);
    engine.add_transition("q0", "q1", Matchers::new_char('a'));
    engine.add_transition("q1", "q2", Matchers::new_char('b'));

    for input in ["ab", "a", "", "abab", "ba"] {
        let first = engine.compute(input);
        let second = engine.compute(input);
        assert_eq!(first, second);
    }
    assert!(engine.compute("ab"));
    assert!(!engine.compute("ba"));
}

// Two transitions out of q0 match 'a'; only the one to "good" leads on.
fn fork(good_first: bool, by_unshift: bool) -> NFAEngine {
    let mut engine = NFAEngine::new_with_states("q0", &["good", "bad", "end"]);
    engine.set_ending_states(&["end"]);
    engine.add_transition("good", "end", Matchers::new_char('b'));
    if by_unshift {
        let (first, second) = if good_first { ("bad", "good") } else { ("good", "bad") };
        engine.add_transition("q0", first, Matchers::new_char('a'));
        engine.unshift_transition(State::new("q0"), State::new(second), Matchers::new_char('a'));
    } else {
        let (first, second) = if good_first { ("good", "bad") } else { ("bad", "good") };
        engine.add_transition("q0", first, Matchers::new_char('a'));
        engine.add_transition("q0", second, Matchers::new_char('a'));
    }
    engine
}

#[test]
fn priority_changes_the_order_not_the_outcome() {
    for good_first in [true, false] {
        for by_unshift in [true, false] {
            let engine = fork(good_first, by_unshift);
            assert!(engine.compute("ab"));
            assert!(!engine.compute("a"));
            assert!(!engine.compute("b"));
        }
    }
}

#[test]
fn unshift_puts_the_transition_first() {
    let mut engine = NFAEngine::new("q0");
    engine.add_transition("q0", "x", Matchers::new_char('a'));
    engine.add_transition("q0", "y", Matchers::new_char('b'));
    engine.unshift_transition(State::new("q0"), State::new("z"), Matchers::new_epsilon());

    let state = engine.get_state("q0").unwrap();
    let targets: Vec<&str> = state.transitions().iter().map(|t| t.target().as_str()).collect();
    assert_eq!(targets, vec!["z", "x", "y"]);
    assert!(state.transitions()[0].matcher().is_epsilon());
    assert!(!state.transitions()[1].matcher().is_epsilon());
}

#[test]
fn add_transition_keeps_earlier_transitions() {
    let mut engine = NFAEngine::new_with_states("q0", &["q1"]);
    engine.add_transition("q0", "q1", Matchers::new_char('a'));
    engine.add_transition("q1", "q0", Matchers::new_char('c'));
    engine.add_transition("q0", "q0", Matchers::new_epsilon());
    engine.add_transition("q0", "q1", Matchers::new_char('b'));

    let state = engine.get_state("q0").unwrap();
    assert_eq!(state.name(), "q0");
    let targets: Vec<&str> = state.transitions().iter().map(|t| t.target().as_str()).collect();
    assert_eq!(targets, vec!["q1", "q0", "q1"]);
    assert_eq!(engine.get_state("q1").unwrap().transitions().len(), 1);
}

#[test]
fn queries_do_not_drift() {
    let mut engine = NFAEngine::new_with_states("q0", &["q1"]);
    engine.add_transition("q0", "q1", Matchers::new_char('a'));

    for _ in 0..3 {
        assert!(engine.has_state("q0"));
        assert!(engine.has_state("q1"));
        assert!(!engine.has_state("q2"));
        assert!(engine.get_state("q2").is_none());
        assert_eq!(engine.get_state("q0").unwrap().transitions().len(), 1);
        assert_eq!(engine.state_len(), 2);
    }
}

#[test]
fn add_state_twice_keeps_the_first() {
    let mut engine = NFAEngine::new("q0");
    assert!(engine.add_state("q1"));
    engine.add_transition("q1", "q0", Matchers::new_epsilon());
    assert!(!engine.add_state("q1"));
    assert!(!engine.add_state("q0"));

    assert_eq!(engine.state_len(), 2);
    assert_eq!(engine.get_state("q1").unwrap().transitions().len(), 1);
}

#[test]
fn add_states_registers_each_name_once() {
    let mut engine = NFAEngine::new("q0");
    engine.add_states(&["q1".to_string(), "q0".to_string(), "q1".to_string(), "q2".to_string()]);

    assert_eq!(engine.state_len(), 3);
    assert!(engine.has_state("q2"));
}

#[test]
fn set_initial_state_moves_the_start() {
    let mut engine = NFAEngine::new_with_states("q0", &["q1", "q2"]);
    engine.set_ending_states(&["q2"]);
    engine.add_transition("q1", "q2", Matchers::new_char('x'));

    assert!(!engine.compute("x"));
    engine.set_initial_state("q1");
    assert_eq!(engine.initial_state(), "q1");
    assert!(engine.compute("x"));
}

#[test]
fn set_ending_states_replaces_the_accepting_states() {
    let mut engine = NFAEngine::new_with_states("q0", &["q1"]);
    engine.set_ending_states(&["q0"]);
    assert!(engine.is_ending_state("q0"));

    engine.set_ending_states(&["q1", "q9"]);
    assert!(!engine.is_ending_state("q0"));
    assert!(engine.is_ending_state("q1"));
    assert!(engine.is_ending_state("q9"));
    assert!(engine.has_state("q9"));
    assert_eq!(engine.state_len(), 3);
}

#[test]
fn set_ending_states_with_no_names_changes_nothing() {
    let mut engine = NFAEngine::new("q0");
    engine.set_ending_states(&["q0"]);
    engine.set_ending_states(&[]);

    assert!(engine.is_ending_state("q0"));
    assert_eq!(engine.state_len(), 1);
}

#[test]
fn transition_to_an_unregistered_state_is_a_dead_end() {
    let mut engine = NFAEngine::new("q0");
    engine.add_transition("q0", "nowhere", Matchers::new_char('a'));

    assert!(!engine.has_state("nowhere"));
    assert_eq!(engine.state_len(), 1);
    assert!(!engine.compute("a"));
}

#[test]
fn epsilon_cycle_between_two_states_ends() {
    let mut engine = NFAEngine::new_with_states("q0", &["q1", "q2"]);
    engine.set_ending_states(&["q2"]);
    engine.add_transition("q0", "q1", Matchers::new_epsilon());
    engine.add_transition("q1", "q0", Matchers::new_epsilon());
    engine.add_transition("q1", "q2", Matchers::new_char('z'));

    assert!(engine.compute("z"));
    assert!(!engine.compute("y"));
    assert!(!engine.compute(""));
}

#[test]
fn epsilon_moves_in_a_row_are_all_followed() {
    let mut engine = NFAEngine::new_with_states("q0", &["q1", "q2", "q3"]);
    engine.set_ending_states(&["q3"]);
    engine.add_transition("q0", "q1", Matchers::new_epsilon());
    engine.add_transition("q1", "q2", Matchers::new_epsilon());
    engine.add_transition("q2", "q3", Matchers::new_epsilon());

    assert!(engine.compute(""));
    assert!(engine.compute("left over"));
}

#[test]
fn loop_on_a_character_reads_it_many_times() {
    let mut engine = NFAEngine::new_with_states("q0", &["q1"]);
    engine.set_ending_states(&["q1"]);
    engine.add_transition("q0", "q0", Matchers::new_char('a'));
    engine.add_transition("q0", "q1", Matchers::new_char('b'));

    assert!(engine.compute("b"));
    assert!(engine.compute("aaaab"));
    assert!(!engine.compute("aaaa"));
    assert!(!engine.compute("c"));
}

#[test]
fn character_classes_guard_transitions() {
    let mut engine = NFAEngine::new_with_states("q0", &["q1", "q2"]);
    engine.set_ending_states(&["q2"]);
    engine.add_transition("q0", "q1", Matchers::Character(CharPredicate::Digit));
    engine.add_transition("q1", "q2", Matchers::Character(CharPredicate::AlphaNumeric));

    assert!(engine.compute("7x"));
    assert!(engine.compute("42"));
    assert!(engine.compute("1é"));
    assert!(!engine.compute("x7"));
    assert!(!engine.compute("7-"));
    assert!(!engine.compute("7"));
}

#[test]
fn offsets_count_characters_not_bytes() {
    let mut engine = NFAEngine::new_with_states("q0", &["q1", "q2"]);
    engine.set_ending_states(&["q2"]);
    engine.add_transition("q0", "q1", Matchers::new_char('é'));
    engine.add_transition("q1", "q2", Matchers::new_char('b'));

    assert!(engine.compute("éb"));
    assert!(!engine.compute("eb"));
}
