use regexmatcher::matcher::{Matcher, PotentialMatch};
use regexmatcher::nfa::{Condition, State, Transition, NFA};

#[test]
fn is_match() {
    let m = PotentialMatch::new(None, "");
    assert_eq!(true, m.is_match());

    let nfa = NFA::new();
    assert_eq!(vec![m.clone()], m.advance(&nfa));
}

#[test]
fn is_state_match() {
    let m = PotentialMatch::new(
        Some(State::state(Condition::one('a'), Transition::End)),
        "",
    );
    assert_eq!(false, m.is_match());
}

#[test]
fn is_inconclusive() {
    let m = PotentialMatch::new(
        Some(State::state(Condition::Epsilon, Transition::End)),
        "a",
    );
    assert_eq!(false, m.is_match());
}

#[test]
fn advance_to_end() {
    let nfa = NFA::from_states(vec![State::state(Condition::one('a'), Transition::End)]);

    let m = PotentialMatch::new(nfa.get_start(), "a");
    assert_eq!(vec![PotentialMatch::new(None, "")], m.advance(&nfa));
    let m = PotentialMatch::new(nfa.get_start(), "");
    assert_eq!(Vec::<PotentialMatch>::new(), m.advance(&nfa));
}

#[test]
fn advance_to_next() {
    let nfa = NFA::from_states(vec![
        State::state(Condition::one('a'), Transition::Id(1)),
        State::state(Condition::one('b'), Transition::End),
    ]);

    let expected_state = nfa.get_state(1).clone().unwrap();
    let m = PotentialMatch::new(nfa.get_start(), "ab");
    assert_eq!(
        vec![PotentialMatch::new(Some(expected_state), "b")],
        m.advance(&nfa)
    );

    let m = PotentialMatch::new(nfa.get_state(1), "b");
    let final_state = m.advance(&nfa);

    assert_eq!(vec![PotentialMatch::new(None, "")], final_state);
    assert!(final_state[0].is_match());
}

#[test]
fn advance_option_greedily() {
    let nfa = NFA::from_states(vec![
        // nfa for 'a?'
        State::split(Transition::End, Transition::Id(1)),
        State::state(Condition::one('a'), Transition::End),
    ]);

    let expected_state = nfa.get_state(1).clone().unwrap();
    let m = PotentialMatch::new(nfa.get_start(), "a");

    let actual = m.advance(&nfa);
    println!("{:#?}", actual);
    assert_eq!(PotentialMatch::new(Some(expected_state), "a"), actual[0]);
    assert_eq!(PotentialMatch::new(None, "a"), actual[1]);
}

#[test]
fn advance_greedily() {
    let nfa = NFA::from_states(vec![
        // nfa for 'a?'
        State::split(Transition::Id(2), Transition::Id(1)),
        State::state(Condition::one('a'), Transition::End),
        State::state(Condition::Epsilon, Transition::End),
    ]);

    let state_1 = nfa.get_state(1).clone().unwrap();
    let state_2 = nfa.get_state(2).clone().unwrap();

    let m = PotentialMatch::new(nfa.get_start(), "a");

    let actual = m.advance(&nfa);
    println!("{:#?}", actual);
    assert_eq!(PotentialMatch::new(Some(state_1), "a"), actual[0]);
    assert_eq!(PotentialMatch::new(Some(state_2), "a"), actual[1]);
}

#[test]
fn advance_fail() {
    let nfa = NFA::from_states(vec![State::state(Condition::one('b'), Transition::End)]);
    let m = PotentialMatch::new(Some(nfa.get_state(0).clone().unwrap()), "a");
    assert_eq!(Vec::<PotentialMatch>::new(), m.advance(&nfa));
}

#[test]
fn advances_with_split() {
    // '(a|b)c'
    let nfa = NFA::from_states(vec![
        State::split(Transition::Id(1), Transition::Id(2)),
        State::state(Condition::one('a'), Transition::Id(3)),
        State::state(Condition::one('b'), Transition::Id(3)),
        State::state(Condition::one('c'), Transition::End),
    ]);

    let m = PotentialMatch::new(nfa.get_start(), "ac");
    assert_eq!(
        vec![PotentialMatch::new(nfa.get_state(3), "c")],
        m.advance(&nfa)[0].advance(&nfa)
    );

    let m = PotentialMatch::new(nfa.get_start(), "bc");
    assert_eq!(
        vec![PotentialMatch::new(nfa.get_state(3), "c")],
        m.advance(&nfa)[1].advance(&nfa)
    )
}

#[test]
fn is_match_with_split() {
    let nfa = NFA::from_states(vec![State::split(Transition::End, Transition::End)]);

    let m = PotentialMatch::new(nfa.get_start(), "a");
    assert!(m.advance(&nfa)[0].is_match());
    let m = PotentialMatch::new(nfa.get_start(), "b");
    assert!(m.advance(&nfa)[0].is_match())
}

#[test]
fn empty_nfa_matches() {
    let nfa = NFA::from_states(vec![]);

    assert!(Matcher::new(nfa, "").run().is_some());
}

#[test]
fn single_state_matches() {
    let nfa = NFA::from_states(vec![State::state(Condition::Epsilon, Transition::End)]);

    assert!(Matcher::new(nfa, "a").run().is_some());
}

#[test]
fn single_char_nfa_matches() {
    let nfa = NFA::from_states(vec![State::state(Condition::one('a'), Transition::End)]);

    assert!(Matcher::new(nfa.clone(), "a").run().is_some());
    assert!(!Matcher::new(nfa.clone(), "").run().is_some());
}

#[test]
fn null_edge_matches() {
    let nfa = NFA::from_states(vec![
        State::state(Condition::Epsilon, Transition::Id(1)),
        State::state(Condition::one('a'), Transition::End),
    ]);

    assert!(Matcher::new(nfa.clone(), "a").run().is_some());
    assert!(!Matcher::new(nfa.clone(), "").run().is_some());
}

#[test]
fn char_class_matches() {
    let nfa = NFA::from_states(vec![State::state(
        Condition::class(vec!['a', 'b']),
        Transition::End,
    )]);

    assert!(Matcher::new(nfa.clone(), "a").run().is_some());
    assert!(Matcher::new(nfa, "b").run().is_some());
}

#[test]
fn advance_keeps_the_first_edge_first_where_keys_are_equal() {
    let nfa = NFA::from_states(vec![
        State::split(Transition::Id(1), Transition::Id(2)),
        State::state(Condition::one('a'), Transition::Id(3)),
        State::state(Condition::one('a'), Transition::End),
        State::state(Condition::Any, Transition::End),
    ]);
    let m = PotentialMatch::new(nfa.get_start(), "ab");
    assert_eq!(
        vec![
            PotentialMatch::new(nfa.get_state(1), "ab"),
            PotentialMatch::new(nfa.get_state(2), "ab")
        ],
        m.advance(&nfa)
    );
}

#[test]
fn advance_consumes_one_byte_at_most() {
    let nfa = NFA::from_states(vec![
        State::state(Condition::Any, Transition::Id(1)),
        State::state(Condition::class(vec!['x', 'y']), Transition::End),
        State::state(Condition::class(vec![]), Transition::End),
    ]);
    let m = PotentialMatch::new(nfa.get_start(), "qyz");
    assert_eq!(vec![PotentialMatch::new(nfa.get_state(1), "yz")], m.advance(&nfa));
    let m = PotentialMatch::new(nfa.get_start(), "\nyz");
    assert_eq!(Vec::<PotentialMatch>::new(), m.advance(&nfa));
    let m = PotentialMatch::new(nfa.get_state(1), "yz");
    assert_eq!(vec![PotentialMatch::new(None, "z")], m.advance(&nfa));
    let m = PotentialMatch::new(nfa.get_state(1), "zy");
    assert_eq!(Vec::<PotentialMatch>::new(), m.advance(&nfa));
    // a class without members lets nothing pass
    let m = PotentialMatch::new(nfa.get_state(2), "a");
    assert_eq!(Vec::<PotentialMatch>::new(), m.advance(&nfa));
}

#[test]
fn push_option_appends_what_there_is() {
    let mut v = vec![1, 2];
    PotentialMatch::push_option(&mut v, None);
    assert_eq!(vec![1, 2], v);
    PotentialMatch::push_option(&mut v, Some(3));
    assert_eq!(vec![1, 2, 3], v);
}

#[test]
fn run_returns_the_end_of_the_match() {
    // 'ab|a' by hand: the longer way has the same key and comes first
    let nfa = NFA::from_states(vec![
        State::split(Transition::Id(1), Transition::Id(3)),
        State::state(Condition::one('a'), Transition::Id(2)),
        State::state(Condition::one('b'), Transition::End),
        State::state(Condition::one('a'), Transition::End),
    ]);
    assert_eq!(Some(2), Matcher::new(nfa.clone(), "abc").run());
    assert_eq!(Some(1), Matcher::new(nfa.clone(), "ac").run());
    assert_eq!(None, Matcher::new(nfa.clone(), "b").run());
    assert_eq!(None, Matcher::new(nfa.clone(), "").run());
    assert_eq!(Some(0), Matcher::new(NFA::new(), "abc").run());
}

#[test]
fn run_ends_on_free_edges_that_lead_in_a_circle() {
    let nfa = NFA::from_states(vec![
        State::split(Transition::Id(1), Transition::Id(2)),
        State::split(Transition::Id(0), Transition::Id(0)),
        State::state(Condition::one('a'), Transition::Id(0)),
    ]);
    assert_eq!(None, Matcher::new(nfa.clone(), "aaab").run());

    let nfa = NFA::from_states(vec![
        State::split(Transition::Id(1), Transition::End),
        State::split(Transition::Id(0), Transition::Id(2)),
        State::state(Condition::one('a'), Transition::Id(0)),
    ]);
    assert_eq!(Some(3), Matcher::new(nfa.clone(), "aaab").run());
    assert_eq!(Some(0), Matcher::new(nfa.clone(), "b").run());
}

#[test]
fn run_prefers_the_lower_key_to_the_first_alternative() {
    // 'b|ab' and 'ab|b' agree; so do 'ba|a.' and 'a.|ba' on their own texts
    let nfa = NFA::from_states(vec![
        State::split(Transition::Id(1), Transition::Id(2)),
        State::state(Condition::one('b'), Transition::End),
        State::state(Condition::Any, Transition::Id(3)),
        State::state(Condition::Any, Transition::End),
    ]);
    // '.' sorts before 'b', so the second edge is tried first
    assert_eq!(Some(2), Matcher::new(nfa.clone(), "bcd").run());
    assert_eq!(Some(1), Matcher::new(nfa.clone(), "b").run());
}
