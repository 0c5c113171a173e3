use regexmatcher::expr::Expr;
use regexmatcher::nfa::{Condition, State, Transition, NFA};

#[test]
fn build_single() {
    let nfa = NFA::from_expr(&Expr::Single('a'));

    assert_eq!(
        vec![State::state(Condition::one('a'), Transition::End)],
        nfa.states
    );
    assert_eq!(0, nfa.start);
}

#[test]
fn build_sequence() {
    let nfa = NFA::from_expr(&Expr::sequence(Expr::Single('a'), Expr::Single('b')));

    assert_eq!(
        vec![
            State::state(Condition::one('a'), Transition::Id(1)),
            State::state(Condition::one('b'), Transition::End)
        ],
        nfa.states
    );
    assert_eq!(0, nfa.start);
}

#[test]
fn build_option() {
    let nfa = NFA::from_expr(&Expr::optional(Expr::Single('a')));

    assert_eq!(
        vec![
            State::state(Condition::one('a'), Transition::End),
            State::split(Transition::Id(0), Transition::End)
        ],
        nfa.states
    );
    assert_eq!(1, nfa.start);
}

#[test]
fn build_complex_option() {
    let nfa = NFA::from_expr(&Expr::sequence(
        Expr::optional(Expr::sequence(Expr::Single('a'), Expr::Single('b'))),
        Expr::Single('a'),
    ));

    assert_eq!(
        vec![
            State::state(Condition::one('a'), Transition::Id(1)),
            State::state(Condition::one('b'), Transition::Id(3)),
            State::split(Transition::Id(0), Transition::Id(3)),
            State::state(Condition::one('a'), Transition::End)
        ],
        nfa.states
    );
    assert_eq!(2, nfa.start);
}

#[test]
fn build_one_or_more() {
    let nfa = NFA::from_expr(&Expr::one_or_more(Expr::Single('a')));
    // nfa for 'a+'

    assert_eq!(
        vec![
            State::state(Condition::one('a'), Transition::Id(1)),
            State::split(Transition::Id(0), Transition::End)
        ],
        nfa.states
    );
    assert_eq!(0, nfa.start);
}

#[test]
fn build_more_complex_one_or_more() {
    let nfa = NFA::from_expr(&"a+a+b".parse::<Expr>().unwrap());

    assert_eq!(
        vec![
            State::state(Condition::one('a'), Transition::Id(1)),
            State::split(Transition::Id(0), Transition::Id(2)),
            State::state(Condition::one('a'), Transition::Id(3)),
            State::split(Transition::Id(2), Transition::Id(4)),
            State::state(Condition::one('b'), Transition::End)
        ],
        nfa.states
    );
    assert_eq!(0, nfa.start);
}

#[test]
fn build_zero_or_more() {
    let nfa = NFA::from_expr(&Expr::zero_or_more(Expr::Single('a')));
    // 'a*'

    assert_eq!(
        vec![
            State::state(Condition::one('a'), Transition::Id(1)),
            State::split(Transition::Id(0), Transition::End)
        ],
        nfa.states
    );
    assert_eq!(1, nfa.start);
}

#[test]
fn build_more_complex_zero_or_more() {
    let nfa = NFA::from_expr(&"b*cd*".parse::<Expr>().unwrap());

    assert_eq!(
        vec![
            State::state(Condition::one('b'), Transition::Id(1)), // 0
            State::split(Transition::Id(0), Transition::Id(2)),   // 1
            State::state(Condition::one('c'), Transition::Id(4)), // 2
            State::state(Condition::one('d'), Transition::Id(4)), // 3
            State::split(Transition::Id(3), Transition::End)      // 4
        ],
        nfa.states
    );
    assert_eq!(1, nfa.start);
}

#[test]
fn build_doesnt_infinite_loop() {
    let _nfa = NFA::from_expr(&"(ab)*".parse::<Expr>().unwrap());
    let _nfa = NFA::from_expr(&"..+.".parse::<Expr>().unwrap());
}

#[test]
fn build_or() {
    let nfa = NFA::from_expr(&Expr::or(Expr::Single('a'), Expr::Single('b')));

    assert_eq!(
        vec![
            State::state(Condition::one('a'), Transition::End),
            State::state(Condition::one('b'), Transition::End),
            State::split(Transition::Id(0), Transition::Id(1))
        ],
        nfa.states
    );
    assert_eq!(2, nfa.start);
}

#[test]
fn build_any() {
    let nfa = NFA::from_expr(&Expr::Any);

    assert_eq!(
        vec![State::state(Condition::Any, Transition::End)],
        nfa.states
    );
}

#[test]
fn prioritizes_state() {
    let s = State::state(Condition::one('a'), Transition::End);
    assert_eq!(97, s.get_priority_key(&NFA::new()));

    let s = State::state(Condition::Any, Transition::End);
    assert_eq!(0, s.get_priority_key(&NFA::new()));

    let s = State::state(Condition::Epsilon, Transition::End);
    assert_eq!(usize::max_value(), s.get_priority_key(&NFA::new()));

    // recursive
    let s = State::state(Condition::Epsilon, Transition::Id(0));
    assert_eq!(
        98,
        s.get_priority_key(&NFA::from_states(vec![
            State::state(Condition::Epsilon, Transition::Id(1)),
            State::state(Condition::one('b'), Transition::End)
        ]))
    );

    // does not infinitely loop (assuming no free cycles)
    let s = State::state(Condition::Epsilon, Transition::Id(0));
    assert_eq!(
        0,
        s.get_priority_key(&NFA::from_states(vec![State::state(
            Condition::Any,
            Transition::Id(0)
        )]))
    );
}

#[test]
fn prioritizes_split() {
    let nfa = NFA::from_states(vec![State::state(Condition::one('a'), Transition::End)]);
    let s = State::split(Transition::Id(0), Transition::End);
    assert_eq!(97, s.get_priority_key(&nfa));

    let s = State::split(Transition::End, Transition::End);
    assert_eq!(usize::max_value(), s.get_priority_key(&NFA::new()));

    // recursive
    let s = State::split(Transition::Id(0), Transition::End);
    assert_eq!(
        0,
        s.get_priority_key(&NFA::from_states(vec![
            State::split(Transition::Id(1), Transition::Id(2)),
            State::state(Condition::one('a'), Transition::End),
            State::state(Condition::Any, Transition::End)
        ]))
    );
}

#[test]
fn build_char_class() {
    let nfa = NFA::from_expr(&Expr::Class(vec!['a', 'b']));

    assert_eq!(
        vec![State::state(
            Condition::class(vec!['a', 'b']),
            Transition::End
        )],
        nfa.states
    );
}

#[test]
fn priority_key_follows_free_edges_that_lead_in_a_circle() {
    // two branches that lead to each other and to nothing else
    let nfa = NFA::from_states(vec![
        State::split(Transition::Id(1), Transition::Id(1)),
        State::split(Transition::Id(0), Transition::Id(0)),
    ]);
    let s = State::split(Transition::Id(0), Transition::Id(1));
    assert_eq!(usize::max_value(), s.get_priority_key(&nfa));

    // the automaton of `(a*)*`: the outer branch leads back to itself
    let nfa = NFA::from_expr(&Expr::zero_or_more(Expr::zero_or_more(Expr::Single('a'))));
    assert_eq!(
        vec![
            State::state(Condition::one('a'), Transition::Id(1)),
            State::split(Transition::Id(0), Transition::Id(2)),
            State::split(Transition::Id(1), Transition::End)
        ],
        nfa.states
    );
    assert_eq!(2, nfa.start);
    assert_eq!(97, nfa.get_start().unwrap().get_priority_key(&nfa));
    assert_eq!(97, nfa.get_state(1).unwrap().get_priority_key(&nfa));
}

#[test]
fn priority_key_is_the_least_key_in_reach() {
    let nfa = NFA::from_states(vec![
        State::split(Transition::Id(1), Transition::Id(2)),
        State::state(Condition::one('z'), Transition::End),
        State::state(Condition::Epsilon, Transition::Id(3)),
        State::split(Transition::Id(4), Transition::Id(5)),
        State::state(Condition::one('m'), Transition::End),
        State::state(Condition::one('c'), Transition::Id(6)),
        State::state(Condition::one('a'), Transition::End),
    ]);
    // 'a' at 6 lies behind a byte and does not count
    assert_eq!(99, nfa.get_state(0).unwrap().get_priority_key(&nfa));
    assert_eq!(122, nfa.get_state(1).unwrap().get_priority_key(&nfa));
    assert_eq!(99, nfa.get_state(2).unwrap().get_priority_key(&nfa));
    assert_eq!(
        0,
        State::state(Condition::class(vec!['x', 'y']), Transition::Detached)
            .get_priority_key(&nfa)
    );
    assert_eq!(
        usize::max_value(),
        State::state(Condition::Epsilon, Transition::Detached).get_priority_key(&nfa)
    );
}

#[test]
fn getters_report_what_the_automaton_holds() {
    let nfa = NFA::new();
    assert_eq!(0, nfa.num_states());
    assert_eq!(None, nfa.get_start());
    assert_eq!(None, nfa.get_state(0));

    let nfa = NFA::from_states(vec![
        State::state(Condition::one('a'), Transition::Id(1)),
        State::split(Transition::End, Transition::Id(0)),
    ]);
    assert_eq!(2, nfa.num_states());
    assert_eq!(0, nfa.start);
    assert_eq!(
        Some(State::state(Condition::one('a'), Transition::Id(1))),
        nfa.get_start()
    );
    assert_eq!(
        Some(State::split(Transition::End, Transition::Id(0))),
        nfa.get_state(1)
    );
    assert_eq!(None, nfa.get_state(2));
    assert_eq!(nfa, nfa.clone());
}

#[test]
fn conditions_hold_the_bytes_of_their_characters() {
    assert_eq!(Condition::One(97), Condition::one('a'));
    assert_eq!(Condition::One(0), Condition::one('\u{0}'));
    assert_eq!(Condition::One(127), Condition::one('\u{7f}'));
    assert_eq!(Condition::Class(vec![97, 10, 98]), Condition::class(vec!['a', '\n', 'b']));
    assert_eq!(Condition::Class(vec![]), Condition::class(vec![]));
}

#[test]
fn compiling_twice_gives_equal_automata() {
    for pattern in ["a", "(ab)*", "..+.", "((abc|acc)b)+", "[ab]?c|d"] {
        let first = NFA::from_expr(&Expr::parse(pattern).unwrap());
        let second = NFA::from_expr(&Expr::parse(pattern).unwrap());
        assert_eq!(first, second);
    }
}

#[test]
fn build_optional_starts_at_the_branch() {
    let nfa = NFA::from_expr(&Expr::parse("a?").unwrap());
    assert_eq!(1, nfa.start);
    assert_eq!(
        Some(State::split(Transition::Id(0), Transition::End)),
        nfa.get_start()
    );
    assert_eq!(
        Some(State::state(Condition::one('a'), Transition::End)),
        nfa.get_state(0)
    );
}

#[test]
fn well_formed_automata_have_no_loose_edge() {
    assert!(NFA::new().is_well_formed());
    let to_itself = vec![State::split(Transition::Id(0), Transition::End)];
    assert!(NFA::from_states(to_itself).is_well_formed());
    let to_nowhere = vec![State::split(Transition::Id(1), Transition::End)];
    assert!(!NFA::from_states(to_nowhere).is_well_formed());
    assert!(!NFA::from_states(vec![State::state(Condition::Any, Transition::Detached)])
        .is_well_formed());
    assert!(!NFA { start: 1, states: vec![State::state(Condition::Any, Transition::End)] }
        .is_well_formed());
    assert!(NFA { start: 5, states: vec![] }.is_well_formed());
}
