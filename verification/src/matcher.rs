//! Threads of a match attempt, and the matcher that runs them.
//!
//! A thread is a position in the automaton together with the part of the
//! text that is still to be read. [`PotentialMatch`] is a thread that carries
//! its state and its text by value and can be stepped by hand; a [`Matcher`]
//! holds an automaton and a text and runs the search of `crate::search`.

use crate::nfa::NfaView;
use crate::nfa::{
    state_key, Condition, ConditionView, State, StateView, Transition, TransitionView, NFA,
};
use crate::search::{accepts, offset_view, outcome, run, search_bound, settles};
use vstd::prelude::*;
use vstd::slice::{slice_subrange, slice_to_vec};
use vstd::string::StringSliceAdditionalSpecFns;

verus! {

/// The byte of a line feed, which `.` does not match.
pub const LINE_FEED: u8 = 10;

/// Whether an edge that consumes a byte may consume `byte`. An empty class
/// admits no byte.
pub open spec fn admits(condition: ConditionView, byte: u8) -> bool {
    match condition {
        ConditionView::One(b) => b == byte,
        ConditionView::Class(bytes) => bytes.contains(byte),
        ConditionView::Any => byte != LINE_FEED,
        ConditionView::Epsilon => false,
    }
}

/// The text that is left once an edge guarded by `condition` is crossed, if
/// it can be crossed with `text` still to read.
pub open spec fn crossing(condition: ConditionView, text: Seq<u8>) -> Option<Seq<u8>> {
    if condition == ConditionView::Epsilon {
        Some(text)
    } else if text.len() > 0 && admits(condition, text[0]) {
        Some(text.drop_first())
    } else {
        None
    }
}

/// The state at the end of an edge; none where the edge leaves the
/// automaton.
pub open spec fn target(states: Seq<StateView>, edge: TransitionView) -> Option<StateView> {
    match edge {
        TransitionView::Id(id) => Some(states[id]),
        _ => None,
    }
}

/// The mathematical value of a [`PotentialMatch`].
pub struct PotentialMatchView {
    /// The state at which the thread stands; none once it has left the
    /// automaton, which is to say that it has matched.
    pub state: Option<StateView>,
    /// The text that is still to be read.
    pub text: Seq<u8>,
}

impl PotentialMatchView {
    /// Every edge of the thread's state leads to a state of the automaton or
    /// out of it.
    pub open spec fn is_placed(self, states: Seq<StateView>) -> bool {
        self.state matches Some(state) ==> state.fits(states.len() as int) && state.is_connected()
    }

    /// The key by which the thread is ordered among its siblings; a thread
    /// that has matched comes last.
    pub open spec fn key(self, states: Seq<StateView>) -> int {
        match self.state {
            Some(state) => state_key(states, state),
            None => usize::MAX as int,
        }
    }
}

/// The thread that has crossed the edge `out` guarded by `condition`, if the
/// thread `from` can cross it.
pub open spec fn follow(
    states: Seq<StateView>,
    from: PotentialMatchView,
    condition: ConditionView,
    out: TransitionView,
) -> Option<PotentialMatchView> {
    match crossing(condition, from.text) {
        Some(rest) => Some(PotentialMatchView { state: target(states, out), text: rest }),
        None => None,
    }
}

/// The threads that follow a thread, the most preferred first.
///
/// A thread that has matched stays as it is. At a state with one edge, the
/// thread crosses it or dies. At a branch it goes both ways; the way with
/// the lower key comes first, and the first edge where the keys are equal.
pub open spec fn successors(states: Seq<StateView>, from: PotentialMatchView) -> Seq<
    PotentialMatchView,
> {
    match from.state {
        None => seq![from],
        Some(StateView::State { condition, out }) => match follow(states, from, condition, out) {
            Some(next) => seq![next],
            None => seq![],
        },
        Some(StateView::Split { out1, out2 }) => {
            let first = PotentialMatchView { state: target(states, out1), text: from.text };
            let second = PotentialMatchView { state: target(states, out2), text: from.text };
            if second.key(states) < first.key(states) {
                seq![second, first]
            } else {
                seq![first, second]
            }
        },
    }
}

/// The value of an optional state.
pub open spec fn state_view(state: Option<State>) -> Option<StateView> {
    match state {
        Some(s) => Some(s@),
        None => None,
    }
}

/// One thread of a match attempt: a state and the text that is left.
#[derive(PartialEq, Eq, Hash, Debug)]
pub struct PotentialMatch {
    current_state: Option<State>,
    text: Vec<u8>,
}

impl View for PotentialMatch {
    type V = PotentialMatchView;

    closed spec fn view(&self) -> PotentialMatchView {
        PotentialMatchView { state: state_view(self.current_state), text: self.text@ }
    }
}

/// The values of a vector of threads.
pub open spec fn match_views(threads: Seq<PotentialMatch>) -> Seq<PotentialMatchView> {
    threads.map_values(|m: PotentialMatch| m@)
}

impl Clone for PotentialMatch {
    fn clone(&self) -> (copy: PotentialMatch)
        ensures
            copy@ == self@,
    {
        self.with_state(self.state())
    }
}

/// Whether `byte` is among `bytes`.
fn contains_byte(bytes: &Vec<u8>, byte: u8) -> (yes: bool)
    ensures
        yes == bytes@.contains(byte),
{
    let mut i: usize = 0;
    while i < bytes.len()
        invariant
            i <= bytes.len(),
            forall|k: int| 0 <= k < i ==> bytes[k] != byte,
        decreases bytes.len() - i,
    {
        if bytes[i] == byte {
            return true;
        }
        i += 1;
    }
    false
}

impl Condition {
    /// Whether the condition lets `byte` pass.
    pub fn admits(&self, byte: u8) -> (yes: bool)
        ensures
            yes == admits(self@, byte),
    {
        match self {
            Condition::One(b) => *b == byte,
            Condition::Class(bytes) => contains_byte(bytes, byte),
            Condition::Any => byte != LINE_FEED,
            Condition::Epsilon => false,
        }
    }
}

impl PotentialMatch {
    /// The threads that follow this one, the most preferred first.
    pub fn advance(&self, nfa: &NFA) -> (next: Vec<PotentialMatch>)
        requires
            nfa@.is_closed(),
            self@.is_placed(nfa@.states),
        ensures
            match_views(next@) == successors(nfa@.states, self@),
    {
        let mut result: Vec<PotentialMatch> = Vec::new();
        match &self.current_state {
            None => {
                result.push(self.clone());
                assert(match_views(result@) =~= seq![self@]);
            },
            Some(State::State { condition, out }) => {
                let next = self.next_for_edge(nfa, condition, out);
                Self::push_option(&mut result, next);
                assert(match_views(result@) =~= successors(nfa@.states, self@));
            },
            Some(State::Split { out1, out2 }) => {
                let free = Condition::Epsilon;
                let first = self.next_for_edge(nfa, &free, out1);
                let second = self.next_for_edge(nfa, &free, out2);
                match (first, second) {
                    (Some(first), Some(second)) => {
                        if second.priority_key(nfa) < first.priority_key(nfa) {
                            result.push(second);
                            result.push(first);
                        } else {
                            result.push(first);
                            result.push(second);
                        }
                    },
                    (first, second) => {
                        Self::push_option(&mut result, first);
                        Self::push_option(&mut result, second);
                    },
                }
                assert(match_views(result@) =~= successors(nfa@.states, self@));
            },
        }
        result
    }

    /// The key by which the thread is ordered among its siblings.
    fn priority_key(&self, nfa: &NFA) -> (key: usize)
        requires
            nfa@.is_closed(),
            self@.state matches Some(state) ==> state.fits(nfa@.states.len() as int),
        ensures
            key == self@.key(nfa@.states),
    {
        match &self.current_state {
            None => usize::MAX,
            Some(state) => state.get_priority_key(nfa),
        }
    }

    /// The thread that has crossed the edge `out` guarded by `condition`, if
    /// this thread can cross it.
    fn next_for_edge(&self, nfa: &NFA, condition: &Condition, out: &Transition) -> (next: Option<
        PotentialMatch,
    >)
        requires
            out@.fits(nfa@.states.len() as int),
            out@ != TransitionView::Detached,
        ensures
            match follow(nfa@.states, self@, condition@, out@) {
                Some(thread) => next matches Some(m) && m@ == thread,
                None => next is None,
            },
    {
        match condition {
            Condition::Epsilon => Some(self.with_state(Self::target(nfa, out))),
            _ => {
                if self.text.len() > 0 && condition.admits(self.text[0]) {
                    Some(self.with_state_and_increment(Self::target(nfa, out)))
                } else {
                    None
                }
            },
        }
    }

    /// The state at the end of an edge.
    fn target(nfa: &NFA, out: &Transition) -> (state: Option<State>)
        requires
            out@.fits(nfa@.states.len() as int),
        ensures
            state_view(state) == target(nfa@.states, out@),
    {
        match out {
            Transition::Id(id) => nfa.get_state(*id),
            _ => None,
        }
    }

    /// Appends `item` if there is one.
    pub fn push_option<T>(vec: &mut Vec<T>, item: Option<T>)
        ensures
            final(vec)@ == match item {
                Some(value) => old(vec)@.push(value),
                None => old(vec)@,
            },
    {
        match item {
            Some(item) => vec.push(item),
            None => (),
        }
    }

    /// Whether the thread has left the automaton: the text read so far
    /// matches.
    pub fn is_match(&self) -> (yes: bool)
        ensures
            yes == (self@.state is None),
    {
        self.current_state.is_none()
    }

    /// The thread at `state` that has all of `text` to read.
    pub fn new(state: Option<State>, text: &str) -> (thread: PotentialMatch)
        ensures
            thread@ == (PotentialMatchView { state: state_view(state), text: text.spec_bytes() }),
    {
        PotentialMatch { current_state: state, text: slice_to_vec(text.as_bytes()) }
    }

    /// A copy of the thread's state.
    fn state(&self) -> (state: Option<State>)
        ensures
            state_view(state) == self@.state,
    {
        match &self.current_state {
            Some(state) => Some(state.clone()),
            None => None,
        }
    }

    /// The thread moved to `state` with its text as it is.
    fn with_state(&self, state: Option<State>) -> (thread: PotentialMatch)
        ensures
            thread@ == (PotentialMatchView { state: state_view(state), text: self@.text }),
    {
        PotentialMatch { current_state: state, text: self.text.clone() }
    }

    /// The thread moved to `state` with the first byte of its text read.
    fn with_state_and_increment(&self, state: Option<State>) -> (thread: PotentialMatch)
        requires
            self@.text.len() > 0,
        ensures
            thread@ == (PotentialMatchView {
                state: state_view(state),
                text: self@.text.drop_first(),
            }),
    {
        let rest = slice_to_vec(slice_subrange(self.text.as_slice(), 1, self.text.len()));
        assert(rest@ =~= self.text@.drop_first());
        PotentialMatch { current_state: state, text: rest }
    }
}

/// The mathematical value of a [`Matcher`].
pub struct MatcherView {
    pub nfa: NfaView,
    pub text: Seq<u8>,
}

/// An automaton and a text to run it against.
pub struct Matcher {
    nfa: NFA,
    text: Vec<u8>,
}

impl View for Matcher {
    type V = MatcherView;

    closed spec fn view(&self) -> MatcherView {
        MatcherView { nfa: self.nfa@, text: self.text@ }
    }
}

impl Matcher {
    /// A matcher of `nfa` against the bytes of `text`.
    pub fn new(nfa: NFA, text: &str) -> (matcher: Matcher)
        ensures
            matcher@ == (MatcherView { nfa: nfa@, text: text.spec_bytes() }),
    {
        Matcher { nfa, text: slice_to_vec(text.as_bytes()) }
    }

    /// Matches the automaton against the start of the text and returns the
    /// offset at which the match ends, if there is one: the outcome of the
    /// search. The offset is one at which the automaton accepts, and there is
    /// none only if the automaton accepts no prefix of the text.
    pub fn run(&mut self) -> (end: Option<usize>)
        requires
            old(self)@.nfa.well_formed(),
        ensures
            final(self)@ == old(self)@,
            offset_view(end) == outcome(old(self)@.nfa, old(self)@.text),
            end matches Some(k) ==> k <= old(self)@.text.len() && accepts(
                old(self)@.nfa,
                old(self)@.text,
                k as int,
            ),
            end is None ==> forall|k: int| !accepts(old(self)@.nfa, old(self)@.text, k),
            old(self)@.nfa.states.len() > 0 ==> settles(
                old(self)@.nfa,
                old(self)@.text,
                search_bound(old(self)@.nfa, old(self)@.text),
            ),
    {
        run(&self.nfa, self.text.as_slice())
    }
}

} // verus!
