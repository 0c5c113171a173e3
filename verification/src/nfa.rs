//! The automaton: its states, the edges between them, and the order in which
//! a branching state offers its edges.

use crate::expr::{are_ascii, is_ascii_char};
use crate::graph::{
    lemma_edge_then_reaches, lemma_mark, lemma_marking_never_unmarks, lemma_reaches_self,
    lemma_reaches_stays_inside, reaches, unmarked,
};
use vstd::prelude::*;

verus! {

/// The mathematical value of a [`Condition`].
pub enum ConditionView {
    One(u8),
    Class(Seq<u8>),
    Any,
    Epsilon,
}

/// The mathematical value of a [`Transition`].
pub enum TransitionView {
    Id(int),
    Detached,
    End,
}

/// The mathematical value of a [`State`].
pub enum StateView {
    State { condition: ConditionView, out: TransitionView },
    Split { out1: TransitionView, out2: TransitionView },
}

/// The mathematical value of an [`NFA`].
pub struct NfaView {
    pub start: int,
    pub states: Seq<StateView>,
}

/// What an edge asks of the next byte of the text.
#[derive(PartialEq, Eq, Hash, Debug)]
pub enum Condition {
    /// The byte is this one.
    One(u8),
    /// The byte is one of these.
    Class(Vec<u8>),
    /// The byte is anything but a line feed.
    Any,
    /// Nothing: the edge is taken without consuming a byte.
    Epsilon,
}

/// Where an edge leads.
#[derive(Clone, Copy, PartialEq, Eq, Hash, Debug)]
pub enum Transition {
    /// To the state with this index.
    Id(usize),
    /// Nowhere yet: the edge is still to be connected.
    Detached,
    /// Out of the automaton: the match is complete.
    End,
}

/// A node of the automaton.
#[derive(PartialEq, Eq, Hash, Debug)]
pub enum State {
    /// One edge, guarded by a condition.
    State { condition: Condition, out: Transition },
    /// Two edges, both free; for a quantifier `out1` continues and `out2`
    /// stops.
    Split { out1: Transition, out2: Transition },
}

/// An automaton: states that refer to each other by index, and the index at
/// which a run starts.
#[derive(PartialEq, Debug)]
pub struct NFA {
    pub start: usize,
    pub states: Vec<State>,
}

impl View for Condition {
    type V = ConditionView;

    open spec fn view(&self) -> ConditionView {
        match self {
            Condition::One(b) => ConditionView::One(*b),
            Condition::Class(bs) => ConditionView::Class(bs@),
            Condition::Any => ConditionView::Any,
            Condition::Epsilon => ConditionView::Epsilon,
        }
    }
}

impl View for Transition {
    type V = TransitionView;

    open spec fn view(&self) -> TransitionView {
        match self {
            Transition::Id(id) => TransitionView::Id(*id as int),
            Transition::Detached => TransitionView::Detached,
            Transition::End => TransitionView::End,
        }
    }
}

impl View for State {
    type V = StateView;

    open spec fn view(&self) -> StateView {
        match self {
            State::State { condition, out } => StateView::State { condition: condition@, out: out@ },
            State::Split { out1, out2 } => StateView::Split { out1: out1@, out2: out2@ },
        }
    }
}

/// The values of a vector of states.
pub open spec fn state_views(states: Seq<State>) -> Seq<StateView> {
    states.map_values(|s: State| s@)
}

impl View for NFA {
    type V = NfaView;

    open spec fn view(&self) -> NfaView {
        NfaView { start: self.start as int, states: state_views(self.states@) }
    }
}

impl TransitionView {
    /// The edge leads to a state among the first `n`, or to no state.
    pub open spec fn fits(self, n: int) -> bool {
        self matches TransitionView::Id(id) ==> 0 <= id < n
    }

    /// The edge leads to the state `id`.
    pub open spec fn leads_to(self, id: int) -> bool {
        self == TransitionView::Id(id)
    }
}

impl StateView {
    /// Every edge of the state leads to a state among the first `n`, or to no
    /// state.
    pub open spec fn fits(self, n: int) -> bool {
        match self {
            StateView::State { out, .. } => out.fits(n),
            StateView::Split { out1, out2 } => out1.fits(n) && out2.fits(n),
        }
    }

    /// No edge of the state is detached.
    pub open spec fn is_connected(self) -> bool {
        match self {
            StateView::State { out, .. } => out != TransitionView::Detached,
            StateView::Split { out1, out2 } => out1 != TransitionView::Detached && out2
                != TransitionView::Detached,
        }
    }

    /// The state has an edge to the state `id`.
    pub open spec fn leads_to(self, id: int) -> bool {
        match self {
            StateView::State { out, .. } => out.leads_to(id),
            StateView::Split { out1, out2 } => out1.leads_to(id) || out2.leads_to(id),
        }
    }

    /// The state has an edge to the state `id` that consumes nothing.
    pub open spec fn slips_to(self, id: int) -> bool {
        match self {
            StateView::State { condition, out } => condition == ConditionView::Epsilon
                && out.leads_to(id),
            StateView::Split { out1, out2 } => out1.leads_to(id) || out2.leads_to(id),
        }
    }
}

/// Every edge leads to one of the states, or to no state.
pub open spec fn closed(states: Seq<StateView>) -> bool {
    forall|i: int| 0 <= i < states.len() ==> (#[trigger] states[i]).fits(states.len() as int)
}

/// No edge is detached.
pub open spec fn connected(states: Seq<StateView>) -> bool {
    forall|i: int| 0 <= i < states.len() ==> (#[trigger] states[i]).is_connected()
}

impl NfaView {
    /// Every edge leads to a state of the automaton, or to no state.
    pub open spec fn is_closed(self) -> bool {
        closed(self.states)
    }

    /// No edge is detached.
    pub open spec fn is_connected(self) -> bool {
        connected(self.states)
    }

    /// The automaton can be run: it is closed and connected, and it starts at
    /// one of its states if it has any.
    pub open spec fn well_formed(self) -> bool {
        &&& self.is_closed()
        &&& self.is_connected()
        &&& self.states.len() > 0 ==> 0 <= self.start < self.states.len()
    }
}

impl Clone for Condition {
    fn clone(&self) -> (copy: Condition)
        ensures
            copy@ == self@,
    {
        match self {
            Condition::One(b) => Condition::One(*b),
            Condition::Class(bs) => Condition::Class(bs.clone()),
            Condition::Any => Condition::Any,
            Condition::Epsilon => Condition::Epsilon,
        }
    }
}

impl Clone for State {
    fn clone(&self) -> (copy: State)
        ensures
            copy@ == self@,
    {
        match self {
            State::State { condition, out } => State::State {
                condition: condition.clone(),
                out: *out,
            },
            State::Split { out1, out2 } => State::Split { out1: *out1, out2: *out2 },
        }
    }
}

impl Clone for NFA {
    fn clone(&self) -> (copy: NFA)
        ensures
            copy@ == self@,
    {
        let mut states: Vec<State> = Vec::new();
        let mut i: usize = 0;
        while i < self.states.len()
            invariant
                i <= self.states.len(),
                states.len() == i,
                forall|k: int| 0 <= k < i ==> states[k]@ == self.states[k]@,
            decreases self.states.len() - i,
        {
            states.push(self.states[i].clone());
            i += 1;
        }
        assert(state_views(states@) =~= state_views(self.states@));
        NFA { start: self.start, states }
    }
}

impl Condition {
    /// The condition that asks for the character `c`.
    pub fn one(c: char) -> (condition: Condition)
        requires
            is_ascii_char(c),
        ensures
            condition@ == ConditionView::One(c as u8),
    {
        Condition::One(Self::to_ascii(c))
    }

    /// The byte that encodes `c`.
    fn to_ascii(c: char) -> (b: u8)
        requires
            is_ascii_char(c),
        ensures
            b == c as u8,
    {
        c as u8
    }

    /// The condition that asks for one of `chars`.
    pub fn class(chars: Vec<char>) -> (condition: Condition)
        requires
            are_ascii(chars@),
        ensures
            condition@ == ConditionView::Class(encode(chars@)),
    {
        let mut bytes: Vec<u8> = Vec::new();
        let mut i: usize = 0;
        while i < chars.len()
            invariant
                i <= chars.len(),
                bytes@ == encode(chars@.take(i as int)),
                are_ascii(chars@),
            decreases chars.len() - i,
        {
            bytes.push(Self::to_ascii(chars[i]));
            assert(bytes@ =~= encode(chars@.take(i + 1)));
            i += 1;
        }
        assert(chars@.take(i as int) =~= chars@);
        Condition::Class(bytes)
    }
}

/// The bytes that encode a sequence of single-byte characters.
pub open spec fn encode(chars: Seq<char>) -> Seq<u8> {
    chars.map_values(|c: char| c as u8)
}

impl Transition {
    /// Whether the edge leads to one of the first `n` states or out of the
    /// automaton.
    fn is_sound(&self, n: usize) -> (yes: bool)
        ensures
            yes == (self@.fits(n as int) && self@ != TransitionView::Detached),
    {
        match self {
            Transition::Id(id) => *id < n,
            Transition::Detached => false,
            Transition::End => true,
        }
    }
}

impl State {
    /// A state with one guarded edge.
    pub fn state(condition: Condition, out: Transition) -> (s: State)
        ensures
            s@ == (StateView::State { condition: condition@, out: out@ }),
    {
        State::State { condition, out }
    }

    /// A state with two free edges.
    pub fn split(out1: Transition, out2: Transition) -> (s: State)
        ensures
            s@ == (StateView::Split { out1: out1@, out2: out2@ }),
    {
        State::Split { out1, out2 }
    }
}

impl NFA {
    /// The automaton without states.
    pub fn new() -> (nfa: NFA)
        ensures
            nfa@ == (NfaView { start: 0, states: Seq::empty() }),
    {
        let nfa = NFA { start: 0, states: Vec::new() };
        assert(state_views(nfa.states@) =~= Seq::empty());
        nfa
    }

    /// The automaton with the given states that starts at the first of them.
    pub fn from_states(states: Vec<State>) -> (nfa: NFA)
        ensures
            nfa@ == (NfaView { start: 0, states: state_views(states@) }),
    {
        NFA { start: 0, states }
    }

    /// The state at which a run starts, if the automaton has it.
    pub fn get_start(&self) -> (state: Option<State>)
        ensures
            match state {
                Some(s) => 0 <= self@.start < self@.states.len() && s@ == self@.states[self@.start],
                None => self@.start >= self@.states.len(),
            },
    {
        self.get_state(self.start)
    }

    /// The state with the given index, if the automaton has it.
    pub fn get_state(&self, index: usize) -> (state: Option<State>)
        ensures
            match state {
                Some(s) => index < self@.states.len() && s@ == self@.states[index as int],
                None => index >= self@.states.len(),
            },
    {
        if index >= self.states.len() {
            None
        } else {
            Some(self.states[index].clone())
        }
    }

    /// Whether the automaton can be run: whether every edge leads to one of
    /// its states or out of it, and it starts at one of its states if it has
    /// any.
    pub fn is_well_formed(&self) -> (yes: bool)
        ensures
            yes == self@.well_formed(),
    {
        let n = self.states.len();
        if n > 0 && self.start >= n {
            return false;
        }
        let mut i: usize = 0;
        while i < n
            invariant
                i <= n,
                n == self.states.len(),
                forall|k: int|
                    0 <= k < i ==> (#[trigger] self@.states[k]).fits(n as int)
                        && self@.states[k].is_connected(),
            decreases n - i,
        {
            assert(self@.states[i as int] == self.states[i as int]@);
            let sound = match &self.states[i] {
                State::State { out, .. } => out.is_sound(n),
                State::Split { out1, out2 } => out1.is_sound(n) && out2.is_sound(n),
            };
            if !sound {
                return false;
            }
            i += 1;
        }
        true
    }

    /// The number of states.
    pub fn num_states(&self) -> (n: usize)
        ensures
            n == self@.states.len(),
    {
        self.states.len()
    }
}

/// The key of a condition that consumes a byte: a literal sorts by its byte,
/// `.` and a class sort before every literal.
pub open spec fn condition_key(condition: ConditionView) -> int {
    match condition {
        ConditionView::One(b) => b as int,
        _ => 0,
    }
}

impl StateView {
    /// The key of the state's own condition, if the state consumes a byte.
    pub open spec fn own_key(self) -> Option<int> {
        match self {
            StateView::State { condition, .. } => if condition == ConditionView::Epsilon {
                None
            } else {
                Some(condition_key(condition))
            },
            StateView::Split { .. } => None,
        }
    }
}

/// The edges of the automaton that consume nothing, as a relation on indices.
pub open spec fn slip(states: Seq<StateView>) -> spec_fn(int, int) -> bool {
    |i: int, j: int| 0 <= i < states.len() && states[i].slips_to(j)
}

/// Some state that is reached through `edge` without consuming anything
/// consumes a byte under the key `key`.
pub open spec fn offered(states: Seq<StateView>, edge: TransitionView, key: int) -> bool {
    &&& edge matches TransitionView::Id(id)
    &&& exists|j: int| #[trigger]
        reaches(slip(states), id, j) && 0 <= j < states.len() && states[j].own_key() == Some(key)
}

/// `key` is the least key offered through `edge`, or `usize::MAX` where none
/// is offered.
pub open spec fn is_least_key(states: Seq<StateView>, edge: TransitionView, key: int) -> bool {
    &&& key == usize::MAX || offered(states, edge, key)
    &&& forall|other: int| #[trigger] offered(states, edge, other) ==> key <= other
}

/// The priority key of an edge that consumes nothing: the least key among the
/// consuming states that it leads to through such edges alone, and
/// `usize::MAX` where it leads to none (where it ends the match, say).
pub open spec fn transition_key(states: Seq<StateView>, edge: TransitionView) -> int {
    choose|key: int| is_least_key(states, edge, key)
}

/// The priority key of a state: that of its own condition if it consumes a
/// byte, else the lesser key of its edges. A lower key is explored first.
pub open spec fn state_key(states: Seq<StateView>, state: StateView) -> int {
    match state {
        StateView::State { condition, out } => if condition == ConditionView::Epsilon {
            transition_key(states, out)
        } else {
            condition_key(condition)
        },
        StateView::Split { out1, out2 } => {
            let key1 = transition_key(states, out1);
            let key2 = transition_key(states, out2);
            if key1 <= key2 {
                key1
            } else {
                key2
            }
        },
    }
}

/// An edge has one least key.
pub proof fn lemma_least_key_is_unique(
    states: Seq<StateView>,
    edge: TransitionView,
    key: int,
    other: int,
)
    requires
        is_least_key(states, edge, key),
        is_least_key(states, edge, other),
    ensures
        key == other,
{
    if offered(states, edge, key) {
        assert(other <= key);
    }
    if offered(states, edge, other) {
        assert(key <= other);
    }
}

/// The key of an edge is its least key, and is at most `usize::MAX`.
pub proof fn lemma_transition_key(states: Seq<StateView>, edge: TransitionView, key: int)
    requires
        is_least_key(states, edge, key),
    ensures
        transition_key(states, edge) == key,
        0 <= key <= usize::MAX,
{
    lemma_least_key_is_unique(states, edge, key, transition_key(states, edge));
}

/// If a key up to `bound` is offered through an edge, a least key is.
proof fn lemma_least_offered(states: Seq<StateView>, edge: TransitionView, bound: int) -> (least: int)
    requires
        exists|key: int| 0 <= key <= bound && offered(states, edge, key),
        forall|key: int| #[trigger] offered(states, edge, key) ==> 0 <= key,
    ensures
        offered(states, edge, least),
        forall|other: int| #[trigger] offered(states, edge, other) ==> least <= other,
    decreases bound,
{
    if exists|key: int| 0 <= key <= bound - 1 && offered(states, edge, key) {
        lemma_least_offered(states, edge, bound - 1)
    } else {
        assert forall|other: int| #[trigger] offered(states, edge, other) implies bound
            <= other by {
            if other < bound {
                assert(0 <= other <= bound - 1 && offered(states, edge, other));
            }
        }
        bound
    }
}

/// Every edge has a least key, and `transition_key` is it: a key that is
/// offered through the edge and is no greater than any other that is, or
/// `usize::MAX` if none is offered.
pub proof fn lemma_transition_key_is_least(states: Seq<StateView>, edge: TransitionView)
    ensures
        is_least_key(states, edge, transition_key(states, edge)),
        0 <= transition_key(states, edge) <= usize::MAX,
{
    assert forall|key: int| #[trigger] offered(states, edge, key) implies 0 <= key <= 255 by {
        let id = edge->Id_0;
        let j = choose|j: int| #[trigger]
            reaches(slip(states), id, j) && 0 <= j < states.len() && states[j].own_key() == Some(
                key,
            );
        assert(states[j].own_key() == Some(key));
    }
    if exists|key: int| offered(states, edge, key) {
        let some = choose|key: int| offered(states, edge, key);
        assert(0 <= some <= 255 && offered(states, edge, some));
        let least = lemma_least_offered(states, edge, 255);
        assert(is_least_key(states, edge, least));
        lemma_transition_key(states, edge, least);
    } else {
        assert(is_least_key(states, edge, usize::MAX as int));
        lemma_transition_key(states, edge, usize::MAX as int);
    }
}

/// A cell is set in `after` and was not in `before`.
pub open spec fn fresh(before: Seq<bool>, after: Seq<bool>, j: int) -> bool {
    0 <= j < after.len() && after[j] && !before[j]
}

/// What a search through the edges that consume nothing has done between the
/// markings `before` and `after`, starting through `root`, with result `key`.
spec fn explored(
    states: Seq<StateView>,
    before: Seq<bool>,
    after: Seq<bool>,
    root: TransitionView,
    key: int,
) -> bool {
    &&& after.len() == before.len()
    &&& forall|j: int| 0 <= j < before.len() && before[j] ==> #[trigger] after[j]
    &&& root matches TransitionView::Id(id) ==> after[id]
    &&& forall|j: int| #[trigger]
        fresh(before, after, j) ==> (root matches TransitionView::Id(id) && reaches(
            slip(states),
            id,
            j,
        ))
    &&& forall|j: int, k: int|
        fresh(before, after, j) && #[trigger] states[j].slips_to(k) ==> after[k]
    &&& key == usize::MAX || exists|j: int| #[trigger]
        fresh(before, after, j) && states[j].own_key() == Some(key)
    &&& forall|j: int| #[trigger]
        fresh(before, after, j) ==> (states[j].own_key() matches Some(k) ==> key <= k)
}

/// A search that starts with nothing marked finds the key of its root.
proof fn lemma_explored_from_nothing(
    states: Seq<StateView>,
    before: Seq<bool>,
    after: Seq<bool>,
    root: TransitionView,
    key: int,
)
    requires
        closed(states),
        root.fits(states.len() as int),
        before.len() == states.len(),
        forall|j: int| 0 <= j < before.len() ==> !#[trigger] before[j],
        explored(states, before, after, root, key),
    ensures
        is_least_key(states, root, key),
{
    if key != usize::MAX {
        let j = choose|j: int| #[trigger]
            fresh(before, after, j) && states[j].own_key() == Some(key);
        assert(fresh(before, after, j));
    }
    assert forall|other: int| #[trigger] offered(states, root, other) implies key <= other by {
        let id = root->Id_0;
        let j = choose|j: int| #[trigger]
            reaches(slip(states), id, j) && 0 <= j < states.len() && states[j].own_key() == Some(
                other,
            );
        let inside = |j: int| 0 <= j < after.len() && after[j];
        assert forall|a: int, b: int| inside(a) && #[trigger] slip(states)(a, b) implies inside(
            b,
        ) by {
            assert(fresh(before, after, a));
            assert(states[a].slips_to(b));
            assert(states[a].fits(states.len() as int));
        }
        lemma_reaches_stays_inside(slip(states), inside, id, j);
        assert(fresh(before, after, j));
    }
}

impl State {
    /// The key that decides which of two threads is explored first: the
    /// lower, the sooner.
    ///
    /// A state that consumes a byte has the key of its condition. A state
    /// that does not has the least key among the consuming states that its
    /// edges lead to without consuming anything, and `usize::MAX` if there is
    /// none. Edges that lead in a circle without consuming are followed once.
    pub fn get_priority_key(&self, nfa: &NFA) -> (key: usize)
        requires
            nfa@.is_closed(),
            self@.fits(nfa@.states.len() as int),
        ensures
            key == state_key(nfa@.states, self@),
    {
        match self {
            State::State { condition, out } => Self::edge_priority_key(condition, out, nfa),
            State::Split { out1, out2 } => {
                let free = Condition::Epsilon;
                let key1 = Self::edge_priority_key(&free, out1, nfa);
                let key2 = Self::edge_priority_key(&free, out2, nfa);
                if key1 <= key2 {
                    key1
                } else {
                    key2
                }
            },
        }
    }

    /// The key of one edge, found by a search of its own.
    fn edge_priority_key(condition: &Condition, out: &Transition, nfa: &NFA) -> (key: usize)
        requires
            nfa@.is_closed(),
            out@.fits(nfa@.states.len() as int),
        ensures
            key == if condition@ == ConditionView::Epsilon {
                transition_key(nfa@.states, out@)
            } else {
                condition_key(condition@)
            },
    {
        let mut visited: Vec<bool> = Vec::new();
        let mut i: usize = 0;
        while i < nfa.states.len()
            invariant
                i <= nfa.states.len(),
                visited.len() == i,
                forall|j: int| 0 <= j < i ==> !#[trigger] visited[j],
            decreases nfa.states.len() - i,
        {
            visited.push(false);
            i += 1;
        }
        let ghost before = visited@;
        let key = Self::get_transition_priority_key(condition, out, nfa, &mut visited);
        proof {
            if condition@ == ConditionView::Epsilon {
                lemma_explored_from_nothing(nfa@.states, before, visited@, out@, key as int);
                lemma_transition_key(nfa@.states, out@, key as int);
            }
        }
        key
    }

    /// The key of one edge, as far as it is found among the states that are
    /// not yet marked in `visited`; the states it looks at are marked.
    fn get_transition_priority_key(
        condition: &Condition,
        out: &Transition,
        nfa: &NFA,
        visited: &mut Vec<bool>,
    ) -> (key: usize)
        requires
            nfa@.is_closed(),
            out@.fits(nfa@.states.len() as int),
            old(visited)@.len() == nfa@.states.len(),
        ensures
            condition@ != ConditionView::Epsilon ==> key == condition_key(condition@)
                && final(visited)@ == old(visited)@,
            condition@ == ConditionView::Epsilon ==> explored(
                nfa@.states,
                old(visited)@,
                final(visited)@,
                out@,
                key as int,
            ),
        decreases unmarked(old(visited)@),
    {
        let ghost states = nfa@.states;
        let ghost before = visited@;
        match condition {
            Condition::One(b) => *b as usize,
            Condition::Any => 0,
            Condition::Class(_) => 0,
            Condition::Epsilon => {
                match out {
                    Transition::Id(id) => {
                        let id: usize = *id;
                        if visited[id] {
                            return usize::MAX;
                        }
                        visited.set(id, true);
                        let ghost marked = visited@;
                        proof {
                            lemma_mark(before, id as int);
                            lemma_reaches_self(slip(states), id as int);
                            assert(states[id as int].fits(states.len() as int));
                            assert(states[id as int] == nfa.states[id as int]@);
                        }
                        match &nfa.states[id] {
                            State::State { condition: inner, out: next } => {
                                let key = Self::get_transition_priority_key(
                                    inner,
                                    next,
                                    nfa,
                                    visited,
                                );
                                proof {
                                    let after = visited@;
                                    if inner@ == ConditionView::Epsilon {
                                        assert forall|j: int| #[trigger]
                                            fresh(before, after, j) implies reaches(
                                            slip(states),
                                            id as int,
                                            j,
                                        ) by {
                                            if j != id {
                                                assert(fresh(marked, after, j));
                                                let t = next@->Id_0;
                                                assert(slip(states)(id as int, t));
                                                lemma_edge_then_reaches(
                                                    slip(states),
                                                    id as int,
                                                    t,
                                                    j,
                                                );
                                            }
                                        }
                                        assert forall|j: int, k: int|
                                            fresh(before, after, j)
                                                && #[trigger] states[j].slips_to(
                                                k,
                                            ) implies after[k] by {
                                            if j != id {
                                                assert(fresh(marked, after, j));
                                            }
                                        }
                                        if key != usize::MAX {
                                            let j = choose|j: int| #[trigger]
                                                fresh(marked, after, j) && states[j].own_key()
                                                    == Some(key as int);
                                            assert(fresh(before, after, j));
                                        }
                                        assert forall|j: int| #[trigger]
                                            fresh(before, after, j) implies (
                                        states[j].own_key() matches Some(k) ==> key <= k) by {
                                            if j != id {
                                                assert(fresh(marked, after, j));
                                            }
                                        }
                                    } else {
                                        assert(fresh(before, after, id as int));
                                    }
                                }
                                key
                            },
                            State::Split { out1, out2 } => {
                                let free = Condition::Epsilon;
                                let key1 = Self::get_transition_priority_key(
                                    &free,
                                    out1,
                                    nfa,
                                    visited,
                                );
                                let ghost middle = visited@;
                                proof {
                                    assert(unmarked(middle) <= unmarked(marked)) by {
                                        lemma_marking_never_unmarks(marked, middle);
                                    }
                                }
                                let key2 = Self::get_transition_priority_key(
                                    &free,
                                    out2,
                                    nfa,
                                    visited,
                                );
                                let key = if key1 <= key2 {
                                    key1
                                } else {
                                    key2
                                };
                                proof {
                                    let after = visited@;
                                    assert forall|j: int| #[trigger]
                                        fresh(before, after, j) implies reaches(
                                        slip(states),
                                        id as int,
                                        j,
                                    ) by {
                                        if j != id {
                                            if fresh(marked, middle, j) {
                                                let t = out1@->Id_0;
                                                assert(slip(states)(id as int, t));
                                                lemma_edge_then_reaches(
                                                    slip(states),
                                                    id as int,
                                                    t,
                                                    j,
                                                );
                                            } else {
                                                assert(fresh(middle, after, j));
                                                let t = out2@->Id_0;
                                                assert(slip(states)(id as int, t));
                                                lemma_edge_then_reaches(
                                                    slip(states),
                                                    id as int,
                                                    t,
                                                    j,
                                                );
                                            }
                                        }
                                    }
                                    assert forall|j: int, k: int|
                                        fresh(before, after, j) && #[trigger] states[j].slips_to(
                                            k,
                                        ) implies after[k] by {
                                        if j != id {
                                            if fresh(marked, middle, j) {
                                                assert(middle[k]);
                                                assert(states[j].fits(states.len() as int));
                                            } else {
                                                assert(fresh(middle, after, j));
                                            }
                                        } else {
                                            if out1@.leads_to(k) {
                                                assert(middle[k]);
                                            }
                                        }
                                    }
                                    if key != usize::MAX {
                                        if key == key1 {
                                            let j = choose|j: int| #[trigger]
                                                fresh(marked, middle, j) && states[j].own_key()
                                                    == Some(key as int);
                                            assert(fresh(before, after, j));
                                        } else {
                                            let j = choose|j: int| #[trigger]
                                                fresh(middle, after, j) && states[j].own_key()
                                                    == Some(key as int);
                                            assert(fresh(before, after, j));
                                        }
                                    }
                                    assert forall|j: int| #[trigger]
                                        fresh(before, after, j) implies (
                                    states[j].own_key() matches Some(k) ==> key <= k) by {
                                        if j != id {
                                            if fresh(marked, middle, j) {
                                            } else {
                                                assert(fresh(middle, after, j));
                                            }
                                        }
                                    }
                                }
                                key
                            },
                        }
                    },
                    _ => usize::MAX,
                }
            },
        }
    }
}

} // verus!
