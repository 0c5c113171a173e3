//! Compilation of a syntax tree into an automaton.
//!
//! Each node of the tree becomes a fragment: a run of consecutive states with
//! one entry, whose edges stay inside the run or are still detached. Detached
//! edges are connected later, when the fragment gets a successor. [`compile`]
//! says which automaton a tree denotes; [`NFA::from_expr`] builds it, finding
//! the detached edges of a fragment by a walk from its entry.

use crate::expr::{Expr, ExprView};
use crate::graph::{
    lemma_edge_then_reaches, lemma_mark, lemma_marking_never_unmarks, lemma_reaches_monotonic,
    lemma_reaches_self, lemma_reaches_stays_inside, lemma_reaches_then_edge,
    lemma_reaches_transitive, reaches, unmarked,
};
use crate::nfa::{
    closed, connected, encode, fresh, Condition, ConditionView, NfaView, State,
    StateView, Transition, TransitionView, NFA,
};
use vstd::prelude::*;

verus! {

/// The edge `edge`, connected to `target` if it was detached.
pub open spec fn patch_transition(edge: TransitionView, target: TransitionView) -> TransitionView {
    if edge == TransitionView::Detached {
        target
    } else {
        edge
    }
}

/// The state `state` with its detached edges connected to `target`.
pub open spec fn patch_state(state: StateView, target: TransitionView) -> StateView {
    match state {
        StateView::State { condition, out } => StateView::State {
            condition,
            out: patch_transition(out, target),
        },
        StateView::Split { out1, out2 } => StateView::Split {
            out1: patch_transition(out1, target),
            out2: patch_transition(out2, target),
        },
    }
}

/// The states with the detached edges of those from `lo` up to `hi`
/// connected to `target`.
pub open spec fn patch_range(
    states: Seq<StateView>,
    lo: int,
    hi: int,
    target: TransitionView,
) -> Seq<StateView> {
    Seq::new(
        states.len(),
        |i: int|
            if lo <= i < hi {
                patch_state(states[i], target)
            } else {
                states[i]
            },
    )
}

/// The edges of the automaton, as a relation on indices.
pub open spec fn edges(states: Seq<StateView>) -> spec_fn(int, int) -> bool {
    |i: int, j: int| 0 <= i < states.len() && states[i].leads_to(j)
}

/// The edges that leave the states from `lo` up to `hi`.
pub open spec fn edges_within(states: Seq<StateView>, lo: int, hi: int) -> spec_fn(
    int,
    int,
) -> bool {
    |i: int, j: int| lo <= i < hi && 0 <= i < states.len() && states[i].leads_to(j)
}

/// The states with the detached edges of those that `start` reaches
/// connected to `target`.
pub open spec fn patch_reachable(
    states: Seq<StateView>,
    start: int,
    target: TransitionView,
) -> Seq<StateView> {
    Seq::new(
        states.len(),
        |i: int|
            if reaches(edges(states), start, i) {
                patch_state(states[i], target)
            } else {
                states[i]
            },
    )
}

/// States under construction and the entry of the fragment built last.
pub struct Fragment {
    pub states: Seq<StateView>,
    pub entry: int,
}

/// A state that consumes one byte and is not yet connected.
pub open spec fn consuming(condition: ConditionView) -> StateView {
    StateView::State { condition, out: TransitionView::Detached }
}

/// A branch to `first`, or else to `second`.
pub open spec fn branch(first: TransitionView, second: TransitionView) -> StateView {
    StateView::Split { out1: first, out2: second }
}

/// The states `base` followed by the fragment of `expr`.
///
/// The fragment of a sequence is that of its left side, connected to the
/// entry of that of its right side. The fragment of an alternation is both
/// fragments and a branch to their entries. A quantifier adds a branch whose
/// first edge enters the inner fragment and whose second edge is detached;
/// `*` and `+` also connect the inner fragment back to the branch, and differ
/// in the entry: the branch for `*`, the inner entry for `+`.
pub open spec fn build(expr: ExprView, base: Seq<StateView>) -> Fragment
    decreases expr,
{
    let lo = base.len() as int;
    match expr {
        ExprView::Any => Fragment { states: base.push(consuming(ConditionView::Any)), entry: lo },
        ExprView::Single(c) => Fragment {
            states: base.push(consuming(ConditionView::One(c as u8))),
            entry: lo,
        },
        ExprView::Class(cs) => Fragment {
            states: base.push(consuming(ConditionView::Class(encode(cs)))),
            entry: lo,
        },
        ExprView::Sequence(a, b) => {
            let left = build(*a, base);
            let right = build(*b, left.states);
            Fragment {
                states: patch_range(
                    right.states,
                    lo,
                    left.states.len() as int,
                    TransitionView::Id(right.entry),
                ),
                entry: left.entry,
            }
        },
        ExprView::Or(a, b) => {
            let left = build(*a, base);
            let right = build(*b, left.states);
            Fragment {
                states: right.states.push(
                    branch(TransitionView::Id(left.entry), TransitionView::Id(right.entry)),
                ),
                entry: right.states.len() as int,
            }
        },
        ExprView::Optional(a) => {
            let inner = build(*a, base);
            Fragment {
                states: inner.states.push(
                    branch(TransitionView::Id(inner.entry), TransitionView::Detached),
                ),
                entry: inner.states.len() as int,
            }
        },
        ExprView::OneOrMore(a) => {
            let inner = build(*a, base);
            let split = inner.states.len() as int;
            Fragment {
                states: patch_range(
                    inner.states.push(
                        branch(TransitionView::Id(inner.entry), TransitionView::Detached),
                    ),
                    lo,
                    split,
                    TransitionView::Id(split),
                ),
                entry: inner.entry,
            }
        },
        ExprView::ZeroOrMore(a) => {
            let inner = build(*a, base);
            let split = inner.states.len() as int;
            Fragment {
                states: patch_range(
                    inner.states.push(
                        branch(TransitionView::Id(inner.entry), TransitionView::Detached),
                    ),
                    lo,
                    split,
                    TransitionView::Id(split),
                ),
                entry: split,
            }
        },
    }
}

/// The automaton of `expr`: its fragment, with the edges that are left
/// detached leading out of the automaton.
pub open spec fn compile(expr: ExprView) -> NfaView {
    let whole = build(expr, Seq::empty());
    NfaView {
        start: whole.entry,
        states: patch_range(whole.states, 0, whole.states.len() as int, TransitionView::End),
    }
}

/// The states from `lo` up to `hi` are a fragment with entry `entry`: no edge
/// leaves them, the entry reaches each of them, and one of them has a
/// detached edge.
pub open spec fn is_fragment(states: Seq<StateView>, lo: int, hi: int, entry: int) -> bool {
    &&& 0 <= lo <= entry < hi <= states.len()
    &&& forall|i: int, j: int|
        lo <= i < hi && #[trigger] states[i].leads_to(j) ==> lo <= j < hi
    &&& forall|i: int|
        lo <= i < hi ==> #[trigger] reaches(edges_within(states, lo, hi), entry, i)
    &&& exists|i: int| lo <= i < hi && !(#[trigger] states[i]).is_connected()
}

/// What the entry of a fragment reaches is the fragment.
pub proof fn lemma_fragment_is_reached(
    states: Seq<StateView>,
    lo: int,
    hi: int,
    entry: int,
    i: int,
)
    requires
        is_fragment(states, lo, hi, entry),
    ensures
        reaches(edges(states), entry, i) <==> lo <= i < hi,
{
    if lo <= i < hi {
        lemma_reaches_monotonic(edges_within(states, lo, hi), edges(states), entry, i);
    }
    if reaches(edges(states), entry, i) {
        let inside = |k: int| lo <= k < hi;
        assert forall|a: int, b: int| inside(a) && #[trigger] edges(states)(a, b) implies inside(
            b,
        ) by {
            assert(states[a].leads_to(b));
        }
        lemma_reaches_stays_inside(edges(states), inside, entry, i);
    }
}

/// To connect what the entry of a fragment reaches is to connect the fragment.
pub proof fn lemma_patch_fragment(
    states: Seq<StateView>,
    lo: int,
    hi: int,
    entry: int,
    target: TransitionView,
)
    requires
        is_fragment(states, lo, hi, entry),
    ensures
        patch_reachable(states, entry, target) == patch_range(states, lo, hi, target),
{
    assert forall|i: int| 0 <= i < states.len() implies patch_reachable(states, entry, target)[i]
        == patch_range(states, lo, hi, target)[i] by {
        lemma_fragment_is_reached(states, lo, hi, entry, i);
    }
    assert(patch_reachable(states, entry, target) =~= patch_range(states, lo, hi, target));
}

/// A fragment stays one when the states after it change.
pub proof fn lemma_fragment_survives(
    states: Seq<StateView>,
    later: Seq<StateView>,
    lo: int,
    hi: int,
    entry: int,
)
    requires
        is_fragment(states, lo, hi, entry),
        later.len() >= hi,
        forall|i: int| lo <= i < hi ==> #[trigger] later[i] == states[i],
    ensures
        is_fragment(later, lo, hi, entry),
{
    assert forall|i: int, j: int| lo <= i < hi && #[trigger] later[i].leads_to(j) implies lo <= j
        < hi by {
        assert(states[i].leads_to(j));
    }
    assert forall|i: int| lo <= i < hi implies #[trigger] reaches(
        edges_within(later, lo, hi),
        entry,
        i,
    ) by {
        assert(reaches(edges_within(states, lo, hi), entry, i));
        assert forall|a: int, b: int| #[trigger]
            edges_within(states, lo, hi)(a, b) implies edges_within(later, lo, hi)(a, b) by {
            assert(later[a] == states[a]);
        }
        lemma_reaches_monotonic(
            edges_within(states, lo, hi),
            edges_within(later, lo, hi),
            entry,
            i,
        );
    }
    let d = choose|i: int| lo <= i < hi && !(#[trigger] states[i]).is_connected();
    assert(later[d] == states[d]);
}

/// A walk through part of one automaton is a walk through a larger part of
/// another that has the same edges there.
proof fn lemma_reach_transfer(
    states: Seq<StateView>,
    lo: int,
    hi: int,
    other: Seq<StateView>,
    lo2: int,
    hi2: int,
    from: int,
    to: int,
)
    requires
        reaches(edges_within(states, lo, hi), from, to),
        lo2 <= lo,
        hi <= hi2,
        hi <= other.len(),
        forall|i: int, j: int|
            lo <= i < hi && 0 <= i < states.len() && #[trigger] states[i].leads_to(j)
                ==> other[i].leads_to(j),
    ensures
        reaches(edges_within(other, lo2, hi2), from, to),
{
    assert forall|a: int, b: int| #[trigger]
        edges_within(states, lo, hi)(a, b) implies edges_within(other, lo2, hi2)(a, b) by {
        assert(states[a].leads_to(b));
    }
    lemma_reaches_monotonic(
        edges_within(states, lo, hi),
        edges_within(other, lo2, hi2),
        from,
        to,
    );
}

/// One new state with no edge to a state is a fragment.
proof fn lemma_leaf_fragment(base: Seq<StateView>, condition: ConditionView)
    ensures
        is_fragment(
            base.push(consuming(condition)),
            base.len() as int,
            base.len() as int + 1,
            base.len() as int,
        ),
{
    let states = base.push(consuming(condition));
    let lo = base.len() as int;
    lemma_reaches_self(edges_within(states, lo, lo + 1), lo);
    assert(!states[lo].is_connected());
}

/// Two fragments in a row, the first connected to the entry of the second,
/// are one fragment.
proof fn lemma_sequence_fragment(
    states: Seq<StateView>,
    lo: int,
    mid: int,
    hi: int,
    first: int,
    second: int,
)
    requires
        is_fragment(states, lo, mid, first),
        is_fragment(states, mid, hi, second),
    ensures
        is_fragment(patch_range(states, lo, mid, TransitionView::Id(second)), lo, hi, first),
{
    let target = TransitionView::Id(second);
    let joined = patch_range(states, lo, mid, target);
    let d = choose|i: int| lo <= i < mid && !(#[trigger] states[i]).is_connected();
    assert(joined[d].leads_to(second));
    lemma_reach_transfer(states, lo, mid, joined, lo, hi, first, d);
    lemma_reaches_then_edge(edges_within(joined, lo, hi), first, d, second);
    assert forall|i: int| lo <= i < hi implies #[trigger] reaches(
        edges_within(joined, lo, hi),
        first,
        i,
    ) by {
        if i < mid {
            assert(reaches(edges_within(states, lo, mid), first, i));
            lemma_reach_transfer(states, lo, mid, joined, lo, hi, first, i);
        } else {
            assert(reaches(edges_within(states, mid, hi), second, i));
            lemma_reach_transfer(states, mid, hi, joined, lo, hi, second, i);
            lemma_reaches_transitive(edges_within(joined, lo, hi), first, second, i);
        }
    }
    assert forall|i: int, j: int| lo <= i < hi && #[trigger] joined[i].leads_to(j) implies lo <= j
        < hi by {
        if i < mid {
            if states[i].leads_to(j) {
            } else {
                assert(j == second);
            }
        } else {
            assert(states[i].leads_to(j));
        }
    }
    let e = choose|i: int| mid <= i < hi && !(#[trigger] states[i]).is_connected();
    assert(!joined[e].is_connected());
}

/// Two fragments in a row and a branch to their entries are one fragment.
proof fn lemma_branch_fragment(
    states: Seq<StateView>,
    lo: int,
    mid: int,
    first: int,
    second: int,
)
    requires
        is_fragment(states, lo, mid, first),
        is_fragment(states, mid, states.len() as int, second),
    ensures
        is_fragment(
            states.push(branch(TransitionView::Id(first), TransitionView::Id(second))),
            lo,
            states.len() as int + 1,
            states.len() as int,
        ),
{
    let split = states.len() as int;
    let hi = split + 1;
    let joined = states.push(branch(TransitionView::Id(first), TransitionView::Id(second)));
    assert(joined[split].leads_to(first));
    assert(joined[split].leads_to(second));
    assert forall|i: int| lo <= i < hi implies #[trigger] reaches(
        edges_within(joined, lo, hi),
        split,
        i,
    ) by {
        if i < mid {
            assert(reaches(edges_within(states, lo, mid), first, i));
            lemma_reach_transfer(states, lo, mid, joined, lo, hi, first, i);
            lemma_edge_then_reaches(edges_within(joined, lo, hi), split, first, i);
        } else if i < split {
            assert(reaches(edges_within(states, mid, split), second, i));
            lemma_reach_transfer(states, mid, split, joined, lo, hi, second, i);
            lemma_edge_then_reaches(edges_within(joined, lo, hi), split, second, i);
        } else {
            lemma_reaches_self(edges_within(joined, lo, hi), split);
        }
    }
    assert forall|i: int, j: int| lo <= i < hi && #[trigger] joined[i].leads_to(j) implies lo <= j
        < hi by {
        if i < split {
            assert(states[i].leads_to(j));
        }
    }
    let d = choose|i: int| lo <= i < mid && !(#[trigger] states[i]).is_connected();
    assert(!joined[d].is_connected());
}

/// A fragment and a branch that enters it or passes it by are one fragment.
proof fn lemma_optional_fragment(states: Seq<StateView>, lo: int, inner: int)
    requires
        is_fragment(states, lo, states.len() as int, inner),
    ensures
        is_fragment(
            states.push(branch(TransitionView::Id(inner), TransitionView::Detached)),
            lo,
            states.len() as int + 1,
            states.len() as int,
        ),
{
    let split = states.len() as int;
    let hi = split + 1;
    let joined = states.push(branch(TransitionView::Id(inner), TransitionView::Detached));
    assert(joined[split].leads_to(inner));
    assert forall|i: int| lo <= i < hi implies #[trigger] reaches(
        edges_within(joined, lo, hi),
        split,
        i,
    ) by {
        if i < split {
            assert(reaches(edges_within(states, lo, split), inner, i));
            lemma_reach_transfer(states, lo, split, joined, lo, hi, inner, i);
            lemma_edge_then_reaches(edges_within(joined, lo, hi), split, inner, i);
        } else {
            lemma_reaches_self(edges_within(joined, lo, hi), split);
        }
    }
    assert forall|i: int, j: int| lo <= i < hi && #[trigger] joined[i].leads_to(j) implies lo <= j
        < hi by {
        if i < split {
            assert(states[i].leads_to(j));
        }
    }
    assert(!joined[split].is_connected());
}

/// A fragment connected to a branch that enters it or leaves is one fragment,
/// entered at the branch or at the inner entry.
proof fn lemma_loop_fragment(states: Seq<StateView>, lo: int, inner: int, entry: int)
    requires
        is_fragment(states, lo, states.len() as int, inner),
        entry == inner || entry == states.len(),
    ensures
        is_fragment(
            patch_range(
                states.push(branch(TransitionView::Id(inner), TransitionView::Detached)),
                lo,
                states.len() as int,
                TransitionView::Id(states.len() as int),
            ),
            lo,
            states.len() as int + 1,
            entry,
        ),
{
    let split = states.len() as int;
    let hi = split + 1;
    let joined = patch_range(
        states.push(branch(TransitionView::Id(inner), TransitionView::Detached)),
        lo,
        split,
        TransitionView::Id(split),
    );
    let within = edges_within(joined, lo, hi);
    assert(joined[split].leads_to(inner));
    let d = choose|i: int| lo <= i < split && !(#[trigger] states[i]).is_connected();
    assert(joined[d].leads_to(split));
    lemma_reach_transfer(states, lo, split, joined, lo, hi, inner, d);
    lemma_reaches_then_edge(within, inner, d, split);
    assert(within(split, inner));
    lemma_reaches_self(within, inner);
    lemma_edge_then_reaches(within, split, inner, inner);
    assert forall|i: int| lo <= i < hi implies #[trigger] reaches(within, entry, i) by {
        if i < split {
            assert(reaches(edges_within(states, lo, split), inner, i));
            lemma_reach_transfer(states, lo, split, joined, lo, hi, inner, i);
        }
        lemma_reaches_transitive(within, entry, inner, i);
    }
    assert forall|i: int, j: int| lo <= i < hi && #[trigger] joined[i].leads_to(j) implies lo <= j
        < hi by {
        if i < split {
            if states[i].leads_to(j) {
            } else {
                assert(j == split);
            }
        }
    }
    assert(!joined[split].is_connected());
}

/// States that follow closed states and form a fragment are closed with them.
proof fn lemma_fragment_is_closed(base: Seq<StateView>, states: Seq<StateView>, entry: int)
    requires
        closed(base),
        base.len() <= states.len(),
        states.take(base.len() as int) == base,
        is_fragment(states, base.len() as int, states.len() as int, entry),
    ensures
        closed(states),
{
    assert forall|i: int| 0 <= i < states.len() implies (#[trigger] states[i]).fits(
        states.len() as int,
    ) by {
        if i < base.len() {
            assert(states[i] == states.take(base.len() as int)[i]);
            assert(base[i].fits(base.len() as int));
        } else {
            let state = states[i];
            match state {
                StateView::State { out, .. } => {
                    if let TransitionView::Id(j) = out {
                        assert(states[i].leads_to(j));
                    }
                },
                StateView::Split { out1, out2 } => {
                    if let TransitionView::Id(j) = out1 {
                        assert(states[i].leads_to(j));
                    }
                    if let TransitionView::Id(j) = out2 {
                        assert(states[i].leads_to(j));
                    }
                },
            }
        }
    }
}

/// What `build` adds to `base` is a fragment, and it leaves `base` as it was.
pub proof fn lemma_build(expr: ExprView, base: Seq<StateView>)
    ensures
        is_fragment(
            build(expr, base).states,
            base.len() as int,
            build(expr, base).states.len() as int,
            build(expr, base).entry,
        ),
        build(expr, base).states.take(base.len() as int) == base,
        closed(base) ==> closed(build(expr, base).states),
    decreases expr,
{
    let lo = base.len() as int;
    let built = build(expr, base);
    match expr {
        ExprView::Any => {
            lemma_leaf_fragment(base, ConditionView::Any);
        },
        ExprView::Single(c) => {
            lemma_leaf_fragment(base, ConditionView::One(c as u8));
        },
        ExprView::Class(cs) => {
            lemma_leaf_fragment(base, ConditionView::Class(encode(cs)));
        },
        ExprView::Sequence(a, b) => {
            let left = build(*a, base);
            lemma_build(*a, base);
            let right = build(*b, left.states);
            lemma_build(*b, left.states);
            let mid = left.states.len() as int;
            assert forall|i: int| lo <= i < mid implies #[trigger] right.states[i]
                == left.states[i] by {
                assert(right.states.take(mid)[i] == left.states[i]);
            }
            lemma_fragment_survives(left.states, right.states, lo, mid, left.entry);
            lemma_sequence_fragment(
                right.states,
                lo,
                mid,
                right.states.len() as int,
                left.entry,
                right.entry,
            );
            assert forall|i: int| 0 <= i < lo implies #[trigger] built.states[i] == base[i] by {
                assert(right.states.take(mid)[i] == left.states[i]);
                assert(left.states.take(lo)[i] == base[i]);
            }
        },
        ExprView::Or(a, b) => {
            let left = build(*a, base);
            lemma_build(*a, base);
            let right = build(*b, left.states);
            lemma_build(*b, left.states);
            let mid = left.states.len() as int;
            assert forall|i: int| lo <= i < mid implies #[trigger] right.states[i]
                == left.states[i] by {
                assert(right.states.take(mid)[i] == left.states[i]);
            }
            lemma_fragment_survives(left.states, right.states, lo, mid, left.entry);
            lemma_branch_fragment(right.states, lo, mid, left.entry, right.entry);
            assert forall|i: int| 0 <= i < lo implies #[trigger] built.states[i] == base[i] by {
                assert(right.states.take(mid)[i] == left.states[i]);
                assert(left.states.take(lo)[i] == base[i]);
            }
        },
        ExprView::Optional(a) => {
            let inner = build(*a, base);
            lemma_build(*a, base);
            lemma_optional_fragment(inner.states, lo, inner.entry);
            assert forall|i: int| 0 <= i < lo implies #[trigger] built.states[i] == base[i] by {
                assert(inner.states.take(lo)[i] == base[i]);
            }
        },
        ExprView::OneOrMore(a) => {
            let inner = build(*a, base);
            lemma_build(*a, base);
            lemma_loop_fragment(inner.states, lo, inner.entry, inner.entry);
            assert forall|i: int| 0 <= i < lo implies #[trigger] built.states[i] == base[i] by {
                assert(inner.states.take(lo)[i] == base[i]);
            }
        },
        ExprView::ZeroOrMore(a) => {
            let inner = build(*a, base);
            lemma_build(*a, base);
            lemma_loop_fragment(inner.states, lo, inner.entry, inner.states.len() as int);
            assert forall|i: int| 0 <= i < lo implies #[trigger] built.states[i] == base[i] by {
                assert(inner.states.take(lo)[i] == base[i]);
            }
        },
    }
    assert(built.states.take(lo) =~= base);
    if closed(base) {
        lemma_fragment_is_closed(base, built.states, built.entry);
    }
}

/// The automaton of a tree can be run: every edge leads to a state or out of
/// the automaton, none is detached, and the start is a state.
pub proof fn lemma_compile_is_well_formed(expr: ExprView)
    ensures
        compile(expr).well_formed(),
        compile(expr).states.len() > 0,
{
    let whole = build(expr, Seq::empty());
    lemma_build(expr, Seq::empty());
    let states = compile(expr).states;
    assert(closed(Seq::<StateView>::empty()));
    assert forall|i: int| 0 <= i < states.len() implies (#[trigger] states[i]).fits(
        states.len() as int,
    ) && states[i].is_connected() by {
        assert(whole.states[i].fits(whole.states.len() as int));
    }
}

/// What a walk that connects detached edges to `target` has done between
/// the markings `before` and `after`, starting at `root`: the states it has
/// marked are those of `graph` with their detached edges connected, each is
/// reached from `root`, each has all its successors marked, and every other
/// state is as it was.
spec fn swept(
    graph: Seq<StateView>,
    target: TransitionView,
    old_states: Seq<StateView>,
    new_states: Seq<StateView>,
    before: Seq<bool>,
    after: Seq<bool>,
    root: int,
) -> bool {
    &&& new_states.len() == old_states.len()
    &&& after.len() == before.len()
    &&& forall|j: int| 0 <= j < before.len() && before[j] ==> #[trigger] after[j]
    &&& forall|j: int|
        0 <= j < new_states.len() && !fresh(before, after, j) ==> #[trigger] new_states[j]
            == old_states[j]
    &&& forall|j: int|
        fresh(before, after, j) ==> #[trigger] new_states[j] == patch_state(graph[j], target)
    &&& forall|j: int, k: int|
        fresh(before, after, j) && #[trigger] graph[j].leads_to(k) ==> after[k]
    &&& forall|j: int| #[trigger] fresh(before, after, j) ==> reaches(edges(graph), root, j)
}

/// The states that are not marked are still those of `graph`.
spec fn untouched(graph: Seq<StateView>, states: Seq<StateView>, marks: Seq<bool>) -> bool {
    &&& states.len() == graph.len()
    &&& marks.len() == graph.len()
    &&& forall|j: int| 0 <= j < graph.len() && !marks[j] ==> #[trigger] states[j] == graph[j]
}

/// A walk that started with its root alone marked has connected what the
/// root reaches.
proof fn lemma_swept_from_root(
    graph: Seq<StateView>,
    target: TransitionView,
    states: Seq<StateView>,
    before: Seq<bool>,
    after: Seq<bool>,
    root: int,
)
    requires
        closed(graph),
        0 <= root < graph.len(),
        before.len() == graph.len(),
        forall|j: int| 0 <= j < before.len() ==> !#[trigger] before[j],
        swept(graph, target, graph, states, before, after, root),
        after[root],
    ensures
        states == patch_reachable(graph, root, target),
{
    let inside = |j: int| 0 <= j < after.len() && after[j];
    assert forall|a: int, b: int| inside(a) && #[trigger] edges(graph)(a, b) implies inside(b) by {
        assert(fresh(before, after, a));
        assert(graph[a].leads_to(b));
        assert(graph[a].fits(graph.len() as int));
    }
    assert forall|i: int| 0 <= i < graph.len() implies states[i] == patch_reachable(
        graph,
        root,
        target,
    )[i] by {
        if reaches(edges(graph), root, i) {
            lemma_reaches_stays_inside(edges(graph), inside, root, i);
            assert(fresh(before, after, i));
        } else {
            if after[i] {
                assert(fresh(before, after, i));
            }
        }
    }
    assert(states =~= patch_reachable(graph, root, target));
}

impl Transition {
    /// The edge, connected to `replacement` if it was detached.
    fn patched(self, replacement: Transition) -> (edge: Transition)
        ensures
            edge@ == patch_transition(self@, replacement@),
    {
        match self {
            Transition::Detached => replacement,
            _ => self,
        }
    }
}

impl NFA {
    /// Compiles a syntax tree.
    ///
    /// The result is `compile` of the tree. It can be run: every edge leads
    /// to a state or out of the automaton, and the start is a state.
    pub fn from_expr(expr: &Expr) -> (nfa: NFA)
        requires
            expr@.is_ascii(),
        ensures
            nfa@ == compile(expr@),
            nfa@.well_formed(),
    {
        let mut nfa = Self::new();
        let start = nfa.build_expr(expr);
        proof {
            let whole = build(expr@, Seq::empty());
            lemma_build(expr@, Seq::empty());
            lemma_patch_fragment(
                whole.states,
                0,
                whole.states.len() as int,
                whole.entry,
                TransitionView::End,
            );
            lemma_compile_is_well_formed(expr@);
        }
        nfa.update_outputs(start, Transition::End);
        nfa.start = start;
        nfa
    }

    /// Appends the fragment of `expr` and returns its entry.
    fn build_expr(&mut self, expr: &Expr) -> (id: usize)
        requires
            expr@.is_ascii(),
            old(self)@.is_closed(),
        ensures
            final(self)@.states == build(expr@, old(self)@.states).states,
            id == build(expr@, old(self)@.states).entry,
            final(self).start == old(self).start,
            final(self)@.is_closed(),
        decreases expr,
    {
        let ghost base = self@.states;
        proof {
            lemma_build(expr@, base);
        }
        match expr {
            Expr::Any => self.push_state(State::state(Condition::Any, Transition::Detached)),
            Expr::Single(c) => self.push_state(
                State::state(Condition::one(*c), Transition::Detached),
            ),
            Expr::Class(chars) => self.push_state(
                State::state(Condition::class(chars.clone()), Transition::Detached),
            ),
            Expr::Sequence(a, b) => {
                let left_id = self.build_expr(a);
                let ghost left = build(a@, base);
                let right_id = self.build_expr(b);
                let ghost right = build(b@, left.states);
                proof {
                    let lo = base.len() as int;
                    let mid = left.states.len() as int;
                    lemma_build(a@, base);
                    lemma_build(b@, left.states);
                    assert forall|i: int| lo <= i < mid implies #[trigger] right.states[i]
                        == left.states[i] by {
                        assert(right.states.take(mid)[i] == left.states[i]);
                    }
                    lemma_fragment_survives(left.states, right.states, lo, mid, left.entry);
                    lemma_patch_fragment(
                        right.states,
                        lo,
                        mid,
                        left.entry,
                        TransitionView::Id(right.entry),
                    );
                }
                self.update_outputs(left_id, Transition::Id(right_id));
                left_id
            },
            Expr::Optional(inner) => {
                let inner_id = self.build_expr(inner);
                proof {
                    lemma_build(inner@, base);
                }
                self.push_state(State::split(Transition::Id(inner_id), Transition::Detached))
            },
            Expr::OneOrMore(inner) => {
                let inner_id = self.build_expr(inner);
                proof {
                    lemma_build(inner@, base);
                }
                let split_id = self.push_state(
                    State::split(Transition::Id(inner_id), Transition::Detached),
                );
                proof {
                    self.lemma_loop(inner@, base);
                }
                self.update_outputs(inner_id, Transition::Id(split_id));
                inner_id
            },
            Expr::ZeroOrMore(inner) => {
                let inner_id = self.build_expr(inner);
                proof {
                    lemma_build(inner@, base);
                }
                let split_id = self.push_state(
                    State::split(Transition::Id(inner_id), Transition::Detached),
                );
                proof {
                    self.lemma_loop(inner@, base);
                }
                self.update_outputs(inner_id, Transition::Id(split_id));
                split_id
            },
            Expr::Or(a, b) => {
                let left_id = self.build_expr(a);
                let right_id = self.build_expr(b);
                proof {
                    lemma_build(a@, base);
                    lemma_build(b@, build(a@, base).states);
                }
                self.push_state(State::split(Transition::Id(left_id), Transition::Id(right_id)))
            },
        }
    }

    /// Once the branch of a loop is appended, the inner fragment is what its
    /// entry reaches.
    proof fn lemma_loop(&self, inner: ExprView, base: Seq<StateView>)
        requires
            self@.states == build(inner, base).states.push(
                branch(TransitionView::Id(build(inner, base).entry), TransitionView::Detached),
            ),
        ensures
            patch_reachable(
                self@.states,
                build(inner, base).entry,
                TransitionView::Id(build(inner, base).states.len() as int),
            ) == patch_range(
                self@.states,
                base.len() as int,
                build(inner, base).states.len() as int,
                TransitionView::Id(build(inner, base).states.len() as int),
            ),
    {
        let built = build(inner, base);
        lemma_build(inner, base);
        let lo = base.len() as int;
        let split = built.states.len() as int;
        lemma_fragment_survives(built.states, self@.states, lo, split, built.entry);
        lemma_patch_fragment(self@.states, lo, split, built.entry, TransitionView::Id(split));
    }

    /// Appends a state and returns its index.
    fn push_state(&mut self, state: State) -> (id: usize)
        requires
            old(self)@.is_closed(),
            state@.fits(old(self)@.states.len() as int + 1),
        ensures
            final(self)@.states == old(self)@.states.push(state@),
            id == old(self)@.states.len(),
            final(self).start == old(self).start,
            final(self)@.is_closed(),
    {
        self.states.push(state);
        assert(self@.states =~= old(self)@.states.push(state@));
        self.states.len() - 1
    }

    /// Connects every detached edge that `start_id` reaches to `new_edge`.
    fn update_outputs(&mut self, start_id: usize, new_edge: Transition)
        requires
            start_id < old(self)@.states.len(),
            old(self)@.is_closed(),
        ensures
            final(self)@.states == patch_reachable(old(self)@.states, start_id as int, new_edge@),
            final(self).start == old(self).start,
    {
        let ghost graph = self@.states;
        let mut visited: Vec<bool> = Vec::new();
        let mut i: usize = 0;
        while i < self.states.len()
            invariant
                i <= self.states.len(),
                visited.len() == i,
                forall|j: int| 0 <= j < i ==> !#[trigger] visited[j],
            decreases self.states.len() - i,
        {
            visited.push(false);
            i += 1;
        }
        let ghost nothing = visited@;
        visited.set(start_id, true);
        assert(visited@.update(start_id as int, false) =~= nothing);
        self.update_outputs_rec(start_id, &mut visited, new_edge, Ghost(graph));
        proof {
            lemma_swept_from_root(
                graph,
                new_edge@,
                self@.states,
                nothing,
                visited@,
                start_id as int,
            );
        }
    }

    /// Connects the detached edges of the state `start_id`, which is marked,
    /// and of every state that it reaches through states not yet marked.
    fn update_outputs_rec(
        &mut self,
        start_id: usize,
        visited: &mut Vec<bool>,
        new_edge: Transition,
        Ghost(graph): Ghost<Seq<StateView>>,
    )
        requires
            closed(graph),
            start_id < graph.len(),
            old(visited)@.len() == graph.len(),
            old(visited)@[start_id as int],
            untouched(graph, old(self)@.states, old(visited)@.update(start_id as int, false)),
        ensures
            swept(
                graph,
                new_edge@,
                old(self)@.states,
                final(self)@.states,
                old(visited)@.update(start_id as int, false),
                final(visited)@,
                start_id as int,
            ),
            final(visited)@[start_id as int],
            untouched(graph, final(self)@.states, final(visited)@),
            final(self).start == old(self).start,
        decreases unmarked(old(visited)@), 1int,
    {
        let ghost before = visited@.update(start_id as int, false);
        let ghost old_states = self@.states;
        let state = self.states[start_id].clone();
        proof {
            assert(self@.states[start_id as int] == self.states[start_id as int]@);
            assert(!before[start_id as int]);
            assert(state@ == graph[start_id as int]);
            assert(graph[start_id as int].fits(graph.len() as int));
            lemma_reaches_self(edges(graph), start_id as int);
        }
        let state = match state {
            State::State { condition, out } => {
                let edge = self.replace_edge(out, new_edge, visited, Ghost(graph));
                proof {
                    let after = visited@;
                    let states = self@.states;
                    if let TransitionView::Id(next) = out@ {
                        assert(graph[start_id as int].leads_to(next));
                        assert(edges(graph)(start_id as int, next));
                        assert forall|j: int| #[trigger] fresh(old(visited)@, after, j) implies reaches(
                            edges(graph),
                            start_id as int,
                            j,
                        ) by {
                            lemma_edge_then_reaches(edges(graph), start_id as int, next, j);
                        }
                    }
                }
                State::state(condition, edge)
            },
            State::Split { out1, out2 } => {
                let edge1 = self.replace_edge(out1, new_edge, visited, Ghost(graph));
                let ghost middle = visited@;
                let ghost middle_states = self@.states;
                proof {
                    lemma_marking_never_unmarks(old(visited)@, middle);
                    if let TransitionView::Id(next) = out1@ {
                        assert(graph[start_id as int].leads_to(next));
                        assert(edges(graph)(start_id as int, next));
                        assert forall|j: int| #[trigger]
                            fresh(old(visited)@, middle, j) implies reaches(
                            edges(graph),
                            start_id as int,
                            j,
                        ) by {
                            lemma_edge_then_reaches(edges(graph), start_id as int, next, j);
                        }
                    }
                }
                let edge2 = self.replace_edge(out2, new_edge, visited, Ghost(graph));
                proof {
                    let after = visited@;
                    if let TransitionView::Id(next) = out2@ {
                        assert(graph[start_id as int].leads_to(next));
                        assert(edges(graph)(start_id as int, next));
                        assert forall|j: int| #[trigger] fresh(middle, after, j) implies reaches(
                            edges(graph),
                            start_id as int,
                            j,
                        ) by {
                            lemma_edge_then_reaches(edges(graph), start_id as int, next, j);
                        }
                    }
                    assert forall|j: int| #[trigger]
                        fresh(old(visited)@, after, j) implies fresh(old(visited)@, middle, j)
                        || fresh(middle, after, j) by {}
                    assert forall|j: int|
                        fresh(old(visited)@, after, j) implies #[trigger] self@.states[j]
                        == patch_state(graph[j], new_edge@) by {
                        if fresh(old(visited)@, middle, j) {
                            assert(!fresh(middle, after, j));
                            assert(middle_states[j] == patch_state(graph[j], new_edge@));
                        } else {
                            assert(fresh(middle, after, j));
                        }
                    }
                    assert forall|j: int, k: int|
                        fresh(old(visited)@, after, j) && #[trigger] graph[j].leads_to(
                            k,
                        ) implies after[k] by {
                        if fresh(old(visited)@, middle, j) {
                            assert(middle[k]);
                            assert(graph[j].fits(graph.len() as int));
                        } else {
                            assert(fresh(middle, after, j));
                        }
                    }
                    assert forall|j: int|
                        0 <= j < old_states.len() && !fresh(
                            old(visited)@,
                            after,
                            j,
                        ) implies #[trigger] self@.states[j] == old_states[j] by {
                        assert(!fresh(old(visited)@, middle, j));
                        assert(!fresh(middle, after, j));
                        assert(middle_states[j] == old_states[j]);
                    }
                }
                State::split(edge1, edge2)
            },
        };
        let ghost swept_states = self@.states;
        let ghost after = visited@;
        self.states.set(start_id, state);
        proof {
            let now = self@.states;
            assert(now =~= swept_states.update(start_id as int, state@));
            assert(state@ == patch_state(graph[start_id as int], new_edge@));
            assert forall|j: int| fresh(before, after, j) implies #[trigger] now[j] == patch_state(
                graph[j],
                new_edge@,
            ) by {
                if j != start_id {
                    assert(fresh(old(visited)@, after, j));
                }
            }
            assert forall|j: int, k: int|
                fresh(before, after, j) && #[trigger] graph[j].leads_to(k) implies after[k] by {
                if j != start_id {
                    assert(fresh(old(visited)@, after, j));
                }
            }
            assert forall|j: int| #[trigger] fresh(before, after, j) implies reaches(
                edges(graph),
                start_id as int,
                j,
            ) by {
                if j != start_id {
                    assert(fresh(old(visited)@, after, j));
                }
            }
            assert forall|j: int|
                0 <= j < now.len() && !fresh(before, after, j) implies #[trigger] now[j]
                == old_states[j] by {
                assert(!fresh(old(visited)@, after, j));
            }
            assert forall|j: int| 0 <= j < before.len() && before[j] implies #[trigger] after[j] by {
                assert(old(visited)@[j]);
            }
        }
    }

    /// The edge, connected if it was detached; the state that it leads to is
    /// walked if it is not marked yet.
    fn replace_edge(
        &mut self,
        edge: Transition,
        replacement: Transition,
        visited: &mut Vec<bool>,
        Ghost(graph): Ghost<Seq<StateView>>,
    ) -> (patched: Transition)
        requires
            closed(graph),
            edge@.fits(graph.len() as int),
            untouched(graph, old(self)@.states, old(visited)@),
        ensures
            patched@ == patch_transition(edge@, replacement@),
            edge@ matches TransitionView::Id(id) ==> final(visited)@[id] && swept(
                graph,
                replacement@,
                old(self)@.states,
                final(self)@.states,
                old(visited)@,
                final(visited)@,
                id,
            ),
            !(edge@ is Id) ==> final(visited)@ == old(visited)@ && final(self)@.states == old(
                self,
            )@.states,
            untouched(graph, final(self)@.states, final(visited)@),
            final(self).start == old(self).start,
        decreases unmarked(old(visited)@), 0int,
    {
        match edge {
            Transition::Id(id) => {
                if !visited[id] {
                    proof {
                        lemma_mark(visited@, id as int);
                    }
                    visited.set(id, true);
                    assert(visited@.update(id as int, false) =~= old(visited)@);
                    self.update_outputs_rec(id, visited, replacement, Ghost(graph));
                }
            },
            _ => {},
        }
        edge.patched(replacement)
    }
}

} // verus!
