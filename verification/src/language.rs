//! What a pattern means: the texts that a syntax tree matches, and the proof
//! that the automaton of a tree accepts exactly the prefixes that the tree
//! matches.

use crate::compile::{
    branch, build, compile, consuming, lemma_build, lemma_compile_is_well_formed, patch_range,
    patch_state,
};
use crate::expr::ExprView;
use crate::graph::{
    is_walk, leaving, lemma_edge_then_reaches, lemma_first_exit, lemma_reaches_monotonic,
    lemma_reaches_self, lemma_reaches_then_edge, lemma_reaches_transitive, lemma_walk_image,
    lemma_walk_piece, lemma_walk_tail, links, reaches,
};
use crate::matcher::{admits, crossing, LINE_FEED};
use crate::nfa::{encode, ConditionView, StateView, TransitionView};
use crate::search::{
    accepts, first_thread, lemma_outcome_means, matched, moves, outcome, place, steps, unread,
    ThreadView,
};
use vstd::prelude::*;

verus! {

/// Whether the tree matches the whole of `s`.
///
/// A literal matches its byte, a class each of its bytes, `.` every byte
/// but a line feed. A sequence matches what splits into a match of the left
/// side and a match of the right; an alternation what either side matches.
/// `?` adds the empty text. `*` matches every text made of pieces in a row
/// of which the inner tree matches each, the empty text among them; `+`
/// asks for at least one piece.
pub open spec fn tree_matches(expr: ExprView, s: Seq<u8>) -> bool
    decreases expr,
{
    match expr {
        ExprView::Single(c) => s == seq![c as u8],
        ExprView::Class(cs) => s.len() == 1 && encode(cs).contains(s[0]),
        ExprView::Any => s.len() == 1 && s[0] != LINE_FEED,
        ExprView::Sequence(a, b) => exists|i: int|
            0 <= i <= s.len() && tree_matches(*a, #[trigger] s.take(i)) && tree_matches(*b, s.skip(i)),
        ExprView::Or(a, b) => tree_matches(*a, s) || tree_matches(*b, s),
        ExprView::Optional(a) => s.len() == 0 || tree_matches(*a, s),
        ExprView::ZeroOrMore(a) => exists|pieces: Seq<Seq<u8>>|
            #[trigger] pieces.flatten() == s && forall|k: int|
                0 <= k < pieces.len() ==> tree_matches(*a, #[trigger] pieces[k]),
        ExprView::OneOrMore(a) => exists|pieces: Seq<Seq<u8>>|
            #[trigger] pieces.flatten() == s && pieces.len() > 0 && forall|k: int|
                0 <= k < pieces.len() ==> tree_matches(*a, #[trigger] pieces[k]),
    }
}

/// Whether `s` is `times` texts in a row of which the tree matches each.
spec fn repeats(expr: ExprView, s: Seq<u8>, times: nat) -> bool
    decreases times,
{
    if times == 0 {
        s.len() == 0
    } else {
        exists|i: int|
            0 <= i <= s.len() && tree_matches(expr, #[trigger] s.take(i)) && repeats(
                expr,
                s.skip(i),
                (times - 1) as nat,
            )
    }
}

/// `pieces` are texts of which the tree matches each.
spec fn all_match(expr: ExprView, pieces: Seq<Seq<u8>>) -> bool {
    forall|k: int| 0 <= k < pieces.len() ==> tree_matches(expr, #[trigger] pieces[k])
}

/// Texts in a row of which the tree matches each can be cut into pieces.
proof fn lemma_repeats_has_pieces(expr: ExprView, s: Seq<u8>, times: nat) -> (pieces: Seq<
    Seq<u8>,
>)
    requires
        repeats(expr, s, times),
    ensures
        pieces.len() == times,
        pieces.flatten() == s,
        all_match(expr, pieces),
    decreases times,
{
    if times == 0 {
        let pieces = Seq::<Seq<u8>>::empty();
        assert(pieces.flatten() =~= s);
        pieces
    } else {
        let i = choose|i: int|
            0 <= i <= s.len() && tree_matches(expr, #[trigger] s.take(i)) && repeats(
                expr,
                s.skip(i),
                (times - 1) as nat,
            );
        let rest = lemma_repeats_has_pieces(expr, s.skip(i), (times - 1) as nat);
        let pieces = seq![s.take(i)] + rest;
        assert(pieces.first() == s.take(i));
        assert(pieces.drop_first() =~= rest);
        assert(pieces.flatten() =~= s.take(i) + s.skip(i));
        assert(s.take(i) + s.skip(i) =~= s);
        assert forall|k: int| 0 <= k < pieces.len() implies tree_matches(
            expr,
            #[trigger] pieces[k],
        ) by {
            if k > 0 {
                assert(pieces[k] == rest[k - 1]);
            }
        }
        pieces
    }
}

/// Pieces of which the tree matches each make a text that it repeats on.
proof fn lemma_pieces_repeat(expr: ExprView, pieces: Seq<Seq<u8>>)
    requires
        all_match(expr, pieces),
    ensures
        repeats(expr, pieces.flatten(), pieces.len()),
    decreases pieces.len(),
{
    let s = pieces.flatten();
    if pieces.len() > 0 {
        let rest = pieces.drop_first();
        assert forall|k: int| 0 <= k < rest.len() implies tree_matches(expr, #[trigger] rest[k]) by {
            assert(rest[k] == pieces[k + 1]);
        }
        lemma_pieces_repeat(expr, rest);
        let i = pieces.first().len() as int;
        assert(s =~= pieces.first() + rest.flatten());
        assert(s.take(i) =~= pieces[0]);
        assert(s.skip(i) =~= rest.flatten());
    }
}

/// The thread at the state `i` with `remaining` bytes to read.
pub open spec fn at(i: int, remaining: int) -> ThreadView {
    ThreadView { position: Some(i), remaining }
}

/// The thread that has left the automaton with `remaining` bytes to read.
pub open spec fn left(remaining: int) -> ThreadView {
    ThreadView { position: None, remaining }
}

/// The threads at the states from `lo` up to `hi`.
spec fn among(lo: int, hi: int) -> spec_fn(ThreadView) -> bool {
    |t: ThreadView| t.position matches Some(i) && lo <= i < hi
}

/// Whether a thread at `state` with `remaining` bytes of `text` to read can
/// step to `to`; the order of the steps aside, this is what `steps` says.
spec fn hops(state: StateView, text: Seq<u8>, remaining: int, to: ThreadView) -> bool {
    match state {
        StateView::State { condition, out } => {
            &&& crossing(condition, unread(text, remaining)) matches Some(rest)
            &&& to == ThreadView { position: place(out), remaining: rest.len() as int }
        },
        StateView::Split { out1, out2 } => {
            ||| to == ThreadView { position: place(out1), remaining }
            ||| to == ThreadView { position: place(out2), remaining }
        },
    }
}

/// A move of the run is a hop from the state of the thread.
proof fn lemma_moves_are_hops(
    states: Seq<StateView>,
    text: Seq<u8>,
    from: ThreadView,
    to: ThreadView,
)
    ensures
        moves(states, text)(from, to) <==> (from.position matches Some(i) && hops(
            states[i],
            text,
            from.remaining,
            to,
        )),
{
    if let Some(i) = from.position {
        let next = steps(states, text, from);
        match states[i] {
            StateView::State { condition, out } => {
                if let Some(after) = crossing(condition, unread(text, from.remaining)) {
                    let only = ThreadView { position: place(out), remaining: after.len() as int };
                    assert(next =~= seq![only]);
                    assert(next[0] == only);
                } else {
                    assert(next =~= seq![]);
                }
            },
            StateView::Split { out1, out2 } => {
                let first = ThreadView { position: place(out1), remaining: from.remaining };
                let second = ThreadView { position: place(out2), remaining: from.remaining };
                assert(next =~= seq![first, second] || next =~= seq![second, first]);
                assert(next[0] == first || next[0] == second);
                assert(next[1] == first || next[1] == second);
            },
        }
    }
}

/// What a hop does to the number of bytes that are left, where that number
/// is at most the length of the text.
proof fn lemma_hop_reads(state: StateView, text: Seq<u8>, remaining: int, to: ThreadView)
    requires
        0 <= remaining <= text.len(),
    ensures
        hops(state, text, remaining, to) <==> match state {
            StateView::State { condition, out } => {
                &&& to.position == place(out)
                &&& if condition == ConditionView::Epsilon {
                    to.remaining == remaining
                } else {
                    &&& remaining >= 1
                    &&& admits(condition, text[text.len() - remaining])
                    &&& to.remaining == remaining - 1
                }
            },
            StateView::Split { out1, out2 } => {
                &&& to.remaining == remaining
                &&& to.position == place(out1) || to.position == place(out2)
            },
        },
{
    let rest = unread(text, remaining);
    assert(rest.len() == remaining);
    if remaining >= 1 {
        assert(rest[0] == text[text.len() - remaining]);
    }
}

/// No edge of the states from `lo` up to `hi` leaves them, and none leads
/// out of the automaton: every edge leads to one of them or is detached.
spec fn is_open(states: Seq<StateView>, lo: int, hi: int) -> bool {
    &&& 0 <= lo <= hi <= states.len()
    &&& forall|i: int| lo <= i < hi ==> has_inner_edges(#[trigger] states[i], lo, hi)
}

/// Every edge of the state is detached or leads to a state from `lo` up to
/// `hi`.
spec fn has_inner_edges(state: StateView, lo: int, hi: int) -> bool {
    match state {
        StateView::State { out, .. } => is_inner(out, lo, hi),
        StateView::Split { out1, out2 } => is_inner(out1, lo, hi) && is_inner(out2, lo, hi),
    }
}

/// The edge is detached or leads to a state from `lo` up to `hi`.
spec fn is_inner(edge: TransitionView, lo: int, hi: int) -> bool {
    match edge {
        TransitionView::Id(j) => lo <= j < hi,
        TransitionView::Detached => true,
        TransitionView::End => false,
    }
}

/// The edge leads to a state from `lo` up to `hi`, or to none.
spec fn is_kept(edge: TransitionView, lo: int, hi: int) -> bool {
    place(edge) matches Some(j) ==> lo <= j < hi
}

/// No edge of the states from `lo` up to `hi` leads to a state that is not
/// one of them.
spec fn is_enclosed(states: Seq<StateView>, lo: int, hi: int) -> bool {
    &&& 0 <= lo <= hi <= states.len()
    &&& forall|i: int| lo <= i < hi ==> keeps_edges(#[trigger] states[i], lo, hi)
}

/// Every edge of the state leads to a state from `lo` up to `hi`, or to
/// none.
spec fn keeps_edges(state: StateView, lo: int, hi: int) -> bool {
    match state {
        StateView::State { out, .. } => is_kept(out, lo, hi),
        StateView::Split { out1, out2 } => is_kept(out1, lo, hi) && is_kept(out2, lo, hi),
    }
}

/// Two states between which a run sees no difference: they ask the same of
/// the next byte and lead to the same states.
spec fn alike(state: StateView, other: StateView) -> bool {
    match (state, other) {
        (
            StateView::State { condition, out },
            StateView::State { condition: condition2, out: out2 },
        ) => condition == condition2 && place(out) == place(out2),
        (
            StateView::Split { out1, out2 },
            StateView::Split { out1: other1, out2: other2 },
        ) => place(out1) == place(other1) && place(out2) == place(other2),
        _ => false,
    }
}

/// Open states are enclosed.
proof fn lemma_open_is_enclosed(states: Seq<StateView>, lo: int, hi: int)
    requires
        is_open(states, lo, hi),
    ensures
        is_enclosed(states, lo, hi),
{
    assert forall|i: int| lo <= i < hi implies keeps_edges(#[trigger] states[i], lo, hi) by {
        assert(has_inner_edges(states[i], lo, hi));
    }
}

/// A hop from a state whose edges are kept leads among the states or out.
proof fn lemma_hop_stays(
    states: Seq<StateView>,
    text: Seq<u8>,
    lo: int,
    hi: int,
    from: ThreadView,
    to: ThreadView,
)
    requires
        is_enclosed(states, lo, hi),
        among(lo, hi)(from),
        0 <= from.remaining <= text.len(),
        moves(states, text)(from, to),
    ensures
        among(lo, hi)(to) || to.position is None,
        0 <= to.remaining <= from.remaining,
        from.remaining - to.remaining <= 1,
{
    lemma_moves_are_hops(states, text, from, to);
    let i = from.position->0;
    lemma_hop_reads(states[i], text, from.remaining, to);
}

/// A walk that starts among enclosed states stays among them until it ends,
/// and never has more to read than it started with.
proof fn lemma_walk_stays(
    states: Seq<StateView>,
    text: Seq<u8>,
    lo: int,
    hi: int,
    walk: Seq<ThreadView>,
    k: int,
)
    requires
        is_enclosed(states, lo, hi),
        is_walk(moves(states, text), walk),
        among(lo, hi)(walk[0]),
        0 <= walk[0].remaining <= text.len(),
        0 <= k < walk.len(),
    ensures
        0 <= walk[k].remaining <= walk[0].remaining,
        among(lo, hi)(walk[k]) || (walk[k].position is None && k == walk.len() - 1),
    decreases k,
{
    if k > 0 {
        lemma_walk_stays(states, text, lo, hi, walk, k - 1);
        assert(links(moves(states, text), walk, k - 1));
        lemma_hop_stays(states, text, lo, hi, walk[k - 1], walk[k]);
        if k < walk.len() - 1 {
            assert(links(moves(states, text), walk, k));
        }
    }
}

/// What a thread among enclosed states reaches depends on those states
/// alone, and on no more of them than a run sees.
proof fn lemma_same_walks(
    states: Seq<StateView>,
    other: Seq<StateView>,
    text: Seq<u8>,
    lo: int,
    hi: int,
    from: ThreadView,
    to: ThreadView,
)
    requires
        is_enclosed(states, lo, hi),
        hi <= other.len(),
        forall|i: int| lo <= i < hi ==> alike(states[i], #[trigger] other[i]),
        among(lo, hi)(from),
        0 <= from.remaining <= text.len(),
        reaches(moves(states, text), from, to),
    ensures
        reaches(moves(other, text), from, to),
{
    let walk = choose|walk: Seq<ThreadView>| #[trigger]
        is_walk(moves(states, text), walk) && walk[0] == from && walk.last() == to;
    assert forall|k: int| 0 <= k < walk.len() - 1 implies #[trigger] links(
        moves(other, text),
        walk,
        k,
    ) by {
        lemma_walk_stays(states, text, lo, hi, walk, k);
        assert(links(moves(states, text), walk, k));
        lemma_moves_are_hops(states, text, walk[k], walk[k + 1]);
        lemma_moves_are_hops(other, text, walk[k], walk[k + 1]);
        let i = walk[k].position->0;
        assert(alike(states[i], other[i]));
    }
    assert(is_walk(moves(other, text), walk));
}

/// A thread that has left the automaton reaches itself alone.
proof fn lemma_left_is_final(states: Seq<StateView>, text: Seq<u8>, remaining: int, to: ThreadView)
    requires
        reaches(moves(states, text), left(remaining), to),
    ensures
        to == left(remaining),
{
    let walk = choose|walk: Seq<ThreadView>| #[trigger]
        is_walk(moves(states, text), walk) && walk[0] == left(remaining) && walk.last() == to;
    if walk.len() > 1 {
        assert(links(moves(states, text), walk, 0));
    }
}

/// A walk to another thread starts with a move.
proof fn lemma_first_move(
    states: Seq<StateView>,
    text: Seq<u8>,
    walk: Seq<ThreadView>,
)
    requires
        is_walk(moves(states, text), walk),
        walk[0] != walk.last(),
    ensures
        walk.len() >= 2,
        moves(states, text)(walk[0], walk[1]),
        is_walk(moves(states, text), walk.drop_first()),
        walk.drop_first()[0] == walk[1],
        walk.drop_first().last() == walk.last(),
{
    lemma_walk_tail(moves(states, text), walk);
}

/// The states from `lo` up to `hi` of `other` are those of `states` with
/// their detached edges connected to the state `target`, which is not one of
/// them.
spec fn redirected(
    states: Seq<StateView>,
    other: Seq<StateView>,
    lo: int,
    hi: int,
    target: int,
) -> bool {
    &&& is_open(states, lo, hi)
    &&& hi <= other.len()
    &&& !(lo <= target < hi)
    &&& forall|i: int|
        lo <= i < hi ==> #[trigger] other[i] == patch_state(states[i], TransitionView::Id(target))
}

/// Where a thread leaves open states, it arrives at the target once their
/// detached edges are connected to it.
proof fn lemma_redirect_forward(
    states: Seq<StateView>,
    other: Seq<StateView>,
    text: Seq<u8>,
    lo: int,
    hi: int,
    target: int,
    from: ThreadView,
    remaining: int,
)
    requires
        redirected(states, other, lo, hi, target),
        among(lo, hi)(from),
        0 <= from.remaining <= text.len(),
        reaches(moves(states, text), from, left(remaining)),
    ensures
        reaches(leaving(moves(other, text), among(lo, hi)), from, at(target, remaining)),
        reaches(moves(other, text), from, at(target, remaining)),
{
    let walk = choose|walk: Seq<ThreadView>| #[trigger]
        is_walk(moves(states, text), walk) && walk[0] == from && walk.last() == left(remaining);
    let carry = |t: ThreadView|
        if t.position is None {
            at(target, t.remaining)
        } else {
            t
        };
    let inner = leaving(moves(other, text), among(lo, hi));
    lemma_open_is_enclosed(states, lo, hi);
    assert forall|k: int|
        0 <= k < walk.len() - 1 && #[trigger] links(moves(states, text), walk, k) implies inner(
        carry(walk[k]),
        carry(walk[k + 1]),
    ) by {
        lemma_walk_stays(states, text, lo, hi, walk, k);
        lemma_moves_are_hops(states, text, walk[k], walk[k + 1]);
        lemma_moves_are_hops(other, text, walk[k], carry(walk[k + 1]));
        let i = walk[k].position->0;
        assert(other[i] == patch_state(states[i], TransitionView::Id(target)));
    }
    lemma_walk_image(moves(states, text), inner, carry, walk);
    lemma_reaches_monotonic(inner, moves(other, text), from, at(target, remaining));
}

/// A walk that leaves states whose detached edges are connected to a target
/// arrives at the target, and leaves the states as they were where it
/// arrives.
proof fn lemma_redirect_backward(
    states: Seq<StateView>,
    other: Seq<StateView>,
    text: Seq<u8>,
    lo: int,
    hi: int,
    target: int,
    walk: Seq<ThreadView>,
)
    requires
        redirected(states, other, lo, hi, target),
        is_walk(leaving(moves(other, text), among(lo, hi)), walk),
        among(lo, hi)(walk[0]),
        0 <= walk[0].remaining <= text.len(),
        !among(lo, hi)(walk.last()),
    ensures
        walk.last().position == Some(target),
        0 <= walk.last().remaining <= walk[0].remaining,
        reaches(moves(states, text), walk[0], left(walk.last().remaining)),
{
    let inner = leaving(moves(other, text), among(lo, hi));
    let carry = |t: ThreadView|
        if among(lo, hi)(t) {
            t
        } else {
            left(t.remaining)
        };
    let image = walk.map_values(carry);
    assert forall|k: int| 0 <= k < walk.len() - 1 implies #[trigger] links(
        moves(states, text),
        image,
        k,
    ) && (among(lo, hi)(walk[k + 1]) || walk[k + 1].position == Some(target)) by {
        assert(links(inner, walk, k));
        lemma_moves_are_hops(other, text, walk[k], walk[k + 1]);
        lemma_moves_are_hops(states, text, walk[k], carry(walk[k + 1]));
        let i = walk[k].position->0;
        assert(other[i] == patch_state(states[i], TransitionView::Id(target)));
    }
    assert(is_walk(moves(states, text), image)) by {
        assert forall|k: int| 0 <= k < image.len() - 1 implies #[trigger] links(
            moves(states, text),
            image,
            k,
        ) by {}
    }
    let last = walk.len() - 1;
    lemma_open_is_enclosed(states, lo, hi);
    assert(links(moves(states, text), image, last - 1));
    lemma_walk_stays(states, text, lo, hi, image, last);
    assert(image[0] == walk[0]);
    assert(image[last] == left(walk[last].remaining));
}

/// A walk from among states whose detached edges are connected to a target
/// to a thread that is not among them passes the target: up to there it is
/// a walk out of the states as they were, and from there on a shorter walk.
proof fn lemma_through(
    states: Seq<StateView>,
    other: Seq<StateView>,
    text: Seq<u8>,
    lo: int,
    hi: int,
    target: int,
    walk: Seq<ThreadView>,
) -> (rest: Seq<ThreadView>)
    requires
        redirected(states, other, lo, hi, target),
        is_walk(moves(other, text), walk),
        among(lo, hi)(walk[0]),
        0 <= walk[0].remaining <= text.len(),
        !among(lo, hi)(walk.last()),
    ensures
        is_walk(moves(other, text), rest),
        rest.len() < walk.len(),
        rest.last() == walk.last(),
        rest[0].position == Some(target),
        0 <= rest[0].remaining <= walk[0].remaining,
        reaches(moves(states, text), walk[0], left(rest[0].remaining)),
{
    let k = lemma_first_exit(moves(other, text), among(lo, hi), walk);
    let piece = walk.subrange(0, k + 1);
    lemma_redirect_backward(states, other, text, lo, hi, target, piece);
    lemma_walk_piece(moves(other, text), walk, k, walk.len() - 1);
    walk.subrange(k, walk.len() as int)
}

/// A thread that starts at the state `entry` with `from` bytes to read can
/// leave the automaton with `to` bytes to read.
spec fn spans(states: Seq<StateView>, text: Seq<u8>, entry: int, from: int, to: int) -> bool {
    reaches(moves(states, text), at(entry, from), left(to))
}

/// The bytes of `text` between the points where `from` and `to` bytes are
/// left.
spec fn slice(text: Seq<u8>, from: int, to: int) -> Seq<u8> {
    text.subrange(text.len() - from, text.len() - to)
}

/// What `build` adds to `base` has no edge that leaves it: each leads to one
/// of the new states or is detached.
proof fn lemma_build_is_open(expr: ExprView, base: Seq<StateView>)
    ensures
        is_open(
            build(expr, base).states,
            base.len() as int,
            build(expr, base).states.len() as int,
        ),
    decreases expr,
{
    let lo = base.len() as int;
    let built = build(expr, base);
    lemma_build(expr, base);
    match expr {
        ExprView::Any => {},
        ExprView::Single(c) => {},
        ExprView::Class(cs) => {},
        ExprView::Sequence(a, b) => {
            let first = build(*a, base);
            let second = build(*b, first.states);
            lemma_build(*a, base);
            lemma_build(*b, first.states);
            lemma_build_is_open(*a, base);
            lemma_build_is_open(*b, first.states);
            let mid = first.states.len() as int;
            assert forall|i: int| lo <= i < built.states.len() implies has_inner_edges(
                #[trigger] built.states[i],
                lo,
                built.states.len() as int,
            ) by {
                if i < mid {
                    assert(second.states.take(mid)[i] == first.states[i]);
                    assert(has_inner_edges(first.states[i], lo, mid));
                } else {
                    assert(has_inner_edges(second.states[i], mid, built.states.len() as int));
                }
            }
        },
        ExprView::Or(a, b) => {
            let first = build(*a, base);
            let second = build(*b, first.states);
            lemma_build(*a, base);
            lemma_build(*b, first.states);
            lemma_build_is_open(*a, base);
            lemma_build_is_open(*b, first.states);
            let mid = first.states.len() as int;
            assert forall|i: int| lo <= i < built.states.len() implies has_inner_edges(
                #[trigger] built.states[i],
                lo,
                built.states.len() as int,
            ) by {
                if i < mid {
                    assert(second.states.take(mid)[i] == first.states[i]);
                    assert(has_inner_edges(first.states[i], lo, mid));
                } else if i < second.states.len() {
                    assert(has_inner_edges(second.states[i], mid, second.states.len() as int));
                }
            }
        },
        ExprView::Optional(a) => {
            let inner = build(*a, base);
            lemma_build(*a, base);
            lemma_build_is_open(*a, base);
            assert forall|i: int| lo <= i < built.states.len() implies has_inner_edges(
                #[trigger] built.states[i],
                lo,
                built.states.len() as int,
            ) by {
                if i < inner.states.len() {
                    assert(has_inner_edges(inner.states[i], lo, inner.states.len() as int));
                }
            }
        },
        ExprView::OneOrMore(a) => {
            let inner = build(*a, base);
            lemma_build(*a, base);
            lemma_build_is_open(*a, base);
            assert forall|i: int| lo <= i < built.states.len() implies has_inner_edges(
                #[trigger] built.states[i],
                lo,
                built.states.len() as int,
            ) by {
                if i < inner.states.len() {
                    assert(has_inner_edges(inner.states[i], lo, inner.states.len() as int));
                }
            }
        },
        ExprView::ZeroOrMore(a) => {
            let inner = build(*a, base);
            lemma_build(*a, base);
            lemma_build_is_open(*a, base);
            assert forall|i: int| lo <= i < built.states.len() implies has_inner_edges(
                #[trigger] built.states[i],
                lo,
                built.states.len() as int,
            ) by {
                if i < inner.states.len() {
                    assert(has_inner_edges(inner.states[i], lo, inner.states.len() as int));
                }
            }
        },
    }
}

/// A thread at a state that consumes a byte and is not connected leaves the
/// automaton by reading one byte that the state admits.
proof fn lemma_leaf_spans(
    base: Seq<StateView>,
    condition: ConditionView,
    text: Seq<u8>,
    from: int,
    to: int,
)
    requires
        condition != ConditionView::Epsilon,
        0 <= from <= text.len(),
    ensures
        spans(base.push(consuming(condition)), text, base.len() as int, from, to) <==> (from >= 1
            && to == from - 1 && admits(condition, text[text.len() - from])),
{
    let states = base.push(consuming(condition));
    let lo = base.len() as int;
    let step = moves(states, text);
    assert(states[lo] == consuming(condition));
    lemma_moves_are_hops(states, text, at(lo, from), left(to));
    lemma_hop_reads(states[lo], text, from, left(to));
    if spans(states, text, lo, from, to) {
        let walk = choose|walk: Seq<ThreadView>| #[trigger]
            is_walk(step, walk) && walk[0] == at(lo, from) && walk.last() == left(to);
        lemma_first_move(states, text, walk);
        lemma_moves_are_hops(states, text, walk[0], walk[1]);
        lemma_hop_reads(states[lo], text, from, walk[1]);
        lemma_walk_piece(step, walk, 1, walk.len() - 1);
        lemma_left_is_final(states, text, from - 1, walk.last());
    }
    if from >= 1 && to == from - 1 && admits(condition, text[text.len() - from]) {
        lemma_reaches_self(step, at(lo, from));
        lemma_reaches_then_edge(step, at(lo, from), at(lo, from), left(to));
    }
}

/// A thread at a branch leaves the automaton by the first edge or by the
/// second.
proof fn lemma_branch_spans(
    states: Seq<StateView>,
    text: Seq<u8>,
    at_branch: int,
    from: int,
    to: int,
)
    requires
        0 <= at_branch < states.len(),
        states[at_branch] is Split,
        0 <= from <= text.len(),
    ensures
        spans(states, text, at_branch, from, to) <==> (reaches(
            moves(states, text),
            (ThreadView { position: place(states[at_branch]->out1), remaining: from }),
            left(to),
        ) || reaches(
            moves(states, text),
            (ThreadView { position: place(states[at_branch]->out2), remaining: from }),
            left(to),
        )),
{
    let step = moves(states, text);
    let first = ThreadView { position: place(states[at_branch]->out1), remaining: from };
    let second = ThreadView { position: place(states[at_branch]->out2), remaining: from };
    lemma_moves_are_hops(states, text, at(at_branch, from), first);
    lemma_moves_are_hops(states, text, at(at_branch, from), second);
    if spans(states, text, at_branch, from, to) {
        let walk = choose|walk: Seq<ThreadView>| #[trigger]
            is_walk(step, walk) && walk[0] == at(at_branch, from) && walk.last() == left(to);
        lemma_first_move(states, text, walk);
        lemma_moves_are_hops(states, text, walk[0], walk[1]);
        lemma_walk_piece(step, walk, 1, walk.len() - 1);
    }
    if reaches(step, first, left(to)) {
        lemma_edge_then_reaches(step, at(at_branch, from), first, left(to));
    }
    if reaches(step, second, left(to)) {
        lemma_edge_then_reaches(step, at(at_branch, from), second, left(to));
    }
}

/// What a thread among enclosed states reaches is the same in every
/// automaton that has states like these in their places.
proof fn lemma_spans_alike(
    states: Seq<StateView>,
    other: Seq<StateView>,
    text: Seq<u8>,
    lo: int,
    hi: int,
    entry: int,
    from: int,
    to: int,
)
    requires
        is_enclosed(states, lo, hi),
        hi <= other.len(),
        forall|i: int| lo <= i < hi ==> alike(states[i], #[trigger] other[i]),
        lo <= entry < hi,
        0 <= from <= text.len(),
    ensures
        spans(states, text, entry, from, to) == spans(other, text, entry, from, to),
{
    if spans(states, text, entry, from, to) {
        lemma_same_walks(states, other, text, lo, hi, at(entry, from), left(to));
    }
    if spans(other, text, entry, from, to) {
        assert(is_enclosed(other, lo, hi)) by {
            assert forall|i: int| lo <= i < hi implies keeps_edges(
                #[trigger] other[i],
                lo,
                hi,
            ) by {
                assert(alike(states[i], other[i]));
                assert(keeps_edges(states[i], lo, hi));
            }
        }
        assert forall|i: int| lo <= i < hi implies alike(other[i], #[trigger] states[i]) by {
            assert(alike(states[i], other[i]));
        }
        lemma_same_walks(other, states, text, lo, hi, at(entry, from), left(to));
    }
}

/// States that are equal are alike.
proof fn lemma_equal_is_alike(states: Seq<StateView>, other: Seq<StateView>, lo: int, hi: int)
    requires
        hi <= other.len(),
        forall|i: int| lo <= i < hi ==> #[trigger] other[i] == states[i],
    ensures
        forall|i: int| lo <= i < hi ==> alike(states[i], #[trigger] other[i]),
{
    assert forall|i: int| lo <= i < hi implies alike(states[i], #[trigger] other[i]) by {
        assert(other[i] == states[i]);
    }
}

/// A thread that enters the first of two fragments in a row, the first
/// connected to the entry of the second, leaves the automaton by leaving
/// the first and then the second.
proof fn lemma_sequence_spans(
    states: Seq<StateView>,
    text: Seq<u8>,
    lo: int,
    mid: int,
    hi: int,
    first: int,
    second: int,
    from: int,
    to: int,
)
    requires
        is_open(states, lo, mid),
        is_open(states, mid, hi),
        lo <= first < mid <= second < hi,
        0 <= from <= text.len(),
    ensures
        spans(patch_range(states, lo, mid, TransitionView::Id(second)), text, first, from, to)
            <==> exists|middle: int| #[trigger]
            spans(states, text, first, from, middle) && 0 <= middle <= from && spans(
                states,
                text,
                second,
                middle,
                to,
            ),
{
    let joined = patch_range(states, lo, mid, TransitionView::Id(second));
    let step = moves(joined, text);
    assert(redirected(states, joined, lo, mid, second));
    lemma_open_is_enclosed(states, mid, hi);
    lemma_equal_is_alike(states, joined, mid, hi);
    if spans(joined, text, first, from, to) {
        let walk = choose|walk: Seq<ThreadView>| #[trigger]
            is_walk(step, walk) && walk[0] == at(first, from) && walk.last() == left(to);
        let rest = lemma_through(states, joined, text, lo, mid, second, walk);
        let middle = rest[0].remaining;
        assert(rest[0] == at(second, middle));
        assert(reaches(step, at(second, middle), left(to)));
        lemma_spans_alike(states, joined, text, mid, hi, second, middle, to);
        assert(spans(states, text, first, from, middle));
    }
    if exists|middle: int| #[trigger]
        spans(states, text, first, from, middle) && 0 <= middle <= from && spans(
            states,
            text,
            second,
            middle,
            to,
        ) {
        let middle = choose|middle: int| #[trigger]
            spans(states, text, first, from, middle) && 0 <= middle <= from && spans(
                states,
                text,
                second,
                middle,
                to,
            );
        lemma_redirect_forward(states, joined, text, lo, mid, second, at(first, from), middle);
        lemma_spans_alike(states, joined, text, mid, hi, second, middle, to);
        lemma_reaches_transitive(step, at(first, from), at(second, middle), left(to));
    }
}

/// A thread passes `times` times from the state `entry` out of the
/// automaton, each time going on with the bytes that the time before has
/// left, from `from` bytes to `to`.
spec fn rounds(
    states: Seq<StateView>,
    text: Seq<u8>,
    entry: int,
    from: int,
    to: int,
    times: nat,
) -> bool
    decreases times,
{
    if times == 0 {
        to == from
    } else {
        exists|middle: int| #[trigger]
            spans(states, text, entry, from, middle) && 0 <= middle <= from && rounds(
                states,
                text,
                entry,
                middle,
                to,
                (times - 1) as nat,
            )
    }
}

/// The states up to `split` are open, `split` is a branch that enters them
/// at `entry` or leaves, and `looped` has them connected back to the branch.
spec fn is_loop(
    states: Seq<StateView>,
    looped: Seq<StateView>,
    lo: int,
    split: int,
    entry: int,
) -> bool {
    &&& redirected(states, looped, lo, split, split)
    &&& lo <= entry < split < looped.len()
    &&& looped[split] == branch(TransitionView::Id(entry), TransitionView::Detached)
}

/// A walk from the branch of a loop out of the automaton makes some number
/// of rounds through the body.
proof fn lemma_loop_walk(
    states: Seq<StateView>,
    looped: Seq<StateView>,
    text: Seq<u8>,
    lo: int,
    split: int,
    entry: int,
    walk: Seq<ThreadView>,
) -> (times: nat)
    requires
        is_loop(states, looped, lo, split, entry),
        is_walk(moves(looped, text), walk),
        walk[0].position == Some(split),
        0 <= walk[0].remaining <= text.len(),
        walk.last().position is None,
    ensures
        rounds(states, text, entry, walk[0].remaining, walk.last().remaining, times),
        0 <= walk.last().remaining <= walk[0].remaining,
    decreases walk.len(),
{
    let step = moves(looped, text);
    let from = walk[0].remaining;
    lemma_first_move(looped, text, walk);
    lemma_moves_are_hops(looped, text, walk[0], walk[1]);
    let tail = walk.drop_first();
    if walk[1].position is None {
        lemma_walk_piece(step, walk, 1, walk.len() - 1);
        lemma_left_is_final(looped, text, from, walk.last());
        0
    } else {
        assert(tail[0] == at(entry, from));
        let rest = lemma_through(states, looped, text, lo, split, split, tail);
        let middle = rest[0].remaining;
        let times = lemma_loop_walk(states, looped, text, lo, split, entry, rest);
        assert(spans(states, text, entry, from, middle));
        (times + 1) as nat
    }
}

/// Rounds through the body of a loop are a walk from its branch out of the
/// automaton.
proof fn lemma_loop_back(
    states: Seq<StateView>,
    looped: Seq<StateView>,
    text: Seq<u8>,
    lo: int,
    split: int,
    entry: int,
    from: int,
    to: int,
    times: nat,
)
    requires
        is_loop(states, looped, lo, split, entry),
        0 <= from <= text.len(),
        rounds(states, text, entry, from, to, times),
    ensures
        spans(looped, text, split, from, to),
    decreases times,
{
    let step = moves(looped, text);
    if times == 0 {
        lemma_moves_are_hops(looped, text, at(split, from), left(from));
        lemma_reaches_self(step, at(split, from));
        lemma_reaches_then_edge(step, at(split, from), at(split, from), left(from));
    } else {
        let middle = choose|middle: int| #[trigger]
            spans(states, text, entry, from, middle) && 0 <= middle <= from && rounds(
                states,
                text,
                entry,
                middle,
                to,
                (times - 1) as nat,
            );
        lemma_redirect_forward(states, looped, text, lo, split, split, at(entry, from), middle);
        lemma_loop_back(states, looped, text, lo, split, entry, middle, to, (times - 1) as nat);
        lemma_moves_are_hops(looped, text, at(split, from), at(entry, from));
        lemma_reaches_transitive(step, at(entry, from), at(split, middle), left(to));
        lemma_edge_then_reaches(step, at(split, from), at(entry, from), left(to));
    }
}

/// A thread at the branch of a loop leaves the automaton by some number of
/// rounds through the body; a thread at the entry of the body by at least
/// one.
proof fn lemma_loop_spans(
    states: Seq<StateView>,
    looped: Seq<StateView>,
    text: Seq<u8>,
    lo: int,
    split: int,
    entry: int,
    from: int,
    to: int,
)
    requires
        is_loop(states, looped, lo, split, entry),
        0 <= from <= text.len(),
    ensures
        spans(looped, text, split, from, to) <==> exists|times: nat|
            rounds(states, text, entry, from, to, times),
        spans(looped, text, entry, from, to) <==> exists|times: nat|
            times > 0 && rounds(states, text, entry, from, to, times),
{
    let step = moves(looped, text);
    if spans(looped, text, split, from, to) {
        let walk = choose|walk: Seq<ThreadView>| #[trigger]
            is_walk(step, walk) && walk[0] == at(split, from) && walk.last() == left(to);
        let times = lemma_loop_walk(states, looped, text, lo, split, entry, walk);
        assert(rounds(states, text, entry, from, to, times));
    }
    if exists|times: nat| rounds(states, text, entry, from, to, times) {
        let times = choose|times: nat| rounds(states, text, entry, from, to, times);
        lemma_loop_back(states, looped, text, lo, split, entry, from, to, times);
    }
    if spans(looped, text, entry, from, to) {
        let walk = choose|walk: Seq<ThreadView>| #[trigger]
            is_walk(step, walk) && walk[0] == at(entry, from) && walk.last() == left(to);
        let rest = lemma_through(states, looped, text, lo, split, split, walk);
        let middle = rest[0].remaining;
        let times = lemma_loop_walk(states, looped, text, lo, split, entry, rest);
        assert(spans(states, text, entry, from, middle));
        assert(rounds(states, text, entry, from, to, (times + 1) as nat));
    }
    if exists|times: nat| times > 0 && rounds(states, text, entry, from, to, times) {
        let times = choose|times: nat| times > 0 && rounds(states, text, entry, from, to, times);
        let middle = choose|middle: int| #[trigger]
            spans(states, text, entry, from, middle) && 0 <= middle <= from && rounds(
                states,
                text,
                entry,
                middle,
                to,
                (times - 1) as nat,
            );
        lemma_redirect_forward(states, looped, text, lo, split, split, at(entry, from), middle);
        lemma_loop_back(states, looped, text, lo, split, entry, middle, to, (times - 1) as nat);
        lemma_reaches_transitive(step, at(entry, from), at(split, middle), left(to));
    }
}

/// A slice splits at every point between its ends.
proof fn lemma_slice_split(text: Seq<u8>, from: int, middle: int, to: int)
    requires
        0 <= to <= middle <= from <= text.len(),
    ensures
        slice(text, from, to).len() == from - to,
        slice(text, from, to).take(from - middle) == slice(text, from, middle),
        slice(text, from, to).skip(from - middle) == slice(text, middle, to),
{
    assert(slice(text, from, to).take(from - middle) =~= slice(text, from, middle));
    assert(slice(text, from, to).skip(from - middle) =~= slice(text, middle, to));
}

/// States that are open stay open where they are copied.
proof fn lemma_open_copy(states: Seq<StateView>, other: Seq<StateView>, lo: int, hi: int)
    requires
        is_open(states, lo, hi),
        hi <= other.len(),
        forall|i: int| lo <= i < hi ==> #[trigger] other[i] == states[i],
    ensures
        is_open(other, lo, hi),
{
    assert forall|i: int| lo <= i < hi implies has_inner_edges(#[trigger] other[i], lo, hi) by {
        assert(other[i] == states[i]);
    }
}

/// The states of a loop before its body is connected back: the body of
/// `inner` and the branch.
spec fn loop_states(inner: ExprView, base: Seq<StateView>) -> Seq<StateView> {
    build(inner, base).states.push(
        branch(TransitionView::Id(build(inner, base).entry), TransitionView::Detached),
    )
}

/// Rounds through the body of a loop read texts that the inner tree matches,
/// one after the other.
proof fn lemma_rounds_repeat(
    inner: ExprView,
    base: Seq<StateView>,
    text: Seq<u8>,
    from: int,
    to: int,
    times: nat,
)
    requires
        0 <= from <= text.len(),
    ensures
        rounds(loop_states(inner, base), text, build(inner, base).entry, from, to, times) <==> (0
            <= to <= from && repeats(inner, slice(text, from, to), times)),
    decreases inner, times + 1,
{
    let body = build(inner, base);
    let states = loop_states(inner, base);
    let lo = base.len() as int;
    let split = body.states.len() as int;
    let entry = body.entry;
    let s = slice(text, from, to);
    lemma_build(inner, base);
    lemma_build_is_open(inner, base);
    lemma_open_is_enclosed(body.states, lo, split);
    lemma_equal_is_alike(body.states, states, lo, split);
    if times == 0 {
        if 0 <= to <= from {
            lemma_slice_split(text, from, to, to);
        }
    } else {
        let fewer = (times - 1) as nat;
        if rounds(states, text, entry, from, to, times) {
            let middle = choose|middle: int| #[trigger]
                spans(states, text, entry, from, middle) && 0 <= middle <= from && rounds(
                    states,
                    text,
                    entry,
                    middle,
                    to,
                    fewer,
                );
            lemma_spans_alike(body.states, states, text, lo, split, entry, from, middle);
            lemma_fragment_language(inner, base, text, from, middle);
            lemma_rounds_repeat(inner, base, text, middle, to, fewer);
            lemma_slice_split(text, from, middle, to);
            assert(tree_matches(inner, s.take(from - middle)));
        }
        if 0 <= to <= from && repeats(inner, s, times) {
            lemma_slice_split(text, from, to, to);
            let i = choose|i: int|
                0 <= i <= s.len() && tree_matches(inner, #[trigger] s.take(i)) && repeats(
                    inner,
                    s.skip(i),
                    fewer,
                );
            let middle = from - i;
            lemma_slice_split(text, from, middle, to);
            lemma_fragment_language(inner, base, text, from, middle);
            lemma_spans_alike(body.states, states, text, lo, split, entry, from, middle);
            lemma_rounds_repeat(inner, base, text, middle, to, fewer);
            assert(spans(states, text, entry, from, middle));
        }
    }
}

/// A thread that enters the fragment of a tree leaves it having read a text
/// that the tree matches, and it can leave it so for every such text.
proof fn lemma_fragment_language(
    expr: ExprView,
    base: Seq<StateView>,
    text: Seq<u8>,
    from: int,
    to: int,
)
    requires
        0 <= from <= text.len(),
    ensures
        spans(build(expr, base).states, text, build(expr, base).entry, from, to) <==> (0 <= to
            <= from && tree_matches(expr, slice(text, from, to))),
    decreases expr, 0nat,
{
    let built = build(expr, base);
    let lo = base.len() as int;
    let s = slice(text, from, to);
    if 0 <= to <= from {
        lemma_slice_split(text, from, to, to);
    }
    match expr {
        ExprView::Any => {
            lemma_leaf_spans(base, ConditionView::Any, text, from, to);
            if from >= 1 && to == from - 1 {
                assert(s[0] == text[text.len() - from]);
            }
        },
        ExprView::Single(c) => {
            lemma_leaf_spans(base, ConditionView::One(c as u8), text, from, to);
            if from >= 1 && to == from - 1 {
                assert(s[0] == text[text.len() - from]);
                assert(s =~= seq![c as u8] <==> text[text.len() - from] == c as u8);
            }
            if s == seq![c as u8] {
                assert(s.len() == 1);
                assert(seq![c as u8][0] == c as u8);
            }
        },
        ExprView::Class(cs) => {
            lemma_leaf_spans(base, ConditionView::Class(encode(cs)), text, from, to);
            if from >= 1 && to == from - 1 {
                assert(s[0] == text[text.len() - from]);
            }
        },
        ExprView::Sequence(a, b) => {
            let first = build(*a, base);
            let second = build(*b, first.states);
            let mid = first.states.len() as int;
            let hi = second.states.len() as int;
            lemma_build(*a, base);
            lemma_build(*b, first.states);
            lemma_build_is_open(*a, base);
            lemma_build_is_open(*b, first.states);
            assert forall|i: int| lo <= i < mid implies #[trigger] second.states[i]
                == first.states[i] by {
                assert(second.states.take(mid)[i] == first.states[i]);
            }
            lemma_open_copy(first.states, second.states, lo, mid);
            lemma_open_is_enclosed(first.states, lo, mid);
            lemma_equal_is_alike(first.states, second.states, lo, mid);
            lemma_sequence_spans(
                second.states,
                text,
                lo,
                mid,
                hi,
                first.entry,
                second.entry,
                from,
                to,
            );
            if spans(built.states, text, built.entry, from, to) {
                let middle = choose|middle: int| #[trigger]
                    spans(second.states, text, first.entry, from, middle) && 0 <= middle <= from
                        && spans(second.states, text, second.entry, middle, to);
                lemma_spans_alike(
                    first.states,
                    second.states,
                    text,
                    lo,
                    mid,
                    first.entry,
                    from,
                    middle,
                );
                lemma_fragment_language(*a, base, text, from, middle);
                lemma_fragment_language(*b, first.states, text, middle, to);
                lemma_slice_split(text, from, middle, to);
                assert(tree_matches(*a, s.take(from - middle)));
            }
            if 0 <= to <= from && tree_matches(expr, s) {
                let i = choose|i: int|
                    0 <= i <= s.len() && tree_matches(*a, #[trigger] s.take(i)) && tree_matches(
                        *b,
                        s.skip(i),
                    );
                let middle = from - i;
                lemma_slice_split(text, from, middle, to);
                lemma_fragment_language(*a, base, text, from, middle);
                lemma_fragment_language(*b, first.states, text, middle, to);
                lemma_spans_alike(
                    first.states,
                    second.states,
                    text,
                    lo,
                    mid,
                    first.entry,
                    from,
                    middle,
                );
                assert(spans(second.states, text, first.entry, from, middle));
            }
        },
        ExprView::Or(a, b) => {
            let first = build(*a, base);
            let second = build(*b, first.states);
            let mid = first.states.len() as int;
            let hi = second.states.len() as int;
            lemma_build(*a, base);
            lemma_build(*b, first.states);
            lemma_build_is_open(*a, base);
            lemma_build_is_open(*b, first.states);
            assert forall|i: int| lo <= i < mid implies #[trigger] built.states[i]
                == first.states[i] by {
                assert(second.states.take(mid)[i] == first.states[i]);
            }
            lemma_open_is_enclosed(first.states, lo, mid);
            lemma_open_is_enclosed(second.states, mid, hi);
            lemma_equal_is_alike(first.states, built.states, lo, mid);
            lemma_equal_is_alike(second.states, built.states, mid, hi);
            lemma_branch_spans(built.states, text, hi, from, to);
            lemma_spans_alike(first.states, built.states, text, lo, mid, first.entry, from, to);
            lemma_spans_alike(second.states, built.states, text, mid, hi, second.entry, from, to);
            lemma_fragment_language(*a, base, text, from, to);
            lemma_fragment_language(*b, first.states, text, from, to);
            assert(at(first.entry, from) == ThreadView {
                position: place(built.states[hi]->out1),
                remaining: from,
            });
            assert(at(second.entry, from) == ThreadView {
                position: place(built.states[hi]->out2),
                remaining: from,
            });
        },
        ExprView::Optional(a) => {
            let body = build(*a, base);
            let split = body.states.len() as int;
            lemma_build(*a, base);
            lemma_build_is_open(*a, base);
            lemma_open_is_enclosed(body.states, lo, split);
            lemma_equal_is_alike(body.states, built.states, lo, split);
            lemma_branch_spans(built.states, text, split, from, to);
            lemma_spans_alike(body.states, built.states, text, lo, split, body.entry, from, to);
            lemma_fragment_language(*a, base, text, from, to);
            assert(at(body.entry, from) == ThreadView {
                position: place(built.states[split]->out1),
                remaining: from,
            });
            assert(left(from) == ThreadView {
                position: place(built.states[split]->out2),
                remaining: from,
            });
            if reaches(moves(built.states, text), left(from), left(to)) {
                lemma_left_is_final(built.states, text, from, left(to));
            }
            if to == from {
                lemma_reaches_self(moves(built.states, text), left(from));
            }
        },
        ExprView::OneOrMore(a) => {
            let body = build(*a, base);
            let split = body.states.len() as int;
            let states = loop_states(*a, base);
            lemma_build(*a, base);
            lemma_build_is_open(*a, base);
            lemma_open_copy(body.states, states, lo, split);
            assert(is_loop(states, built.states, lo, split, body.entry));
            lemma_loop_spans(states, built.states, text, lo, split, body.entry, from, to);
            assert forall|times: nat|
                rounds(states, text, body.entry, from, to, times) <==> (0 <= to <= from
                    && #[trigger] repeats(*a, s, times)) by {
                lemma_rounds_repeat(*a, base, text, from, to, times);
            }
            if spans(built.states, text, built.entry, from, to) {
                let times = choose|times: nat|
                    times > 0 && rounds(states, text, body.entry, from, to, times);
                assert(repeats(*a, s, times));
                let pieces = lemma_repeats_has_pieces(*a, s, times);
                assert(pieces.flatten() == s);
            }
            if 0 <= to <= from && tree_matches(expr, s) {
                let pieces = choose|pieces: Seq<Seq<u8>>|
                    #[trigger] pieces.flatten() == s && pieces.len() > 0 && forall|k: int|
                        0 <= k < pieces.len() ==> tree_matches(*a, #[trigger] pieces[k]);
                lemma_pieces_repeat(*a, pieces);
                assert(rounds(states, text, body.entry, from, to, pieces.len()));
            }
        },
        ExprView::ZeroOrMore(a) => {
            let body = build(*a, base);
            let split = body.states.len() as int;
            let states = loop_states(*a, base);
            lemma_build(*a, base);
            lemma_build_is_open(*a, base);
            lemma_open_copy(body.states, states, lo, split);
            assert(is_loop(states, built.states, lo, split, body.entry));
            lemma_loop_spans(states, built.states, text, lo, split, body.entry, from, to);
            assert forall|times: nat|
                rounds(states, text, body.entry, from, to, times) <==> (0 <= to <= from
                    && #[trigger] repeats(*a, s, times)) by {
                lemma_rounds_repeat(*a, base, text, from, to, times);
            }
            if spans(built.states, text, built.entry, from, to) {
                let times = choose|times: nat| rounds(states, text, body.entry, from, to, times);
                assert(repeats(*a, s, times));
                let pieces = lemma_repeats_has_pieces(*a, s, times);
                assert(pieces.flatten() == s);
            }
            if 0 <= to <= from && tree_matches(expr, s) {
                let pieces = choose|pieces: Seq<Seq<u8>>|
                    #[trigger] pieces.flatten() == s && forall|k: int|
                        0 <= k < pieces.len() ==> tree_matches(*a, #[trigger] pieces[k]);
                lemma_pieces_repeat(*a, pieces);
                assert(rounds(states, text, body.entry, from, to, pieces.len()));
            }
        },
    }
}

/// The automaton of a tree accepts a prefix of a text exactly if the tree
/// matches the prefix.
pub proof fn lemma_automaton_accepts_what_the_tree_matches(
    expr: ExprView,
    text: Seq<u8>,
    end: int,
)
    ensures
        accepts(compile(expr), text, end) <==> (0 <= end <= text.len() && tree_matches(
            expr,
            text.take(end),
        )),
{
    let whole = build(expr, Seq::empty());
    let nfa = compile(expr);
    let n = whole.states.len() as int;
    let len = text.len() as int;
    lemma_build(expr, Seq::empty());
    lemma_build_is_open(expr, Seq::empty());
    lemma_open_is_enclosed(whole.states, 0, n);
    assert forall|i: int| 0 <= i < n implies alike(whole.states[i], #[trigger] nfa.states[i]) by {
        assert(nfa.states[i] == patch_state(whole.states[i], TransitionView::End));
    }
    lemma_spans_alike(whole.states, nfa.states, text, 0, n, whole.entry, len, len - end);
    lemma_fragment_language(expr, Seq::empty(), text, len, len - end);
    assert(first_thread(nfa, text) == at(whole.entry, len));
    assert(matched(text, end) == left(len - end));
    if 0 <= end <= len {
        assert(slice(text, len, len - end) =~= text.take(end));
    }
}

/// The search on the automaton of a tree decides whether the tree matches a
/// prefix of the text: the offset it finds ends a prefix that the tree
/// matches, and it finds none only if the tree matches no prefix.
pub proof fn lemma_search_decides(expr: ExprView, text: Seq<u8>)
    ensures
        outcome(compile(expr), text) matches Some(end) ==> 0 <= end <= text.len() && tree_matches(
            expr,
            text.take(end),
        ),
        outcome(compile(expr), text) is None ==> forall|end: int|
            0 <= end <= text.len() ==> !tree_matches(expr, #[trigger] text.take(end)),
{
    lemma_compile_is_well_formed(expr);
    lemma_outcome_means(compile(expr), text);
    if let Some(end) = outcome(compile(expr), text) {
        lemma_automaton_accepts_what_the_tree_matches(expr, text, end);
    } else {
        assert forall|end: int| 0 <= end <= text.len() implies !tree_matches(
            expr,
            #[trigger] text.take(end),
        ) by {
            lemma_automaton_accepts_what_the_tree_matches(expr, text, end);
        }
    }
}

/// A tree that matches the empty text matches at the start of the empty
/// text, with nothing read.
pub proof fn lemma_nullable_matches_empty_text(expr: ExprView)
    requires
        tree_matches(expr, Seq::empty()),
    ensures
        outcome(compile(expr), Seq::empty()) == Some(0int),
{
    let text = Seq::<u8>::empty();
    lemma_search_decides(expr, text);
    assert(text.take(0) =~= text);
}

/// `.` matches one byte at the start of a text, any byte but a line feed,
/// and it does not match at the start of the empty text.
pub proof fn lemma_any_matches_one_byte(text: Seq<u8>)
    ensures
        outcome(compile(ExprView::Any), text) == if text.len() > 0 && text[0] != LINE_FEED {
            Some(1int)
        } else {
            None
        },
{
    lemma_search_decides(ExprView::Any, text);
    if text.len() > 0 && text[0] != LINE_FEED {
        assert(text.take(1)[0] == text[0]);
        assert(tree_matches(ExprView::Any, text.take(1)));
    }
    if let Some(end) = outcome(compile(ExprView::Any), text) {
        assert(text.take(end).len() == end);
        assert(text.take(1)[0] == text[0]);
    }
}

/// A class matches one byte at the start of a text, any of its own, and an
/// empty class matches nothing.
pub proof fn lemma_class_matches_one_byte(members: Seq<char>, text: Seq<u8>)
    ensures
        outcome(compile(ExprView::Class(members)), text) == if text.len() > 0 && encode(
            members,
        ).contains(text[0]) {
            Some(1int)
        } else {
            None
        },
{
    let class = ExprView::Class(members);
    lemma_search_decides(class, text);
    if text.len() > 0 && encode(members).contains(text[0]) {
        assert(text.take(1)[0] == text[0]);
        assert(tree_matches(class, text.take(1)));
    }
    if let Some(end) = outcome(compile(class), text) {
        assert(text.take(end).len() == end);
        assert(text.take(1)[0] == text[0]);
    }
}

} // verus!
