//! Greed: a repetition takes as much of the text as it can.

use crate::compile::{branch, build, compile, consuming, patch_range};
use crate::expr::ExprView;
use crate::language::{at, left};
use crate::nfa::{ConditionView, NfaView, StateView, TransitionView};
use crate::search::{
    enqueue, enqueue_all, expand, first_search, first_thread, lemma_outcome, outcome, search,
    settles, steps, unread, Search, ThreadView,
};
use vstd::prelude::*;

verus! {

/// The number of bytes at the start of `text` that are `byte`.
pub open spec fn run_of(byte: u8, text: Seq<u8>) -> nat
    decreases text.len(),
{
    if text.len() == 0 || text[0] != byte {
        0
    } else {
        1 + run_of(byte, text.drop_first())
    }
}

/// The automaton of `byte*`: the state that reads the byte, and the branch
/// that enters it or leaves.
pub open spec fn star_of(byte: u8) -> NfaView {
    NfaView {
        start: 1,
        states: seq![
            StateView::State {
                condition: ConditionView::One(byte),
                out: TransitionView::Id(1),
            },
            StateView::Split { out1: TransitionView::Id(0), out2: TransitionView::End },
        ],
    }
}

/// The repetition of a literal compiles to `star_of` its byte.
proof fn lemma_compile_star(c: char)
    ensures
        compile(ExprView::ZeroOrMore(Box::new(ExprView::Single(c)))) == star_of(c as u8),
{
    let inner = build(ExprView::Single(c), Seq::empty());
    assert(inner.states =~= seq![consuming(ConditionView::One(c as u8))]);
    let with_branch = inner.states.push(
        branch(TransitionView::Id(0), TransitionView::Detached),
    );
    let looped = patch_range(with_branch, 0, 1, TransitionView::Id(1));
    let whole = build(ExprView::ZeroOrMore(Box::new(ExprView::Single(c))), Seq::empty());
    assert(whole.states =~= looped);
    assert(whole.entry == 1);
    let done = patch_range(looped, 0, 2, TransitionView::End);
    assert(done =~= star_of(c as u8).states);
}

/// From the branch of `byte*`, whatever lies below it on the list, the
/// search ends where the run of the byte ends, if no thread with so few
/// bytes left was seen before.
proof fn lemma_star_search(byte: u8, text: Seq<u8>, from: Search, remaining: int) -> (fuel: nat)
    requires
        0 <= remaining <= text.len(),
        from.pending.len() > 0,
        from.pending.last() == at(1, remaining),
        forall|t: ThreadView| #[trigger]
            from.seen.contains(t) ==> t.remaining > remaining || t == at(1, remaining),
    ensures
        search(star_of(byte).states, text, from, fuel) == Some(
            Some(text.len() - remaining + run_of(byte, unread(text, remaining))),
        ),
    decreases remaining,
{
    let states = star_of(byte).states;
    let len = text.len() as int;
    let below = from.pending.drop_last();
    let rest = unread(text, remaining);
    assert(rest.len() == remaining);
    reveal_with_fuel(enqueue_all, 3);
    // the branch: into the loop first, out of the automaton second
    let branch_next = steps(states, text, at(1, remaining));
    assert(branch_next =~= seq![at(0, remaining), left(remaining)]);
    let popped = Search { pending: from.pending.drop_last(), seen: from.seen };
    assert(popped.pending =~= below);
    assert(branch_next.last() == left(remaining));
    assert(branch_next.drop_last() =~= seq![at(0, remaining)]);
    let stopped = enqueue(popped, left(remaining));
    let entered = enqueue(stopped, at(0, remaining));
    assert(seq![at(0, remaining)].last() == at(0, remaining));
    assert(seq![at(0, remaining)].drop_last() =~= Seq::<ThreadView>::empty());
    assert(expand(states, text, from) == entered);
    assert(entered.pending =~= below.push(left(remaining)).push(at(0, remaining)));
    // the state that reads the byte
    let read_next = steps(states, text, at(0, remaining));
    let emptied = Search { pending: entered.pending.drop_last(), seen: entered.seen };
    assert(emptied.pending =~= below.push(left(remaining)));
    assert(from.pending.last() == at(1, remaining));
    assert(entered.pending.last() == at(0, remaining));
    if remaining >= 1 && rest[0] == byte {
        assert(rest.drop_first() =~= unread(text, remaining - 1));
        assert(read_next =~= seq![at(1, remaining - 1)]);
        assert(read_next.last() == at(1, remaining - 1));
        assert(read_next.drop_last() =~= Seq::<ThreadView>::empty());
        let next = enqueue(emptied, at(1, remaining - 1));
        assert(expand(states, text, entered) == next);
        let fuel = lemma_star_search(byte, text, next, remaining - 1);
        assert(search(states, text, entered, fuel + 1) == search(states, text, next, fuel));
        assert(search(states, text, from, fuel + 2) == search(states, text, entered, fuel + 1));
        (fuel + 2) as nat
    } else {
        assert(read_next =~= Seq::<ThreadView>::empty());
        assert(expand(states, text, entered) == emptied);
        assert(emptied.pending.last() == left(remaining));
        assert(search(states, text, emptied, 0) == Some(Some(len - remaining)));
        assert(search(states, text, entered, 1) == search(states, text, emptied, 0));
        assert(search(states, text, from, 2) == search(states, text, entered, 1));
        2
    }
}

/// The repetition of a literal is greedy: matched against the start of a
/// text, it takes every byte of the run of its literal there, and always
/// matches.
pub proof fn lemma_star_is_greedy(c: char, text: Seq<u8>)
    ensures
        outcome(compile(ExprView::ZeroOrMore(Box::new(ExprView::Single(c)))), text) == Some(
            run_of(c as u8, text) as int,
        ),
{
    let nfa = star_of(c as u8);
    lemma_compile_star(c);
    let from = first_search(nfa, text);
    let len = text.len() as int;
    assert(first_thread(nfa, text) == at(1, len));
    assert(from.pending.last() == at(1, len));
    let fuel = lemma_star_search(c as u8, text, from, len);
    assert(unread(text, len) =~= text);
    assert(settles(nfa, text, fuel));
    lemma_outcome(nfa, text, fuel);
}

/// The automaton of `byte+`: that of `byte*`, entered at the state that
/// reads the byte.
pub open spec fn plus_of(byte: u8) -> NfaView {
    NfaView { start: 0, states: star_of(byte).states }
}

/// The repetition of a literal at least once compiles to `plus_of` its byte.
proof fn lemma_compile_plus(c: char)
    ensures
        compile(ExprView::OneOrMore(Box::new(ExprView::Single(c)))) == plus_of(c as u8),
{
    let inner = build(ExprView::Single(c), Seq::empty());
    assert(inner.states =~= seq![consuming(ConditionView::One(c as u8))]);
    let with_branch = inner.states.push(
        branch(TransitionView::Id(0), TransitionView::Detached),
    );
    let looped = patch_range(with_branch, 0, 1, TransitionView::Id(1));
    let whole = build(ExprView::OneOrMore(Box::new(ExprView::Single(c))), Seq::empty());
    assert(whole.states =~= looped);
    assert(whole.entry == 0);
    let done = patch_range(looped, 0, 2, TransitionView::End);
    assert(done =~= plus_of(c as u8).states);
}

/// The repetition of a literal at least once is greedy: it matches at the
/// start of a text that starts with its literal, and takes the whole run of
/// it.
pub proof fn lemma_plus_is_greedy(c: char, text: Seq<u8>)
    ensures
        outcome(compile(ExprView::OneOrMore(Box::new(ExprView::Single(c)))), text) == if run_of(
            c as u8,
            text,
        ) > 0 {
            Some(run_of(c as u8, text) as int)
        } else {
            None
        },
{
    let byte = c as u8;
    let nfa = plus_of(byte);
    lemma_compile_plus(c);
    let from = first_search(nfa, text);
    let len = text.len() as int;
    let states = nfa.states;
    reveal_with_fuel(enqueue_all, 2);
    assert(first_thread(nfa, text) == at(0, len));
    assert(from.pending.last() == at(0, len));
    assert(unread(text, len) =~= text);
    let next = steps(states, text, at(0, len));
    let emptied = Search { pending: from.pending.drop_last(), seen: from.seen };
    assert(emptied.pending =~= Seq::<ThreadView>::empty());
    if len >= 1 && text[0] == byte {
        assert(text.drop_first() =~= unread(text, len - 1));
        assert(next =~= seq![at(1, len - 1)]);
        assert(next.last() == at(1, len - 1));
        assert(next.drop_last() =~= Seq::<ThreadView>::empty());
        let entered = enqueue(emptied, at(1, len - 1));
        assert(expand(states, text, from) == entered);
        assert(entered.pending.last() == at(1, len - 1));
        let fuel = lemma_star_search(byte, text, entered, len - 1);
        assert(search(states, text, from, fuel + 1) == search(states, text, entered, fuel));
        assert(settles(nfa, text, fuel + 1));
        lemma_outcome(nfa, text, fuel + 1);
    } else {
        assert(next =~= Seq::<ThreadView>::empty());
        assert(expand(states, text, from) == emptied);
        assert(search(states, text, emptied, 0) == Some(None::<int>));
        assert(search(states, text, from, 1) == search(states, text, emptied, 0));
        assert(settles(nfa, text, 1));
        lemma_outcome(nfa, text, 1);
    }
}

/// An optional literal is greedy: it always matches at the start of a text,
/// and takes its literal if the text starts with it.
pub proof fn lemma_optional_is_greedy(c: char, text: Seq<u8>)
    ensures
        outcome(compile(ExprView::Optional(Box::new(ExprView::Single(c)))), text) == Some(
            if text.len() > 0 && text[0] == c as u8 {
                1int
            } else {
                0int
            },
        ),
{
    let byte = c as u8;
    let tree = ExprView::Optional(Box::new(ExprView::Single(c)));
    let nfa = compile(tree);
    let inner = build(ExprView::Single(c), Seq::empty());
    assert(inner.states =~= seq![consuming(ConditionView::One(byte))]);
    let whole = build(tree, Seq::empty());
    assert(whole.states =~= inner.states.push(
        branch(TransitionView::Id(0), TransitionView::Detached),
    ));
    let states = seq![
        StateView::State { condition: ConditionView::One(byte), out: TransitionView::End },
        StateView::Split { out1: TransitionView::Id(0), out2: TransitionView::End },
    ];
    assert(nfa.states =~= states);
    assert(nfa.start == 1);
    let len = text.len() as int;
    let from = first_search(nfa, text);
    reveal_with_fuel(enqueue_all, 3);
    assert(first_thread(nfa, text) == at(1, len));
    assert(from.pending.last() == at(1, len));
    assert(unread(text, len) =~= text);
    let branch_next = steps(states, text, at(1, len));
    assert(branch_next =~= seq![at(0, len), left(len)]);
    let popped = Search { pending: from.pending.drop_last(), seen: from.seen };
    assert(popped.pending =~= Seq::<ThreadView>::empty());
    assert(branch_next.last() == left(len));
    assert(branch_next.drop_last() =~= seq![at(0, len)]);
    assert(seq![at(0, len)].last() == at(0, len));
    assert(seq![at(0, len)].drop_last() =~= Seq::<ThreadView>::empty());
    let entered = enqueue(enqueue(popped, left(len)), at(0, len));
    assert(expand(states, text, from) == entered);
    assert(entered.pending =~= seq![left(len), at(0, len)]);
    assert(entered.pending.last() == at(0, len));
    let read_next = steps(states, text, at(0, len));
    let emptied = Search { pending: entered.pending.drop_last(), seen: entered.seen };
    assert(emptied.pending =~= seq![left(len)]);
    if len >= 1 && text[0] == byte {
        assert(read_next =~= seq![left(len - 1)]);
        assert(read_next.last() == left(len - 1));
        assert(read_next.drop_last() =~= Seq::<ThreadView>::empty());
        let taken = enqueue(emptied, left(len - 1));
        assert(expand(states, text, entered) == taken);
        assert(taken.pending.last() == left(len - 1));
        assert(search(states, text, taken, 0) == Some(Some(1int)));
        assert(search(states, text, entered, 1) == search(states, text, taken, 0));
    } else {
        assert(read_next =~= Seq::<ThreadView>::empty());
        assert(expand(states, text, entered) == emptied);
        assert(emptied.pending.last() == left(len));
        assert(search(states, text, emptied, 0) == Some(Some(0int)));
        assert(search(states, text, entered, 1) == search(states, text, emptied, 0));
    }
    assert(search(states, text, from, 2) == search(states, text, entered, 1));
    assert(settles(nfa, text, 2));
    lemma_outcome(nfa, text, 2);
}

} // verus!
