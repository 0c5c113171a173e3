//! The search for a match: which threads are explored, in which order, and
//! what the first thread that leaves the automaton tells.
//!
//! [`run`] keeps a work list of threads and a table of the threads it has
//! seen. [`search`] says what it computes, step by step; [`accepts`] says what
//! the result means, as a walk through the automaton that reads the text.

use crate::graph::{
    lemma_mark, lemma_reaches_self, lemma_reaches_stays_inside, lemma_reaches_then_edge,
    lemma_unmarked_is_bounded, reaches, unmarked,
};
use crate::matcher::{crossing, successors, PotentialMatchView};
use crate::nfa::{
    closed, state_key, Condition, ConditionView, NfaView, State, StateView, Transition,
    TransitionView, NFA,
};
use vstd::prelude::*;

verus! {

/// The mathematical value of a thread of [`run`]: the index of a state, or
/// none once the thread has matched, and the number of bytes still to read.
pub struct ThreadView {
    pub position: Option<int>,
    pub remaining: int,
}

/// The index of the state at the end of an edge; none where the edge leaves
/// the automaton.
pub open spec fn place(edge: TransitionView) -> Option<int> {
    match edge {
        TransitionView::Id(id) => Some(id),
        _ => None,
    }
}

/// The last `remaining` bytes of `text`.
pub open spec fn unread(text: Seq<u8>, remaining: int) -> Seq<u8> {
    text.skip(text.len() - remaining)
}

/// The key by which a thread at `position` is ordered among its siblings.
pub open spec fn position_key(states: Seq<StateView>, position: Option<int>) -> int {
    match position {
        Some(i) => state_key(states, states[i]),
        None => usize::MAX as int,
    }
}

/// The threads that follow a thread of a run over `text`, the most preferred
/// first: what [`successors`] says, with states given by their indices and
/// texts by their lengths.
pub open spec fn steps(states: Seq<StateView>, text: Seq<u8>, from: ThreadView) -> Seq<
    ThreadView,
> {
    match from.position {
        None => seq![from],
        Some(i) => match states[i] {
            StateView::State { condition, out } => match crossing(
                condition,
                unread(text, from.remaining),
            ) {
                Some(rest) => seq![
                    ThreadView { position: place(out), remaining: rest.len() as int },
                ],
                None => seq![],
            },
            StateView::Split { out1, out2 } => {
                let first = ThreadView { position: place(out1), remaining: from.remaining };
                let second = ThreadView { position: place(out2), remaining: from.remaining };
                if position_key(states, second.position) < position_key(states, first.position) {
                    seq![second, first]
                } else {
                    seq![first, second]
                }
            },
        },
    }
}

/// The work list of a run and the threads that were ever put on it.
pub struct Search {
    /// The threads still to explore; the last is explored next.
    pub pending: Seq<ThreadView>,
    /// Every thread that was put on the list.
    pub seen: Set<ThreadView>,
}

/// The search once `thread` is put on the list, unless it was seen before.
pub open spec fn enqueue(search: Search, thread: ThreadView) -> Search {
    if search.seen.contains(thread) {
        search
    } else {
        Search { pending: search.pending.push(thread), seen: search.seen.insert(thread) }
    }
}

/// The search once `threads` are put on the list from the last to the first,
/// so that the first is explored first.
pub open spec fn enqueue_all(search: Search, threads: Seq<ThreadView>) -> Search
    decreases threads.len(),
{
    if threads.len() == 0 {
        search
    } else {
        enqueue_all(enqueue(search, threads.last()), threads.drop_last())
    }
}

/// The search once its next thread is replaced by the threads that follow it.
pub open spec fn expand(states: Seq<StateView>, text: Seq<u8>, search: Search) -> Search {
    enqueue_all(
        Search { pending: search.pending.drop_last(), seen: search.seen },
        steps(states, text, search.pending.last()),
    )
}

/// What the search finds within `fuel` expansions: the offset at which the
/// first thread that is found to have matched has stopped reading, or none
/// once the list is empty. The outer value is none where `fuel` does not
/// suffice to tell.
pub open spec fn search(states: Seq<StateView>, text: Seq<u8>, search: Search, fuel: nat) -> Option<
    Option<int>,
>
    decreases fuel,
{
    if search.pending.len() == 0 {
        Some(None)
    } else if search.pending.last().position is None {
        Some(Some(text.len() - search.pending.last().remaining))
    } else if fuel == 0 {
        None
    } else {
        self::search(states, text, expand(states, text, search), (fuel - 1) as nat)
    }
}

/// The thread with which a run starts.
pub open spec fn first_thread(nfa: NfaView, text: Seq<u8>) -> ThreadView {
    ThreadView { position: Some(nfa.start), remaining: text.len() as int }
}

/// The search with which a run starts.
pub open spec fn first_search(nfa: NfaView, text: Seq<u8>) -> Search {
    Search {
        pending: seq![first_thread(nfa, text)],
        seen: Set::empty().insert(first_thread(nfa, text)),
    }
}

/// Some amount of fuel lets the search from the start come to an end.
pub open spec fn settles(nfa: NfaView, text: Seq<u8>, fuel: nat) -> bool {
    search(nfa.states, text, first_search(nfa, text), fuel) is Some
}

/// Where the match of `nfa` against the start of `text` ends, if there is
/// one: what the search from the start finds. An automaton without states
/// matches the empty prefix.
pub open spec fn outcome(nfa: NfaView, text: Seq<u8>) -> Option<int> {
    if nfa.states.len() == 0 {
        Some(0)
    } else {
        let fuel = choose|fuel: nat| settles(nfa, text, fuel);
        match search(nfa.states, text, first_search(nfa, text), fuel) {
            Some(found) => found,
            None => None,
        }
    }
}

/// More fuel does not change what a search has found.
pub proof fn lemma_search_is_stable(
    states: Seq<StateView>,
    text: Seq<u8>,
    from: Search,
    fuel: nat,
    more: nat,
)
    requires
        search(states, text, from, fuel) is Some,
        fuel <= more,
    ensures
        search(states, text, from, more) == search(states, text, from, fuel),
    decreases fuel,
{
    if from.pending.len() == 0 || from.pending.last().position is None {
    } else {
        lemma_search_is_stable(
            states,
            text,
            expand(states, text, from),
            (fuel - 1) as nat,
            (more - 1) as nat,
        );
    }
}

/// What a search from the start finds with any fuel that suffices is the
/// outcome.
pub proof fn lemma_outcome(nfa: NfaView, text: Seq<u8>, fuel: nat)
    requires
        nfa.states.len() > 0,
        settles(nfa, text, fuel),
    ensures
        search(nfa.states, text, first_search(nfa, text), fuel) == Some(outcome(nfa, text)),
{
    let chosen = choose|fuel: nat| settles(nfa, text, fuel);
    let from = first_search(nfa, text);
    if chosen <= fuel {
        lemma_search_is_stable(nfa.states, text, from, chosen, fuel);
    } else {
        lemma_search_is_stable(nfa.states, text, from, fuel, chosen);
    }
}

/// The steps that a thread of a run over `text` can take, as a relation
/// between threads. A thread that has matched takes none.
pub open spec fn moves(states: Seq<StateView>, text: Seq<u8>) -> spec_fn(
    ThreadView,
    ThreadView,
) -> bool {
    |from: ThreadView, to: ThreadView|
        from.position is Some && steps(states, text, from).contains(to)
}

/// The thread that has matched the first `end` bytes of `text`.
pub open spec fn matched(text: Seq<u8>, end: int) -> ThreadView {
    ThreadView { position: None, remaining: text.len() - end }
}

/// The automaton accepts the first `end` bytes of `text`: some sequence of
/// steps leads from the start thread to a thread that has left the automaton
/// with exactly these bytes read. An automaton without states accepts the
/// empty prefix.
pub open spec fn accepts(nfa: NfaView, text: Seq<u8>, end: int) -> bool {
    if nfa.states.len() == 0 {
        end == 0
    } else {
        reaches(moves(nfa.states, text), first_thread(nfa, text), matched(text, end))
    }
}

/// What holds of a search between two expansions: every thread seen is
/// reached from `start`, every thread seen and no longer pending has its
/// successors seen, and a thread that has matched is still pending.
spec fn orderly(
    states: Seq<StateView>,
    text: Seq<u8>,
    start: ThreadView,
    search: Search,
) -> bool {
    &&& search.seen.contains(start)
    &&& search.pending.no_duplicates()
    &&& forall|k: int|
        0 <= k < search.pending.len() ==> search.seen.contains(#[trigger] search.pending[k])
    &&& forall|t: ThreadView| #[trigger]
        search.seen.contains(t) ==> reaches(moves(states, text), start, t)
    &&& forall|t: ThreadView| #[trigger]
        search.seen.contains(t) && t.position is None ==> search.pending.contains(t)
    &&& forall|t: ThreadView, u: ThreadView|
        search.seen.contains(t) && !search.pending.contains(t) && #[trigger] moves(states, text)(
            t,
            u,
        ) ==> search.seen.contains(u)
}

/// What `enqueue_all` adds to the list and to the threads seen.
proof fn lemma_enqueue_all(from: Search, threads: Seq<ThreadView>)
    requires
        from.pending.no_duplicates(),
        forall|k: int| 0 <= k < from.pending.len() ==> from.seen.contains(#[trigger] from.pending[k]),
    ensures
        enqueue_all(from, threads).pending.no_duplicates(),
        forall|k: int|
            0 <= k < enqueue_all(from, threads).pending.len() ==> enqueue_all(
                from,
                threads,
            ).seen.contains(#[trigger] enqueue_all(from, threads).pending[k]),
        forall|x: ThreadView| #[trigger]
            enqueue_all(from, threads).seen.contains(x) <==> from.seen.contains(x)
                || threads.contains(x),
        forall|x: ThreadView| #[trigger]
            enqueue_all(from, threads).pending.contains(x) <==> from.pending.contains(x) || (
            threads.contains(x) && !from.seen.contains(x)),
    decreases threads.len(),
{
    if threads.len() > 0 {
        let last = threads.last();
        let next = enqueue(from, last);
        let rest = threads.drop_last();
        if !from.seen.contains(last) {
            assert forall|i: int, j: int|
                0 <= i < next.pending.len() && 0 <= j < next.pending.len() && i
                    != j implies next.pending[i] != next.pending[j] by {
                if i < from.pending.len() {
                    assert(from.seen.contains(from.pending[i]));
                }
                if j < from.pending.len() {
                    assert(from.seen.contains(from.pending[j]));
                }
            }
        }
        lemma_enqueue_all(next, rest);
        let result = enqueue_all(from, threads);
        assert forall|x: ThreadView|
            threads.contains(x) <==> rest.contains(x) || x == last by {
            if threads.contains(x) {
                let i = choose|i: int| 0 <= i < threads.len() && threads[i] == x;
                if i < rest.len() {
                    assert(rest[i] == x);
                }
            }
            if rest.contains(x) {
                let i = choose|i: int| 0 <= i < rest.len() && rest[i] == x;
                assert(threads[i] == x);
            }
            if x == last {
                assert(threads[threads.len() - 1] == x);
            }
        }
        assert forall|x: ThreadView|
            next.pending.contains(x) <==> from.pending.contains(x) || (x == last
                && !from.seen.contains(last)) by {
            if next.pending.contains(x) {
                let i = choose|i: int| 0 <= i < next.pending.len() && next.pending[i] == x;
                if i < from.pending.len() {
                    assert(from.pending[i] == x);
                }
            }
            if from.pending.contains(x) {
                let i = choose|i: int| 0 <= i < from.pending.len() && from.pending[i] == x;
                assert(next.pending[i] == x);
            }
            if x == last && !from.seen.contains(last) {
                assert(next.pending[next.pending.len() - 1] == x);
            }
        }
        assert forall|x: ThreadView| #[trigger]
            result.pending.contains(x) <==> from.pending.contains(x) || (threads.contains(x)
                && !from.seen.contains(x)) by {
            assert(result.pending.contains(x) <==> next.pending.contains(x) || (rest.contains(x)
                && !next.seen.contains(x)));
            if from.pending.contains(x) {
                let i = choose|i: int| 0 <= i < from.pending.len() && from.pending[i] == x;
                assert(from.seen.contains(from.pending[i]));
            }
        }
        assert forall|x: ThreadView| #[trigger]
            result.seen.contains(x) <==> from.seen.contains(x) || threads.contains(x) by {
            assert(result.seen.contains(x) <==> next.seen.contains(x) || rest.contains(x));
        }
    }
}

/// An expansion leaves an orderly search orderly.
proof fn lemma_expand_is_orderly(
    states: Seq<StateView>,
    text: Seq<u8>,
    start: ThreadView,
    from: Search,
)
    requires
        orderly(states, text, start, from),
        from.pending.len() > 0,
        from.pending.last().position is Some,
    ensures
        orderly(states, text, start, expand(states, text, from)),
{
    let top = from.pending.last();
    let popped = Search { pending: from.pending.drop_last(), seen: from.seen };
    let next = steps(states, text, top);
    let result = expand(states, text, from);
    let step = moves(states, text);
    assert forall|x: ThreadView|
        from.pending.contains(x) <==> popped.pending.contains(x) || x == top by {
        if from.pending.contains(x) {
            let i = choose|i: int| 0 <= i < from.pending.len() && from.pending[i] == x;
            if i < popped.pending.len() {
                assert(popped.pending[i] == x);
            }
        }
        if popped.pending.contains(x) {
            let i = choose|i: int| 0 <= i < popped.pending.len() && popped.pending[i] == x;
            assert(from.pending[i] == x);
        }
        if x == top {
            assert(from.pending[from.pending.len() - 1] == x);
        }
    }
    assert(!popped.pending.contains(top)) by {
        if popped.pending.contains(top) {
            let i = choose|i: int| 0 <= i < popped.pending.len() && popped.pending[i] == top;
            assert(from.pending[i] == from.pending[from.pending.len() - 1]);
        }
    }
    assert forall|k: int| 0 <= k < popped.pending.len() implies popped.seen.contains(
        #[trigger] popped.pending[k],
    ) by {
        assert(from.seen.contains(from.pending[k]));
    }
    lemma_enqueue_all(popped, next);
    assert(from.seen.contains(from.pending[from.pending.len() - 1]));
    assert forall|t: ThreadView| #[trigger] result.seen.contains(t) implies reaches(
        step,
        start,
        t,
    ) by {
        if !from.seen.contains(t) {
            assert(next.contains(t));
            assert(step(top, t));
            lemma_reaches_then_edge(step, start, top, t);
        }
    }
    assert forall|t: ThreadView| #[trigger]
        result.seen.contains(t) && t.position is None implies result.pending.contains(t) by {
        if from.seen.contains(t) {
            assert(from.pending.contains(t));
        }
    }
    assert forall|t: ThreadView, u: ThreadView|
        result.seen.contains(t) && !result.pending.contains(t) && #[trigger] step(
            t,
            u,
        ) implies result.seen.contains(u) by {
        if from.seen.contains(t) {
            if t == top {
                assert(next.contains(u));
            } else {
                assert(!from.pending.contains(t));
                assert(from.seen.contains(u));
            }
        }
    }
}

/// What the result of an orderly search means: the offset it finds is one
/// that a walk from `start` reaches, and if it finds none then no walk from
/// `start` leaves the automaton.
proof fn lemma_search_meaning(
    states: Seq<StateView>,
    text: Seq<u8>,
    start: ThreadView,
    from: Search,
    fuel: nat,
)
    requires
        orderly(states, text, start, from),
        search(states, text, from, fuel) is Some,
    ensures
        match search(states, text, from, fuel)->0 {
            Some(end) => reaches(moves(states, text), start, matched(text, end)),
            None => forall|t: ThreadView| #[trigger]
                reaches(moves(states, text), start, t) ==> t.position is Some,
        },
    decreases fuel,
{
    let step = moves(states, text);
    if from.pending.len() == 0 {
        let inside = |t: ThreadView| from.seen.contains(t);
        assert forall|a: ThreadView, b: ThreadView| inside(a) && #[trigger] step(
            a,
            b,
        ) implies inside(b) by {
            assert(!from.pending.contains(a));
        }
        assert forall|t: ThreadView| #[trigger] reaches(step, start, t) implies t.position
            is Some by {
            lemma_reaches_stays_inside(step, inside, start, t);
            if t.position is None {
                assert(from.pending.contains(t));
            }
        }
    } else if from.pending.last().position is None {
        let top = from.pending.last();
        assert(from.seen.contains(from.pending[from.pending.len() - 1]));
        assert(matched(text, text.len() - top.remaining) == top);
    } else {
        lemma_expand_is_orderly(states, text, start, from);
        lemma_search_meaning(states, text, start, expand(states, text, from), (fuel - 1) as nat);
    }
}

/// The outcome of a search names a prefix that the automaton accepts, and it
/// names one whenever the automaton accepts a prefix at all.
pub proof fn lemma_outcome_is_accepted(nfa: NfaView, text: Seq<u8>, fuel: nat)
    requires
        nfa.states.len() > 0,
        settles(nfa, text, fuel),
    ensures
        outcome(nfa, text) matches Some(end) ==> accepts(nfa, text, end),
        outcome(nfa, text) is None ==> forall|end: int| !accepts(nfa, text, end),
{
    let start = first_thread(nfa, text);
    let from = first_search(nfa, text);
    lemma_outcome(nfa, text, fuel);
    lemma_reaches_self(moves(nfa.states, text), start);
    assert(from.pending.no_duplicates());
    assert forall|t: ThreadView| #[trigger] from.seen.contains(t) && t.position
        is None implies from.pending.contains(t) by {}
    assert forall|t: ThreadView, u: ThreadView|
        from.seen.contains(t) && !from.pending.contains(t) && #[trigger] moves(nfa.states, text)(
            t,
            u,
        ) implies from.seen.contains(u) by {
        assert(from.pending[0] == t);
    }
    lemma_search_meaning(nfa.states, text, start, from, fuel);
    if outcome(nfa, text) is None {
        assert forall|end: int| !accepts(nfa, text, end) by {
            if accepts(nfa, text, end) {
                assert(reaches(moves(nfa.states, text), start, matched(text, end)));
            }
        }
    }
}

/// The thread of a run, with its state and its text by value.
pub open spec fn lift(
    states: Seq<StateView>,
    text: Seq<u8>,
    thread: ThreadView,
) -> PotentialMatchView {
    PotentialMatchView {
        state: match thread.position {
            Some(i) => Some(states[i]),
            None => None,
        },
        text: unread(text, thread.remaining),
    }
}

/// The steps of a run are the successors of its threads: a thread of a run,
/// taken with its state and its text, has for successors the threads that
/// the run steps to, in the same order.
pub proof fn lemma_steps_are_successors(states: Seq<StateView>, text: Seq<u8>, thread: ThreadView)
    requires
        in_run(thread, states.len() as int, text.len() as int),
        thread.position matches Some(i) ==> states[i].fits(states.len() as int)
            && states[i].is_connected(),
    ensures
        successors(states, lift(states, text, thread)) == steps(states, text, thread).map_values(
            |next: ThreadView| lift(states, text, next),
        ),
{
    let lifted = steps(states, text, thread).map_values(|next: ThreadView| lift(states, text, next));
    let rest = unread(text, thread.remaining);
    if let Some(i) = thread.position {
        match states[i] {
            StateView::State { condition, out } => {
                if let Some(left) = crossing(condition, rest) {
                    if condition != ConditionView::Epsilon {
                        assert(left =~= unread(text, thread.remaining - 1));
                    }
                }
            },
            StateView::Split { out1, out2 } => {},
        }
    }
    assert(successors(states, lift(states, text, thread)) =~= lifted);
}

/// The thread at the column `column` of a table of `n + 1` columns, in the row
/// of the threads that have `remaining` bytes to read.
spec fn thread_at(remaining: int, column: int, n: int) -> ThreadView {
    ThreadView {
        position: if column == n {
            None
        } else {
            Some(column)
        },
        remaining,
    }
}

/// The table of the threads seen: a row for each number of bytes that may be
/// left of `len`, a column for each of `n` states and one for the threads
/// that have matched.
spec fn table_of(seen: Set<ThreadView>, n: int, len: int) -> Seq<Seq<bool>> {
    Seq::new(
        (len + 1) as nat,
        |remaining: int|
            Seq::new((n + 1) as nat, |column: int| seen.contains(thread_at(remaining, column, n))),
    )
}

/// The number of cells of a table that are not set.
spec fn unset(table: Seq<Seq<bool>>) -> nat
    decreases table.len(),
{
    if table.len() == 0 {
        0
    } else {
        unset(table.drop_last()) + unmarked(table.last())
    }
}

/// Setting a cell of a table that was not set leaves one unset cell fewer.
proof fn lemma_set_cell(table: Seq<Seq<bool>>, row: int, column: int)
    requires
        0 <= row < table.len(),
        0 <= column < table[row].len(),
        !table[row][column],
    ensures
        unset(table.update(row, table[row].update(column, true))) + 1 == unset(table),
    decreases table.len(),
{
    let after = table.update(row, table[row].update(column, true));
    if row == table.len() - 1 {
        assert(after.drop_last() =~= table.drop_last());
        lemma_mark(table[row], column);
    } else {
        lemma_set_cell(table.drop_last(), row, column);
        assert(after.drop_last() =~= table.drop_last().update(
            row,
            table[row].update(column, true),
        ));
    }
}

/// A table of rows of `width` cells has no more unset cells than cells.
proof fn lemma_unset_is_bounded(table: Seq<Seq<bool>>, width: nat)
    requires
        forall|row: int| 0 <= row < table.len() ==> (#[trigger] table[row]).len() == width,
    ensures
        unset(table) <= table.len() * width,
    decreases table.len(),
{
    if table.len() > 0 {
        let above = table.drop_last();
        assert forall|row: int| 0 <= row < above.len() implies (#[trigger] above[row]).len()
            == width by {
            assert(above[row] == table[row]);
        }
        lemma_unset_is_bounded(above, width);
        lemma_unmarked_is_bounded(table.last());
        assert(above.len() * width + width == table.len() * width) by (nonlinear_arith)
            requires
                above.len() + 1 == table.len(),
        ;
    }
}

/// What is left to do of a search: two for each thread that was never seen
/// and one for each that is pending.
spec fn work(search: Search, n: int, len: int) -> nat {
    2 * unset(table_of(search.seen, n, len)) + search.pending.len()
}

/// Every thread seen or pending is a thread of the run.
spec fn confined(search: Search, n: int, len: int) -> bool {
    &&& forall|t: ThreadView| #[trigger] search.seen.contains(t) ==> in_run(t, n, len)
    &&& forall|k: int|
        0 <= k < search.pending.len() ==> in_run(#[trigger] search.pending[k], n, len)
}

/// To put a thread on the list leaves no more work than before.
proof fn lemma_enqueue_work(search: Search, thread: ThreadView, n: int, len: int)
    requires
        n >= 0,
        len >= 0,
        confined(search, n, len),
        in_run(thread, n, len),
    ensures
        confined(enqueue(search, thread), n, len),
        work(enqueue(search, thread), n, len) <= work(search, n, len),
{
    if !search.seen.contains(thread) {
        let table = table_of(search.seen, n, len);
        let after = table_of(search.seen.insert(thread), n, len);
        let column = match thread.position {
            Some(i) => i,
            None => n,
        };
        assert(thread_at(thread.remaining, column, n) == thread);
        assert(after =~= table.update(
            thread.remaining,
            table[thread.remaining].update(column, true),
        )) by {
            assert forall|r: int| 0 <= r < after.len() implies #[trigger] after[r] =~= table.update(
                thread.remaining,
                table[thread.remaining].update(column, true),
            )[r] by {}
        }
        lemma_set_cell(table, thread.remaining, column);
    }
}

/// To put threads on the list leaves no more work than before.
proof fn lemma_enqueue_all_work(search: Search, threads: Seq<ThreadView>, n: int, len: int)
    requires
        n >= 0,
        len >= 0,
        confined(search, n, len),
        forall|k: int| 0 <= k < threads.len() ==> in_run(#[trigger] threads[k], n, len),
    ensures
        confined(enqueue_all(search, threads), n, len),
        work(enqueue_all(search, threads), n, len) <= work(search, n, len),
    decreases threads.len(),
{
    if threads.len() > 0 {
        lemma_enqueue_work(search, threads.last(), n, len);
        let rest = threads.drop_last();
        assert forall|k: int| 0 <= k < rest.len() implies in_run(#[trigger] rest[k], n, len) by {
            assert(rest[k] == threads[k]);
        }
        lemma_enqueue_all_work(enqueue(search, threads.last()), rest, n, len);
    }
}

/// The threads that follow a thread of a run are threads of the run.
proof fn lemma_steps_stay_in_run(states: Seq<StateView>, text: Seq<u8>, from: ThreadView, k: int)
    requires
        closed(states),
        in_run(from, states.len() as int, text.len() as int),
        0 <= k < steps(states, text, from).len(),
    ensures
        in_run(steps(states, text, from)[k], states.len() as int, text.len() as int),
{
    if let Some(i) = from.position {
        assert(states[i].fits(states.len() as int));
        assert(unread(text, from.remaining).len() == from.remaining);
    }
}

/// A search among the threads of a run comes to an end within as many
/// expansions as there is work left.
proof fn lemma_search_ends(states: Seq<StateView>, text: Seq<u8>, from: Search)
    requires
        closed(states),
        confined(from, states.len() as int, text.len() as int),
    ensures
        search(states, text, from, work(from, states.len() as int, text.len() as int)) is Some,
    decreases work(from, states.len() as int, text.len() as int),
{
    let n = states.len() as int;
    let len = text.len() as int;
    if from.pending.len() > 0 && from.pending.last().position is Some {
        let top = from.pending.last();
        let popped = Search { pending: from.pending.drop_last(), seen: from.seen };
        let next = steps(states, text, top);
        assert(in_run(from.pending[from.pending.len() - 1], n, len));
        assert forall|k: int| 0 <= k < popped.pending.len() implies in_run(
            #[trigger] popped.pending[k],
            n,
            len,
        ) by {
            assert(popped.pending[k] == from.pending[k]);
        }
        assert forall|k: int| 0 <= k < next.len() implies in_run(#[trigger] next[k], n, len) by {
            lemma_steps_stay_in_run(states, text, top, k);
        }
        lemma_enqueue_all_work(popped, next, n, len);
        let after = expand(states, text, from);
        lemma_search_ends(states, text, after);
        lemma_search_is_stable(
            states,
            text,
            after,
            work(after, n, len),
            (work(from, n, len) - 1) as nat,
        );
    }
}

/// Twice the number of threads that a run of `nfa` over `text` can see: a
/// thread for each state, and one more, with each number of bytes that may
/// be left.
pub open spec fn search_bound(nfa: NfaView, text: Seq<u8>) -> nat {
    2 * ((nfa.states.len() + 1) * (text.len() + 1))
}

/// The search for a match comes to an end: for every automaton whose edges
/// lead to its own states and for every text, the outcome is settled within
/// a number of expansions that grows with the number of states times the
/// length of the text.
pub proof fn lemma_search_settles(nfa: NfaView, text: Seq<u8>)
    requires
        nfa.is_closed(),
        0 <= nfa.start < nfa.states.len(),
    ensures
        settles(nfa, text, search_bound(nfa, text)),
{
    let from = first_search(nfa, text);
    let n = nfa.states.len() as int;
    let len = text.len() as int;
    assert(from.pending[0] == first_thread(nfa, text));
    lemma_search_ends(nfa.states, text, from);
    let table = table_of(from.seen, n, len);
    lemma_unset_is_bounded(table, (n + 1) as nat);
    assert((len + 1) * (n + 1) == (n + 1) * (len + 1)) by (nonlinear_arith);
    let start = first_thread(nfa, text);
    assert(from.seen.contains(start));
    assert(table[len][nfa.start]) by {
        assert(thread_at(len, nfa.start, n) == start);
    }
    lemma_one_cell_is_set(table, len, nfa.start);
    lemma_search_is_stable(
        nfa.states,
        text,
        from,
        work(from, n, len),
        search_bound(nfa, text),
    );
}

/// A table of which a cell is set has fewer unset cells than cells.
proof fn lemma_one_cell_is_set(table: Seq<Seq<bool>>, row: int, column: int)
    requires
        0 <= row < table.len(),
        0 <= column < table[row].len(),
        table[row][column],
        forall|r: int| 0 <= r < table.len() ==> (#[trigger] table[r]).len() == table[row].len(),
    ensures
        unset(table) < table.len() * table[row].len(),
{
    let width = table[row].len();
    let cleared = table.update(row, table[row].update(column, false));
    assert forall|r: int| 0 <= r < cleared.len() implies (#[trigger] cleared[r]).len()
        == width by {}
    lemma_unset_is_bounded(cleared, width);
    assert(table[row] =~= cleared[row].update(column, true));
    assert(table =~= cleared.update(row, cleared[row].update(column, true)));
    lemma_set_cell(cleared, row, column);
}

/// What the outcome of a search means: the offset it names ends a prefix
/// that the automaton accepts, and it names one whenever the automaton
/// accepts a prefix at all.
pub proof fn lemma_outcome_means(nfa: NfaView, text: Seq<u8>)
    requires
        nfa.well_formed(),
    ensures
        outcome(nfa, text) matches Some(end) ==> 0 <= end <= text.len() && accepts(nfa, text, end),
        outcome(nfa, text) is None ==> forall|end: int| !accepts(nfa, text, end),
{
    if nfa.states.len() > 0 {
        lemma_search_settles(nfa, text);
        lemma_outcome_is_accepted(nfa, text, search_bound(nfa, text));
        if let Some(end) = outcome(nfa, text) {
            lemma_accepted_is_prefix(nfa, text, end);
        }
    }
}

/// A prefix that the automaton accepts is a prefix of the text.
pub proof fn lemma_accepted_is_prefix(nfa: NfaView, text: Seq<u8>, end: int)
    requires
        nfa.is_closed(),
        nfa.states.len() > 0 ==> 0 <= nfa.start < nfa.states.len(),
        accepts(nfa, text, end),
    ensures
        0 <= end <= text.len(),
{
    if nfa.states.len() > 0 {
        let n = nfa.states.len() as int;
        let len = text.len() as int;
        let inside = |t: ThreadView| in_run(t, n, len);
        assert forall|a: ThreadView, b: ThreadView| inside(a) && #[trigger] moves(nfa.states, text)(
            a,
            b,
        ) implies inside(b) by {
            let next = steps(nfa.states, text, a);
            let k = choose|k: int| 0 <= k < next.len() && next[k] == b;
            lemma_steps_stay_in_run(nfa.states, text, a, k);
        }
        lemma_reaches_stays_inside(
            moves(nfa.states, text),
            inside,
            first_thread(nfa, text),
            matched(text, end),
        );
    }
}

/// A thread of a run.
#[derive(Clone, Copy)]
struct Thread {
    position: Option<usize>,
    remaining: usize,
}

impl View for Thread {
    type V = ThreadView;

    closed spec fn view(&self) -> ThreadView {
        ThreadView {
            position: match self.position {
                Some(i) => Some(i as int),
                None => None,
            },
            remaining: self.remaining as int,
        }
    }
}

/// The values of a vector of threads.
spec fn thread_views(threads: Seq<Thread>) -> Seq<ThreadView> {
    threads.map_values(|t: Thread| t@)
}

/// The thread is one of a run of an automaton of `n` states over a text of
/// `len` bytes.
pub open spec fn in_run(thread: ThreadView, n: int, len: int) -> bool {
    &&& 0 <= thread.remaining <= len
    &&& thread.position matches Some(i) ==> 0 <= i < n
}

/// The cell that records in a table of `n + 1` columns that a thread was
/// seen.
spec fn cell(thread: ThreadView, n: int) -> int {
    thread.remaining * (n + 1) + match thread.position {
        Some(i) => i,
        None => n,
    }
}

/// Two threads of a run have their own cells, and every cell lies in the
/// table.
proof fn lemma_cells(a: ThreadView, b: ThreadView, n: int, len: int)
    requires
        in_run(a, n, len),
        in_run(b, n, len),
        n >= 0,
    ensures
        0 <= cell(a, n) < (len + 1) * (n + 1),
        cell(a, n) == cell(b, n) ==> a == b,
{
    let w = n + 1;
    let ca = cell(a, n) - a.remaining * w;
    let cb = cell(b, n) - b.remaining * w;
    assert(0 <= a.remaining * w && a.remaining * w + w <= (len + 1) * w) by (nonlinear_arith)
        requires
            0 <= a.remaining <= len,
            w > 0,
    ;
    if a.remaining < b.remaining {
        assert(a.remaining * w + w <= b.remaining * w) by (nonlinear_arith)
            requires
                a.remaining + 1 <= b.remaining,
                w > 0,
        ;
    }
    if b.remaining < a.remaining {
        assert(b.remaining * w + w <= a.remaining * w) by (nonlinear_arith)
            requires
                b.remaining + 1 <= a.remaining,
                w > 0,
        ;
    }
}

/// The work list and the table of a run hold the search `search`.
spec fn holds(pending: Seq<Thread>, table: Seq<bool>, search: Search, n: int, len: int) -> bool {
    &&& thread_views(pending) == search.pending
    &&& table.len() == (len + 1) * (n + 1)
    &&& forall|t: ThreadView| #[trigger] search.seen.contains(t) ==> in_run(t, n, len)
    &&& forall|t: ThreadView|
        in_run(t, n, len) ==> (table[cell(t, n)] <==> #[trigger] search.seen.contains(t))
    &&& forall|k: int|
        0 <= k < search.pending.len() ==> in_run(#[trigger] search.pending[k], n, len)
}

/// Appends the cells of one row, none of them set.
fn push_row(table: &mut Vec<bool>, n: usize)
    requires
        forall|i: int| 0 <= i < old(table)@.len() ==> !#[trigger] old(table)@[i],
    ensures
        final(table)@.len() == old(table)@.len() + n + 1,
        forall|i: int| 0 <= i < final(table)@.len() ==> !#[trigger] final(table)@[i],
{
    let mut i: usize = 0;
    while i < n
        invariant
            i <= n,
            table@.len() == old(table)@.len() + i,
            forall|i: int| 0 <= i < table@.len() ==> !#[trigger] table@[i],
        decreases n - i,
    {
        table.push(false);
        i += 1;
    }
    table.push(false);
}

/// A table with a row for each number of bytes that may be left of `len`
/// and a column for each of `n` states and one more, no cell set.
fn blank_table(n: usize, len: usize) -> (table: Vec<bool>)
    ensures
        table@.len() == (len + 1) * (n + 1),
        forall|i: int| 0 <= i < table@.len() ==> !#[trigger] table@[i],
{
    let mut table: Vec<bool> = Vec::new();
    push_row(&mut table, n);
    let mut rows: usize = 0;
    while rows < len
        invariant
            rows <= len,
            table@.len() == (rows + 1) * (n + 1),
            forall|i: int| 0 <= i < table@.len() ==> !#[trigger] table@[i],
        decreases len - rows,
    {
        push_row(&mut table, n);
        assert((rows + 1) * (n + 1) + n + 1 == (rows + 1 + 1) * (n + 1)) by (nonlinear_arith);
        rows += 1;
    }
    table
}

/// Puts `thread` on the work list unless the table has it.
fn enqueue_thread(
    pending: &mut Vec<Thread>,
    table: &mut Vec<bool>,
    thread: Thread,
    n: usize,
    len: usize,
    Ghost(search): Ghost<Search>,
)
    requires
        holds(old(pending)@, old(table)@, search, n as int, len as int),
        in_run(thread@, n as int, len as int),
    ensures
        holds(final(pending)@, final(table)@, enqueue(search, thread@), n as int, len as int),
        final(pending)@.len() == old(pending)@.len() && final(table)@ == old(table)@
            || final(pending)@.len() == old(pending)@.len() + 1 && unmarked(final(table)@)
            < unmarked(old(table)@),
{
    let column = match thread.position {
        Some(i) => i,
        None => n,
    };
    proof {
        lemma_cells(thread@, thread@, n as int, len as int);
        assert(thread.remaining * (n + 1) <= cell(thread@, n as int)) by (nonlinear_arith)
            requires
                cell(thread@, n as int) == thread.remaining * (n + 1) + column,
        ;
        assert(table@.len() <= usize::MAX) by {
            let l = table.len();
        }
        assert(n + 1 <= (len + 1) * (n + 1)) by (nonlinear_arith);
    }
    let index = thread.remaining * (n + 1) + column;
    if !table[index] {
        proof {
            lemma_mark(table@, index as int);
        }
        table.set(index, true);
        pending.push(thread);
        proof {
            let after = enqueue(search, thread@);
            assert(thread_views(pending@) =~= after.pending);
            assert forall|t: ThreadView| in_run(t, n as int, len as int) implies (table@[cell(
                t,
                n as int,
            )] <==> #[trigger] after.seen.contains(t)) by {
                lemma_cells(t, thread@, n as int, len as int);
            }
        }
    }
}

/// The index of the state at the end of an edge.
fn place_of(out: &Transition) -> (position: Option<usize>)
    ensures
        (Thread { position, remaining: 0 })@.position == place(out@),
{
    match out {
        Transition::Id(id) => Some(*id),
        _ => None,
    }
}

/// The key by which a thread at `position` is ordered among its siblings.
fn key_at(nfa: &NFA, position: Option<usize>) -> (key: usize)
    requires
        nfa@.is_closed(),
        position matches Some(i) ==> i < nfa@.states.len(),
    ensures
        key == position_key(nfa@.states, (Thread { position, remaining: 0 })@.position),
{
    match position {
        Some(i) => {
            assert(nfa@.states[i as int] == nfa.states[i as int]@);
            nfa.states[i].get_priority_key(nfa)
        },
        None => usize::MAX,
    }
}

/// The threads that follow the thread at `position` with `remaining` bytes
/// of `text` to read, the most preferred first.
fn step(nfa: &NFA, text: &[u8], position: usize, remaining: usize) -> (next: Vec<Thread>)
    requires
        nfa@.well_formed(),
        position < nfa@.states.len(),
        remaining <= text@.len(),
    ensures
        thread_views(next@) == steps(
            nfa@.states,
            text@,
            (ThreadView { position: Some(position as int), remaining: remaining as int }),
        ),
        forall|k: int|
            0 <= k < next@.len() ==> in_run(
                #[trigger] next@[k]@,
                nfa@.states.len() as int,
                text@.len() as int,
            ),
{
    let ghost states = nfa@.states;
    let ghost from = ThreadView { position: Some(position as int), remaining: remaining as int };
    let mut next: Vec<Thread> = Vec::new();
    proof {
        assert(states[position as int] == nfa.states[position as int]@);
        assert(states[position as int].fits(states.len() as int));
        assert(states[position as int].is_connected());
    }
    match &nfa.states[position] {
        State::State { condition, out } => {
            match condition {
                Condition::Epsilon => {
                    next.push(Thread { position: place_of(out), remaining });
                    assert(unread(text@, remaining as int).len() == remaining);
                },
                _ => {
                    if remaining > 0 && condition.admits(text[text.len() - remaining]) {
                        next.push(Thread { position: place_of(out), remaining: remaining - 1 });
                    }
                },
            }
            assert(thread_views(next@) =~= steps(states, text@, from));
        },
        State::Split { out1, out2 } => {
            let first = place_of(out1);
            let second = place_of(out2);
            if key_at(nfa, second) < key_at(nfa, first) {
                next.push(Thread { position: second, remaining });
                next.push(Thread { position: first, remaining });
            } else {
                next.push(Thread { position: first, remaining });
                next.push(Thread { position: second, remaining });
            }
            assert(thread_views(next@) =~= steps(states, text@, from));
        },
    }
    next
}

/// The offset as a mathematical integer.
pub open spec fn offset_view(end: Option<usize>) -> Option<int> {
    match end {
        Some(k) => Some(k as int),
        None => None,
    }
}

/// Matches `nfa` against the start of `text` and returns the offset at which
/// the match ends, if there is one.
///
/// The threads are explored from the start thread on, the most preferred
/// successor of the thread explored last before everything else that is
/// pending, each thread once. The run ends with the first thread that is
/// found to have left the automaton. The result is [`outcome`]: an offset at
/// which the automaton accepts, and none only if it accepts no prefix of the
/// text. The number of threads explored is at most [`search_bound`].
pub fn run(nfa: &NFA, text: &[u8]) -> (end: Option<usize>)
    requires
        nfa@.well_formed(),
    ensures
        offset_view(end) == outcome(nfa@, text@),
        end matches Some(k) ==> k <= text@.len() && accepts(nfa@, text@, k as int),
        end is None ==> forall|k: int| !accepts(nfa@, text@, k),
        nfa@.states.len() > 0 ==> settles(nfa@, text@, search_bound(nfa@, text@)),
{
    let n = nfa.states.len();
    if n == 0 {
        return Some(0);
    }
    proof {
        lemma_search_settles(nfa@, text@);
    }
    let len = text.len();
    let ghost states = nfa@.states;
    let ghost first = first_search(nfa@, text@);
    let mut table = blank_table(n, len);
    let mut pending: Vec<Thread> = Vec::new();
    let start = Thread { position: Some(nfa.start), remaining: len };
    let ghost mut search = Search { pending: Seq::empty(), seen: Set::empty() };
    proof {
        assert(thread_views(pending@) =~= search.pending);
        assert forall|t: ThreadView| in_run(t, n as int, len as int) implies !table@[cell(
            t,
            n as int,
        )] by {
            lemma_cells(t, t, n as int, len as int);
        }
    }
    enqueue_thread(&mut pending, &mut table, start, n, len, Ghost(search));
    let ghost mut done: nat = 0;
    proof {
        search = enqueue(search, start@);
        assert(search.pending =~= first.pending);
        assert(search.seen =~= first.seen);
    }
    while pending.len() > 0
        invariant
            nfa@.well_formed(),
            states == nfa@.states,
            first == first_search(nfa@, text@),
            n == states.len(),
            len == text@.len(),
            n > 0,
            settles(nfa@, text@, search_bound(nfa@, text@)),
            holds(pending@, table@, search, n as int, len as int),
            forall|fuel: nat| #[trigger]
                self::search(states, text@, search, fuel) == self::search(
                    states,
                    text@,
                    first,
                    fuel + done,
                ),
        decreases unmarked(table@), pending@.len(),
    {
        let ghost before = search;
        let ghost table_before = table@;
        let ghost pending_before = pending@;
        let thread = pending.pop().unwrap();
        proof {
            assert(thread@ == before.pending.last()) by {
                assert(thread_views(pending_before).last() == pending_before.last()@);
            }
            search = Search { pending: before.pending.drop_last(), seen: before.seen };
            assert(thread_views(pending@) =~= search.pending);
            assert(in_run(before.pending[before.pending.len() - 1], n as int, len as int));
        }
        match thread.position {
            None => {
                proof {
                    assert(self::search(states, text@, before, 0) == Some(
                        Some(len - thread.remaining),
                    ));
                    assert(settles(nfa@, text@, done));
                    lemma_outcome(nfa@, text@, done);
                    lemma_outcome_is_accepted(nfa@, text@, done);
                }
                return Some(len - thread.remaining);
            },
            Some(position) => {
                let next = step(nfa, text, position, thread.remaining);
                let ghost popped = search;
                let ghost popped_len = pending@.len();
                let mut k = next.len();
                proof {
                    assert(thread_views(next@).take(k as int) =~= thread_views(next@));
                }
                while k > 0
                    invariant
                        k <= next@.len(),
                        n == nfa@.states.len(),
                        len == text@.len(),
                        holds(pending@, table@, search, n as int, len as int),
                        forall|k: int|
                            0 <= k < next@.len() ==> in_run(
                                #[trigger] next@[k]@,
                                n as int,
                                len as int,
                            ),
                        enqueue_all(search, thread_views(next@).take(k as int)) == enqueue_all(
                            popped,
                            thread_views(next@),
                        ),
                        pending@.len() == popped_len && table@ == table_before || pending@.len()
                            > popped_len && unmarked(table@) < unmarked(table_before),
                    decreases k,
                {
                    k -= 1;
                    proof {
                        let upto = thread_views(next@).take(k + 1);
                        assert(upto.last() == next@[k as int]@);
                        assert(upto.drop_last() =~= thread_views(next@).take(k as int));
                    }
                    enqueue_thread(&mut pending, &mut table, next[k], n, len, Ghost(search));
                    proof {
                        search = enqueue(search, next@[k as int]@);
                    }
                }
                proof {
                    assert(search == expand(states, text@, before));
                    assert forall|fuel: nat| #[trigger]
                        self::search(states, text@, search, fuel) == self::search(
                            states,
                            text@,
                            first,
                            fuel + (done + 1),
                        ) by {
                        assert(self::search(states, text@, before, fuel + 1) == self::search(
                            states,
                            text@,
                            first,
                            fuel + 1 + done,
                        ));
                    }
                    done = done + 1;
                }
            },
        }
    }
    proof {
        assert(self::search(states, text@, search, 0) == Some(None::<int>));
        assert(settles(nfa@, text@, done));
        lemma_outcome(nfa@, text@, done);
        lemma_outcome_is_accepted(nfa@, text@, done);
    }
    None
}

} // verus!
