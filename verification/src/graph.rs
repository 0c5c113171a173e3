//! Walks in a directed graph given by an edge relation, and the bookkeeping
//! of a search that marks the nodes it has seen.

use vstd::prelude::*;

verus! {

/// The node at `k` has an edge to the node after it.
pub open spec fn links<T>(edge: spec_fn(T, T) -> bool, walk: Seq<T>, k: int) -> bool {
    edge(walk[k], walk[k + 1])
}

/// A non-empty sequence of nodes in which each node has an edge to the next.
pub open spec fn is_walk<T>(edge: spec_fn(T, T) -> bool, walk: Seq<T>) -> bool {
    &&& walk.len() > 0
    &&& forall|k: int| 0 <= k < walk.len() - 1 ==> #[trigger] links(edge, walk, k)
}

/// There is a walk from `from` to `to`; a node reaches itself.
pub open spec fn reaches<T>(edge: spec_fn(T, T) -> bool, from: T, to: T) -> bool {
    exists|walk: Seq<T>| #[trigger] is_walk(edge, walk) && walk[0] == from && walk.last() == to
}

/// A node reaches itself.
pub proof fn lemma_reaches_self<T>(edge: spec_fn(T, T) -> bool, node: T)
    ensures
        reaches(edge, node, node),
{
    assert(is_walk(edge, seq![node]));
}

/// A walk can be extended by one edge at its end.
pub proof fn lemma_reaches_then_edge<T>(edge: spec_fn(T, T) -> bool, from: T, mid: T, to: T)
    requires
        reaches(edge, from, mid),
        edge(mid, to),
    ensures
        reaches(edge, from, to),
{
    let walk = choose|walk: Seq<T>| #[trigger]
        is_walk(edge, walk) && walk[0] == from && walk.last() == mid;
    let longer = walk.push(to);
    assert forall|k: int| 0 <= k < longer.len() - 1 implies #[trigger] links(edge, longer, k) by {
        if k < walk.len() - 1 {
            assert(links(edge, walk, k));
        }
    }
    assert(is_walk(edge, longer));
}

/// A walk can be extended by one edge at its start.
pub proof fn lemma_edge_then_reaches<T>(edge: spec_fn(T, T) -> bool, from: T, mid: T, to: T)
    requires
        edge(from, mid),
        reaches(edge, mid, to),
    ensures
        reaches(edge, from, to),
{
    let walk = choose|walk: Seq<T>| #[trigger]
        is_walk(edge, walk) && walk[0] == mid && walk.last() == to;
    let longer = seq![from] + walk;
    assert forall|k: int| 0 <= k < longer.len() - 1 implies #[trigger] links(edge, longer, k) by {
        if k > 0 {
            assert(links(edge, walk, k - 1));
        }
    }
    assert(is_walk(edge, longer));
}

/// Two walks that meet make one walk.
pub proof fn lemma_reaches_transitive<T>(edge: spec_fn(T, T) -> bool, from: T, mid: T, to: T)
    requires
        reaches(edge, from, mid),
        reaches(edge, mid, to),
    ensures
        reaches(edge, from, to),
{
    let first = choose|walk: Seq<T>| #[trigger]
        is_walk(edge, walk) && walk[0] == from && walk.last() == mid;
    let second = choose|walk: Seq<T>| #[trigger]
        is_walk(edge, walk) && walk[0] == mid && walk.last() == to;
    let joined = first + second.drop_first();
    assert forall|k: int| 0 <= k < joined.len() - 1 implies #[trigger] links(edge, joined, k) by {
        if k < first.len() - 1 {
            assert(links(edge, first, k));
        } else {
            let m = k - first.len() + 1;
            assert(links(edge, second, m));
        }
    }
    assert(is_walk(edge, joined));
}

/// A walk that starts inside a set that no edge leaves ends inside it.
pub proof fn lemma_walk_stays_inside<T>(
    edge: spec_fn(T, T) -> bool,
    inside: spec_fn(T) -> bool,
    walk: Seq<T>,
)
    requires
        is_walk(edge, walk),
        inside(walk[0]),
        forall|a: T, b: T| inside(a) && #[trigger] edge(a, b) ==> inside(b),
    ensures
        forall|k: int| 0 <= k < walk.len() ==> inside(#[trigger] walk[k]),
    decreases walk.len(),
{
    if walk.len() > 1 {
        let shorter = walk.drop_last();
        assert forall|k: int| 0 <= k < shorter.len() - 1 implies #[trigger] links(
            edge,
            shorter,
            k,
        ) by {
            assert(links(edge, walk, k));
        }
        lemma_walk_stays_inside(edge, inside, shorter);
        let last = walk.len() - 1;
        assert forall|k: int| 0 <= k < walk.len() implies inside(#[trigger] walk[k]) by {
            if k < last {
                assert(walk[k] == shorter[k]);
            } else {
                assert(walk[last - 1] == shorter[last - 1]);
                assert(links(edge, walk, last - 1));
            }
        }
    }
}

/// Whatever a node inside a set that no edge leaves reaches is inside too.
pub proof fn lemma_reaches_stays_inside<T>(
    edge: spec_fn(T, T) -> bool,
    inside: spec_fn(T) -> bool,
    from: T,
    to: T,
)
    requires
        inside(from),
        forall|a: T, b: T| inside(a) && #[trigger] edge(a, b) ==> inside(b),
        reaches(edge, from, to),
    ensures
        inside(to),
{
    let walk = choose|walk: Seq<T>| #[trigger]
        is_walk(edge, walk) && walk[0] == from && walk.last() == to;
    lemma_walk_stays_inside(edge, inside, walk);
}

/// A walk stays a walk when edges are added to the graph.
pub proof fn lemma_reaches_monotonic<T>(
    fewer: spec_fn(T, T) -> bool,
    more: spec_fn(T, T) -> bool,
    from: T,
    to: T,
)
    requires
        forall|a: T, b: T| #[trigger] fewer(a, b) ==> more(a, b),
        reaches(fewer, from, to),
    ensures
        reaches(more, from, to),
{
    let walk = choose|walk: Seq<T>| #[trigger]
        is_walk(fewer, walk) && walk[0] == from && walk.last() == to;
    assert forall|k: int| 0 <= k < walk.len() - 1 implies #[trigger] links(more, walk, k) by {
        assert(links(fewer, walk, k));
    }
    assert(is_walk(more, walk));
}

/// The number of cells of `marks` that are not set.
pub open spec fn unmarked(marks: Seq<bool>) -> nat
    decreases marks.len(),
{
    if marks.len() == 0 {
        0
    } else {
        unmarked(marks.drop_last()) + if marks.last() {
            0nat
        } else {
            1nat
        }
    }
}

/// There are no more unset cells than cells.
pub proof fn lemma_unmarked_is_bounded(marks: Seq<bool>)
    ensures
        unmarked(marks) <= marks.len(),
    decreases marks.len(),
{
    if marks.len() > 0 {
        lemma_unmarked_is_bounded(marks.drop_last());
    }
}

/// Setting a cell that was not set leaves one unset cell fewer.
pub proof fn lemma_mark(marks: Seq<bool>, i: int)
    requires
        0 <= i < marks.len(),
        !marks[i],
    ensures
        unmarked(marks.update(i, true)) + 1 == unmarked(marks),
    decreases marks.len(),
{
    let after = marks.update(i, true);
    if i == marks.len() - 1 {
        assert(after.drop_last() =~= marks.drop_last());
    } else {
        lemma_mark(marks.drop_last(), i);
        assert(after.drop_last() =~= marks.drop_last().update(i, true));
    }
}

/// Setting cells leaves no more cells unset than before.
pub proof fn lemma_marking_never_unmarks(before: Seq<bool>, after: Seq<bool>)
    requires
        after.len() == before.len(),
        forall|j: int| 0 <= j < before.len() && before[j] ==> #[trigger] after[j],
    ensures
        unmarked(after) <= unmarked(before),
    decreases before.len(),
{
    if before.len() > 0 {
        lemma_marking_never_unmarks(before.drop_last(), after.drop_last());
    }
}

/// The edges that start inside a set.
pub open spec fn leaving<T>(edge: spec_fn(T, T) -> bool, inside: spec_fn(T) -> bool) -> spec_fn(
    T,
    T,
) -> bool {
    |a: T, b: T| inside(a) && edge(a, b)
}

/// A walk with its first node removed is a walk from its second node.
pub proof fn lemma_walk_tail<T>(edge: spec_fn(T, T) -> bool, walk: Seq<T>)
    requires
        is_walk(edge, walk),
        walk.len() >= 2,
    ensures
        edge(walk[0], walk[1]),
        is_walk(edge, walk.drop_first()),
        walk.drop_first()[0] == walk[1],
        walk.drop_first().last() == walk.last(),
{
    assert(links(edge, walk, 0));
    let tail = walk.drop_first();
    assert forall|k: int| 0 <= k < tail.len() - 1 implies #[trigger] links(edge, tail, k) by {
        assert(links(edge, walk, k + 1));
    }
}

/// A piece of a walk is a walk.
pub proof fn lemma_walk_piece<T>(edge: spec_fn(T, T) -> bool, walk: Seq<T>, from: int, to: int)
    requires
        is_walk(edge, walk),
        0 <= from <= to < walk.len(),
    ensures
        is_walk(edge, walk.subrange(from, to + 1)),
        walk.subrange(from, to + 1)[0] == walk[from],
        walk.subrange(from, to + 1).last() == walk[to],
        reaches(edge, walk[from], walk[to]),
{
    let piece = walk.subrange(from, to + 1);
    assert forall|k: int| 0 <= k < piece.len() - 1 implies #[trigger] links(edge, piece, k) by {
        assert(links(edge, walk, from + k));
    }
    assert(is_walk(edge, piece));
}

/// A walk from inside a set to outside it has a first node outside; up to
/// that node it runs through edges that start inside.
pub proof fn lemma_first_exit<T>(
    edge: spec_fn(T, T) -> bool,
    inside: spec_fn(T) -> bool,
    walk: Seq<T>,
) -> (k: int)
    requires
        is_walk(edge, walk),
        inside(walk[0]),
        !inside(walk.last()),
    ensures
        0 < k < walk.len(),
        !inside(walk[k]),
        forall|j: int| 0 <= j < k ==> inside(#[trigger] walk[j]),
        is_walk(leaving(edge, inside), walk.subrange(0, k + 1)),
        reaches(leaving(edge, inside), walk[0], walk[k]),
    decreases walk.len(),
{
    let k = if !inside(walk[1]) {
        1
    } else {
        let tail = walk.drop_first();
        lemma_walk_tail(edge, walk);
        let k = lemma_first_exit(edge, inside, tail);
        assert forall|j: int| 0 <= j < k + 1 implies inside(#[trigger] walk[j]) by {
            if j > 0 {
                assert(walk[j] == tail[j - 1]);
            }
        }
        assert(walk[k + 1] == tail[k]);
        k + 1
    };
    let piece = walk.subrange(0, k + 1);
    assert forall|j: int| 0 <= j < piece.len() - 1 implies #[trigger] links(
        leaving(edge, inside),
        piece,
        j,
    ) by {
        assert(links(edge, walk, j));
        assert(inside(walk[j]));
    }
    assert(is_walk(leaving(edge, inside), piece));
    assert(piece[0] == walk[0] && piece.last() == walk[k]);
    k
}

/// The image of a walk under a map that carries edges to edges is a walk.
pub proof fn lemma_walk_image<T>(
    edge: spec_fn(T, T) -> bool,
    other: spec_fn(T, T) -> bool,
    map: spec_fn(T) -> T,
    walk: Seq<T>,
)
    requires
        is_walk(edge, walk),
        forall|k: int|
            0 <= k < walk.len() - 1 && #[trigger] links(edge, walk, k) ==> other(
                map(walk[k]),
                map(walk[k + 1]),
            ),
    ensures
        is_walk(other, walk.map_values(map)),
        reaches(other, map(walk[0]), map(walk.last())),
{
    let image = walk.map_values(map);
    assert forall|k: int| 0 <= k < image.len() - 1 implies #[trigger] links(other, image, k) by {
        assert(links(edge, walk, k));
    }
    assert(is_walk(other, image));
    assert(image[0] == map(walk[0]) && image.last() == map(walk.last()));
}

} // verus!
