//! Undirected reachability over a set of edges between numbered vertices.

use vstd::prelude::*;

verus! {

/// An edge joins `x` and `y`, in either direction.
pub open spec fn adjacent(edges: Set<(int, int)>, x: int, y: int) -> bool {
    edges.contains((x, y)) || edges.contains((y, x))
}

/// A non-empty sequence of vertices in which neighbours are adjacent.
pub open spec fn is_walk(edges: Set<(int, int)>, walk: Seq<int>) -> bool {
    &&& walk.len() > 0
    &&& forall|k: int| 0 <= k < walk.len() - 1 ==> adjacent(edges, #[trigger] walk[k], walk[k + 1])
}

/// Some walk leads from `a` to `b`.
pub open spec fn reachable(edges: Set<(int, int)>, a: int, b: int) -> bool {
    exists|walk: Seq<int>| #[trigger] is_walk(edges, walk) && walk.first() == a && walk.last() == b
}

/// Every edge has both ends in `0..n`.
pub open spec fn edges_within(edges: Set<(int, int)>, n: int) -> bool {
    forall|x: int, y: int| #[trigger] edges.contains((x, y)) ==> 0 <= x < n && 0 <= y < n
}

/// Every vertex reaches itself.
pub proof fn lemma_reachable_refl(edges: Set<(int, int)>, a: int)
    ensures
        reachable(edges, a, a),
{
    let walk = seq![a];
    assert(is_walk(edges, walk));
}

/// Adjacent vertices reach each other.
pub proof fn lemma_reachable_step(edges: Set<(int, int)>, a: int, b: int)
    requires
        adjacent(edges, a, b),
    ensures
        reachable(edges, a, b),
{
    let walk = seq![a, b];
    assert(is_walk(edges, walk));
}

/// Reachability is symmetric.
pub proof fn lemma_reachable_sym(edges: Set<(int, int)>, a: int, b: int)
    requires
        reachable(edges, a, b),
    ensures
        reachable(edges, b, a),
{
    let walk = choose|walk: Seq<int>| #[trigger]
        is_walk(edges, walk) && walk.first() == a && walk.last() == b;
    let back = Seq::new(walk.len(), |k: int| walk[walk.len() - 1 - k]);
    assert forall|k: int| 0 <= k < back.len() - 1 implies adjacent(
        edges,
        #[trigger] back[k],
        back[k + 1],
    ) by {
        let j = walk.len() - 2 - k;
        assert(adjacent(edges, walk[j], walk[j + 1]));
    }
    assert(is_walk(edges, back));
}

/// Reachability is transitive.
pub proof fn lemma_reachable_trans(edges: Set<(int, int)>, a: int, b: int, c: int)
    requires
        reachable(edges, a, b),
        reachable(edges, b, c),
    ensures
        reachable(edges, a, c),
{
    let left = choose|walk: Seq<int>| #[trigger]
        is_walk(edges, walk) && walk.first() == a && walk.last() == b;
    let right = choose|walk: Seq<int>| #[trigger]
        is_walk(edges, walk) && walk.first() == b && walk.last() == c;
    let joined = left.drop_last() + right;
    assert forall|k: int| 0 <= k < joined.len() - 1 implies adjacent(
        edges,
        #[trigger] joined[k],
        joined[k + 1],
    ) by {
        let cut = left.len() - 1;
        if k + 1 < cut {
            assert(adjacent(edges, left[k], left[k + 1]));
        } else if k + 1 == cut {
            assert(adjacent(edges, left[k], left[k + 1]));
            assert(joined[k + 1] == right[0]);
        } else {
            assert(adjacent(edges, right[k - cut], right[k - cut + 1]));
        }
    }
    assert(is_walk(edges, joined));
}

/// More edges keep what was reachable.
pub proof fn lemma_reachable_mono(
    edges: Set<(int, int)>,
    more: Set<(int, int)>,
    a: int,
    b: int,
)
    requires
        reachable(edges, a, b),
        edges.subset_of(more),
    ensures
        reachable(more, a, b),
{
    let walk = choose|walk: Seq<int>| #[trigger]
        is_walk(edges, walk) && walk.first() == a && walk.last() == b;
    assert forall|k: int| 0 <= k < walk.len() - 1 implies adjacent(
        more,
        #[trigger] walk[k],
        walk[k + 1],
    ) by {
        assert(adjacent(edges, walk[k], walk[k + 1]));
    }
    assert(is_walk(more, walk));
}

/// Along a walk, a relation that every edge carries holds from the start to
/// each vertex.
proof fn lemma_walk_carries(
    edges: Set<(int, int)>,
    related: spec_fn(int, int) -> bool,
    walk: Seq<int>,
    k: int,
)
    requires
        is_walk(edges, walk),
        0 <= k < walk.len(),
        related(walk[0], walk[0]),
        forall|x: int, y: int, z: int| #[trigger]
            related(x, y) && #[trigger] adjacent(edges, y, z) ==> related(x, z),
    ensures
        related(walk[0], walk[k]),
    decreases k,
{
    if k > 0 {
        lemma_walk_carries(edges, related, walk, k - 1);
        assert(adjacent(edges, walk[k - 1], walk[k - 1 + 1]));
    }
}

/// A relation that holds of `a` with itself and is carried along every edge
/// holds between `a` and whatever `a` reaches.
pub proof fn lemma_reachable_carries(
    edges: Set<(int, int)>,
    related: spec_fn(int, int) -> bool,
    a: int,
    b: int,
)
    requires
        reachable(edges, a, b),
        related(a, a),
        forall|x: int, y: int, z: int| #[trigger]
            related(x, y) && #[trigger] adjacent(edges, y, z) ==> related(x, z),
    ensures
        related(a, b),
{
    let walk = choose|walk: Seq<int>| #[trigger]
        is_walk(edges, walk) && walk.first() == a && walk.last() == b;
    lemma_walk_carries(edges, related, walk, walk.len() - 1);
}

/// What is reached with one more edge is reached without it, or by going
/// to one end of the edge, across it, and on from the other end.
pub proof fn lemma_reachable_across(edges: Set<(int, int)>, a: int, b: int, x: int, y: int)
    requires
        reachable(edges.insert((a, b)), x, y),
    ensures
        reachable(edges, x, y) || (reachable(edges, x, a) && reachable(edges, b, y)) || (
        reachable(edges, x, b) && reachable(edges, a, y)),
{
    let more = edges.insert((a, b));
    let related = |from: int, to: int|
        reachable(edges, from, to) || (reachable(edges, from, a) && reachable(edges, b, to)) || (
        reachable(edges, from, b) && reachable(edges, a, to));
    lemma_reachable_refl(edges, x);
    lemma_reachable_refl(edges, a);
    lemma_reachable_refl(edges, b);
    assert forall|from: int, via: int, to: int| #[trigger]
        related(from, via) && #[trigger] adjacent(more, via, to) implies related(from, to) by {
        if adjacent(edges, via, to) {
            lemma_reachable_step(edges, via, to);
            if reachable(edges, from, via) {
                lemma_reachable_trans(edges, from, via, to);
            } else if reachable(edges, from, a) && reachable(edges, b, via) {
                lemma_reachable_trans(edges, b, via, to);
            } else {
                lemma_reachable_trans(edges, a, via, to);
            }
        } else if via == a && to == b {
            if reachable(edges, from, a) && reachable(edges, b, via) {
                lemma_reachable_trans(edges, from, a, via);
            }
        } else {
            assert(via == b && to == a);
            if reachable(edges, from, b) && reachable(edges, a, via) {
                lemma_reachable_trans(edges, from, b, via);
            }
        }
    }
    lemma_reachable_carries(more, related, x, y);
}

} // verus!
