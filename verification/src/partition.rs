//! Partitions of `0..n`, written as the representative of each element's class.

use vstd::prelude::*;
use crate::graph::{
    adjacent, edges_within, lemma_reachable_carries, lemma_reachable_mono,
    lemma_reachable_refl, lemma_reachable_step, lemma_reachable_sym, lemma_reachable_trans,
    reachable,
};

verus! {

/// Every element has a representative, and a representative stands for itself.
pub open spec fn is_partition(reps: Seq<int>) -> bool {
    forall|i: int|
        0 <= i < reps.len() ==> 0 <= #[trigger] reps[i] < reps.len() && reps[reps[i]] == reps[i]
}

/// How many of the first `n` elements have `r` as their representative.
pub open spec fn occurrences(reps: Seq<int>, r: int, n: nat) -> nat
    decreases n,
{
    if n == 0 {
        0
    } else {
        occurrences(reps, r, (n - 1) as nat) + if reps[n - 1] == r {
            1nat
        } else {
            0nat
        }
    }
}

/// The number of elements in the class that `r` represents.
pub open spec fn class_size(reps: Seq<int>, r: int) -> nat {
    occurrences(reps, r, reps.len())
}

/// How many of the first `n` elements are their own representative.
pub open spec fn heads(reps: Seq<int>, n: nat) -> nat
    decreases n,
{
    if n == 0 {
        0
    } else {
        heads(reps, (n - 1) as nat) + if reps[n - 1] == n - 1 {
            1nat
        } else {
            0nat
        }
    }
}

/// The number of classes.
pub open spec fn class_count(reps: Seq<int>) -> nat {
    heads(reps, reps.len())
}

/// The partition of `n` elements in which each is alone in its class.
pub open spec fn singletons(n: nat) -> Seq<int> {
    Seq::new(n, |i: int| i)
}

/// The partition with one more element, alone in its class.
pub open spec fn with_singleton(reps: Seq<int>) -> Seq<int> {
    reps.push(reps.len() as int)
}

/// Of the classes of `a` and `b`, the representative that gives way in a
/// merge: that of the smaller class, and that of `a` when they are equal in size.
pub open spec fn absorbed(reps: Seq<int>, a: int, b: int) -> int {
    if class_size(reps, reps[b]) < class_size(reps, reps[a]) {
        reps[b]
    } else {
        reps[a]
    }
}

/// The representative that stands for both classes after a merge.
pub open spec fn absorbing(reps: Seq<int>, a: int, b: int) -> int {
    if class_size(reps, reps[b]) < class_size(reps, reps[a]) {
        reps[a]
    } else {
        reps[b]
    }
}

/// The partition after the classes of `a` and `b` are merged by size.
pub open spec fn merged(reps: Seq<int>, a: int, b: int) -> Seq<int> {
    if reps[a] == reps[b] {
        reps
    } else {
        Seq::new(
            reps.len(),
            |i: int|
                if reps[i] == absorbed(reps, a, b) {
                    absorbing(reps, a, b)
                } else {
                    reps[i]
                },
        )
    }
}

/// Two elements share a class exactly when `edges` joins them.
pub open spec fn tracks(reps: Seq<int>, edges: Set<(int, int)>) -> bool {
    &&& edges_within(edges, reps.len() as int)
    &&& forall|x: int, y: int|
        0 <= x < reps.len() && 0 <= y < reps.len() ==> (reps[x] == reps[y]) == #[trigger] reachable(
            edges,
            x,
            y,
        )
}

/// No count exceeds the number of elements counted.
pub proof fn lemma_occurrences_bound(reps: Seq<int>, r: int, n: nat)
    ensures
        occurrences(reps, r, n) <= n,
    decreases n,
{
    if n > 0 {
        lemma_occurrences_bound(reps, r, (n - 1) as nat);
    }
}

/// A value that is no element's representative counts nothing.
pub proof fn lemma_occurrences_absent(reps: Seq<int>, r: int, n: nat)
    requires
        n <= reps.len(),
        forall|i: int| 0 <= i < n ==> reps[i] != r,
    ensures
        occurrences(reps, r, n) == 0,
    decreases n,
{
    if n > 0 {
        lemma_occurrences_absent(reps, r, (n - 1) as nat);
    }
}

/// Counts agree where the two sequences agree on being `r`.
pub proof fn lemma_occurrences_agree(left: Seq<int>, right: Seq<int>, r: int, n: nat)
    requires
        n <= left.len(),
        n <= right.len(),
        forall|i: int| 0 <= i < n ==> (left[i] == r) == (right[i] == r),
    ensures
        occurrences(left, r, n) == occurrences(right, r, n),
    decreases n,
{
    if n > 0 {
        lemma_occurrences_agree(left, right, r, (n - 1) as nat);
    }
}

/// Counts of heads agree where the two sequences agree on who is one.
proof fn lemma_heads_agree(left: Seq<int>, right: Seq<int>, n: nat)
    requires
        n <= left.len(),
        n <= right.len(),
        forall|i: int| 0 <= i < n ==> (left[i] == i) == (right[i] == i),
    ensures
        heads(left, n) == heads(right, n),
    decreases n,
{
    if n > 0 {
        lemma_heads_agree(left, right, (n - 1) as nat);
    }
}

/// Adding a singleton keeps every class as it was and adds one of size one.
pub proof fn lemma_with_singleton(reps: Seq<int>)
    requires
        is_partition(reps),
    ensures
        is_partition(with_singleton(reps)),
        class_size(with_singleton(reps), reps.len() as int) == 1,
        forall|r: int|
            r != reps.len() ==> #[trigger] class_size(with_singleton(reps), r) == class_size(
                reps,
                r,
            ),
        class_count(with_singleton(reps)) == class_count(reps) + 1,
{
    let more = with_singleton(reps);
    let n = reps.len();
    assert forall|i: int| 0 <= i < more.len() implies 0 <= #[trigger] more[i] < more.len()
        && more[more[i]] == more[i] by {
        if i < n {
            assert(more[i] == reps[i]);
            assert(more[reps[i]] == reps[reps[i]]);
        }
    }
    lemma_occurrences_agree(more, reps, n as int, n);
    lemma_occurrences_absent(reps, n as int, n);
    assert forall|r: int| r != n implies #[trigger] class_size(more, r) == class_size(reps, r) by {
        lemma_occurrences_agree(more, reps, r, n);
    }
    lemma_heads_agree(more, reps, n);
}

/// A merge empties the class that gives way into the class that stays.
proof fn lemma_merged_occurrences(reps: Seq<int>, a: int, b: int, r: int, n: nat)
    requires
        is_partition(reps),
        0 <= a < reps.len(),
        0 <= b < reps.len(),
        reps[a] != reps[b],
        n <= reps.len(),
    ensures
        occurrences(merged(reps, a, b), r, n) == if r == absorbed(reps, a, b) {
            0
        } else if r == absorbing(reps, a, b) {
            occurrences(reps, absorbing(reps, a, b), n) + occurrences(
                reps,
                absorbed(reps, a, b),
                n,
            )
        } else {
            occurrences(reps, r, n)
        },
    decreases n,
{
    if n > 0 {
        lemma_merged_occurrences(reps, a, b, r, (n - 1) as nat);
    }
}

/// A merge takes away one head: the representative that gives way.
proof fn lemma_merged_heads(reps: Seq<int>, a: int, b: int, n: nat)
    requires
        is_partition(reps),
        0 <= a < reps.len(),
        0 <= b < reps.len(),
        reps[a] != reps[b],
        n <= reps.len(),
    ensures
        heads(reps, n) == heads(merged(reps, a, b), n) + if absorbed(reps, a, b) < n {
            1nat
        } else {
            0nat
        },
    decreases n,
{
    if n > 0 {
        lemma_merged_heads(reps, a, b, (n - 1) as nat);
        let i = n - 1;
        assert(0 <= reps[i] < reps.len() && reps[reps[i]] == reps[i]);
        assert(reps[reps[a]] == reps[a] && reps[reps[b]] == reps[b]);
    }
}

/// Merging two classes leaves the elements in place, joins exactly the two
/// classes, adds their sizes and leaves one class fewer.
pub proof fn lemma_merged(reps: Seq<int>, a: int, b: int)
    requires
        is_partition(reps),
        0 <= a < reps.len(),
        0 <= b < reps.len(),
    ensures
        is_partition(merged(reps, a, b)),
        merged(reps, a, b).len() == reps.len(),
        merged(reps, a, b)[a] == merged(reps, a, b)[b],
        reps[a] != reps[b] ==> {
            &&& merged(reps, a, b)[a] == absorbing(reps, a, b)
            &&& class_size(merged(reps, a, b), absorbing(reps, a, b)) == class_size(reps, reps[a])
                + class_size(reps, reps[b])
            &&& class_size(reps, reps[a]) + class_size(reps, reps[b]) <= reps.len()
            &&& class_count(merged(reps, a, b)) + 1 == class_count(reps)
        },
        forall|r: int|
            r != reps[a] && r != reps[b] ==> #[trigger] class_size(merged(reps, a, b), r)
                == class_size(reps, r),
        forall|x: int, y: int|
            0 <= x < reps.len() && 0 <= y < reps.len() ==> (#[trigger] merged(reps, a, b)[x]
                == #[trigger] merged(reps, a, b)[y]) == (reps[x] == reps[y] || (reps[x] == reps[a]
                && reps[y] == reps[b]) || (reps[x] == reps[b] && reps[y] == reps[a])),
{
    let after = merged(reps, a, b);
    assert(0 <= reps[a] < reps.len() && reps[reps[a]] == reps[a]);
    assert(0 <= reps[b] < reps.len() && reps[reps[b]] == reps[b]);
    if reps[a] != reps[b] {
        let gone = absorbed(reps, a, b);
        let kept = absorbing(reps, a, b);
        assert forall|i: int| 0 <= i < after.len() implies 0 <= #[trigger] after[i] < after.len()
            && after[after[i]] == after[i] by {
            assert(0 <= reps[i] < reps.len() && reps[reps[i]] == reps[i]);
        }
        lemma_merged_occurrences(reps, a, b, kept, reps.len());
        lemma_occurrences_bound(after, kept, after.len());
        lemma_merged_heads(reps, a, b, reps.len());
        assert forall|r: int| r != reps[a] && r != reps[b] implies #[trigger] class_size(after, r)
            == class_size(reps, r) by {
            lemma_merged_occurrences(reps, a, b, r, reps.len());
        }
    }
}

/// Merging the same two elements a second time changes nothing.
pub proof fn lemma_merged_idempotent(reps: Seq<int>, a: int, b: int)
    requires
        is_partition(reps),
        0 <= a < reps.len(),
        0 <= b < reps.len(),
    ensures
        merged(merged(reps, a, b), a, b) == merged(reps, a, b),
{
    lemma_merged(reps, a, b);
}

/// Where all elements share one class, there is one class.
pub proof fn lemma_single_class(reps: Seq<int>)
    requires
        is_partition(reps),
        reps.len() > 0,
        forall|i: int| 0 <= i < reps.len() ==> #[trigger] reps[i] == reps[0],
    ensures
        class_count(reps) == 1,
{
    lemma_single_class_heads(reps, reps.len());
}

/// Where all elements share one class, its representative is the only head.
proof fn lemma_single_class_heads(reps: Seq<int>, n: nat)
    requires
        is_partition(reps),
        0 < reps.len(),
        n <= reps.len(),
        forall|i: int| 0 <= i < reps.len() ==> #[trigger] reps[i] == reps[0],
    ensures
        heads(reps, n) == if reps[0] < n {
            1nat
        } else {
            0nat
        },
    decreases n,
{
    if n > 0 {
        lemma_single_class_heads(reps, (n - 1) as nat);
    }
}

/// The empty partition tracks the graph without edges.
pub proof fn lemma_tracks_nothing()
    ensures
        tracks(Seq::<int>::empty(), Set::<(int, int)>::empty()),
{
}

/// A new singleton is joined to nothing.
pub proof fn lemma_tracks_with_singleton(reps: Seq<int>, edges: Set<(int, int)>)
    requires
        is_partition(reps),
        tracks(reps, edges),
    ensures
        tracks(with_singleton(reps), edges),
{
    let more = with_singleton(reps);
    let n = reps.len() as int;
    let below = |x: int, y: int| 0 <= y < n;
    assert forall|x: int, y: int| 0 <= x < more.len() && 0 <= y < more.len() implies (more[x]
        == more[y]) == #[trigger] reachable(edges, x, y) by {
        assert(0 <= x < n ==> 0 <= reps[x] < n);
        assert(0 <= y < n ==> 0 <= reps[y] < n);
        if x == y {
            lemma_reachable_refl(edges, x);
        } else if x < n && y < n {
        } else if reachable(edges, x, y) {
            if x < n {
                lemma_reachable_carries(edges, below, x, y);
            } else {
                lemma_reachable_sym(edges, x, y);
                lemma_reachable_carries(edges, below, y, x);
            }
        }
    }
}

/// Singletons are a partition with as many classes as elements, joined by
/// no edge.
pub proof fn lemma_singletons(n: nat)
    ensures
        is_partition(singletons(n)),
        singletons(n).len() == n,
        class_count(singletons(n)) == n,
        tracks(singletons(n), Set::<(int, int)>::empty()),
    decreases n,
{
    if n == 0 {
        assert(singletons(0) =~= Seq::<int>::empty());
        lemma_tracks_nothing();
    } else {
        let fewer = singletons((n - 1) as nat);
        lemma_singletons((n - 1) as nat);
        assert(singletons(n) =~= with_singleton(fewer));
        lemma_with_singleton(fewer);
        lemma_tracks_with_singleton(fewer, Set::<(int, int)>::empty());
    }
}

/// Merging the classes of `a` and `b` is what adding the edge between them does.
pub proof fn lemma_tracks_merged(reps: Seq<int>, edges: Set<(int, int)>, a: int, b: int)
    requires
        is_partition(reps),
        tracks(reps, edges),
        0 <= a < reps.len(),
        0 <= b < reps.len(),
    ensures
        tracks(merged(reps, a, b), edges.insert((a, b))),
{
    let after = merged(reps, a, b);
    let more = edges.insert((a, b));
    let n = reps.len() as int;
    lemma_merged(reps, a, b);
    let together = |x: int, y: int| 0 <= x < n && 0 <= y < n && after[x] == after[y];
    assert forall|x: int, y: int, z: int| #[trigger]
        together(x, y) && #[trigger] adjacent(more, y, z) implies together(x, z) by {
        if adjacent(edges, y, z) {
            lemma_reachable_step(edges, y, z);
            assert(reps[y] == reps[z]);
        }
        assert(after[y] == after[z]);
    }
    assert forall|x: int, y: int| 0 <= x < n && 0 <= y < n implies (after[x] == after[y])
        == #[trigger] reachable(more, x, y) by {
        if reachable(more, x, y) {
            lemma_reachable_carries(more, together, x, y);
        }
        if after[x] == after[y] {
            lemma_reachable_step(more, a, b);
            lemma_reachable_sym(more, a, b);
            if reps[x] == reps[y] {
                assert(reachable(edges, x, y));
                lemma_reachable_mono(edges, more, x, y);
            } else if reps[x] == reps[a] && reps[y] == reps[b] {
                assert(reachable(edges, x, a));
                assert(reachable(edges, b, y));
                lemma_reachable_mono(edges, more, x, a);
                lemma_reachable_mono(edges, more, b, y);
                lemma_reachable_trans(more, x, a, b);
                lemma_reachable_trans(more, x, b, y);
            } else {
                assert(reachable(edges, x, b));
                assert(reachable(edges, a, y));
                lemma_reachable_mono(edges, more, x, b);
                lemma_reachable_mono(edges, more, a, y);
                lemma_reachable_trans(more, x, b, a);
                lemma_reachable_trans(more, x, a, y);
            }
        }
    }
}

} // verus!
