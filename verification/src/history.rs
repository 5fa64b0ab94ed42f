//! What a run of additions and unions leaves of a disjoint-set structure.

use vstd::prelude::*;
use crate::graph::reachable;
use crate::partition::{
    is_partition, lemma_merged, lemma_tracks_merged, lemma_tracks_nothing,
    lemma_tracks_with_singleton, lemma_with_singleton, merged, tracks, with_singleton,
};

verus! {

/// One operation on a disjoint-set structure. Elements are named by their
/// place in the order of their addition.
pub enum Operation {
    /// A new element, alone in its set.
    AddElement,
    /// The sets of the two elements become one.
    Union(int, int),
}

/// The partition that the operations leave, begun with no element.
pub open spec fn replayed(operations: Seq<Operation>) -> Seq<int>
    decreases operations.len(),
{
    if operations.len() == 0 {
        Seq::empty()
    } else {
        let earlier = replayed(operations.drop_last());
        match operations.last() {
            Operation::AddElement => with_singleton(earlier),
            Operation::Union(a, b) => merged(earlier, a, b),
        }
    }
}

/// Each union names two elements that were added before it.
pub open spec fn admissible(operations: Seq<Operation>) -> bool
    decreases operations.len(),
{
    operations.len() == 0 || {
        &&& admissible(operations.drop_last())
        &&& match operations.last() {
            Operation::AddElement => true,
            Operation::Union(a, b) => {
                &&& 0 <= a < replayed(operations.drop_last()).len()
                &&& 0 <= b < replayed(operations.drop_last()).len()
            },
        }
    }
}

/// The pairs of elements that the unions among the operations name.
pub open spec fn unions(operations: Seq<Operation>) -> Set<(int, int)> {
    Set::new(|pair: (int, int)| operations.contains(Operation::Union(pair.0, pair.1)))
}

/// Some chain of unions leads from `a` to `b`.
pub open spec fn chained(operations: Seq<Operation>, a: int, b: int) -> bool {
    reachable(unions(operations), a, b)
}

/// After any run of additions and unions the structure is a partition in
/// which two elements share a set exactly when the unions join them.
pub proof fn lemma_replayed_tracks(operations: Seq<Operation>)
    requires
        admissible(operations),
    ensures
        is_partition(replayed(operations)),
        tracks(replayed(operations), unions(operations)),
    decreases operations.len(),
{
    if operations.len() == 0 {
        lemma_tracks_nothing();
        assert(unions(operations) =~= Set::<(int, int)>::empty());
    } else {
        let earlier = operations.drop_last();
        let reps = replayed(earlier);
        lemma_replayed_tracks(earlier);
        assert forall|pair: (int, int)| #[trigger]
            unions(earlier).contains(pair) implies unions(operations).contains(pair) by {
            let wanted = Operation::Union(pair.0, pair.1);
            let at = choose|at: int| 0 <= at < earlier.len() && earlier[at] == wanted;
            assert(operations[at] == wanted);
        }
        assert forall|pair: (int, int)| #[trigger]
            unions(operations).contains(pair) && operations.last() != Operation::Union(
                pair.0,
                pair.1,
            ) implies unions(earlier).contains(pair) by {
            let wanted = Operation::Union(pair.0, pair.1);
            let at = choose|at: int| 0 <= at < operations.len() && operations[at] == wanted;
            assert(earlier[at] == wanted);
        }
        match operations.last() {
            Operation::AddElement => {
                assert(unions(operations) =~= unions(earlier));
                lemma_with_singleton(reps);
                lemma_tracks_with_singleton(reps, unions(earlier));
            },
            Operation::Union(a, b) => {
                assert(operations[operations.len() - 1] == Operation::Union(a, b));
                assert(unions(operations).contains((a, b)));
                assert(unions(operations) =~= unions(earlier).insert((a, b)));
                lemma_merged(reps, a, b);
                lemma_tracks_merged(reps, unions(earlier), a, b);
            },
        }
    }
}

/// For every run of additions and unions: two elements are in the same set
/// exactly when some chain of the unions leads from one to the other.
pub proof fn lemma_same_set_iff_chained(operations: Seq<Operation>, a: int, b: int)
    requires
        admissible(operations),
        0 <= a < replayed(operations).len(),
        0 <= b < replayed(operations).len(),
    ensures
        (replayed(operations)[a] == replayed(operations)[b]) == chained(operations, a, b),
{
    lemma_replayed_tracks(operations);
}

} // verus!
