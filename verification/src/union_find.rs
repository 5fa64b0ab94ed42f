//! A disjoint-set forest with union by size and path compression.

use vstd::prelude::*;
use vstd::std_specs::cmp::{PartialEqSpec, PartialEqSpecImpl};
use crate::forest::{
    ancestor, child_on_way, is_child_on_way, lemma_ancestor_shift, lemma_ancestor_stays, on_way,
    Forest,
};
use crate::partition::{
    absorbed, absorbing, class_size, is_partition, lemma_merged, lemma_with_singleton, merged,
    with_singleton,
};

verus! {

/// A structure that keeps elements in disjoint sets, each set known by one
/// of its elements, its representative.
pub trait UnionFind<S> {
    /// The structure is in a state that its operations accept.
    spec fn valid(&self) -> bool;

    /// `node` was handed out by this structure.
    spec fn issued(&self, node: S) -> bool;

    /// The element that stands for the set of `node`.
    spec fn representative(&self, node: S) -> S;

    /// `after` is what a call of `find` on `node` makes of the structure.
    spec fn compresses_to(&self, node: S, after: &Self) -> bool;

    /// Adds an element, alone in a new set, and returns its handle.
    fn add_element(&mut self) -> (node: S)
        requires
            old(self).valid(),
        ensures
            final(self).valid(),
            !old(self).issued(node),
            final(self).issued(node),
            final(self).representative(node) == node,
            forall|other: S| #[trigger]
                old(self).issued(other) ==> {
                    &&& final(self).issued(other)
                    &&& final(self).representative(other) == old(self).representative(other)
                },
            forall|other: S| #[trigger]
                final(self).issued(other) ==> old(self).issued(other) || other == node,
    ;

    /// Joins the sets of the two elements into one.
    fn union(&mut self, first_node: S, second_node: S)
        requires
            old(self).valid(),
            old(self).issued(first_node),
            old(self).issued(second_node),
        ensures
            final(self).valid(),
            forall|other: S|
                #![trigger final(self).issued(other)]
                #![trigger old(self).issued(other)]
                final(self).issued(other) == old(self).issued(other),
            ({
                let first = old(self).representative(first_node);
                let second = old(self).representative(second_node);
                let joint = final(self).representative(first_node);
                &&& joint == first || joint == second
                &&& forall|other: S| #[trigger]
                    old(self).issued(other) ==> {
                        let before = old(self).representative(other);
                        final(self).representative(other) == if before == first || before
                            == second {
                            joint
                        } else {
                            before
                        }
                    }
            }),
    ;

    /// Returns the representative of the set of `node`. The sets stay as they are.
    fn find(&mut self, node: S) -> (root: S)
        requires
            old(self).valid(),
            old(self).issued(node),
        ensures
            final(self).valid(),
            root == old(self).representative(node),
            old(self).compresses_to(node, final(self)),
            final(self).issued(root),
            final(self).representative(root) == root,
            forall|other: S|
                #![trigger final(self).issued(other)]
                #![trigger old(self).issued(other)]
                final(self).issued(other) == old(self).issued(other),
            forall|other: S| #[trigger]
                old(self).issued(other) ==> {
                    final(self).representative(other) == old(self).representative(other)
                },
    ;
}

/// The question whether two elements share a set, for every [`UnionFind`].
pub trait UnionFindSetCmp<S: PartialEq>: UnionFind<S> {
    /// Tells whether the two elements have the same representative. The sets
    /// stay as they are; the structure is left as a `find` on the first
    /// element and then one on the second leave it.
    fn is_in_same_set(&mut self, first_node: S, second_node: S) -> (same: bool)
        requires
            old(self).valid(),
            old(self).issued(first_node),
            old(self).issued(second_node),
        ensures
            final(self).valid(),
            exists|between: &Self| #[trigger]
                old(self).compresses_to(first_node, between) && between.valid()
                    && between.compresses_to(second_node, final(self)),
            S::obeys_eq_spec() ==> same == old(self).representative(first_node).eq_spec(
                &old(self).representative(second_node),
            ),
            forall|other: S|
                #![trigger final(self).issued(other)]
                #![trigger old(self).issued(other)]
                final(self).issued(other) == old(self).issued(other),
            forall|other: S| #[trigger]
                old(self).issued(other) ==> {
                    final(self).representative(other) == old(self).representative(other)
                },
    ;
}

impl<T, S> UnionFindSetCmp<S> for T where T: UnionFind<S>, S: Eq {
    fn is_in_same_set(&mut self, first_node: S, second_node: S) -> (same: bool) {
        let first_set = self.find(first_node);
        let ghost between = &*self;
        let second_set = self.find(second_node);
        assert(old(self).compresses_to(first_node, between) && between.valid()
            && between.compresses_to(second_node, self));

        first_set == second_set
    }
}

/// Handle of one element of a disjoint-set forest: its place in the order
/// in which the elements were added.
#[derive(Clone, Copy, Debug, Eq)]
pub struct NodeIdx(usize);

impl PartialEq for NodeIdx {
    fn eq(&self, other: &Self) -> (equal: bool) {
        self.0 == other.0
    }
}

impl PartialEqSpecImpl for NodeIdx {
    open spec fn obeys_eq_spec() -> bool {
        true
    }

    open spec fn eq_spec(&self, other: &Self) -> bool {
        *self == *other
    }
}

impl View for NodeIdx {
    type V = int;

    closed spec fn view(&self) -> int {
        self.0 as int
    }
}

impl NodeIdx {
    /// The handle with the given place.
    pub closed spec fn at(place: int) -> NodeIdx {
        NodeIdx(place as usize)
    }

    /// A handle is its place and nothing more.
    pub proof fn lemma_place(self)
        ensures
            0 <= self@ <= usize::MAX,
            NodeIdx::at(self@) == self,
    {
    }
}

impl Default for NodeIdx {
    /// The handle of the first element that a forest hands out.
    fn default() -> (first: Self)
        ensures
            first == NodeIdx::at(0),
    {
        NodeIdx(0)
    }
}

impl std::ops::Deref for NodeIdx {
    type Target = usize;

    fn deref(&self) -> (place: &usize)
        ensures
            *place == self@,
    {
        &self.0
    }
}

/// One record of the forest: an element, its parent, and, on a root, the
/// size of its tree.
#[derive(Clone, Copy, Debug, Eq)]
pub struct Node {
    idx: NodeIdx,
    parent_idx: NodeIdx,
    size: usize,
}

impl Node {
    /// The place of the element itself.
    pub closed spec fn place(self) -> int {
        self.idx@
    }

    /// The place of its parent; its own on a root.
    pub closed spec fn parent(self) -> int {
        self.parent_idx@
    }

    /// The number of elements in the tree below and including this one.
    pub closed spec fn weight(self) -> int {
        self.size as int
    }

    /// A root that stands for itself alone.
    pub fn new(idx: NodeIdx) -> (node: Self)
        ensures
            node.place() == idx@,
            node.parent() == idx@,
            node.weight() == 1,
    {
        Self { idx: idx, parent_idx: idx, size: 1 }
    }
}

impl PartialEq for Node {
    fn eq(&self, other: &Self) -> (equal: bool) {
        self.idx == other.idx
    }
}

impl PartialEqSpecImpl for Node {
    open spec fn obeys_eq_spec() -> bool {
        true
    }

    open spec fn eq_spec(&self, other: &Self) -> bool {
        self.place() == other.place()
    }
}

/// What `child` adds to the weight of `x`: its own weight where `x` is its
/// parent, nothing otherwise.
spec fn child_weight(nodes: Seq<Node>, x: int, child: int) -> int {
    if child != x && nodes[child].parent_idx@ == x {
        nodes[child].size as int
    } else {
        0
    }
}

/// The weights of the children of `x` among the first `n` records.
spec fn children_weight(nodes: Seq<Node>, x: int, n: nat) -> int
    decreases n,
{
    if n == 0 {
        0
    } else {
        children_weight(nodes, x, (n - 1) as nat) + child_weight(nodes, x, n - 1)
    }
}

/// What the record at place `i` must satisfy for the records to be a forest
/// whose trees are the classes of `reps`, with `ranks` growing towards the roots.
spec fn node_linked(nodes: Seq<Node>, reps: Seq<int>, ranks: Seq<nat>, i: int) -> bool {
    let node = nodes[i];
    let up = node.parent_idx@;
    &&& node.idx@ == i
    &&& 0 <= up < nodes.len()
    &&& 0 <= reps[i] < nodes.len()
    &&& nodes[reps[i]].parent_idx@ == reps[i]
    &&& reps[up] == reps[i]
    &&& ranks[i] <= ranks[reps[i]]
    &&& (up == i ==> reps[i] == i && node.size == class_size(reps, i))
    &&& (up != i ==> ranks[i] < ranks[up])
    &&& node.size == 1 + children_weight(nodes, i, nodes.len())
}

/// The records are a forest whose trees are the classes of `reps`: each
/// parent has a higher rank than its child, a root carries the size of its
/// class, and every record carries one more than its children together.
spec fn linked(nodes: Seq<Node>, reps: Seq<int>, ranks: Seq<nat>) -> bool {
    &&& reps.len() == nodes.len()
    &&& ranks.len() == nodes.len()
    &&& forall|i: int| 0 <= i < nodes.len() ==> #[trigger] node_linked(nodes, reps, ranks, i)
}

/// Some ranks make the records a forest with the classes of `reps`.
spec fn is_forest_of(nodes: Seq<Node>, reps: Seq<int>) -> bool {
    exists|ranks: Seq<nat>| linked(nodes, reps, ranks)
}

/// Where one record changes, the children of `x` weigh what they weighed,
/// but for what that record adds or no longer adds.
proof fn lemma_children_weight_change(
    before: Seq<Node>,
    after: Seq<Node>,
    x: int,
    changed: int,
    n: nat,
)
    requires
        n <= before.len(),
        n <= after.len(),
        forall|j: int|
            0 <= j < n && j != changed ==> child_weight(before, x, j) == child_weight(after, x, j),
    ensures
        children_weight(after, x, n) == children_weight(before, x, n) + if 0 <= changed < n {
            child_weight(after, x, changed) - child_weight(before, x, changed)
        } else {
            0
        },
    decreases n,
{
    if n > 0 {
        lemma_children_weight_change(before, after, x, changed, (n - 1) as nat);
    }
}

/// Children never weigh less than nothing.
proof fn lemma_children_weight_nonnegative(nodes: Seq<Node>, x: int, n: nat)
    ensures
        children_weight(nodes, x, n) >= 0,
    decreases n,
{
    if n > 0 {
        lemma_children_weight_nonnegative(nodes, x, (n - 1) as nat);
    }
}

/// The children of `x` together weigh at least what one of them adds.
proof fn lemma_children_weight_covers(nodes: Seq<Node>, x: int, child: int, n: nat)
    requires
        0 <= child < n <= nodes.len(),
    ensures
        children_weight(nodes, x, n) >= child_weight(nodes, x, child),
    decreases n,
{
    if child < n - 1 {
        lemma_children_weight_covers(nodes, x, child, (n - 1) as nat);
    } else {
        lemma_children_weight_nonnegative(nodes, x, (n - 1) as nat);
    }
}

/// Where no record adds to the weight of `x`, its children weigh nothing.
proof fn lemma_children_weight_none(nodes: Seq<Node>, x: int, n: nat)
    requires
        n <= nodes.len(),
        forall|j: int| 0 <= j < n ==> child_weight(nodes, x, j) == 0,
    ensures
        children_weight(nodes, x, n) == 0,
    decreases n,
{
    if n > 0 {
        lemma_children_weight_none(nodes, x, (n - 1) as nat);
    }
}

/// The records decide the root of each element: two readings of one forest
/// agree on it.
proof fn lemma_rep_determined(
    nodes: Seq<Node>,
    reps: Seq<int>,
    ranks: Seq<nat>,
    other_reps: Seq<int>,
    other_ranks: Seq<nat>,
    i: int,
)
    requires
        linked(nodes, reps, ranks),
        linked(nodes, other_reps, other_ranks),
        0 <= i < nodes.len(),
    ensures
        reps[i] == other_reps[i],
    decreases ranks[reps[i]] - ranks[i],
{
    assert(node_linked(nodes, reps, ranks, i));
    assert(node_linked(nodes, other_reps, other_ranks, i));
    let up = nodes[i].parent_idx@;
    if up != i {
        assert(node_linked(nodes, reps, ranks, up));
        lemma_rep_determined(nodes, reps, ranks, other_reps, other_ranks, up);
    }
}

/// The records decide the classes.
proof fn lemma_reps_determined(
    nodes: Seq<Node>,
    reps: Seq<int>,
    ranks: Seq<nat>,
    other_reps: Seq<int>,
    other_ranks: Seq<nat>,
)
    requires
        linked(nodes, reps, ranks),
        linked(nodes, other_reps, other_ranks),
    ensures
        reps == other_reps,
{
    assert forall|i: int| 0 <= i < reps.len() implies reps[i] == other_reps[i] by {
        lemma_rep_determined(nodes, reps, ranks, other_reps, other_ranks, i);
    }
    assert(reps =~= other_reps);
}

/// The parent of each record, by place.
spec fn parents_of(nodes: Seq<Node>) -> Seq<int> {
    Seq::new(nodes.len(), |i: int| nodes[i].parent_idx@)
}

/// The size that each record carries, by place.
spec fn sizes_of(nodes: Seq<Node>) -> Seq<int> {
    Seq::new(nodes.len(), |i: int| nodes[i].size as int)
}

/// The records as parents and sizes.
spec fn forest_of(nodes: Seq<Node>) -> Forest {
    Forest { parents: parents_of(nodes), sizes: sizes_of(nodes) }
}

/// Going from parent to parent, every element reaches the root of its class.
proof fn lemma_reaches_root(nodes: Seq<Node>, reps: Seq<int>, ranks: Seq<nat>, i: int)
    requires
        linked(nodes, reps, ranks),
        0 <= i < nodes.len(),
    ensures
        on_way(parents_of(nodes), i, reps[i]),
    decreases ranks[reps[i]] - ranks[i],
{
    let parents = parents_of(nodes);
    assert(node_linked(nodes, reps, ranks, i));
    let up = nodes[i].parent_idx@;
    if up == i {
        assert(ancestor(parents, i, 0) == reps[i]);
    } else {
        assert(node_linked(nodes, reps, ranks, up));
        lemma_reaches_root(nodes, reps, ranks, up);
        let steps = choose|steps: nat| ancestor(parents, up, steps) == reps[up];
        lemma_ancestor_shift(parents, i, steps);
        assert(ancestor(parents, i, steps + 1) == reps[i]);
    }
}

/// What the two passes of `find` leave is the compressed forest: `path`
/// holds the records that were on the way from `from` to the root `top`, as
/// they were before.
proof fn lemma_compression(
    before: Seq<Node>,
    after: Seq<Node>,
    path: Seq<Node>,
    from: int,
    top: int,
)
    requires
        after.len() == before.len(),
        0 <= top < before.len(),
        before[top].parent_idx@ == top,
        top == ancestor(parents_of(before), from, path.len()),
        forall|k: int|
            0 <= k < path.len() ==> {
                let seen = #[trigger] path[k];
                &&& 0 <= seen.idx@ < before.len()
                &&& seen == before[seen.idx@]
                &&& seen.idx@ == ancestor(parents_of(before), from, k as nat)
                &&& seen.idx@ != top
                &&& after[seen.idx@].parent_idx@ == top
                &&& after[seen.idx@].size == if k == 0 {
                    seen.size as int
                } else {
                    seen.size - path[k - 1].size
                }
            },
        forall|j: int, k: int|
            0 <= j < k < path.len() ==> (#[trigger] path[j]).idx@ != (#[trigger] path[k]).idx@,
        forall|x: int|
            0 <= x < before.len() && (forall|k: int|
                0 <= k < path.len() ==> (#[trigger] path[k]).idx@ != x) ==> #[trigger] after[x]
                == before[x],
    ensures
        forest_of(after) == forest_of(before).compressed(from, top),
{
    let parents = parents_of(before);
    let sizes = sizes_of(before);
    let goal = forest_of(before).compressed(from, top);
    let m = path.len();
    assert forall|x: int| 0 <= x < before.len() implies parents_of(after)[x]
        == goal.parents[x] by {
        if on_way(parents, from, x) {
            let steps = choose|steps: nat| ancestor(parents, from, steps) == x;
            if steps < m {
                assert(path[steps as int].idx@ == x);
            } else {
                lemma_ancestor_stays(parents, from, m, steps);
            }
        } else {
            assert forall|k: int| 0 <= k < path.len() implies (#[trigger] path[k]).idx@ != x by {
                assert(ancestor(parents, from, k as nat) == path[k].idx@);
            }
        }
    }
    assert(parents_of(after) =~= goal.parents);
    assert forall|x: int| 0 <= x < before.len() implies sizes_of(after)[x] == goal.sizes[x] by {
        if x != top && exists|child: int| is_child_on_way(parents, from, x, child) {
            let child = child_on_way(parents, from, x);
            assert(is_child_on_way(parents, from, x, child));
            let steps = choose|steps: nat| ancestor(parents, from, steps) == child;
            if steps >= m {
                lemma_ancestor_stays(parents, from, m, steps);
            }
            let below = path[steps as int];
            assert(below.idx@ == child);
            if steps + 1 >= m {
                lemma_ancestor_stays(parents, from, m, steps + 1);
            }
            assert(ancestor(parents, from, steps + 1) == x);
            let here = path[(steps + 1) as int];
            assert(here.idx@ == x);
        } else {
            if exists|k: int| 0 <= k < m && (#[trigger] path[k]).idx@ == x {
                let k = choose|k: int| 0 <= k < m && (#[trigger] path[k]).idx@ == x;
                if k > 0 {
                    let below = path[k - 1];
                    assert(ancestor(parents, from, (k - 1) as nat) == below.idx@);
                    assert(ancestor(parents, from, k as nat) == parents[below.idx@]);
                    assert(is_child_on_way(parents, from, x, below.idx@));
                }
            }
        }
    }
    assert(sizes_of(after) =~= goal.sizes);
}

/// Hanging `v` below the root `top`, and taking its weight from the parent
/// `p` that it leaves, keeps the forest and its classes, where `p` itself
/// hangs directly below `top`.
proof fn lemma_rehang(
    before: Seq<Node>,
    after: Seq<Node>,
    reps: Seq<int>,
    ranks: Seq<nat>,
    v: int,
    p: int,
    top: int,
)
    requires
        linked(before, reps, ranks),
        0 <= v < before.len(),
        0 <= p < before.len(),
        0 <= top < before.len(),
        v != p && v != top && p != top,
        before[v].parent_idx@ == p,
        before[p].parent_idx@ == top,
        before[top].parent_idx@ == top,
        after.len() == before.len(),
        forall|j: int| 0 <= j < before.len() && j != v && j != p ==> after[j] == before[j],
        before[p].size >= before[v].size,
        after[p] == (Node {
            idx: before[p].idx,
            parent_idx: before[p].parent_idx,
            size: (before[p].size - before[v].size) as usize,
        }),
        after[v] == (Node {
            idx: before[v].idx,
            parent_idx: before[top].idx,
            size: before[v].size,
        }),
    ensures
        linked(after, reps, ranks),
{
    let n = before.len();
    let middle = before.update(p, after[p]);
    assert(after =~= middle.update(v, after[v]));
    assert(node_linked(before, reps, ranks, v));
    assert(node_linked(before, reps, ranks, p));
    assert(node_linked(before, reps, ranks, top));
    assert forall|i: int| 0 <= i < after.len() implies #[trigger] node_linked(
        after,
        reps,
        ranks,
        i,
    ) by {
        assert(node_linked(before, reps, ranks, i));
        assert(node_linked(before, reps, ranks, reps[i]));
        lemma_children_weight_change(before, middle, i, p, n);
        lemma_children_weight_change(middle, after, i, v, n);
    }
}

/// A disjoint-set forest over the handles `0, 1, 2, ..` in the order of
/// their addition.
#[derive(Debug)]
pub struct A {
    nodes: Vec<Node>,
}

impl View for A {
    type V = Seq<int>;

    /// For each element, by place, the place of the root of its tree.
    closed spec fn view(&self) -> Seq<int> {
        choose|reps: Seq<int>| is_forest_of(self.nodes@, reps)
    }
}

impl A {
    /// The records form a forest: following parents from any element ends
    /// at a root, each root carries the size of its tree, and each record the
    /// weight of the elements that reach the root through it.
    pub closed spec fn well_formed(&self) -> bool {
        exists|reps: Seq<int>| is_forest_of(self.nodes@, reps)
    }

    /// Ranks that grow from every element towards its root.
    spec fn ranks(&self) -> Seq<nat> {
        choose|ranks: Seq<nat>| linked(self.nodes@, self@, ranks)
    }

    /// A well-formed forest is linked by its view and its ranks.
    proof fn lemma_unfold(&self)
        requires
            self.well_formed(),
        ensures
            linked(self.nodes@, self@, self.ranks()),
    {
        assert(is_forest_of(self.nodes@, self@));
    }

    /// Records that are linked by some classes are well formed, and those
    /// classes are the view.
    proof fn lemma_fold(&self, reps: Seq<int>, ranks: Seq<nat>)
        requires
            linked(self.nodes@, reps, ranks),
        ensures
            self.well_formed(),
            self@ == reps,
    {
        assert(is_forest_of(self.nodes@, reps));
        self.lemma_unfold();
        lemma_reps_determined(self.nodes@, reps, ranks, self@, self.ranks());
    }

    /// The view of a well-formed forest is a partition of its elements.
    pub proof fn lemma_partition(&self)
        requires
            self.well_formed(),
        ensures
            is_partition(self@),
            self@.len() <= usize::MAX,
    {
        self.lemma_unfold();
        let reps = self@;
        assert(reps.len() == self.nodes.len());
        assert forall|i: int| 0 <= i < reps.len() implies 0 <= #[trigger] reps[i] < reps.len()
            && reps[reps[i]] == reps[i] by {
            assert(node_linked(self.nodes@, reps, self.ranks(), i));
            assert(node_linked(self.nodes@, reps, self.ranks(), reps[i]));
        }
    }

    /// The records as a forest: the parent of each element and the size
    /// that it carries, by place.
    pub closed spec fn forest(&self) -> Forest {
        forest_of(self.nodes@)
    }

    /// In a well-formed forest the parents lead from every element to the
    /// root that the view names, and a root carries the size of its set.
    pub proof fn lemma_forest(&self)
        requires
            self.well_formed(),
        ensures
            self.forest().parents.len() == self@.len(),
            self.forest().sizes.len() == self@.len(),
            forall|i: int|
                0 <= i < self@.len() ==> {
                    let up = #[trigger] self.forest().parents[i];
                    &&& 0 <= up < self@.len()
                    &&& self@[up] == self@[i]
                    &&& (up == i) == (self@[i] == i)
                    &&& on_way(self.forest().parents, i, self@[i])
                },
            forall|root: int|
                0 <= root < self@.len() && self@[root] == root ==> {
                    #[trigger] self.forest().sizes[root] == class_size(self@, root)
                },
    {
        self.lemma_unfold();
        let reps = self@;
        let ranks = self.ranks();
        assert forall|i: int| 0 <= i < reps.len() implies {
            let up = #[trigger] self.forest().parents[i];
            &&& 0 <= up < reps.len()
            &&& reps[up] == reps[i]
            &&& (up == i) == (reps[i] == i)
            &&& on_way(self.forest().parents, i, reps[i])
        } by {
            assert(node_linked(self.nodes@, reps, ranks, i));
            assert(node_linked(self.nodes@, reps, ranks, reps[i]));
            lemma_reaches_root(self.nodes@, reps, ranks, i);
        }
        assert forall|root: int| 0 <= root < reps.len() && reps[root] == root implies {
            #[trigger] self.forest().sizes[root] == class_size(reps, root)
        } by {
            assert(node_linked(self.nodes@, reps, ranks, root));
        }
    }

    /// The representative of an issued handle is the handle at the place
    /// that the view gives.
    pub proof fn lemma_representative(&self, node: NodeIdx)
        requires
            self.valid(),
            self.issued(node),
        ensures
            self.representative(node)@ == self@[node@],
    {
        self.lemma_partition();
        assert(0 <= self@[node@] < self@.len());
    }

    /// The forest without elements.
    pub fn new() -> (forest: Self)
        ensures
            forest.valid(),
            forest@ == Seq::<int>::empty(),
            forest.forest() == (Forest { parents: Seq::empty(), sizes: Seq::empty() }),
    {
        let forest = Self { nodes: Vec::new() };
        proof {
            assert(linked(forest.nodes@, Seq::<int>::empty(), Seq::<nat>::empty()));
            forest.lemma_fold(Seq::<int>::empty(), Seq::<nat>::empty());
            assert(parents_of(forest.nodes@) =~= Seq::<int>::empty());
            assert(sizes_of(forest.nodes@) =~= Seq::<int>::empty());
        }
        forest
    }
}

impl UnionFind<NodeIdx> for A {
    open spec fn valid(&self) -> bool {
        self.well_formed()
    }

    open spec fn issued(&self, node: NodeIdx) -> bool {
        0 <= node@ < self@.len()
    }

    open spec fn representative(&self, node: NodeIdx) -> NodeIdx {
        NodeIdx::at(self@[node@])
    }

    open spec fn compresses_to(&self, node: NodeIdx, after: &A) -> bool {
        &&& after@ == self@
        &&& after.forest() == self.forest().compressed(node@, self@[node@])
    }

    /// The new element takes the next place and is its own representative.
    fn add_element(&mut self) -> (node: NodeIdx)
        ensures
            node@ == old(self)@.len(),
            final(self)@ == with_singleton(old(self)@),
            final(self).forest() == old(self).forest().grown(),
    {
        proof {
            self.lemma_unfold();
            self.lemma_partition();
        }
        let ghost before = self.nodes@;
        let ghost reps = self@;
        let ghost ranks = self.ranks();
        let idx = NodeIdx(self.nodes.len());
        self.nodes.push(Node::new(idx));
        proof {
            let after = self.nodes@;
            let n = before.len();
            let new_reps = with_singleton(reps);
            let new_ranks = ranks.push(0);
            lemma_with_singleton(reps);
            assert forall|i: int| 0 <= i < after.len() implies #[trigger] node_linked(
                after,
                new_reps,
                new_ranks,
                i,
            ) by {
                if i < n {
                    assert(node_linked(before, reps, ranks, i));
                    lemma_children_weight_change(before, after, i, -1, n);
                    assert(class_size(new_reps, i) == class_size(reps, i));
                } else {
                    assert forall|j: int| 0 <= j < n implies child_weight(after, i, j) == 0 by {
                        assert(node_linked(before, reps, ranks, j));
                    }
                    lemma_children_weight_none(after, i, n);
                }
            }
            self.lemma_fold(new_reps, new_ranks);
            assert(parents_of(after) =~= parents_of(before).push(n as int));
            assert(sizes_of(after) =~= sizes_of(before).push(1));
        }
        idx
    }

    /// The tree of the smaller set is hung below the root of the larger; of
    /// two sets of one size, the set of `first_node` below that of `second_node`.
    fn union(&mut self, first_node: NodeIdx, second_node: NodeIdx)
        ensures
            final(self)@ == merged(old(self)@, first_node@, second_node@),
            final(self).forest() == old(self).forest().joined(
                first_node@,
                second_node@,
                old(self)@[first_node@],
                old(self)@[second_node@],
                absorbed(old(self)@, first_node@, second_node@),
                absorbing(old(self)@, first_node@, second_node@),
            ),
    {
        let first_set_idx = self.find(first_node);
        let second_set_idx = self.find(second_node);

        let mut first_set = self.nodes[first_set_idx.0];
        let mut second_set = self.nodes[second_set_idx.0];
        proof {
            self.lemma_unfold();
            self.lemma_partition();
            lemma_merged(self@, first_node@, second_node@);
            assert(node_linked(self.nodes@, self@, self.ranks(), first_set_idx@));
            assert(node_linked(self.nodes@, self@, self.ranks(), second_set_idx@));
        }
        let ghost before = self.nodes@;
        let ghost reps = self@;
        let ghost ranks = self.ranks();

        if first_set.idx == second_set.idx {
            return;
        }
        if second_set.size < first_set.size {
            let smaller = second_set;
            second_set = first_set;
            first_set = smaller;
        }
        self.nodes[first_set.idx.0].parent_idx = second_set.idx;
        self.nodes[second_set.idx.0].size += first_set.size;
        proof {
            let after = self.nodes@;
            let n = before.len();
            let gone = absorbed(reps, first_node@, second_node@);
            let kept = absorbing(reps, first_node@, second_node@);
            assert(first_set.idx@ == gone && second_set.idx@ == kept);
            let new_reps = merged(reps, first_node@, second_node@);
            let raised = if ranks[kept] > ranks[gone] {
                ranks[kept]
            } else {
                ranks[gone] + 1
            };
            let new_ranks = ranks.update(kept, raised as nat);
            let middle = before.update(
                gone,
                Node { idx: before[gone].idx, parent_idx: second_set.idx, size: before[gone].size },
            );
            assert(after =~= middle.update(
                kept,
                Node {
                    idx: before[kept].idx,
                    parent_idx: before[kept].parent_idx,
                    size: (before[kept].size + before[gone].size) as usize,
                },
            ));
            assert forall|i: int| 0 <= i < after.len() implies #[trigger] node_linked(
                after,
                new_reps,
                new_ranks,
                i,
            ) by {
                assert(node_linked(before, reps, ranks, i));
                assert(node_linked(before, reps, ranks, reps[i]));
                assert(node_linked(before, reps, ranks, before[i].parent_idx@));
                lemma_children_weight_change(before, middle, i, gone, n);
                lemma_children_weight_change(middle, after, i, kept, n);
                if before[i].parent_idx@ == i && i != gone && i != kept {
                    assert(class_size(new_reps, i) == class_size(reps, i));
                }
            }
            self.lemma_fold(new_reps, new_ranks);
            assert(parents_of(after) =~= parents_of(before).update(gone, kept));
            assert(sizes_of(after) =~= sizes_of(before).update(
                kept,
                sizes_of(before)[kept] + sizes_of(before)[gone],
            ));
        }
    }

    /// Every element on the way from `node` to the root is hung directly
    /// below the root, and its weight taken from the parent it leaves.
    fn find(&mut self, node: NodeIdx) -> (root: NodeIdx)
        ensures
            root@ == old(self)@[node@],
            final(self)@ == old(self)@,
            final(self).forest() == old(self).forest().compressed(node@, root@),
    {
        proof {
            self.lemma_unfold();
            self.lemma_partition();
        }
        let ghost initial = self.nodes@;
        let ghost parents = parents_of(initial);
        let ghost reps = self@;
        let ghost ranks = self.ranks();
        let ghost top = reps[node@];
        let mut current = self.nodes[node.0];
        assert(node_linked(self.nodes@, reps, ranks, node@));

        let mut nodes_to_update: Vec<Node> = Vec::new();

        while current.idx != current.parent_idx
            invariant
                self.nodes@ == initial,
                parents == parents_of(initial),
                linked(initial, reps, ranks),
                0 <= current.idx@ < initial.len(),
                current == initial[current.idx@],
                current.idx@ == ancestor(parents, node@, nodes_to_update.len() as nat),
                reps[current.idx@] == top,
                0 <= top < initial.len(),
                forall|k: int|
                    0 <= k < nodes_to_update.len() ==> {
                        let seen = #[trigger] nodes_to_update@[k];
                        &&& 0 <= seen.idx@ < initial.len()
                        &&& seen == initial[seen.idx@]
                        &&& seen.idx@ != seen.parent_idx@
                        &&& seen.idx@ == ancestor(parents, node@, k as nat)
                        &&& ranks[seen.idx@] < ranks[current.idx@]
                        &&& seen.parent_idx@ == if k + 1 < nodes_to_update.len() {
                            nodes_to_update@[k + 1].idx@
                        } else {
                            current.idx@
                        }
                    },
                forall|j: int, k: int|
                    0 <= j < k < nodes_to_update.len() ==> {
                        ranks[(#[trigger] nodes_to_update@[j]).idx@] < ranks[(
                        #[trigger] nodes_to_update@[k]).idx@]
                    },
            decreases ranks[top] - ranks[current.idx@],
        {
            proof {
                assert(node_linked(initial, reps, ranks, current.idx@));
                assert(node_linked(initial, reps, ranks, current.parent_idx@));
            }
            nodes_to_update.push(current);
            current = self.nodes[current.parent_idx.0];
        }

        let parent = current;
        proof {
            assert(node_linked(initial, reps, ranks, parent.idx@));
        }

        let mut remaining = nodes_to_update.len();
        if remaining > 0 {
            remaining -= 1;
        }
        while remaining > 0
            invariant
                self.nodes@.len() == initial.len(),
                linked(self.nodes@, reps, ranks),
                parent.idx@ == top,
                0 <= top < initial.len(),
                self.nodes@[top] == parent,
                parent.parent_idx@ == top,
                remaining <= nodes_to_update.len(),
                nodes_to_update.len() > 0 ==> remaining < nodes_to_update.len(),
                forall|k: int|
                    0 <= k < nodes_to_update.len() ==> {
                        let seen = #[trigger] nodes_to_update@[k];
                        let now = self.nodes@[seen.idx@];
                        &&& 0 <= seen.idx@ < initial.len()
                        &&& seen == initial[seen.idx@]
                        &&& seen.idx@ != seen.parent_idx@
                        &&& seen.idx@ != top
                        &&& (k + 1 < nodes_to_update.len() ==> seen.parent_idx@
                            == nodes_to_update@[k + 1].idx@)
                        &&& (k < remaining ==> now == seen)
                        &&& (k >= remaining ==> now.parent_idx@ == top)
                        &&& (k == remaining ==> now.size == seen.size)
                        &&& (k > remaining ==> now.size == seen.size - nodes_to_update@[k - 1].size)
                    },
                forall|j: int, k: int|
                    0 <= j < k < nodes_to_update.len() ==> {
                        ranks[(#[trigger] nodes_to_update@[j]).idx@] < ranks[(
                        #[trigger] nodes_to_update@[k]).idx@]
                    },
                forall|x: int|
                    0 <= x < initial.len() && (forall|k: int|
                        0 <= k < nodes_to_update.len() ==> (#[trigger] nodes_to_update@[k]).idx@
                            != x) ==> #[trigger] self.nodes@[x] == initial[x],
            decreases remaining,
        {
            remaining -= 1;
            let node = nodes_to_update[remaining];
            let ghost before = self.nodes@;
            let ghost v = node.idx@;
            let ghost p = node.parent_idx@;
            proof {
                let above = nodes_to_update@[remaining + 1];
                assert(above.idx@ == p);
                assert(node_linked(before, reps, ranks, p));
                lemma_children_weight_covers(before, p, v, before.len());
            }
            self.nodes[node.parent_idx.0].size -= node.size;
            self.nodes[node.idx.0].parent_idx = parent.idx;
            proof {
                lemma_rehang(before, self.nodes@, reps, ranks, v, p, top);
                assert forall|k: int| 0 <= k < nodes_to_update.len() implies {
                    let seen = #[trigger] nodes_to_update@[k];
                    let now = self.nodes@[seen.idx@];
                    &&& (k < remaining ==> now == seen)
                    &&& (k >= remaining ==> now.parent_idx@ == top)
                    &&& (k == remaining ==> now.size == seen.size)
                    &&& (k > remaining ==> now.size == seen.size - nodes_to_update@[k - 1].size)
                } by {
                    let seen = nodes_to_update@[k];
                    let lower = nodes_to_update@[remaining as int];
                    let upper = nodes_to_update@[remaining + 1];
                    if k < remaining {
                        assert(ranks[seen.idx@] < ranks[lower.idx@]);
                        assert(ranks[seen.idx@] < ranks[upper.idx@]);
                    } else if k > remaining + 1 {
                        assert(ranks[lower.idx@] < ranks[seen.idx@]);
                        assert(ranks[upper.idx@] < ranks[seen.idx@]);
                    }
                }
                assert forall|x: int|
                    0 <= x < initial.len() && (forall|k: int|
                        0 <= k < nodes_to_update.len() ==> (#[trigger] nodes_to_update@[k]).idx@
                            != x) implies #[trigger] self.nodes@[x] == initial[x] by {
                    assert(nodes_to_update@[remaining as int].idx@ != x);
                    assert(nodes_to_update@[remaining + 1].idx@ != x);
                    assert(before[x] == initial[x]);
                }
            }
        }
        proof {
            self.lemma_fold(reps, ranks);
            let path = nodes_to_update@;
            assert forall|j: int, k: int| 0 <= j < k < path.len() implies (#[trigger] path[j]).idx@
                != (#[trigger] path[k]).idx@ by {
                assert(ranks[path[j].idx@] < ranks[path[k].idx@]);
            }
            lemma_compression(initial, self.nodes@, path, node@, top);
        }

        parent.idx
    }
}

} // verus!
