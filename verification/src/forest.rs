//! Forests of numbered elements, written as the parent of each element and
//! the size that each element carries, and what path compression makes of them.

use vstd::prelude::*;

verus! {

/// The element that is reached from `from` by going to the parent `steps`
/// times. A root is its own parent.
pub open spec fn ancestor(parents: Seq<int>, from: int, steps: nat) -> int
    decreases steps,
{
    if steps == 0 {
        from
    } else {
        parents[ancestor(parents, from, (steps - 1) as nat)]
    }
}

/// `x` lies on the way from `from` to the root of its tree, both ends
/// included.
pub open spec fn on_way(parents: Seq<int>, from: int, x: int) -> bool {
    exists|steps: nat| ancestor(parents, from, steps) == x
}

/// `child` lies on the way from `from` to the root and hangs below `x`.
pub open spec fn is_child_on_way(parents: Seq<int>, from: int, x: int, child: int) -> bool {
    on_way(parents, from, child) && child != x && parents[child] == x
}

/// The element on the way from `from` to the root that hangs below `x`.
pub open spec fn child_on_way(parents: Seq<int>, from: int, x: int) -> int {
    choose|child: int| is_child_on_way(parents, from, x, child)
}

/// A forest: for each element, by number, its parent and the size it
/// carries. A root is its own parent and carries the size of its tree.
pub struct Forest {
    /// The parent of each element.
    pub parents: Seq<int>,
    /// The size that each element carries.
    pub sizes: Seq<int>,
}

impl Forest {
    /// The forest with one more element, a root that carries the size one.
    pub open spec fn grown(self) -> Forest {
        Forest {
            parents: self.parents.push(self.parents.len() as int),
            sizes: self.sizes.push(1),
        }
    }

    /// The forest after the way from `from` to `root` was compressed: every
    /// element on the way hangs directly below the root, and each of them
    /// but the root gives up what the element below it on the way carried.
    pub open spec fn compressed(self, from: int, root: int) -> Forest {
        Forest {
            parents: Seq::new(
                self.parents.len(),
                |x: int|
                    if on_way(self.parents, from, x) {
                        root
                    } else {
                        self.parents[x]
                    },
            ),
            sizes: Seq::new(
                self.sizes.len(),
                |x: int|
                    if x != root && exists|child: int|
                        is_child_on_way(self.parents, from, x, child) {
                        self.sizes[x] - self.sizes[child_on_way(self.parents, from, x)]
                    } else {
                        self.sizes[x]
                    },
            ),
        }
    }

    /// The forest after the root `below` was hung below the root `root`,
    /// which then carries the sizes of both.
    pub open spec fn hung(self, below: int, root: int) -> Forest {
        Forest {
            parents: self.parents.update(below, root),
            sizes: self.sizes.update(root, self.sizes[root] + self.sizes[below]),
        }
    }

    /// The forest after the sets of `a` and `b`, whose roots are `first` and
    /// `second`, were joined: both ways are compressed, then the root that
    /// gives way is hung below the other.
    pub open spec fn joined(
        self,
        a: int,
        b: int,
        first: int,
        second: int,
        below: int,
        root: int,
    ) -> Forest {
        let found = self.compressed(a, first).compressed(b, second);
        if first == second {
            found
        } else {
            found.hung(below, root)
        }
    }
}

/// Going to the parent first and then `steps` times is going `steps` times
/// and once more.
pub proof fn lemma_ancestor_shift(parents: Seq<int>, from: int, steps: nat)
    ensures
        ancestor(parents, parents[from], steps) == ancestor(parents, from, steps + 1),
    decreases steps,
{
    reveal_with_fuel(ancestor, 2);
    if steps > 0 {
        lemma_ancestor_shift(parents, from, (steps - 1) as nat);
        assert(ancestor(parents, from, steps + 1) == parents[ancestor(parents, from, steps)]);
    }
}

/// Once a root is reached, every further step stays there.
pub proof fn lemma_ancestor_stays(parents: Seq<int>, from: int, reached: nat, steps: nat)
    requires
        parents[ancestor(parents, from, reached)] == ancestor(parents, from, reached),
        steps >= reached,
    ensures
        ancestor(parents, from, steps) == ancestor(parents, from, reached),
    decreases steps,
{
    if steps > reached {
        lemma_ancestor_stays(parents, from, reached, (steps - 1) as nat);
    }
}

} // verus!
