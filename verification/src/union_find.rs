//! The weighted disjoint-set forest under the names `find`, `union` and `equiv`.

use vstd::prelude::*;
use crate::disjoint_set::DisjointSet;

verus! {

/// Disjoint sets over `0..n` with a weight for every element: a `DisjointSet` whose
/// operations carry the names of the union-find literature.
#[derive(Debug)]
pub struct UnionFind {
    set: DisjointSet,
}

impl UnionFind {
    /// The forest that holds the sets and the weights.
    pub closed spec fn forest(&self) -> DisjointSet {
        self.set
    }

    /// The invariant of the structure: that of its forest.
    pub open spec fn wf(&self) -> bool {
        self.forest().wf()
    }

    /// Makes `n` sets of one element each, every weight 0.
    pub fn new(n: usize) -> (s: UnionFind)
        ensures
            s.wf(),
            s.forest().size() == n,
            forall|i: int| 0 <= i < n ==> #[trigger] s.forest().parent_of(i) == i,
            forall|i: int| 0 <= i < n ==> #[trigger] s.forest().rank_of(i) == 0,
            forall|i: int| 0 <= i < n ==> #[trigger] s.forest().link_weight(i) == 0,
            forall|i: int| 0 <= i < n ==> #[trigger] s.forest().root_of(i) == i,
            forall|i: int| 0 <= i < n ==> #[trigger] s.forest().weight_of(i) == 0,
    {
        UnionFind { set: DisjointSet::new(n) }
    }

    /// Returns the representative of the set of `x` and compresses the way from `x` up to it.
    /// No set, weight or rank changes.
    pub fn find(&mut self, x: usize) -> (r: usize)
        requires
            old(self).wf(),
            x < old(self).forest().size(),
        ensures
            final(self).wf(),
            r == old(self).forest().root_of(x as int),
            r == final(self).forest().parent_of(x as int),
            final(self).forest().keeps_sets(&old(self).forest()),
            final(self).forest().flattened(&old(self).forest(), x as int, x as int),
    {
        self.set.find_set(x)
    }

    /// Unites the sets of `x` and `y`, the two at equal weight: `union_weight` with weight 0.
    pub fn union(&mut self, x: usize, y: usize)
        requires
            old(self).wf(),
            x < old(self).forest().size(),
            y < old(self).forest().size(),
            old(self).forest().fits(x as int, y as int, 0),
        ensures
            final(self).wf(),
            old(self).forest().same_set(x as int, y as int) ==> final(self).forest().keeps_sets(
                &old(self).forest(),
            ) && final(self).forest().flattened(&old(self).forest(), x as int, y as int),
            !old(self).forest().same_set(x as int, y as int) ==> final(self).forest().united(
                &old(self).forest(),
                x as int,
                y as int,
                0,
            ),
            !old(self).forest().same_set(x as int, y as int) ==> final(self).forest().diff_of(
                x as int,
                y as int,
            ) == 0,
            final(self).forest().same_set(x as int, y as int),
            forall|a: int, b: int|
                0 <= a < old(self).forest().size() && 0 <= b < old(self).forest().size()
                    && old(self).forest().same_set(a, b) ==> #[trigger] final(
                    self
                ).forest().same_set(a, b),
    {
        self.union_weight(x, y, 0);
    }

    /// Unites the sets of `x` and `y` so that `y` lies at weight `w` above `x`. Where the two
    /// are in one set already, no set, weight or rank changes, whatever `w` is.
    pub fn union_weight(&mut self, x: usize, y: usize, w: isize)
        requires
            old(self).wf(),
            x < old(self).forest().size(),
            y < old(self).forest().size(),
            old(self).forest().fits(x as int, y as int, w as int),
        ensures
            final(self).wf(),
            old(self).forest().same_set(x as int, y as int) ==> final(self).forest().keeps_sets(
                &old(self).forest(),
            ) && final(self).forest().flattened(&old(self).forest(), x as int, y as int),
            !old(self).forest().same_set(x as int, y as int) ==> final(self).forest().united(
                &old(self).forest(),
                x as int,
                y as int,
                w as int,
            ),
            !old(self).forest().same_set(x as int, y as int) ==> final(self).forest().diff_of(
                x as int,
                y as int,
            ) == w,
            final(self).forest().same_set(x as int, y as int),
            forall|a: int, b: int|
                0 <= a < old(self).forest().size() && 0 <= b < old(self).forest().size()
                    && old(self).forest().same_set(a, b) ==> #[trigger] final(
                    self
                ).forest().same_set(a, b),
    {
        self.set.unite_weight(x, y, w);
    }

    /// Tells whether `x` and `y` are in one set. No set, weight or rank changes.
    pub fn equiv(&mut self, x: usize, y: usize) -> (r: bool)
        requires
            old(self).wf(),
            x < old(self).forest().size(),
            y < old(self).forest().size(),
        ensures
            final(self).wf(),
            r == old(self).forest().same_set(x as int, y as int),
            final(self).forest().keeps_sets(&old(self).forest()),
            final(self).forest().flattened(&old(self).forest(), x as int, y as int),
    {
        self.set.same(x, y)
    }

    /// Returns the weight of `x` relative to the representative of its set.
    pub fn weight(&mut self, x: usize) -> (w: isize)
        requires
            old(self).wf(),
            x < old(self).forest().size(),
        ensures
            final(self).wf(),
            w == old(self).forest().weight_of(x as int),
            final(self).forest().keeps_sets(&old(self).forest()),
            final(self).forest().flattened(&old(self).forest(), x as int, x as int),
    {
        self.set.weight(x)
    }

    /// Returns the weight of `y` minus the weight of `x`: within one set the distance from
    /// `x` to `y`. For elements of different sets the number has no meaning.
    pub fn diff(&mut self, x: usize, y: usize) -> (d: isize)
        requires
            old(self).wf(),
            x < old(self).forest().size(),
            y < old(self).forest().size(),
            isize::MIN <= old(self).forest().diff_of(x as int, y as int) <= isize::MAX,
        ensures
            final(self).wf(),
            d == old(self).forest().diff_of(x as int, y as int),
            final(self).forest().keeps_sets(&old(self).forest()),
            final(self).forest().flattened(&old(self).forest(), x as int, y as int),
    {
        self.set.diff(x, y)
    }
}

} // verus!
