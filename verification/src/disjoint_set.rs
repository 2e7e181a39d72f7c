//! A weighted disjoint-set forest with union by rank and path compression.
//!
//! Elements are the indices `0..n`. Every element carries an integer weight relative to the
//! representative of its set, so that the difference of the weights of two elements of one set
//! is the sum of the weights that the unions declared between them.

use vstd::arithmetic::power2::*;
use vstd::prelude::*;
use vstd::set_lib::*;

verus! {

/// Disjoint sets over `0..n`, with a weight for every element relative to its representative.
#[derive(Debug)]
pub struct DisjointSet {
    rank: Vec<usize>,
    parent: Vec<usize>,
    diff_weight: Vec<isize>,
}

impl DisjointSet {
    /// The number of elements.
    pub closed spec fn size(&self) -> nat {
        self.parent@.len()
    }

    /// The element that `x` hangs under in the forest; `x` itself for a representative.
    pub closed spec fn parent_of(&self, x: int) -> int {
        self.parent@[x] as int
    }

    /// The rank of `x`, by which a union chooses the surviving representative.
    pub closed spec fn rank_of(&self, x: int) -> int {
        self.rank@[x] as int
    }

    /// The weight of `x` relative to `parent_of(x)`.
    pub closed spec fn link_weight(&self, x: int) -> int {
        self.diff_weight@[x] as int
    }

    pub open spec fn is_root(&self, x: int) -> bool {
        self.parent_of(x) == x
    }

    /// The representatives.
    pub open spec fn roots(&self) -> Set<int> {
        Set::new(|i: int| 0 <= i < self.size() && self.is_root(i))
    }

    /// The shape of the forest: ranks grow strictly towards the representatives, a
    /// representative has no weight of its own, and the ranks leave room for every
    /// representative that is left.
    pub closed spec fn wf_forest(&self) -> bool {
        &&& self.rank@.len() == self.parent@.len()
        &&& self.diff_weight@.len() == self.parent@.len()
        &&& forall|i: int| 0 <= i < self.size() ==> 0 <= #[trigger] self.parent_of(i) < self.size()
        &&& forall|i: int|
            0 <= i < self.size() && !self.is_root(i) ==> #[trigger] self.rank_of(i) < self.rank_of(
                self.parent_of(i),
            )
        &&& forall|i: int|
            0 <= i < self.size() && self.is_root(i) ==> #[trigger] self.link_weight(i) == 0
        &&& forall|i: int|
            0 <= i < self.size() ==> #[trigger] self.rank_of(i) + self.roots().len() <= self.size()
    }

    /// The representative of the set of `x`.
    pub open spec fn root_of(&self, x: int) -> int
        decreases self.size() - self.rank_of(x),
        when self.wf_forest() && 0 <= x < self.size()
    {
        if self.is_root(x) {
            x
        } else {
            self.root_of(self.parent_of(x))
        }
    }

    /// The weight of `x` relative to the representative of its set.
    pub open spec fn weight_of(&self, x: int) -> int
        decreases self.size() - self.rank_of(x),
        when self.wf_forest() && 0 <= x < self.size()
    {
        if self.is_root(x) {
            0
        } else {
            self.link_weight(x) + self.weight_of(self.parent_of(x))
        }
    }

    /// Whether `z` lies on the way from `x` up to its representative, both ends included.
    pub open spec fn on_path(&self, x: int, z: int) -> bool
        decreases self.size() - self.rank_of(x),
        when self.wf_forest() && 0 <= x < self.size()
    {
        z == x || (!self.is_root(x) && self.on_path(self.parent_of(x), z))
    }

    /// The number of steps from `x` up to its representative.
    pub open spec fn depth_of(&self, x: int) -> nat
        decreases self.size() - self.rank_of(x),
        when self.wf_forest() && 0 <= x < self.size()
    {
        if self.is_root(x) {
            0
        } else {
            1 + self.depth_of(self.parent_of(x))
        }
    }

    /// The elements of the set whose representative is `r`.
    pub open spec fn members(&self, r: int) -> Set<int> {
        Set::new(|z: int| 0 <= z < self.size() && self.root_of(z) == r)
    }

    /// Whether every set has at least two to the power of the rank of its representative
    /// elements: what union by rank keeps, and what keeps the forest shallow.
    pub open spec fn ranks_bounded(&self) -> bool {
        forall|r: int|
            0 <= r < self.size() && self.is_root(r) ==> pow2(self.rank_of(r) as nat)
                <= (#[trigger] self.members(r)).len()
    }

    /// The invariant of the structure: a well-shaped forest in which every weight relative to
    /// a representative is a machine integer, and every set is large for the rank of its
    /// representative.
    pub open spec fn wf(&self) -> bool {
        &&& self.wf_forest()
        &&& forall|i: int|
            0 <= i < self.size() ==> isize::MIN <= #[trigger] self.weight_of(i) <= isize::MAX
        &&& self.ranks_bounded()
    }

    /// Whether `x` and `y` are in one set.
    pub open spec fn same_set(&self, x: int, y: int) -> bool {
        self.root_of(x) == self.root_of(y)
    }

    /// The weight of `y` minus that of `x`.
    pub open spec fn diff_of(&self, x: int, y: int) -> int {
        self.weight_of(y) - self.weight_of(x)
    }

    /// The representative that survives when the sets of `x` and `y` are united: the one of
    /// `x`, unless the one of `y` has the higher rank.
    pub open spec fn keeper(&self, x: int, y: int) -> int {
        if self.rank_of(self.root_of(x)) < self.rank_of(self.root_of(y)) {
            self.root_of(y)
        } else {
            self.root_of(x)
        }
    }

    /// The representative that is hung under `keeper(x, y)` when the two sets are united.
    pub open spec fn joiner(&self, x: int, y: int) -> int {
        if self.rank_of(self.root_of(x)) < self.rank_of(self.root_of(y)) {
            self.root_of(x)
        } else {
            self.root_of(y)
        }
    }

    /// What a union that puts `y` at weight `w` above `x` adds to every weight in the set of
    /// `joiner(x, y)`.
    pub open spec fn shift(&self, x: int, y: int, w: int) -> int {
        if self.rank_of(self.root_of(x)) < self.rank_of(self.root_of(y)) {
            self.weight_of(y) - self.weight_of(x) - w
        } else {
            w + self.weight_of(x) - self.weight_of(y)
        }
    }

    /// Whether the weights that a union of `x` and `y` at distance `w` gives are machine
    /// integers. It always is where the two are in one set already.
    pub open spec fn fits(&self, x: int, y: int, w: int) -> bool {
        self.same_set(x, y) || forall|z: int|
            0 <= z < self.size() && #[trigger] self.root_of(z) == self.joiner(x, y) ==> isize::MIN
                <= self.weight_of(z) + self.shift(x, y, w) <= isize::MAX
    }

    /// Whether `self` has the sets, the weights and the ranks of `before`.
    pub open spec fn keeps_sets(&self, before: &DisjointSet) -> bool {
        &&& self.size() == before.size()
        &&& self@ == before@
        &&& forall|i: int|
            0 <= i < before.size() ==> #[trigger] self.rank_of(i) == before.rank_of(i)
    }

    /// Whether `self` is the forest `before` with the ways up from `x` and from `y`
    /// compressed: every element on either way hangs directly under its representative, at
    /// its weight relative to it, and no other element has moved.
    pub open spec fn flattened(&self, before: &DisjointSet, x: int, y: int) -> bool {
        forall|z: int|
            0 <= z < before.size() ==> #[trigger] self.parent_of(z) == (if before.on_path(x, z)
                || before.on_path(y, z) {
                before.root_of(z)
            } else {
                before.parent_of(z)
            }) && self.link_weight(z) == (if before.on_path(x, z) || before.on_path(y, z) {
                before.weight_of(z)
            } else {
                before.link_weight(z)
            })
    }

    /// Whether `self` has the sets of `before` with those of `x` and `y` united so that `y`
    /// lies at weight `w` above `x`: every element of the set of `joiner(x, y)` now has
    /// `keeper(x, y)` for its representative and a weight moved by `shift(x, y, w)`, and the
    /// rank of the keeper has grown by one where the two ranks were equal. Nothing else has
    /// changed.
    pub open spec fn united(&self, before: &DisjointSet, x: int, y: int, w: int) -> bool {
        &&& self.size() == before.size()
        &&& forall|z: int|
            0 <= z < before.size() ==> #[trigger] self.root_of(z) == if before.root_of(z)
                == before.joiner(x, y) {
                before.keeper(x, y)
            } else {
                before.root_of(z)
            }
        &&& forall|z: int|
            0 <= z < before.size() ==> #[trigger] self.weight_of(z) == if before.root_of(z)
                == before.joiner(x, y) {
                before.weight_of(z) + before.shift(x, y, w)
            } else {
                before.weight_of(z)
            }
        &&& forall|i: int|
            0 <= i < before.size() ==> #[trigger] self.rank_of(i) == if i == before.keeper(x, y)
                && before.rank_of(before.root_of(x)) == before.rank_of(before.root_of(y)) {
                before.rank_of(i) + 1
            } else {
                before.rank_of(i)
            }
        &&& forall|z: int|
            0 <= z < before.size() ==> #[trigger] self.parent_of(z) == (if z == before.joiner(
                x,
                y,
            ) {
                before.keeper(x, y)
            } else if before.on_path(x, z) || before.on_path(y, z) {
                before.root_of(z)
            } else {
                before.parent_of(z)
            }) && self.link_weight(z) == (if z == before.joiner(x, y) {
                before.shift(x, y, w)
            } else if before.on_path(x, z) || before.on_path(y, z) {
                before.weight_of(z)
            } else {
                before.link_weight(z)
            })
    }

    /// For every element its representative and its weight relative to it.
    pub open spec fn view(&self) -> Seq<(int, int)> {
        Seq::new(self.size(), |i: int| (self.root_of(i), self.weight_of(i)))
    }
}

impl DisjointSet {
    /// The representative of `x` is a representative in range, no lower in rank than `x`, and
    /// its own representative.
    pub proof fn lemma_root_of(&self, x: int)
        requires
            self.wf_forest(),
            0 <= x < self.size(),
        ensures
            0 <= self.root_of(x) < self.size(),
            self.is_root(self.root_of(x)),
            self.root_of(self.root_of(x)) == self.root_of(x),
            self.weight_of(self.root_of(x)) == 0,
            self.rank_of(x) <= self.rank_of(self.root_of(x)),
            self.is_root(x) <==> self.root_of(x) == x,
            self.on_path(x, self.root_of(x)),
            self.on_path(x, x),
        decreases self.size() - self.rank_of(x),
    {
        if !self.is_root(x) {
            self.lemma_root_of(self.parent_of(x));
        }
    }

    /// What lies on the way up from `x` is in range, in the set of `x`, and no lower in rank.
    pub proof fn lemma_on_path(&self, x: int, z: int)
        requires
            self.wf_forest(),
            0 <= x < self.size(),
            self.on_path(x, z),
        ensures
            0 <= z < self.size(),
            self.rank_of(x) <= self.rank_of(z),
            self.root_of(z) == self.root_of(x),
            z != x ==> !self.is_root(x) && self.on_path(self.parent_of(x), z),
        decreases self.size() - self.rank_of(x),
    {
        if z != x {
            self.lemma_on_path(self.parent_of(x), z);
        }
    }

    /// Whether `t` is `self` with `x` hung directly under its representative, its weight
    /// rebased on it, and nothing else changed.
    spec fn relinked(&self, t: &DisjointSet, x: int) -> bool {
        &&& t.rank@ == self.rank@
        &&& t.parent@.len() == self.parent@.len()
        &&& t.diff_weight@.len() == self.diff_weight@.len()
        &&& forall|i: int|
            0 <= i < self.size() && i != x ==> t.parent@[i] == self.parent@[i]
                && t.diff_weight@[i] == self.diff_weight@[i]
        &&& t.parent@[x] as int == self.root_of(x)
        &&& t.diff_weight@[x] as int == self.weight_of(x)
    }

    proof fn lemma_relinked_forest(&self, t: &DisjointSet, x: int)
        requires
            self.wf_forest(),
            0 <= x < self.size(),
            self.relinked(t, x),
        ensures
            t.wf_forest(),
    {
        self.lemma_root_of(x);
        assert(t.roots() =~= self.roots());
        assert forall|i: int| 0 <= i < t.size() && !t.is_root(i) implies #[trigger] t.rank_of(i)
            < t.rank_of(t.parent_of(i)) by {
            if i == x {
                if !self.is_root(x) {
                    self.lemma_root_of(self.parent_of(x));
                }
            } else {
                assert(self.rank_of(i) < self.rank_of(self.parent_of(i)));
            }
        }
        assert forall|i: int| 0 <= i < t.size() implies #[trigger] t.rank_of(i) + t.roots().len()
            <= t.size() by {
            assert(self.rank_of(i) + self.roots().len() <= self.size());
        }
        assert forall|i: int| 0 <= i < t.size() implies 0 <= #[trigger] t.parent_of(i)
            < t.size() by {
            assert(0 <= self.parent_of(i) < self.size());
        }
        assert forall|i: int| 0 <= i < t.size() && t.is_root(i) implies #[trigger] t.link_weight(
            i,
        ) == 0 by {
            assert(self.is_root(i));
            assert(self.link_weight(i) == 0);
        }
    }

    proof fn lemma_relinked_view(&self, t: &DisjointSet, x: int, z: int)
        requires
            self.wf_forest(),
            t.wf_forest(),
            0 <= x < self.size(),
            0 <= z < self.size(),
            self.relinked(t, x),
        ensures
            t.root_of(z) == self.root_of(z),
            t.weight_of(z) == self.weight_of(z),
        decreases self.size() - self.rank_of(z),
    {
        self.lemma_root_of(x);
        if z == x {
            if !self.is_root(x) {
                let r = self.root_of(x);
                assert(t.parent_of(r) == self.parent_of(r));
                assert(t.is_root(r));
                assert(t.parent_of(x) == r);
                assert(t.root_of(x) == t.root_of(r));
                assert(t.weight_of(x) == t.link_weight(x) + t.weight_of(r));
            }
        } else {
            assert(t.parent_of(z) == self.parent_of(z));
            assert(t.link_weight(z) == self.link_weight(z));
            if !self.is_root(z) {
                let p = self.parent_of(z);
                assert(self.rank_of(z) < self.rank_of(p));
                self.lemma_relinked_view(t, x, p);
            }
        }
    }

    /// Whether `t` is `self` with the representative `b` hung under the representative `a` at
    /// weight `d`, the rank of `a` raised where the two ranks were equal.
    spec fn linked(&self, t: &DisjointSet, a: int, b: int, d: int) -> bool {
        &&& t.parent@.len() == self.parent@.len()
        &&& t.rank@.len() == self.rank@.len()
        &&& t.diff_weight@.len() == self.diff_weight@.len()
        &&& forall|i: int|
            0 <= i < self.size() && i != b ==> t.parent@[i] == self.parent@[i]
                && t.diff_weight@[i] == self.diff_weight@[i]
        &&& forall|i: int| 0 <= i < self.size() && i != a ==> t.rank@[i] == self.rank@[i]
        &&& t.parent@[b] as int == a
        &&& t.diff_weight@[b] as int == d
        &&& t.rank@[a] as int == self.rank_of(a) + if self.rank_of(a) == self.rank_of(b) {
            1int
        } else {
            0int
        }
    }

    proof fn lemma_roots_finite(&self, r: int)
        requires
            self.wf_forest(),
            0 <= r < self.size(),
            self.is_root(r),
        ensures
            self.roots().finite(),
            self.roots().len() >= 1,
            self.rank_of(r) < self.size(),
    {
        lemma_int_range(0, self.size() as int);
        lemma_len_subset(self.roots(), set_int_range(0, self.size() as int));
        assert(self.roots().contains(r));
        if self.roots().len() == 0 {
            assert(self.roots() =~= Set::<int>::empty());
        }
        assert(self.rank_of(r) + self.roots().len() <= self.size());
    }

    proof fn lemma_linked_forest(&self, t: &DisjointSet, a: int, b: int, d: int)
        requires
            self.wf_forest(),
            0 <= a < self.size(),
            0 <= b < self.size(),
            a != b,
            self.is_root(a),
            self.is_root(b),
            self.rank_of(a) >= self.rank_of(b),
            self.linked(t, a, b, d),
        ensures
            t.wf_forest(),
    {
        self.lemma_roots_finite(b);
        assert(t.roots() =~= self.roots().remove(b));
        assert(self.roots().contains(b));
        assert(t.roots().len() == self.roots().len() - 1);
        assert forall|i: int| 0 <= i < t.size() && !t.is_root(i) implies #[trigger] t.rank_of(i)
            < t.rank_of(t.parent_of(i)) by {
            if i != b {
                assert(self.rank_of(i) < self.rank_of(self.parent_of(i)));
            }
        }
        assert forall|i: int| 0 <= i < t.size() implies #[trigger] t.rank_of(i) + t.roots().len()
            <= t.size() by {
            assert(self.rank_of(i) + self.roots().len() <= self.size());
        }
        assert forall|i: int| 0 <= i < t.size() implies 0 <= #[trigger] t.parent_of(i)
            < t.size() by {
            assert(0 <= self.parent_of(i) < self.size());
        }
        assert forall|i: int| 0 <= i < t.size() && t.is_root(i) implies #[trigger] t.link_weight(
            i,
        ) == 0 by {
            assert(self.is_root(i));
            assert(self.link_weight(i) == 0);
        }
    }

    proof fn lemma_linked_view(&self, t: &DisjointSet, a: int, b: int, d: int, z: int)
        requires
            self.wf_forest(),
            t.wf_forest(),
            0 <= a < self.size(),
            0 <= b < self.size(),
            a != b,
            self.is_root(a),
            self.is_root(b),
            self.linked(t, a, b, d),
            0 <= z < self.size(),
        ensures
            t.root_of(z) == if self.root_of(z) == b {
                a
            } else {
                self.root_of(z)
            },
            t.weight_of(z) == if self.root_of(z) == b {
                self.weight_of(z) + d
            } else {
                self.weight_of(z)
            },
        decreases self.size() - self.rank_of(z),
    {
        if z == b {
            assert(t.parent_of(a) == self.parent_of(a));
            assert(t.is_root(a));
            assert(t.parent_of(b) == a);
            assert(t.root_of(b) == t.root_of(a));
            assert(t.weight_of(b) == t.link_weight(b) + t.weight_of(a));
        } else {
            assert(t.parent_of(z) == self.parent_of(z));
            assert(t.link_weight(z) == self.link_weight(z));
            if !self.is_root(z) {
                let p = self.parent_of(z);
                assert(self.rank_of(z) < self.rank_of(p));
                self.lemma_linked_view(t, a, b, d, p);
            }
        }
    }

    /// Being in one set is an equivalence on `0..n`, and every element is in the set of
    /// exactly one representative: the sets partition `0..n`.
    pub proof fn lemma_sets_partition(&self, x: int, y: int, z: int)
        requires
            self.wf(),
            0 <= x < self.size(),
            0 <= y < self.size(),
            0 <= z < self.size(),
        ensures
            self.same_set(x, x),
            self.same_set(x, y) ==> self.same_set(y, x),
            self.same_set(x, y) && self.same_set(y, z) ==> self.same_set(x, z),
            0 <= self.root_of(x) < self.size(),
            self.is_root(self.root_of(x)),
            self.same_set(x, self.root_of(x)),
            self.is_root(y) && self.same_set(x, y) ==> y == self.root_of(x),
    {
        self.lemma_root_of(x);
        self.lemma_root_of(y);
    }

    /// Within one set the distance from `x` to `y` is the opposite of the distance from `y`
    /// to `x`, and distances add up along the way.
    pub proof fn lemma_diff_consistent(&self, x: int, y: int, z: int)
        requires
            self.wf(),
            0 <= x < self.size(),
            0 <= y < self.size(),
            0 <= z < self.size(),
            self.same_set(x, y),
            self.same_set(y, z),
        ensures
            self.diff_of(x, y) == -self.diff_of(y, x),
            self.diff_of(x, y) + self.diff_of(y, z) == self.diff_of(x, z),
            self.diff_of(x, x) == 0,
    {
    }

    /// The forest is shallow: the way from `x` up to its representative is no longer than the
    /// rank of the representative, and two to the power of that rank is at most the number
    /// of elements. No search for a representative takes more steps than the logarithm of
    /// the number of elements.
    pub proof fn lemma_forest_is_shallow(&self, x: int)
        requires
            self.wf(),
            0 <= x < self.size(),
        ensures
            self.depth_of(x) + self.rank_of(x) <= self.rank_of(self.root_of(x)),
            0 <= self.rank_of(x),
            pow2(self.rank_of(self.root_of(x)) as nat) <= self.size(),
        decreases self.size() - self.rank_of(x),
    {
        self.lemma_root_of(x);
        let r = self.root_of(x);
        self.lemma_members_finite(r);
        assert(pow2(self.rank_of(r) as nat) <= self.members(r).len());
        if !self.is_root(x) {
            self.lemma_forest_is_shallow(self.parent_of(x));
        }
    }

    proof fn lemma_members_finite(&self, r: int)
        ensures
            self.members(r).finite(),
            self.members(r).len() <= self.size(),
    {
        lemma_int_range(0, self.size() as int);
        lemma_len_subset(self.members(r), set_int_range(0, self.size() as int));
    }

    /// Sets that are kept stay large for their ranks.
    proof fn lemma_keeps_rank_bound(&self, after: &DisjointSet)
        requires
            self.wf_forest(),
            after.wf_forest(),
            after.keeps_sets(self),
            self.ranks_bounded(),
        ensures
            after.ranks_bounded(),
    {
        self.lemma_same_view(after);
        assert forall|r: int| 0 <= r < after.size() && after.is_root(r) implies pow2(
            after.rank_of(r) as nat,
        ) <= (#[trigger] after.members(r)).len() by {
            after.lemma_root_of(r);
            self.lemma_root_of(r);
            assert(after.root_of(r) == self.root_of(r));
            assert(self.is_root(r));
            assert(after.members(r) =~= self.members(r));
            assert(after.rank_of(r) == self.rank_of(r));
            assert(pow2(self.rank_of(r) as nat) <= self.members(r).len());
        }
    }

    /// Sets that are united are large for the rank of the representative that is kept.
    proof fn lemma_linked_rank_bound(&self, t: &DisjointSet, a: int, b: int, d: int)
        requires
            self.wf_forest(),
            t.wf_forest(),
            0 <= a < self.size(),
            0 <= b < self.size(),
            a != b,
            self.is_root(a),
            self.is_root(b),
            self.rank_of(a) >= self.rank_of(b),
            self.linked(t, a, b, d),
            self.ranks_bounded(),
        ensures
            t.ranks_bounded(),
    {
        assert forall|z: int| 0 <= z < self.size() implies t.root_of(z) == (if self.root_of(z)
            == b {
            a
        } else {
            self.root_of(z)
        }) by {
            self.lemma_linked_view(t, a, b, d, z);
        }
        assert forall|r: int| 0 <= r < t.size() && t.is_root(r) implies pow2(
            t.rank_of(r) as nat,
        ) <= (#[trigger] t.members(r)).len() by {
            assert(r != b);
            assert(t.parent_of(r) == self.parent_of(r));
            assert(self.is_root(r));
            assert(pow2(self.rank_of(r) as nat) <= self.members(r).len());
            if r == a {
                let ma = self.members(a);
                let mb = self.members(b);
                self.lemma_members_finite(a);
                self.lemma_members_finite(b);
                assert(pow2(self.rank_of(b) as nat) <= mb.len());
                assert(t.members(a) =~= ma + mb);
                assert(ma.disjoint(mb));
                lemma_set_disjoint_lens(ma, mb);
                if self.rank_of(a) == self.rank_of(b) {
                    lemma_pow2_unfold((self.rank_of(a) + 1) as nat);
                }
            } else {
                assert(t.members(r) =~= self.members(r));
                assert(t.rank_of(r) == self.rank_of(r));
            }
        }
    }

    /// To find the representative of `x` a second time gives the same representative, and
    /// it is then one step away: the way up from `x` holds `x` and the representative alone.
    pub proof fn lemma_find_again(&self, after: &DisjointSet, x: int, z: int)
        requires
            self.wf(),
            after.wf(),
            0 <= x < self.size(),
            after.keeps_sets(self),
            after.flattened(self, x, x),
        ensures
            after.root_of(x) == self.root_of(x),
            after.parent_of(x) == after.root_of(x),
            after.on_path(x, z) ==> z == x || z == after.root_of(x),
    {
        self.lemma_root_of(x);
        self.lemma_same_view(after);
        after.lemma_root_of(x);
        let r = after.root_of(x);
        assert(after.parent_of(x) == self.root_of(x));
        assert(after.on_path(r, z) <==> z == r);
    }

    /// No operation parts two elements of one set: they stay together where the sets were
    /// kept, and where those of `x` and `y` were united.
    pub proof fn lemma_sets_never_split(
        &self,
        after: &DisjointSet,
        x: int,
        y: int,
        w: int,
        a: int,
        b: int,
    )
        requires
            self.wf(),
            0 <= x < self.size(),
            0 <= y < self.size(),
            0 <= a < self.size(),
            0 <= b < self.size(),
            self.same_set(a, b),
            after.keeps_sets(self) || after.united(self, x, y, w),
        ensures
            after.same_set(a, b),
    {
        if after.keeps_sets(self) {
            self.lemma_same_view(after);
        }
    }

    /// Two structures with one view have the same sets and the same weights.
    pub proof fn lemma_same_view(&self, t: &DisjointSet)
        requires
            self@ == t@,
        ensures
            self.size() == t.size(),
            forall|z: int| 0 <= z < self.size() ==> #[trigger] t.root_of(z) == self.root_of(z),
            forall|z: int| 0 <= z < self.size() ==> #[trigger] t.weight_of(z) == self.weight_of(z),
            forall|a: int, b: int|
                0 <= a < self.size() && 0 <= b < self.size() ==> #[trigger] t.same_set(a, b)
                    == self.same_set(a, b),
            forall|a: int, b: int|
                0 <= a < self.size() && 0 <= b < self.size() ==> #[trigger] t.diff_of(a, b)
                    == self.diff_of(a, b),
    {
        assert(self@.len() == self.size());
        assert(t@.len() == t.size());
        assert(self@.len() == t@.len());
        assert forall|z: int| 0 <= z < self.size() implies #[trigger] t.root_of(z) == self.root_of(
            z,
        ) by {
            assert(self@[z] == t@[z]);
        }
        assert forall|z: int| 0 <= z < self.size() implies #[trigger] t.weight_of(z)
            == self.weight_of(z) by {
            assert(self@[z] == t@[z]);
        }
    }

    /// The way up from `x` holds the way up from everything on it.
    proof fn lemma_path_trans(&self, x: int, y: int, z: int)
        requires
            self.wf_forest(),
            0 <= x < self.size(),
            self.on_path(x, y),
            self.on_path(y, z),
        ensures
            self.on_path(x, z),
        decreases self.size() - self.rank_of(x),
    {
        if y != x {
            self.lemma_path_trans(self.parent_of(x), y, z);
        }
    }

    /// After the way up from `x` was compressed, the way up from `y` holds nothing new, and
    /// what it has lost lay on the way up from `x`.
    proof fn lemma_path_after(&self, t: &DisjointSet, x: int, y: int, z: int)
        requires
            self.wf_forest(),
            t.wf_forest(),
            t.keeps_sets(self),
            t.flattened(self, x, x),
            0 <= x < self.size(),
            0 <= y < self.size(),
        ensures
            t.on_path(y, z) ==> self.on_path(y, z),
            self.on_path(y, z) && !t.on_path(y, z) ==> self.on_path(x, z),
        decreases self.size() - self.rank_of(y),
    {
        self.lemma_root_of(y);
        self.lemma_root_of(x);
        let r = self.root_of(y);
        assert(t.parent_of(y) == if self.on_path(x, y) {
            r
        } else {
            self.parent_of(y)
        });
        if z == y {
        } else if self.on_path(x, y) {
            self.lemma_on_path(x, y);
            assert(t.parent_of(r) == self.root_of(r));
            assert(t.is_root(r));
            assert(t.on_path(r, z) <==> z == r);
            assert(t.on_path(y, z) ==> z == r);
            if self.on_path(y, z) {
                self.lemma_path_trans(x, y, z);
            }
        } else if !self.is_root(y) {
            let p = self.parent_of(y);
            assert(self.rank_of(y) < self.rank_of(p));
            self.lemma_path_after(t, x, p, z);
        }
    }

    /// Compressing the way up from `x` and then the way up from `y` compresses both.
    proof fn lemma_flattened_twice(&self, t: &DisjointSet, u: &DisjointSet, x: int, y: int)
        requires
            self.wf_forest(),
            t.wf_forest(),
            0 <= x < self.size(),
            0 <= y < self.size(),
            t.keeps_sets(self),
            t.flattened(self, x, x),
            u.keeps_sets(t),
            u.flattened(t, y, y),
        ensures
            u.keeps_sets(self),
            u.flattened(self, x, y),
    {
        self.lemma_same_view(t);
        assert forall|i: int| 0 <= i < self.size() implies #[trigger] u.rank_of(i)
            == self.rank_of(i) by {
            assert(t.rank_of(i) == self.rank_of(i));
        }
        assert forall|z: int| 0 <= z < self.size() implies #[trigger] u.parent_of(z) == (
        if self.on_path(x, z) || self.on_path(y, z) {
            self.root_of(z)
        } else {
            self.parent_of(z)
        }) && u.link_weight(z) == (if self.on_path(x, z) || self.on_path(y, z) {
            self.weight_of(z)
        } else {
            self.link_weight(z)
        }) by {
            self.lemma_path_after(t, x, y, z);
            assert(t.root_of(z) == self.root_of(z));
            assert(t.weight_of(z) == self.weight_of(z));
            assert(t.parent_of(z) == if self.on_path(x, z) {
                self.root_of(z)
            } else {
                self.parent_of(z)
            });
            assert(t.link_weight(z) == if self.on_path(x, z) {
                self.weight_of(z)
            } else {
                self.link_weight(z)
            });
            assert(u.parent_of(z) == if t.on_path(y, z) {
                t.root_of(z)
            } else {
                t.parent_of(z)
            });
            assert(u.link_weight(z) == if t.on_path(y, z) {
                t.weight_of(z)
            } else {
                t.link_weight(z)
            });
        }
    }

    /// Makes `n` sets of one element each, every weight 0.
    pub fn new(n: usize) -> (s: DisjointSet)
        ensures
            s.wf(),
            s.size() == n,
            forall|i: int| 0 <= i < n ==> #[trigger] s.parent_of(i) == i,
            forall|i: int| 0 <= i < n ==> #[trigger] s.rank_of(i) == 0,
            forall|i: int| 0 <= i < n ==> #[trigger] s.link_weight(i) == 0,
            forall|i: int| 0 <= i < n ==> #[trigger] s.root_of(i) == i,
            forall|i: int| 0 <= i < n ==> #[trigger] s.weight_of(i) == 0,
    {
        let mut rank: Vec<usize> = Vec::new();
        let mut parent: Vec<usize> = Vec::new();
        let mut diff_weight: Vec<isize> = Vec::new();
        let mut i: usize = 0;
        while i < n
            invariant
                i <= n,
                rank@.len() == i,
                parent@.len() == i,
                diff_weight@.len() == i,
                forall|k: int| 0 <= k < i ==> rank@[k] == 0,
                forall|k: int| 0 <= k < i ==> parent@[k] == k,
                forall|k: int| 0 <= k < i ==> diff_weight@[k] == 0,
            decreases n - i,
        {
            rank.push(0);
            parent.push(i);
            diff_weight.push(0);
            i += 1;
        }
        let s = DisjointSet { rank, parent, diff_weight };
        proof {
            lemma_int_range(0, n as int);
            assert(s.roots() =~= set_int_range(0, n as int));
            assert(s.wf_forest());
            assert forall|k: int| 0 <= k < n implies #[trigger] s.root_of(k) == k by {
                assert(s.is_root(k));
            }
            assert forall|k: int| 0 <= k < n implies #[trigger] s.weight_of(k) == 0 by {
                assert(s.is_root(k));
            }
            assert forall|r: int| 0 <= r < s.size() && s.is_root(r) implies pow2(
                s.rank_of(r) as nat,
            ) <= (#[trigger] s.members(r)).len() by {
                lemma2_to64();
                s.lemma_members_finite(r);
                assert(s.members(r).contains(r));
                if s.members(r).len() == 0 {
                    assert(s.members(r) =~= Set::<int>::empty());
                }
            }
        }
        s
    }

    /// Returns the representative of the set of `x`. Every element on the way from `x` up to
    /// it is hung directly under the representative, its weight rebased on it; no set, weight
    /// or rank changes, and no other element moves. A second call for `x` finds the
    /// representative in one step.
    pub fn find_set(&mut self, x: usize) -> (r: usize)
        requires
            old(self).wf(),
            x < old(self).size(),
        ensures
            final(self).wf(),
            r == old(self).root_of(x as int),
            r == final(self).parent_of(x as int),
            final(self).keeps_sets(old(self)),
            final(self).flattened(old(self), x as int, x as int),
        decreases old(self).size() - old(self).rank_of(x as int),
    {
        let p = self.parent[x];
        proof {
            old(self).lemma_root_of(x as int);
        }
        if x != p {
            assert(old(self).parent_of(x as int) == p);
            assert(old(self).rank_of(x as int) < old(self).rank_of(p as int));
            let r = self.find_set(p);
            let ghost mid = *self;
            proof {
                old(self).lemma_root_of(p as int);
                assert(old(self).on_path(p as int, p as int));
                if old(self).on_path(p as int, x as int) {
                    old(self).lemma_on_path(p as int, x as int);
                }
                assert(mid.parent_of(x as int) == p);
                assert(mid.link_weight(x as int) == old(self).link_weight(x as int));
                assert(mid.parent_of(p as int) == r);
                assert(mid.link_weight(p as int) == old(self).weight_of(p as int));
                assert(isize::MIN <= old(self).weight_of(x as int) <= isize::MAX);
                assert(mid@[x as int] == old(self)@[x as int]);
            }
            let q = self.parent[x];
            let d = self.diff_weight[x] + self.diff_weight[q];
            self.diff_weight.set(x, d);
            self.parent.set(x, r);
            proof {
                assert(mid.relinked(self, x as int));
                mid.lemma_relinked_forest(self, x as int);
                assert forall|i: int| 0 <= i < self.size() implies self.root_of(i) == old(
                    self
                ).root_of(i) && self.weight_of(i) == old(self).weight_of(i) by {
                    mid.lemma_relinked_view(self, x as int, i);
                    assert(mid@[i] == old(self)@[i]);
                }
                assert(self@ =~= old(self)@);
                assert forall|i: int| 0 <= i < old(self).size() implies #[trigger] self.rank_of(
                    i,
                ) == old(self).rank_of(i) by {
                    assert(mid.rank_of(i) == old(self).rank_of(i));
                }
                old(self).lemma_keeps_rank_bound(self);
                assert forall|z: int| 0 <= z < old(self).size() implies #[trigger] self.parent_of(
                    z,
                ) == (if old(self).on_path(x as int, z) {
                    old(self).root_of(z)
                } else {
                    old(self).parent_of(z)
                }) && self.link_weight(z) == (if old(self).on_path(x as int, z) {
                    old(self).weight_of(z)
                } else {
                    old(self).link_weight(z)
                }) by {
                    if old(self).on_path(x as int, z) {
                        old(self).lemma_on_path(x as int, z);
                    }
                    if z != x {
                        assert(old(self).on_path(x as int, z) == old(self).on_path(p as int, z));
                        assert(self.parent_of(z) == mid.parent_of(z));
                    }
                }
                assert forall|i: int| 0 <= i < old(self).size() implies #[trigger] self.rank_of(
                    i,
                ) == old(self).rank_of(i) by {
                    assert(mid.rank_of(i) == old(self).rank_of(i));
                }
            }
            r
        } else {
            proof {
                assert(old(self).is_root(x as int));
                assert(old(self).link_weight(x as int) == 0);
                assert forall|z: int| old(self).on_path(x as int, z) implies z == x by {}
                assert(self@ =~= old(self)@);
            }
            x
        }
    }

    /// Hangs the representative `b` under the representative `a` at weight `d`.
    fn link(&mut self, a: usize, b: usize, d: isize)
        requires
            old(self).wf(),
            a < old(self).size(),
            b < old(self).size(),
            a != b,
            old(self).is_root(a as int),
            old(self).is_root(b as int),
            old(self).rank_of(a as int) >= old(self).rank_of(b as int),
            forall|z: int|
                0 <= z < old(self).size() && #[trigger] old(self).root_of(z) == b ==> isize::MIN
                    <= old(self).weight_of(z) + d <= isize::MAX,
        ensures
            final(self).wf(),
            final(self).size() == old(self).size(),
            forall|z: int|
                0 <= z < old(self).size() ==> #[trigger] final(self).root_of(z) == if old(self).root_of(z) == b {
                    a as int
                } else {
                    old(self).root_of(z)
                },
            forall|z: int|
                0 <= z < old(self).size() ==> #[trigger] final(self).weight_of(z) == if old(self).root_of(z) == b {
                    old(self).weight_of(z) + d
                } else {
                    old(self).weight_of(z)
                },
            forall|i: int|
                0 <= i < old(self).size() ==> #[trigger] final(self).rank_of(i) == if i == a
                    && old(self).rank_of(a as int) == old(self).rank_of(b as int) {
                    old(self).rank_of(i) + 1
                } else {
                    old(self).rank_of(i)
                },
            forall|z: int|
                0 <= z < old(self).size() ==> #[trigger] final(self).parent_of(z) == (if z == b {
                    a as int
                } else {
                    old(self).parent_of(z)
                }) && final(self).link_weight(z) == (if z == b {
                    d as int
                } else {
                    old(self).link_weight(z)
                }),
    {
        proof {
            self.lemma_roots_finite(a as int);
            assert(self.rank_of(a as int) < self.rank.len());
        }
        if self.rank[a] == self.rank[b] {
            let k = self.rank[a] + 1;
            self.rank.set(a, k);
        }
        self.parent.set(b, a);
        self.diff_weight.set(b, d);
        proof {
            assert(old(self).linked(self, a as int, b as int, d as int));
            old(self).lemma_linked_forest(self, a as int, b as int, d as int);
            old(self).lemma_linked_rank_bound(self, a as int, b as int, d as int);
            assert forall|z: int| 0 <= z < old(self).size() implies #[trigger] self.root_of(z)
                == (if old(self).root_of(z) == b {
                a as int
            } else {
                old(self).root_of(z)
            }) by {
                old(self).lemma_linked_view(self, a as int, b as int, d as int, z);
            }
            assert forall|z: int| 0 <= z < old(self).size() implies #[trigger] self.weight_of(z)
                == (if old(self).root_of(z) == b {
                old(self).weight_of(z) + d
            } else {
                old(self).weight_of(z)
            }) by {
                old(self).lemma_linked_view(self, a as int, b as int, d as int, z);
            }
        }
    }

    /// Returns the weight of `x` relative to the representative of its set, and compresses
    /// the way from `x` up to it as `find_set` does.
    pub fn weight(&mut self, x: usize) -> (w: isize)
        requires
            old(self).wf(),
            x < old(self).size(),
        ensures
            final(self).wf(),
            w == old(self).weight_of(x as int),
            final(self).keeps_sets(old(self)),
            final(self).flattened(old(self), x as int, x as int),
    {
        let r = self.find_set(x);
        proof {
            old(self).lemma_root_of(x as int);
            assert(self.parent_of(x as int) == r);
        }
        self.diff_weight[x]
    }

    /// Tells whether `x` and `y` are in one set. No set, weight or rank changes; the ways up
    /// from `x` and from `y` are compressed.
    pub fn same(&mut self, x: usize, y: usize) -> (r: bool)
        requires
            old(self).wf(),
            x < old(self).size(),
            y < old(self).size(),
        ensures
            final(self).wf(),
            r == old(self).same_set(x as int, y as int),
            final(self).keeps_sets(old(self)),
            final(self).flattened(old(self), x as int, y as int),
    {
        let rx = self.find_set(x);
        let ghost mid = *self;
        let ry = self.find_set(y);
        proof {
            old(self).lemma_flattened_twice(&mid, self, x as int, y as int);
        }
        rx == ry
    }

    /// Returns the weight of `y` minus the weight of `x`, each relative to the representative
    /// of its own set: for two elements of one set the distance from `x` to `y` that the
    /// unions declared. For elements of different sets the number has no meaning. No set,
    /// weight or rank changes; the ways up from `x` and from `y` are compressed.
    pub fn diff(&mut self, x: usize, y: usize) -> (d: isize)
        requires
            old(self).wf(),
            x < old(self).size(),
            y < old(self).size(),
            isize::MIN <= old(self).diff_of(x as int, y as int) <= isize::MAX,
        ensures
            final(self).wf(),
            d == old(self).diff_of(x as int, y as int),
            final(self).keeps_sets(old(self)),
            final(self).flattened(old(self), x as int, y as int),
    {
        let wy = self.weight(y);
        let ghost mid = *self;
        let wx = self.weight(x);
        proof {
            old(self).lemma_flattened_twice(&mid, self, y as int, x as int);
            assert(mid@[x as int] == old(self)@[x as int]);
        }
        wy - wx
    }

    /// Unites the sets of `x` and `y` so that `y` lies at weight `w` above `x`. Where the two
    /// are in one set already, no set, weight or rank changes, whatever `w` is. Otherwise
    /// `joiner(x, y)` is hung under `keeper(x, y)`: every weight in its set moves by
    /// `shift(x, y, w)`, and the rank of the keeper grows by one where the two ranks were
    /// equal. Either way the ways up from `x` and from `y` are compressed first. No two
    /// elements of one set are ever parted.
    pub fn unite_weight(&mut self, x: usize, y: usize, w: isize)
        requires
            old(self).wf(),
            x < old(self).size(),
            y < old(self).size(),
            old(self).fits(x as int, y as int, w as int),
        ensures
            final(self).wf(),
            old(self).same_set(x as int, y as int) ==> final(self).keeps_sets(old(self))
                && final(self).flattened(old(self), x as int, y as int),
            !old(self).same_set(x as int, y as int) ==> final(self).united(
                old(self),
                x as int,
                y as int,
                w as int,
            ),
            !old(self).same_set(x as int, y as int) ==> final(self).diff_of(x as int, y as int)
                == w,
            final(self).same_set(x as int, y as int),
            forall|a: int, b: int|
                0 <= a < old(self).size() && 0 <= b < old(self).size() && old(self).same_set(a, b)
                    ==> #[trigger] final(self).same_set(a, b),
    {
        let rx = self.find_set(x);
        let ghost s1 = *self;
        let ry = self.find_set(y);
        let ghost s2 = *self;
        proof {
            old(self).lemma_flattened_twice(&s1, &s2, x as int, y as int);
            old(self).lemma_same_view(&s2);
            old(self).lemma_root_of(x as int);
            old(self).lemma_root_of(y as int);
            s2.lemma_root_of(x as int);
            s2.lemma_root_of(y as int);
            assert(s1@[y as int] == old(self)@[y as int]);
        }
        if rx == ry {
            return ;
        }
        proof {
            assert(s2.rank_of(rx as int) == old(self).rank_of(rx as int));
            assert(s2.rank_of(ry as int) == old(self).rank_of(ry as int));
            assert(old(self).root_of(old(self).joiner(x as int, y as int)) == old(self).joiner(
                x as int,
                y as int,
            ));
            old(self).lemma_on_path(x as int, x as int);
            old(self).lemma_on_path(y as int, y as int);
            assert(s2.parent_of(x as int) == rx);
            assert(s2.parent_of(y as int) == ry);
        }
        let wx = self.diff_weight[x];
        let wy = self.diff_weight[y];
        if self.rank[rx] < self.rank[ry] {
            let wide: i128 = wy as i128 - wx as i128 - w as i128;
            self.link(ry, rx, wide as isize);
        } else {
            let wide: i128 = w as i128 + wx as i128 - wy as i128;
            self.link(rx, ry, wide as isize);
        }
        proof {
            let a = old(self).keeper(x as int, y as int);
            let b = old(self).joiner(x as int, y as int);
            assert forall|i: int| 0 <= i < old(self).size() implies #[trigger] self.rank_of(i)
                == (if i == a && old(self).rank_of(old(self).root_of(x as int)) == old(
                self
            ).rank_of(old(self).root_of(y as int)) {
                old(self).rank_of(i) + 1
            } else {
                old(self).rank_of(i)
            }) by {
                assert(s2.rank_of(i) == old(self).rank_of(i));
            }
            assert forall|z: int| 0 <= z < old(self).size() implies #[trigger] self.parent_of(z)
                == (if z == b {
                a
            } else if old(self).on_path(x as int, z) || old(self).on_path(y as int, z) {
                old(self).root_of(z)
            } else {
                old(self).parent_of(z)
            }) && self.link_weight(z) == (if z == b {
                old(self).shift(x as int, y as int, w as int)
            } else if old(self).on_path(x as int, z) || old(self).on_path(y as int, z) {
                old(self).weight_of(z)
            } else {
                old(self).link_weight(z)
            }) by {
                let _ = s2.parent_of(z);
            }
            assert(self.root_of(x as int) == a);
            assert(self.root_of(y as int) == a);
        }
    }

    /// Unites the sets of `x` and `y`, the two at equal weight: `unite_weight` with weight 0.
    pub fn unite(&mut self, x: usize, y: usize)
        requires
            old(self).wf(),
            x < old(self).size(),
            y < old(self).size(),
            old(self).fits(x as int, y as int, 0),
        ensures
            final(self).wf(),
            old(self).same_set(x as int, y as int) ==> final(self).keeps_sets(old(self))
                && final(self).flattened(old(self), x as int, y as int),
            !old(self).same_set(x as int, y as int) ==> final(self).united(
                old(self),
                x as int,
                y as int,
                0,
            ),
            !old(self).same_set(x as int, y as int) ==> final(self).diff_of(x as int, y as int)
                == 0,
            final(self).same_set(x as int, y as int),
            forall|a: int, b: int|
                0 <= a < old(self).size() && 0 <= b < old(self).size() && old(self).same_set(a, b)
                    ==> #[trigger] final(self).same_set(a, b),
    {
        self.unite_weight(x, y, 0);
    }
}

} // verus!
