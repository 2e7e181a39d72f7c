//! A binary indexed tree: sums over the first cells of a list of numbers, and additions to
//! single cells, both in logarithmic time. Cells are counted from 1.

use vstd::prelude::*;

verus! {

/// A list of numbers, all 0 at first, with fast sums over its first cells.
pub struct BinaryIndexedTree {
    n: usize,
    bit: Vec<isize>,
}

/// The sum of `cells[a]`, `cells[a + 1]`, ... up to, but not including, `cells[b]`.
pub open spec fn range_sum(cells: Seq<int>, a: int, b: int) -> int
    decreases b - a,
{
    if b <= a {
        0
    } else {
        range_sum(cells, a, b - 1) + cells[b - 1]
    }
}

/// The value of the lowest bit that is set in `i`.
pub open spec fn low_bit(i: int) -> int {
    let w = i as u64;
    (w & !((w - 1) as u64)) as int
}

/// Whether the node `j` of the tree holds a sum that the cell `i` is part of.
pub open spec fn covers(j: int, i: int) -> bool {
    j - low_bit(j) < i <= j
}

proof fn lemma_low_bit(i: int)
    requires
        1 <= i < 0x4000_0000_0000_0000,
    ensures
        1 <= low_bit(i) <= i,
{
    let w = i as u64;
    assert(w > 0 ==> 1 <= (w & !((w - 1) as u64)) && (w & !((w - 1) as u64)) <= w)
        by (bit_vector);
}

proof fn lemma_next_covers(j: int, i: int)
    requires
        1 <= j < 0x2000_0000_0000_0000,
        covers(j, i),
    ensures
        covers(j + low_bit(j), i),
{
    lemma_low_bit(j);
    lemma_low_bit(j + low_bit(j));
    let w = j as u64;
    assert(0 < w < 0x2000_0000_0000_0000 ==> ({
        let l = w & !((w - 1) as u64);
        let k = (w + l) as u64;
        let m = k & !((k - 1) as u64);
        (k - m) as u64 <= (w - l) as u64 && m <= k && l <= w
    })) by (bit_vector);
    assert(0 < w < 0x2000_0000_0000_0000);
}

proof fn lemma_between_nodes(a: int, j: int)
    requires
        1 <= a < 0x2000_0000_0000_0000,
        a < j < a + low_bit(a),
    ensures
        j - low_bit(j) >= a,
{
    lemma_low_bit(a);
    lemma_low_bit(j);
    let w = a as u64;
    let v = j as u64;
    assert(0 < w < 0x2000_0000_0000_0000 && w < v && v < (w + (w & !((w - 1) as u64))) as u64
        ==> ({
        let m = v & !((v - 1) as u64);
        (v - m) as u64 >= w && m <= v
    })) by (bit_vector);
}

fn lowest_bit(i: usize) -> (l: usize)
    requires
        1 <= i < 0x4000_0000_0000_0000,
    ensures
        l == low_bit(i as int),
        1 <= l <= i,
{
    proof {
        lemma_low_bit(i as int);
    }
    let w = i as u64;
    let l = w & !(w - 1);
    l as usize
}

impl BinaryIndexedTree {
    /// The number of cells.
    pub closed spec fn size(&self) -> nat {
        (self.n - 1) as nat
    }

    /// What the node `j` of the tree holds.
    closed spec fn node(&self, j: int) -> int {
        self.bit@[j] as int
    }

    /// The invariant of the structure: one node for every cell and one that is never used,
    /// and no more of them than one allocation can hold.
    pub closed spec fn wf(&self) -> bool {
        &&& self.bit@.len() == self.n
        &&& 1 <= self.n <= isize::MAX / 8
    }

    /// The sum that the tree finds for the first `i` cells, walking down from the node `i`.
    closed spec fn prefix(&self, i: int) -> int
        decreases i,
    {
        if i <= 0 {
            0
        } else {
            let l = if 1 <= low_bit(i) <= i {
                low_bit(i)
            } else {
                i
            };
            self.node(i) + self.prefix(i - l)
        }
    }

    /// The cells, the first at index 0.
    pub closed spec fn view(&self) -> Seq<int> {
        Seq::new(self.size(), |k: int| self.prefix(k + 1) - self.prefix(k))
    }

    /// Whether `x` can be added to the cell `i` within the machine integers: to every sum
    /// that a node keeps over a stretch of cells with the cell `i` among them.
    pub open spec fn can_add(&self, i: int, x: int) -> bool {
        forall|j: int|
            1 <= j <= self.size() && #[trigger] covers(j, i) ==> isize::MIN <= range_sum(
                self@,
                j - low_bit(j),
                j,
            ) + x <= isize::MAX
    }

    /// Whether the sums that `sum` forms on its way down from the node `index` are machine
    /// integers: those over the cells from the stretch of each node it passes up to the
    /// cell `i`.
    pub open spec fn can_sum(&self, index: int, i: int) -> bool
        decreases index,
    {
        if index <= 0 {
            true
        } else {
            let low = if 1 <= low_bit(index) <= index {
                low_bit(index)
            } else {
                index
            };
            &&& isize::MIN <= range_sum(self@, index - low, i) <= isize::MAX
            &&& self.can_sum(index - low, i)
        }
    }

    proof fn lemma_range_sum(&self, a: int, b: int)
        requires
            0 <= a <= b <= self.size(),
        ensures
            range_sum(self@, a, b) == self.prefix(b) - self.prefix(a),
        decreases b - a,
    {
        if a < b {
            self.lemma_range_sum(a, b - 1);
        }
    }

    proof fn lemma_node(&self, j: int)
        requires
            self.wf(),
            1 <= j <= self.size(),
        ensures
            1 <= low_bit(j) <= j,
            self.node(j) == range_sum(self@, j - low_bit(j), j),
    {
        lemma_low_bit(j);
        self.lemma_range_sum(j - low_bit(j), j);
    }

    /// What a walk down the tree finds once `x` has been added to every node that covers the
    /// cell `i`.
    proof fn lemma_prefix_after(&self, after: &BinaryIndexedTree, i: int, x: int, m: int)
        requires
            self.wf(),
            after.wf(),
            after.n == self.n,
            1 <= i,
            0 <= m <= self.size(),
            forall|j: int|
                1 <= j <= self.size() ==> #[trigger] after.node(j) == self.node(j) + if covers(
                    j,
                    i,
                ) {
                    x
                } else {
                    0
                },
        ensures
            after.prefix(m) == self.prefix(m) + if m >= i {
                x
            } else {
                0
            },
        decreases m,
    {
        if m > 0 {
            lemma_low_bit(m);
            self.lemma_prefix_after(after, i, x, m - low_bit(m));
            assert(after.node(m) == self.node(m) + if covers(m, i) {
                x
            } else {
                0
            });
        }
    }

    /// Makes a tree over `n` cells that all hold 0.
    pub fn new(n: usize) -> (tree: BinaryIndexedTree)
        requires
            n < isize::MAX / 8,
        ensures
            tree.wf(),
            tree.size() == n,
            tree@.len() == n,
            forall|k: int| 0 <= k < n ==> #[trigger] tree@[k] == 0,
    {
        let bit: Vec<isize> = vec![0; n + 1];
        let tree = BinaryIndexedTree { n: n + 1, bit };
        proof {
            assert forall|m: int| 0 <= m <= n implies tree.prefix(m) == 0 by {
                tree.lemma_zero_prefix(m);
            }
        }
        tree
    }

    proof fn lemma_zero_prefix(&self, m: int)
        requires
            self.wf(),
            0 <= m <= self.size(),
            forall|j: int| 0 <= j < self.n ==> self.bit@[j] == 0,
        ensures
            self.prefix(m) == 0,
        decreases m,
    {
        if m > 0 {
            lemma_low_bit(m);
            self.lemma_zero_prefix(m - low_bit(m));
        }
    }

    /// Adds `x` to the cell `i`, counted from 1. A cell beyond the last is no cell, and
    /// nothing changes.
    pub fn add(&mut self, i: usize, x: isize)
        requires
            old(self).wf(),
            i != 0,
            old(self).can_add(i as int, x as int),
        ensures
            final(self).wf(),
            final(self).size() == old(self).size(),
            final(self)@.len() == old(self).size(),
            final(self)@ == if i <= old(self).size() {
                old(self)@.update(i - 1, old(self)@[i - 1] + x)
            } else {
                old(self)@
            },
    {
        let mut index: usize = i;
        proof {
            if i < self.n {
                lemma_low_bit(i as int);
            }
        }
        while index < self.n
            invariant
                self.wf(),
                self.n == old(self).n,
                old(self).wf(),
                1 <= i <= index,
                old(self).can_add(i as int, x as int),
                index < self.n ==> covers(index as int, i as int),
                forall|j: int|
                    1 <= j <= self.size() ==> #[trigger] self.node(j) == old(self).node(j)
                        + if covers(j, i as int) && j < index {
                        x as int
                    } else {
                        0
                    },
            decreases
                    if index < self.n {
                        self.n - index
                    } else {
                        0
                    },
        {
            proof {
                old(self).lemma_node(index as int);
                assert(self.node(index as int) == old(self).node(index as int));
                lemma_next_covers(index as int, i as int);
                assert forall|j: int| index < j < index + low_bit(index as int) implies !covers(
                    j,
                    i as int,
                ) by {
                    lemma_between_nodes(index as int, j);
                }
            }
            let ghost prev = *self;
            let ghost at = index as int;
            let v = self.bit[index] + x;
            self.bit.set(index, v);
            index += lowest_bit(index);
            proof {
                assert forall|j: int| 1 <= j <= self.size() implies #[trigger] self.node(j)
                    == old(self).node(j) + if covers(j, i as int) && j < index {
                    x as int
                } else {
                    0
                } by {
                    assert(self.node(j) == if j == at {
                        prev.node(j) + x
                    } else {
                        prev.node(j)
                    });
                }
            }
        }
        proof {
            assert forall|m: int| 0 <= m <= self.size() implies self.prefix(m) == old(self).prefix(m) + if m >= i {
                x as int
            } else {
                0
            } by {
                old(self).lemma_prefix_after(self, i as int, x as int, m);
            }
            if i <= old(self).size() {
                assert(self@ =~= old(self)@.update(i - 1, old(self)@[i - 1] + x));
            } else {
                assert(self@ =~= old(self)@);
            }
        }
    }

    /// Returns the sum of the first `i` cells.
    pub fn sum(&self, i: usize) -> (s: isize)
        requires
            self.wf(),
            1 <= i <= self.size(),
            self.can_sum(i as int, i as int),
        ensures
            s == range_sum(self@, 0, i as int),
    {
        let mut s: isize = 0;
        let mut index: usize = i;
        while index > 0
            invariant
                self.wf(),
                0 <= index <= i <= self.size(),
                self.can_sum(index as int, i as int),
                s == range_sum(self@, index as int, i as int),
            decreases index,
        {
            proof {
                self.lemma_node(index as int);
                let low = low_bit(index as int);
                self.lemma_range_sum(index - low, index as int);
                self.lemma_range_sum(index as int, i as int);
                self.lemma_range_sum(index - low, i as int);
            }
            s += self.bit[index];
            index -= lowest_bit(index);
        }
        s
    }
}

} // verus!
