//! Doubling: where a walk over a fixed map of places arrives after a great number of steps.

use vstd::prelude::*;
use vstd::arithmetic::div_mod::*;
use vstd::arithmetic::power2::*;
use vstd::bits::*;

verus! {

/// The places reached from every place after 1, 2, 4, ... steps.
pub struct Doubling {
    n: usize,
    log_k: usize,
    doubling: Vec<Vec<usize>>,
}

/// The place reached from `start` after `times` steps, each from a place `i` to `step[i]`.
pub open spec fn walk(step: Seq<usize>, start: int, times: nat) -> int
    decreases times,
{
    if times == 0 {
        start
    } else {
        step[walk(step, start, (times - 1) as nat)] as int
    }
}

/// Whether every step leads to a place.
pub open spec fn closed_steps(step: Seq<usize>) -> bool {
    forall|i: int| 0 <= i < step.len() ==> #[trigger] step[i] < step.len()
}

/// A walk over steps that lead to places stays among the places.
pub proof fn lemma_walk_stays(step: Seq<usize>, start: int, times: nat)
    requires
        closed_steps(step),
        0 <= start < step.len(),
    ensures
        0 <= walk(step, start, times) < step.len(),
    decreases times,
{
    if times > 0 {
        lemma_walk_stays(step, start, (times - 1) as nat);
    }
}

/// A walk of `a` steps and then `b` steps is a walk of `a + b` steps.
pub proof fn lemma_walk_adds(step: Seq<usize>, start: int, a: nat, b: nat)
    ensures
        walk(step, walk(step, start, a), b) == walk(step, start, a + b),
    decreases b,
{
    if b > 0 {
        lemma_walk_adds(step, start, a, (b - 1) as nat);
    }
}

proof fn lemma_bit_test(k: u64, i: u64)
    requires
        i < 64,
    ensures
        (k & (1u64 << i)) > 0 <==> (k as nat / pow2(i as nat)) % 2 == 1,
{
    assert(i < 64 ==> (((k & (1u64 << i)) > 0) == (((k >> i) & 1) == 1))) by (bit_vector);
    let s = k >> i;
    assert((s & 1) == s % 2) by (bit_vector);
    lemma_u64_shr_is_div(k, i);
}

fn copy_of(list: &Vec<usize>) -> (copy: Vec<usize>)
    ensures
        copy@ == list@,
{
    let mut copy: Vec<usize> = Vec::new();
    let mut i: usize = 0;
    while i < list.len()
        invariant
            i <= list@.len(),
            copy@ == list@.take(i as int),
        decreases list@.len() - i,
    {
        copy.push(list[i]);
        proof {
            assert(copy@ =~= list@.take(i + 1));
        }
        i += 1;
    }
    proof {
        assert(list@.take(i as int) =~= list@);
    }
    copy
}

fn zeros(n: usize) -> (row: Vec<usize>)
    ensures
        row@.len() == n,
        forall|i: int| 0 <= i < n ==> row@[i] == 0,
{
    let mut row: Vec<usize> = Vec::new();
    let mut i: usize = 0;
    while i < n
        invariant
            i <= n,
            row@.len() == i,
            forall|j: int| 0 <= j < i ==> row@[j] == 0,
        decreases n - i,
    {
        row.push(0);
        i += 1;
    }
    row
}

impl Doubling {
    /// The map of single steps.
    pub closed spec fn steps(&self) -> Seq<usize> {
        self.doubling@[0]@
    }

    /// The number of doublings kept: walks of fewer than `pow2(levels())` steps can be
    /// answered.
    pub closed spec fn levels(&self) -> nat {
        self.log_k as nat
    }

    /// The place kept for `i` after `pow2(j)` steps.
    pub closed spec fn jump(&self, j: int, i: int) -> int {
        self.doubling@[j]@[i] as int
    }

    /// The shape of the table: one row of places for every doubling, and one for the single
    /// steps.
    pub closed spec fn wf(&self) -> bool {
        &&& self.log_k <= 63
        &&& self.doubling@.len() == self.log_k + 1
        &&& forall|j: int| 0 <= j <= self.log_k ==> (#[trigger] self.doubling@[j])@.len() == self.n
    }

    /// Whether the rows up to `rows` hold what their doublings reach.
    pub open spec fn prepared_up_to(&self, rows: int) -> bool {
        forall|j: int, i: int|
            0 <= j <= rows && 0 <= i < self.steps().len() ==> #[trigger] self.jump(j, i) == walk(
                self.steps(),
                i,
                pow2(j as nat),
            )
    }

    /// Whether the table holds what every doubling reaches.
    pub open spec fn prepared(&self) -> bool {
        self.prepared_up_to(self.levels() as int)
    }

    /// Makes the table for walks of up to `k` steps over the map `one_step`, with the single
    /// steps filled in.
    pub fn new(k: usize, one_step: &Vec<usize>) -> (table: Doubling)
        requires
            k <= isize::MAX,
        ensures
            table.wf(),
            table.steps() == one_step@,
            k < pow2(table.levels()),
            table.levels() > 0 ==> pow2((table.levels() - 1) as nat) <= k,
            forall|j: int, i: int|
                1 <= j <= table.levels() && 0 <= i < one_step@.len() ==> #[trigger] table.jump(j, i)
                    == 0,
    {
        let n = one_step.len();
        let mut log_k: usize = 0;
        let mut reach: u64 = 1;
        proof {
            lemma2_to64();
            lemma2_to64_rest();
        }
        while reach <= k as u64
            invariant
                k <= isize::MAX,
                log_k <= 63,
                reach == pow2(log_k as nat),
                log_k > 0 ==> pow2((log_k - 1) as nat) <= k,
            decreases 64 - log_k,
        {
            proof {
                lemma2_to64_rest();
                if log_k >= 63 {
                    assert(pow2(63) == 0x8000000000000000);
                }
                lemma_pow2_unfold((log_k + 1) as nat);
            }
            reach = reach * 2;
            log_k += 1;
        }
        let mut doubling: Vec<Vec<usize>> = Vec::new();
        doubling.push(copy_of(one_step));
        let mut j: usize = 0;
        while j < log_k
            invariant
                j <= log_k <= 63,
                doubling@.len() == j + 1,
                doubling@[0]@ == one_step@,
                n == one_step@.len(),
                forall|r: int| 0 <= r <= j ==> (#[trigger] doubling@[r])@.len() == n,
                forall|r: int, i: int| 1 <= r <= j && 0 <= i < n ==> #[trigger] doubling@[r]@[i] == 0,
            decreases log_k - j,
        {
            doubling.push(zeros(n));
            j += 1;
        }
        Doubling { n, log_k, doubling }
    }

    /// Fills in every doubling from the one before it.
    pub fn preprocess(&mut self)
        requires
            old(self).wf(),
            closed_steps(old(self).steps()),
        ensures
            final(self).wf(),
            final(self).steps() == old(self).steps(),
            final(self).levels() == old(self).levels(),
            final(self).prepared(),
    {
        let ghost step = self.steps();
        proof {
            assert forall|i: int| 0 <= i < step.len() implies #[trigger] self.jump(0, i) == walk(
                step,
                i,
                pow2(0),
            ) by {
                lemma2_to64();
                assert(walk(step, i, 1) == step[walk(step, i, 0)] as int);
            }
        }
        let mut j: usize = 0;
        while j < self.log_k
            invariant
                self.wf(),
                self.n == old(self).n,
                self.log_k == old(self).log_k,
                self.steps() == step,
                step == old(self).steps(),
                step.len() == self.n,
                closed_steps(step),
                j <= self.log_k,
                self.prepared_up_to(j as int),
            decreases self.log_k - j,
        {
            let mut row: Vec<usize> = Vec::new();
            let mut i: usize = 0;
            while i < self.n
                invariant
                    self.wf(),
                    self.steps() == step,
                    step.len() == self.n,
                    closed_steps(step),
                    j < self.log_k,
                    self.prepared_up_to(j as int),
                    i <= self.n,
                    row@.len() == i,
                    forall|c: int|
                        0 <= c < i ==> #[trigger] row@[c] == walk(step, c, pow2((j + 1) as nat)),
                decreases self.n - i,
            {
                proof {
                    assert(self.jump(j as int, i as int) == walk(step, i as int, pow2(j as nat)));
                    lemma_walk_stays(step, i as int, pow2(j as nat));
                    let mid = walk(step, i as int, pow2(j as nat));
                    assert(self.jump(j as int, mid) == walk(step, mid, pow2(j as nat)));
                    lemma_walk_adds(step, i as int, pow2(j as nat), pow2(j as nat));
                    lemma_pow2_unfold((j + 1) as nat);
                }
                let mid = self.doubling[j][i];
                row.push(self.doubling[j][mid]);
                i += 1;
            }
            let ghost before = *self;
            self.doubling.set(j + 1, row);
            proof {
                assert forall|r: int, c: int|
                    0 <= r <= j + 1 && 0 <= c < self.steps().len() implies #[trigger] self.jump(
                    r,
                    c,
                ) == walk(self.steps(), c, pow2(r as nat)) by {
                    if r <= j {
                        assert(self.jump(r, c) == before.jump(r, c));
                    }
                }
            }
            j += 1;
        }
    }

    /// Returns the place reached from `start` after `k` steps; for a `k` beyond what the
    /// table was made for, after `k % pow2(levels())` steps.
    pub fn get(&self, k: usize, start: usize) -> (place: usize)
        requires
            self.wf(),
            self.prepared(),
            closed_steps(self.steps()),
            start < self.steps().len(),
        ensures
            place == walk(self.steps(), start as int, (k as nat) % pow2(self.levels())),
            k < pow2(self.levels()) ==> place == walk(self.steps(), start as int, k as nat),
    {
        let mut current = start;
        let mut i: usize = self.log_k;
        let ghost step = self.steps();
        let ghost whole = (k as nat) % pow2(self.log_k as nat);
        proof {
            lemma_pow2_pos(self.log_k as nat);
        }
        while i > 0
            invariant
                self.wf(),
                self.prepared(),
                closed_steps(step),
                step == self.steps(),
                step.len() == self.n,
                i <= self.log_k,
                current < self.n,
                whole == (k as nat) % pow2(self.log_k as nat),
                pow2(i as nat) > 0,
                whole >= (k as nat) % pow2(i as nat),
                current == walk(step, start as int, (whole - (k as nat) % pow2(i as nat)) as nat),
            decreases i,
        {
            i -= 1;
            proof {
                lemma_pow2_pos(i as nat);
                lemma_pow2_unfold((i + 1) as nat);
                lemma_mod_breakdown(k as int, pow2(i as nat) as int, 2);
                lemma_bit_test(k as u64, i as u64);
                let low = pow2(i as nat) as int;
                assert(low * 2 == 2 * low);
                assert(low * (((k as int) / low) % 2) == if ((k as int) / low) % 2 == 1 {
                    low
                } else {
                    0
                }) by (nonlinear_arith)
                    requires
                        0 <= ((k as int) / low) % 2 < 2,
                ;
                let done = (whole - (k as nat) % pow2((i + 1) as nat)) as nat;
                assert(self.jump(i as int, current as int) == walk(
                    step,
                    current as int,
                    pow2(i as nat),
                ));
                lemma_walk_adds(step, start as int, done, pow2(i as nat));
                lemma_walk_stays(step, current as int, pow2(i as nat));
            }
            if (k as u64) & (1u64 << i) > 0 {
                current = self.doubling[i][current];
            }
        }
        proof {
            lemma2_to64();
            if k < pow2(self.levels()) {
                lemma_small_mod(k as nat, pow2(self.levels()));
            }
        }
        current
    }
}

} // verus!
