//! Powers, permutations and combinations modulo a number.

use vstd::prelude::*;
use vstd::arithmetic::div_mod::*;
use vstd::arithmetic::power::*;

verus! {

pub const PRIME_1_000_000_007: usize = 1_000_000_007;

pub const PRIME_998_244_353: usize = 998_244_353;

/// The product of the `k` numbers `n`, `n - 1`, ... down to `n - k + 1`.
pub open spec fn falling(n: int, k: nat) -> int
    decreases k,
{
    if k == 0 {
        1
    } else {
        falling(n, (k - 1) as nat) * (n - (k - 1))
    }
}

/// `a` to the power `n`, modulo `p`.
pub open spec fn mod_pow_of(a: int, n: nat, p: int) -> int {
    pow(a, n) % p
}

/// `a` to the power `p - 2`, modulo `p`: the inverse of `a` modulo a prime `p` that does not
/// divide `a`.
pub open spec fn mod_inv_of(a: int, p: int) -> int {
    mod_pow_of(a, (p - 2) as nat, p)
}

/// The number of ways to line up `k` out of `n`, modulo `p`; the empty product is 1, not
/// reduced.
pub open spec fn mod_perm_of(n: int, k: nat, p: int) -> int {
    if k == 0 {
        1
    } else {
        falling(n, k) % p
    }
}

/// The number of ways to choose `k` out of `n` modulo a prime `p` above `k`: the
/// permutations of `k` out of `n` times the inverse of the permutations of `k`.
pub open spec fn mod_comb_of(n: int, k: nat, p: int) -> int {
    (mod_perm_of(n, k, p) * mod_inv_of(mod_perm_of(k as int, k, p), p)) % p
}

/// Whether no product that `mod_pow` forms on the way leaves the machine integers: the base
/// times the power below for an odd exponent from 3 on, the square of the power of half the
/// exponent for an even one.
pub open spec fn pow_fits(a: int, n: nat, p: int) -> bool
    decreases n,
{
    if n < 2 {
        true
    } else if n % 2 == 1 {
        pow_fits(a, (n - 1) as nat, p) && a * mod_pow_of(a, (n - 1) as nat, p) <= usize::MAX
    } else {
        pow_fits(a, n / 2, p) && mod_pow_of(a, n / 2, p) * mod_pow_of(a, n / 2, p) <= usize::MAX
    }
}

/// Whether `mod_perm` has a factor for every step and no product of it leaves the machine
/// integers.
pub open spec fn perm_fits(n: int, k: nat, p: int) -> bool
    decreases k,
{
    if k == 0 {
        true
    } else {
        &&& perm_fits(n, (k - 1) as nat, p)
        &&& p > 0
        &&& k - 1 <= n
        &&& mod_perm_of(n, (k - 1) as nat, p) * (n - (k - 1)) <= usize::MAX
    }
}

/// Whether `mod_comb` can be computed within the machine integers.
pub open spec fn comb_fits(n: int, k: nat, p: int) -> bool {
    &&& p >= 2
    &&& perm_fits(n, k, p)
    &&& perm_fits(k as int, k, p)
    &&& pow_fits(mod_perm_of(k as int, k, p), (p - 2) as nat, p)
    &&& mod_perm_of(n, k, p) * mod_inv_of(mod_perm_of(k as int, k, p), p) <= usize::MAX
}

/// No product of `mod_pow` leaves the machine integers where the base times `p - 1` and the
/// square of `p - 1` do not.
pub proof fn lemma_pow_fits(a: int, n: nat, p: int)
    requires
        a >= 0,
        p > 0,
        a * (p - 1) <= usize::MAX,
        (p - 1) * (p - 1) <= usize::MAX,
    ensures
        pow_fits(a, n, p),
    decreases n,
{
    if n >= 2 {
        if n % 2 == 1 {
            lemma_pow_fits(a, (n - 1) as nat, p);
            let s = mod_pow_of(a, (n - 1) as nat, p);
            lemma_mod_bound(pow(a, (n - 1) as nat), p);
            lemma_bounded_product(a, s, a, p - 1);
        } else {
            lemma_pow_fits(a, n / 2, p);
            let t = mod_pow_of(a, n / 2, p);
            lemma_mod_bound(pow(a, n / 2), p);
            lemma_bounded_product(t, t, p - 1, p - 1);
        }
    }
}

/// Where `mod_perm` can take `k` steps it can take fewer.
proof fn lemma_perm_fits_shorter(n: int, k: nat, j: nat, p: int)
    requires
        perm_fits(n, k, p),
        j <= k,
    ensures
        perm_fits(n, j, p),
    decreases k,
{
    if j < k {
        lemma_perm_fits_shorter(n, (k - 1) as nat, j, p);
    }
}

proof fn lemma_bounded_product(x: int, y: int, a: int, b: int)
    requires
        0 <= x <= a,
        0 <= y <= b,
    ensures
        0 <= x * y <= a * b,
{
    assert(0 <= x * y <= a * b) by (nonlinear_arith)
        requires
            0 <= x <= a,
            0 <= y <= b,
    ;
}

/// Returns `a` to the power `n` modulo `p`, by repeated squaring.
pub fn mod_pow(a: usize, n: usize, p: usize) -> (r: usize)
    requires
        p > 0,
        pow_fits(a as int, n as nat, p as int),
    ensures
        r == mod_pow_of(a as int, n as nat, p as int),
        r < p,
    decreases n,
{
    if n == 0 {
        proof {
            reveal(pow);
        }
        return 1 % p;
    }
    if n == 1 {
        proof {
            lemma_pow1(a as int);
        }
        return a % p;
    }
    if n % 2 == 1 {
        let s = mod_pow(a, n - 1, p);
        proof {
            lemma_mul_mod_noop_right(a as int, pow(a as int, (n - 1) as nat), p as int);
            reveal(pow);
        }
        return (a * s) % p;
    }
    let t = mod_pow(a, n / 2, p);
    proof {
        let h = pow(a as int, (n / 2) as nat);
        lemma_mul_mod_noop(h, h, p as int);
        lemma_pow_adds(a as int, (n / 2) as nat, (n / 2) as nat);
        assert((n / 2) + (n / 2) == n);
    }
    return (t * t) % p;
}

/// Returns `a` to the power `p - 2` modulo `p`, which for a prime `p` that does not divide
/// `a` is the inverse of `a` modulo `p`.
pub fn mod_inv(a: usize, p: usize) -> (r: usize)
    requires
        p >= 2,
        pow_fits(a as int, (p - 2) as nat, p as int),
    ensures
        r == mod_inv_of(a as int, p as int),
        r < p,
{
    return mod_pow(a, p - 2, p);
}

/// Returns the number of ways to line up `k` out of `n`, modulo `p`.
pub fn mod_perm(n: usize, k: usize, p: usize) -> (r: usize)
    requires
        perm_fits(n as int, k as nat, p as int),
    ensures
        r == mod_perm_of(n as int, k as nat, p as int),
        k >= 1 ==> r < p,
{
    let mut ret: usize = 1;
    let mut i: usize = 0;
    while i < k
        invariant
            i <= k,
            perm_fits(n as int, k as nat, p as int),
            ret == mod_perm_of(n as int, i as nat, p as int),
            i >= 1 ==> ret < p,
        decreases k - i,
    {
        proof {
            lemma_perm_fits_shorter(n as int, k as nat, (i + 1) as nat, p as int);
            lemma_mul_mod_noop_left(falling(n as int, i as nat), n - i, p as int);
            assert(falling(n as int, 0) == 1);
            assert(falling(n as int, (i + 1) as nat) == falling(n as int, i as nat) * (n - i));
        }
        ret = (ret * (n - i)) % p;
        i += 1;
    }
    return ret;
}

/// Returns the number of ways to choose `k` out of `n` modulo `p`, for a prime `p` above
/// `k`: the permutations of `k` out of `n` times the inverse of the permutations of `k`.
pub fn mod_comb(n: usize, k: usize, p: usize) -> (r: usize)
    requires
        comb_fits(n as int, k as nat, p as int),
    ensures
        r == mod_comb_of(n as int, k as nat, p as int),
        r < p,
{
    let a = mod_perm(n, k, p);
    let b = mod_perm(k, k, p);
    let inv = mod_inv(b, p);
    return (a * inv) % p;
}

/// Returns the number of ways to choose `k` out of `n` kinds with repetition, modulo `p`:
/// the ways to choose `n - 1` out of `n - 1 + k`.
pub fn mod_comb_with_repetition(n: usize, k: usize, p: usize) -> (r: usize)
    requires
        n >= 1,
        n - 1 + k <= usize::MAX,
        comb_fits(n - 1 + k, (n - 1) as nat, p as int),
    ensures
        r == mod_comb_of(n - 1 + k, (n - 1) as nat, p as int),
        r < p,
{
    mod_comb(n - 1 + k, n - 1, p)
}

/// Returns the number of ways to line up `k` out of `n` kinds with repetition, modulo `p`:
/// `n` to the power `k`.
pub fn mod_perm_with_repetition(n: usize, k: usize, p: usize) -> (r: usize)
    requires
        p > 0,
        pow_fits(n as int, k as nat, p as int),
    ensures
        r == mod_pow_of(n as int, k as nat, p as int),
        r < p,
{
    mod_pow(n, k, p)
}

} // verus!
