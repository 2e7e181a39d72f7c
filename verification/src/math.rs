//! Greatest common divisor, least common multiple, and numbers written to a base that may be
//! negative.

use vstd::prelude::*;
use vstd::arithmetic::div_mod::*;

verus! {

/// Whether `d` is a positive number that divides both `a` and `b`.
pub open spec fn is_common_divisor(d: int, a: int, b: int) -> bool {
    d > 0 && a % d == 0 && b % d == 0
}

/// Whether `g` is the greatest common divisor of `a` and `b`: the common divisor that every
/// common divisor divides; 0 where both numbers are 0.
pub open spec fn is_gcd(g: int, a: int, b: int) -> bool {
    if a == 0 && b == 0 {
        g == 0
    } else {
        is_common_divisor(g, a, b) && forall|d: int| #[trigger]
            is_common_divisor(d, a, b) ==> g % d == 0
    }
}

/// The greatest common divisor of `a` and `b`.
pub open spec fn gcd_of(a: int, b: int) -> int {
    choose|g: int| is_gcd(g, a, b)
}

/// Two positive numbers that divide each other are equal.
proof fn lemma_divide_each_other(a: int, b: int)
    requires
        a > 0,
        b > 0,
        a % b == 0,
        b % a == 0,
    ensures
        a == b,
{
    lemma_fundamental_div_mod(a, b);
    lemma_fundamental_div_mod(b, a);
    let p = a / b;
    let q = b / a;
    assert(a == b * p);
    assert(b == a * q);
    assert(p >= 1 && q >= 1 && a == b) by (nonlinear_arith)
        requires
            a > 0,
            b > 0,
            a == b * p,
            b == a * q,
    ;
}

/// Two numbers have one greatest common divisor.
pub proof fn lemma_gcd_unique(g: int, h: int, a: int, b: int)
    requires
        is_gcd(g, a, b),
        is_gcd(h, a, b),
    ensures
        g == h,
        g == gcd_of(a, b),
{
    if !(a == 0 && b == 0) {
        assert(is_common_divisor(g, a, b));
        assert(is_common_divisor(h, a, b));
        lemma_divide_each_other(g, h);
        let c = gcd_of(a, b);
        assert(is_gcd(c, a, b));
        assert(is_common_divisor(c, a, b));
        lemma_divide_each_other(g, c);
    }
}

/// A divisor of `n` divides `m` where it divides the remainder of `m` by `n`, and only there.
proof fn lemma_remainder_keeps_divisors(d: int, n: int, m: int)
    requires
        d > 0,
        n > 0,
        m >= 0,
        n % d == 0,
    ensures
        (m % n) % d == m % d,
{
    lemma_fundamental_div_mod(m, n);
    lemma_fundamental_div_mod(n, d);
    let k = n / d;
    let q = m / n;
    let r = m % n;
    assert(d * (k * q) + r == m) by (nonlinear_arith)
        requires
            n == d * k,
            m == n * q + r,
    ;
    lemma_mod_multiples_vanish(k * q, r, d);
}

/// Returns the greatest common divisor of `n` and `m`, by Euclid's algorithm; 0 where both
/// are 0.
pub fn gcd(n: u64, m: u64) -> (g: u64)
    requires
        n != 0 || m == 0,
    ensures
        is_gcd(g as int, n as int, m as int),
        g == gcd_of(n as int, m as int),
{
    let mut a = n;
    let mut b = m;
    while b != 0
        invariant
            a != 0 || b == 0,
            n != 0 ==> a != 0,
            n == 0 ==> a == 0,
            forall|d: int| #[trigger]
                is_common_divisor(d, a as int, b as int) <==> is_common_divisor(
                    d,
                    n as int,
                    m as int,
                ),
        decreases a + b,
    {
        let ghost a0 = a;
        let ghost b0 = b;
        if b < a {
            let t = b;
            b = a;
            a = t;
        }
        let ghost before = b;
        b = b % a;
        proof {
            assert forall|d: int| #[trigger]
                is_common_divisor(d, a as int, b as int) <==> is_common_divisor(
                    d,
                    a as int,
                    before as int,
                ) by {
                if d > 0 && a as int % d == 0 {
                    lemma_remainder_keeps_divisors(d, a as int, before as int);
                }
            }
            assert forall|d: int| #[trigger]
                is_common_divisor(d, a as int, b as int) <==> is_common_divisor(
                    d,
                    n as int,
                    m as int,
                ) by {
                assert(is_common_divisor(d, a as int, before as int) <==> is_common_divisor(
                    d,
                    a0 as int,
                    b0 as int,
                ));
            }
        }
    }
    proof {
        if a != 0 {
            lemma_mod_self_0(a as int);
            assert(is_common_divisor(a as int, a as int, 0));
            assert(is_common_divisor(a as int, n as int, m as int));
            assert forall|d: int| #[trigger]
                is_common_divisor(d, n as int, m as int) implies a as int % d == 0 by {
                assert(is_common_divisor(d, a as int, 0));
            }
        }
        assert(is_gcd(a as int, n as int, m as int));
        lemma_gcd_unique(a as int, a as int, n as int, m as int);
    }
    a
}

/// Whether `m` is a positive number that both `a` and `b` divide.
pub open spec fn is_common_multiple(m: int, a: int, b: int) -> bool {
    m >= 1 && a >= 1 && b >= 1 && m % a == 0 && m % b == 0
}

/// Whether `l` is the least common multiple of `a` and `b`: the common multiple that divides
/// every common multiple.
pub open spec fn is_lcm(l: int, a: int, b: int) -> bool {
    is_common_multiple(l, a, b) && forall|m: int| #[trigger]
        is_common_multiple(m, a, b) ==> m % l == 0
}

/// What divides `m` times `a` and `m` times `b` divides `m` times their greatest common
/// divisor.
proof fn lemma_gcd_scales(a: int, b: int, g: int, m: int, c: int)
    requires
        a >= 0,
        b >= 0,
        is_gcd(g, a, b),
        m >= 1,
        c >= 1,
        (m * a) % c == 0,
        (m * b) % c == 0,
    ensures
        (m * g) % c == 0,
    decreases a,
{
    if a == 0 {
        if b == 0 {
            assert(m * g == 0) by (nonlinear_arith)
                requires
                    g == 0,
            ;
        } else {
            lemma_mod_self_0(b);
            assert(is_common_divisor(b, 0, b));
            assert(is_gcd(b, 0, b));
            lemma_gcd_unique(g, b, 0, b);
        }
    } else {
        let r = b % a;
        let q = b / a;
        lemma_fundamental_div_mod(b, a);
        lemma_mod_bound(b, a);
        assert forall|d: int| #[trigger]
            is_common_divisor(d, r, a) <==> is_common_divisor(d, a, b) by {
            if d > 0 && a % d == 0 {
                lemma_remainder_keeps_divisors(d, a, b);
            }
        }
        assert(is_common_divisor(g, a, b));
        assert(is_common_divisor(g, r, a));
        assert forall|d: int| #[trigger] is_common_divisor(d, r, a) implies g % d == 0 by {
            assert(is_common_divisor(d, a, b));
        }
        assert(is_gcd(g, r, a));
        lemma_fundamental_div_mod(m * a, c);
        lemma_fundamental_div_mod(m * b, c);
        let ka = (m * a) / c;
        let kb = (m * b) / c;
        assert(m * r == (kb - q * ka) * c) by (nonlinear_arith)
            requires
                b == a * q + r,
                m * a == c * ka,
                m * b == c * kb,
        ;
        lemma_mod_multiples_basic(kb - q * ka, c);
        lemma_gcd_scales(r, a, g, m, c);
    }
}

/// Every common multiple of two positive numbers is a multiple of the first times the
/// quotient of the second by their greatest common divisor.
pub proof fn lemma_lcm_divides(a: int, b: int, g: int, m: int)
    requires
        is_gcd(g, a, b),
        is_common_multiple(m, a, b),
    ensures
        a * (b / g) >= 1,
        m % (a * (b / g)) == 0,
{
    assert(is_common_divisor(g, a, b));
    lemma_fundamental_div_mod(b, g);
    lemma_fundamental_div_mod(m, a);
    lemma_fundamental_div_mod(m, b);
    let h = b / g;
    let s = m / a;
    let t = m / b;
    let c = a * b;
    let l = a * h;
    assert(h >= 1 && l >= 1 && c >= 1) by (nonlinear_arith)
        requires
            b == g * h,
            g >= 1,
            b >= 1,
            a >= 1,
            c == a * b,
            l == a * h,
    ;
    assert(m * a == t * c && m * b == s * c) by (nonlinear_arith)
        requires
            m == a * s,
            m == b * t,
            c == a * b,
    ;
    lemma_mod_multiples_basic(t, c);
    lemma_mod_multiples_basic(s, c);
    lemma_gcd_scales(a, b, g, m, c);
    lemma_fundamental_div_mod(m * g, c);
    let k = (m * g) / c;
    assert(m == k * l) by (nonlinear_arith)
        requires
            m * g == c * k,
            c == a * b,
            b == g * h,
            l == a * h,
            g >= 1,
    ;
    lemma_mod_multiples_basic(k, l);
}

/// Returns the least common multiple of `a` and `b`, as `a` times the quotient of `b` by
/// their greatest common divisor; 0 where `b` is 0.
pub fn lcm(a: u64, b: u64) -> (l: u64)
    requires
        a != 0,
        a * (b as int / gcd_of(a as int, b as int)) <= u64::MAX,
    ensures
        l == a * (b as int / gcd_of(a as int, b as int)),
        b != 0 ==> is_lcm(l as int, a as int, b as int),
        b == 0 ==> l == 0,
{
    let g = gcd(a, b);
    proof {
        let ai = a as int;
        let bi = b as int;
        let gi = g as int;
        assert(is_common_divisor(gi, ai, bi));
        lemma_fundamental_div_mod(ai, gi);
        lemma_fundamental_div_mod(bi, gi);
        let p = ai / gi;
        let q = bi / gi;
        let li = ai * q;
        assert(li == p * bi && li == q * ai && (bi >= 1 ==> li >= 1) && (bi == 0 ==> li == 0))
            by (nonlinear_arith)
            requires
                ai == gi * p,
                bi == gi * q,
                li == ai * q,
                ai >= 1,
                gi >= 1,
                bi >= 0,
        ;
        if b != 0 {
            lemma_mod_multiples_basic(q, ai);
            lemma_mod_multiples_basic(p, bi);
            assert(is_common_multiple(li, ai, bi));
            assert forall|m: int| #[trigger] is_common_multiple(m, ai, bi) implies m % li
                == 0 by {
                lemma_lcm_divides(ai, bi, gi, m);
            }
        }
    }
    a * (b / g)
}

/// The number that `digits` stand for to the base `radix`, the most significant digit first.
pub open spec fn value_of(digits: Seq<usize>, radix: int) -> int
    decreases digits.len(),
{
    if digits.len() == 0 {
        0
    } else {
        value_of(digits.drop_last(), radix) * radix + digits.last()
    }
}

/// Whether `x` can be written to the base `radix`: the base is at least 2 in size, a
/// negative number needs a negative base, and the opposite of the base is a machine integer
/// wherever a digit has to be made positive.
pub open spec fn has_digits(x: int, radix: int) -> bool {
    &&& radix <= -2 || radix >= 2
    &&& radix >= 2 ==> x >= 0
    &&& radix == isize::MIN ==> x >= 0 || x == isize::MIN
}

/// Whether `digits` is the way to write `x` to the base `radix`: they stand for `x`, each is
/// below the size of the base, and the first is not 0 but for the number 0, which is the
/// digit 0 alone.
pub open spec fn is_n_adic(digits: Seq<usize>, x: int, radix: int) -> bool {
    &&& digits.len() >= 1
    &&& value_of(digits, radix) == x
    &&& forall|k: int| 0 <= k < digits.len() ==> -radix < #[trigger] digits[k] < radix || radix < digits[k] < -radix
    &&& x == 0 ==> digits.len() == 1
    &&& x != 0 ==> digits[0] != 0
}

/// The number that `low` and, above it, `top` stand for, the least significant digit first.
spec fn folded(low: Seq<usize>, radix: int, top: int) -> int
    decreases low.len(),
{
    if low.len() == 0 {
        top
    } else {
        low[0] + radix * folded(low.skip(1), radix, top)
    }
}

proof fn lemma_folded_push(low: Seq<usize>, radix: int, q: usize, p: int)
    ensures
        folded(low.push(q), radix, p) == folded(low, radix, q + radix * p),
    decreases low.len(),
{
    if low.len() == 0 {
        assert(low.push(q).skip(1) =~= Seq::<usize>::empty());
        assert(folded(low.push(q).skip(1), radix, p) == p);
    } else {
        assert(low.push(q).skip(1) =~= low.skip(1).push(q));
        lemma_folded_push(low.skip(1), radix, q, p);
    }
}

proof fn lemma_folded_reversed(low: Seq<usize>, digits: Seq<usize>, radix: int)
    requires
        digits.len() == low.len(),
        forall|k: int| 0 <= k < low.len() ==> digits[k] == low[low.len() - 1 - k],
    ensures
        value_of(digits, radix) == folded(low, radix, 0),
    decreases low.len(),
{
    if low.len() > 0 {
        lemma_folded_reversed(low.skip(1), digits.drop_last(), radix);
        assert(digits.last() == low[0]);
        let v = folded(low.skip(1), radix, 0);
        assert(v * radix == radix * v) by (nonlinear_arith);
    }
}

/// The quotient and the remainder that the machine division by a base builds on.
proof fn lemma_euclid(x: int, d: int)
    requires
        d <= -2 || d >= 2,
    ensures
        x == d * (x / d) + x % d,
        0 <= x % d,
        d > 0 ==> x % d < d,
        d < 0 ==> x % d < -d,
        x >= 0 ==> -x <= 2 * (x / d) <= x,
        x >= 0 && d > 0 ==> 0 <= x / d,
        x >= 0 && d < 0 ==> x / d <= 0,
{
    let e = x / d;
    let m = x % d;
    assert(x == d * e + m && 0 <= m && (d > 0 ==> m < d) && (d < 0 ==> m < -d))
        by (nonlinear_arith)
        requires
            d != 0,
            e == x / d,
            m == x % d,
    ;
    if x >= 0 {
        assert(-x <= 2 * e <= x && (d > 0 ==> 0 <= e) && (d < 0 ==> e <= 0)) by (nonlinear_arith)
            requires
                x == d * e + m,
                0 <= m,
                (d > 0 ==> m < d),
                (d < 0 ==> m < -d),
                d <= -2 || d >= 2,
                x >= 0,
        ;
    }
}

/// How far `x` is from having no digit left: twice its size, and one more below 0.
spec fn digits_left(x: int) -> int {
    if x < 0 {
        -2 * x + 1
    } else {
        2 * x
    }
}

proof fn lemma_quotient_is_nearer(x: int, radix: int, p: int, q: int)
    requires
        x != 0,
        radix <= -2 || radix >= 2,
        radix >= 2 ==> x >= 0,
        x == p * radix + q,
        0 <= q,
        radix > 0 ==> q < radix,
        radix < 0 ==> q < -radix,
    ensures
        digits_left(p) < digits_left(x),
        radix >= 2 ==> p >= 0,
        radix < 0 && radix <= x < -radix ==> 0 <= p <= 1,
        p == 0 ==> q == x,
{
    if radix > 0 {
        assert(p >= 0 && 2 * p <= x) by (nonlinear_arith)
            requires
                x == p * radix + q,
                0 <= q < radix,
                radix >= 2,
                x >= 0,
        ;
    } else {
        let s = -radix;
        assert(p * radix == -(p * s)) by (nonlinear_arith)
            requires
                s == -radix,
        ;
        if -s <= x < s {
            assert(0 <= p <= 1) by (nonlinear_arith)
                requires
                    x == q - p * s,
                    0 <= q < s,
                    -s <= x < s,
                    s >= 2,
            ;
        }
        if x > 0 {
            assert(p <= 0 && -2 * p <= x && (x == 1 ==> p == 0)) by (nonlinear_arith)
                requires
                    x == q - p * s,
                    0 <= q < s,
                    s >= 2,
                    x > 0,
            ;
        } else {
            assert(p >= 1 && p <= -x) by (nonlinear_arith)
                requires
                    x == q - p * s,
                    0 <= q < s,
                    s >= 2,
                    x < 0,
            ;
        }
    }
}

/// Returns the digits of `x` to the base `radix`, the most significant first. The base may be
/// negative, and then every number, negative ones too, has its digits.
pub fn to_n_adic(x: isize, radix: isize) -> (digits: Vec<usize>)
    requires
        has_digits(x as int, radix as int),
    ensures
        is_n_adic(digits@, x as int, radix as int),
{
    if x == 0 {
        let zero: Vec<usize> = vec![0];
        proof {
            assert(zero@.drop_last() =~= Seq::<usize>::empty());
            assert(value_of(zero@.drop_last(), radix as int) == 0);
        }
        return zero;
    }
    let ghost whole = x as int;
    let mut x = x;
    let mut list: Vec<usize> = Vec::new();
    while x != 0
        invariant
            radix <= -2 || radix >= 2,
            radix >= 2 ==> x >= 0,
            radix == isize::MIN ==> x >= 0 || (x == isize::MIN && list@.len() == 0),
            whole != 0,
            folded(list@, radix as int, x as int) == whole,
            forall|k: int| 0 <= k < list@.len() ==> -radix < #[trigger] list@[k] < radix || radix < list@[k] < -radix,
            x == 0 ==> list@.len() >= 1 && list@.last() != 0,
        decreases digits_left(x as int),
    {
        let mut p = x / radix;
        let mut q = x % radix;
        proof {
            let xi = x as int;
            let ri = radix as int;
            lemma_euclid(xi, ri);
            lemma_euclid(-xi, ri);
            if x >= 0 {
                assert(ri * (xi / ri) == (xi / ri) * ri) by (nonlinear_arith);
            } else {
                let y = -xi;
                assert((-(y / ri)) * ri == -(ri * (y / ri))) by (nonlinear_arith);
            }
            assert(x == p * radix + q);
        }
        if q < 0 {
            assert((p + 1) * radix + (q - radix) == p * radix + q) by (nonlinear_arith);
            p += 1;
            q += -radix;
        }
        proof {
            lemma_quotient_is_nearer(x as int, radix as int, p as int, q as int);
            lemma_folded_push(list@, radix as int, q as usize, p as int);
            assert(q + radix * p == p * radix + q) by (nonlinear_arith);
        }
        list.push(q as usize);
        x = p;
    }
    let mut digits: Vec<usize> = Vec::new();
    let mut k: usize = list.len();
    while k > 0
        invariant
            k <= list@.len(),
            digits@.len() == list@.len() - k,
            forall|j: int| 0 <= j < digits@.len() ==> digits@[j] == list@[list@.len() - 1 - j],
        decreases k,
    {
        k -= 1;
        digits.push(list[k]);
    }
    proof {
        lemma_folded_reversed(list@, digits@, radix as int);
    }
    digits
}

} // verus!
