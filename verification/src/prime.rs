//! Prime numbers: a sieve, a primality test, factorisations and divisors.

use vstd::prelude::*;
use vstd::arithmetic::div_mod::*;

verus! {

/// Whether `d` divides `n`.
pub open spec fn divides(d: int, n: int) -> bool {
    d != 0 && n % d == 0
}

/// Whether no number from 2 up to, but not including, `bound` divides `n`.
pub open spec fn no_divisor_below(n: int, bound: int) -> bool {
    forall|d: int| 2 <= d < bound ==> !#[trigger] divides(d, n)
}

/// Whether `n` is a prime number.
pub open spec fn is_prime_number(n: int) -> bool {
    n >= 2 && no_divisor_below(n, n)
}

/// The product of the numbers of `list`.
pub open spec fn product(list: Seq<usize>) -> int
    decreases list.len(),
{
    if list.len() == 0 {
        1
    } else {
        product(list.drop_last()) * list.last()
    }
}

/// Whether the numbers of `list` never fall from one to the next.
pub open spec fn ascending(list: Seq<usize>) -> bool {
    forall|i: int, j: int| 0 <= i <= j < list.len() ==> list[i] <= list[j]
}

/// Whether the numbers of `list` grow from each to the next.
pub open spec fn strictly_ascending(list: Seq<usize>) -> bool {
    forall|i: int, j: int| 0 <= i < j < list.len() ==> list[i] < list[j]
}

/// Whether `list` is the factorisation of `n` into primes, the smallest first.
pub open spec fn is_factorization(list: Seq<usize>, n: int) -> bool {
    &&& product(list) == n
    &&& ascending(list)
    &&& forall|i: int| 0 <= i < list.len() ==> is_prime_number(#[trigger] list[i] as int)
}

/// A divisor `d` of a positive `n` comes with the cofactor `n / d`, which divides `n` too.
pub proof fn lemma_cofactor(n: int, d: int)
    requires
        n >= 1,
        d >= 1,
        divides(d, n),
    ensures
        n / d >= 1,
        d * (n / d) == n,
        divides(n / d, n),
        n / (n / d) == d,
        d <= n,
{
    let e = n / d;
    lemma_fundamental_div_mod(n, d);
    assert(e >= 1 && d <= n) by (nonlinear_arith)
        requires
            n == d * e,
            n >= 1,
            d >= 1,
    ;
    lemma_mod_multiples_basic(d, e);
    lemma_div_multiples_vanish(d, e);
    assert(d * e == e * d) by (nonlinear_arith);
}

/// What divides a divisor of `a` divides `a`.
pub proof fn lemma_divides_trans(c: int, b: int, a: int)
    requires
        c >= 1,
        b >= 1,
        a >= 0,
        divides(c, b),
        divides(b, a),
    ensures
        divides(c, a),
{
    lemma_fundamental_div_mod(a, b);
    lemma_fundamental_div_mod(b, c);
    let k = a / b;
    let l = b / c;
    assert(a == (l * k) * c) by (nonlinear_arith)
        requires
            a == b * k,
            b == c * l,
    ;
    lemma_mod_multiples_basic(l * k, c);
}

/// A number below the square of `bound` that nothing from 2 up to `bound` divides has no
/// divisor but 1 and itself.
pub proof fn lemma_no_divisor_up_to_root(n: int, bound: int)
    requires
        n >= 1,
        bound >= 1,
        n < bound * bound,
        no_divisor_below(n, bound),
    ensures
        no_divisor_below(n, n),
{
    assert forall|d: int| 2 <= d < n implies !#[trigger] divides(d, n) by {
        if divides(d, n) && d >= bound {
            lemma_cofactor(n, d);
            let e = n / d;
            assert(e < bound) by (nonlinear_arith)
                requires
                    d * e == n,
                    n < bound * bound,
                    d >= bound,
                    bound >= 1,
                    e >= 1,
            ;
            assert(e >= 2) by (nonlinear_arith)
                requires
                    d * e == n,
                    d < n,
                    e >= 1,
            ;
            assert(divides(e, n));
        }
    }
}

/// Whether `k` is at least 2 and nothing from 2 up to, but not including, `bound` divides
/// it, `k` itself apart.
pub open spec fn unsieved(k: int, bound: int) -> bool {
    k >= 2 && forall|d: int| 2 <= d < bound && d < k ==> !#[trigger] divides(d, k)
}

/// No multiple of `i` lies between one multiple and the next.
proof fn lemma_multiples_gap(i: int, j: int, k: int)
    requires
        i >= 1,
        j >= 0,
        divides(i, j),
        j < k < j + i,
    ensures
        !divides(i, k),
{
    lemma_fundamental_div_mod(j, i);
    let q = j / i;
    assert(i * q == q * i) by (nonlinear_arith);
    lemma_fundamental_div_mod_converse(k, i, q, k - j);
}

/// A multiple of `i` plus `i` is a multiple of `i`.
proof fn lemma_next_multiple(i: int, j: int)
    requires
        i >= 1,
        j >= 0,
        divides(i, j),
    ensures
        divides(i, j + i),
{
    lemma_fundamental_div_mod(j, i);
    let q = j / i;
    assert(j + i == (q + 1) * i) by (nonlinear_arith)
        requires
            j == i * q,
    ;
    lemma_mod_multiples_basic(q + 1, i);
}

/// What a composite number divides, a smaller number above 1 divides as well.
proof fn lemma_composite_divides(i: int, k: int)
    requires
        i >= 2,
        k >= 1,
        !unsieved(i, i),
        divides(i, k),
    ensures
        !unsieved(k, i),
{
    let d = choose|d: int| 2 <= d < i && d < i && divides(d, i);
    lemma_divides_trans(d, i, k);
    lemma_cofactor(k, i);
}

/// Returns the prime numbers up to `n`, the smallest first, by the sieve of Eratosthenes.
pub fn get_prime(n: usize) -> (list: Vec<usize>)
    requires
        2 <= n < usize::MAX,
    ensures
        strictly_ascending(list@),
        forall|k: int| 0 <= k < list@.len() ==> 2 <= #[trigger] list@[k] <= n,
        forall|k: int| 0 <= k < list@.len() ==> is_prime_number(#[trigger] list@[k] as int),
        forall|p: int| 2 <= p <= n && is_prime_number(p) ==> exists|k: int|
            0 <= k < list@.len() && #[trigger] list@[k] == p,
{
    let mut is_prime: Vec<bool> = vec![true; n + 1];
    let mut list: Vec<usize> = Vec::with_capacity(n);
    is_prime.set(0, false);
    is_prime.set(1, false);
    let mut i: usize = 2;
    while i <= n
        invariant
            2 <= i <= n + 1,
            n < usize::MAX,
            is_prime@.len() == n + 1,
            forall|k: int| 0 <= k <= n ==> #[trigger] is_prime@[k] == unsieved(k, i as int),
            strictly_ascending(list@),
            forall|k: int| 0 <= k < list@.len() ==> 2 <= #[trigger] list@[k] < i,
            forall|k: int| 0 <= k < list@.len() ==> is_prime_number(#[trigger] list@[k] as int),
            forall|p: int| 2 <= p < i && is_prime_number(p) ==> exists|k: int|
                0 <= k < list@.len() && #[trigger] list@[k] == p,
        decreases n + 1 - i,
    {
        let ghost before = is_prime@;
        let ghost found = list@;
        if is_prime[i] {
            list.push(i);
            let mut j: usize = i;
            proof {
                lemma_mod_self_0(i as int);
            }
            while j <= n - i
                invariant
                    2 <= i <= j <= n,
                    divides(i as int, j as int),
                    is_prime@.len() == n + 1,
                    forall|k: int|
                        0 <= k <= n ==> #[trigger] is_prime@[k] == (before[k] && !(i < k <= j
                            && divides(i as int, k))),
                decreases n - j,
            {
                proof {
                    lemma_next_multiple(i as int, j as int);
                    assert forall|k: int| j < k < j + i implies !divides(i as int, k) by {
                        lemma_multiples_gap(i as int, j as int, k);
                    }
                }
                j += i;
                is_prime.set(j, false);
            }
            proof {
                assert(unsieved(i as int, i as int));
                assert forall|k: int| 0 <= k <= n implies #[trigger] is_prime@[k] == unsieved(
                    k,
                    i + 1,
                ) by {
                    if j < k && divides(i as int, k) {
                        if k < j + i {
                            lemma_multiples_gap(i as int, j as int, k);
                        }
                    }
                    assert(before[k] == unsieved(k, i as int));
                }
                assert forall|p: int| 2 <= p < i + 1 && is_prime_number(p) implies exists|k: int|
                    0 <= k < list@.len() && #[trigger] list@[k] == p by {
                    if p == i {
                        assert(list@[found.len() as int] == i);
                    } else {
                        let k = choose|k: int| 0 <= k < found.len() && #[trigger] found[k] == p;
                        assert(list@[k] == p);
                    }
                }
            }
        } else {
            proof {
                assert(!unsieved(i as int, i as int));
                assert forall|k: int| 0 <= k <= n implies #[trigger] is_prime@[k] == unsieved(
                    k,
                    i + 1,
                ) by {
                    if k >= 2 && divides(i as int, k) {
                        lemma_composite_divides(i as int, k);
                    }
                }
            }
        }
        i += 1;
    }
    list
}

/// Tells whether `x` is a prime number, by trial division up to its square root.
pub fn is_prime(x: usize) -> (r: bool)
    ensures
        r == is_prime_number(x as int),
{
    if x == 2 {
        return true;
    }
    if x < 2 {
        return false;
    }
    if x % 2 == 0 {
        assert(divides(2, x as int));
        return false;
    }
    let mut i: usize = 3;
    while i <= x / i
        invariant
            3 <= i <= x,
            x % 2 == 1,
            i % 2 == 1,
            no_divisor_below(x as int, i as int),
        decreases x - i,
    {
        if x % i == 0 {
            proof {
                let xi = x as int;
                let q = xi / (i as int);
                assert(divides(i as int, xi));
                lemma_fundamental_div_mod(xi, i as int);
                assert(i * q >= i * 3) by (nonlinear_arith)
                    requires
                        q >= 3,
                        i >= 0,
                ;
            }
            return false;
        }
        proof {
            let xi = x as int;
            let q = xi / (i as int);
            let r = xi % (i as int);
            lemma_fundamental_div_mod(xi, i as int);
            assert(i * q >= i * 3) by (nonlinear_arith)
                requires
                    q >= 3,
                    i >= 0,
            ;
            assert forall|d: int| 2 <= d < i + 2 implies !#[trigger] divides(d, xi) by {
                if d == i + 1 && divides(d, xi) {
                    assert(divides(2, d));
                    lemma_divides_trans(2, d, xi);
                }
            }
        }
        i = i + 2;
    }
    proof {
        let xi = x as int;
        let q = xi / (i as int);
        let r = xi % (i as int);
        lemma_fundamental_div_mod(xi, i as int);
        lemma_mod_bound(xi, i as int);
        assert(xi < i * i) by (nonlinear_arith)
            requires
                xi == i * q + r,
                r < i,
                q < i,
                i >= 3,
        ;
        lemma_no_divisor_up_to_root(xi, i as int);
    }
    true
}

/// The product of a list with one more number at its end.
pub proof fn lemma_product_push(list: Seq<usize>, x: usize)
    ensures
        product(list.push(x)) == product(list) * x,
{
    assert(list.push(x).drop_last() =~= list);
}

/// Where nothing below `d` divides `n` and `d` does, `d` is a prime number.
pub proof fn lemma_least_divisor_is_prime(n: int, d: int)
    requires
        n >= 1,
        d >= 2,
        divides(d, n),
        no_divisor_below(n, d),
    ensures
        is_prime_number(d),
{
    assert forall|c: int| 2 <= c < d implies !#[trigger] divides(c, d) by {
        if divides(c, d) {
            lemma_divides_trans(c, d, n);
        }
    }
}

/// What no number below `bound` divides has no cofactor that such a number divides.
proof fn lemma_cofactor_keeps_bound(n: int, p: int, bound: int)
    requires
        n >= 1,
        p >= 1,
        divides(p, n),
        no_divisor_below(n, bound),
    ensures
        no_divisor_below(n / p, bound),
{
    lemma_cofactor(n, p);
    assert forall|c: int| 2 <= c < bound implies !#[trigger] divides(c, n / p) by {
        if divides(c, n / p) {
            lemma_divides_trans(c, n / p, n);
        }
    }
}

/// Returns the prime factors of `n`, the smallest first, each as often as it divides `n`;
/// nothing for 1, and the number 0 alone for 0.
pub fn prime_factorize(n: usize) -> (list: Vec<usize>)
    ensures
        n >= 1 ==> is_factorization(list@, n as int),
        n == 0 ==> list@ == seq![0usize],
{
    let mut current = n;
    let mut list: Vec<usize> = Vec::new();
    if n == 0 {
        list.push(current);
        assert(list@ =~= seq![0usize]);
        return list;
    }
    let mut i: usize = 2;
    while i <= n / i
        invariant
            2 <= i,
            n >= 1,
            current >= 1,
            product(list@) * current == n,
            no_divisor_below(current as int, i as int),
            ascending(list@),
            forall|k: int| 0 <= k < list@.len() ==> is_prime_number(#[trigger] list@[k] as int),
            forall|k: int| 0 <= k < list@.len() ==> #[trigger] list@[k] <= i,
        ensures
            current != 1 ==> i > n / i,
        decreases n - i,
    {
        proof {
            lemma_fundamental_div_mod(n as int, i as int);
            let q = n as int / (i as int);
            assert(i * q >= i * 2) by (nonlinear_arith)
                requires
                    q >= 2,
                    i >= 0,
            ;
        }
        while current % i == 0
            invariant
                2 <= i < n,
                current >= 1,
                product(list@) * current == n,
                no_divisor_below(current as int, i as int),
                ascending(list@),
                forall|k: int|
                    0 <= k < list@.len() ==> is_prime_number(#[trigger] list@[k] as int),
                forall|k: int| 0 <= k < list@.len() ==> #[trigger] list@[k] <= i,
            decreases current,
        {
            proof {
                assert(divides(i as int, current as int));
                lemma_least_divisor_is_prime(current as int, i as int);
                lemma_cofactor(current as int, i as int);
                lemma_cofactor_keeps_bound(current as int, i as int, i as int);
                lemma_product_push(list@, i);
                let c = current as int / (i as int);
                let pl = product(list@);
                assert(pl * i * c == pl * (i * c)) by (nonlinear_arith);
                assert(c < current) by (nonlinear_arith)
                    requires
                        i * c == current,
                        i >= 2,
                        c >= 1,
                ;
            }
            list.push(i);
            current /= i;
        }
        proof {
            assert forall|d: int| 2 <= d < i + 1 implies !#[trigger] divides(
                d,
                current as int,
            ) by {}
        }
        if current == 1 {
            break ;
        }
        i += 1;
    }
    if current != 1 {
        proof {
            let ci = current as int;
            let q = n as int / (i as int);
            let r = n as int % (i as int);
            lemma_fundamental_div_mod(n as int, i as int);
            lemma_mod_bound(n as int, i as int);
            assert(n < i * i) by (nonlinear_arith)
                requires
                    n == i * q + r,
                    r < i,
                    q < i,
                    i >= 2,
            ;
            let pl = product(list@);
            assert(pl >= 1 && ci <= n) by (nonlinear_arith)
                requires
                    pl * ci == n,
                    ci >= 1,
                    n >= 1,
            ;
            lemma_no_divisor_up_to_root(ci, i as int);
            lemma_mod_self_0(ci);
            assert(divides(ci, ci));
            assert(ci >= i);
            lemma_product_push(list@, current);
        }
        list.push(current);
    }
    list
}

/// Whether `t` may stand in a table of least divisors for `k` once every number below
/// `bound` has been sieved: `k` itself where nothing from 2 up to `bound` divides it, and
/// else the least divisor of `k` above 1.
pub open spec fn sieved_entry(t: int, k: int, bound: int) -> bool {
    if t == k {
        k < 2 || unsieved(k, bound)
    } else {
        2 <= t < bound && t < k && divides(t, k) && no_divisor_below(k, t)
    }
}

/// Whether `table` holds, for every index from 2 on, the least divisor of the index above 1,
/// and for 0 and 1 the index itself.
pub open spec fn is_min_factor_table(table: Seq<usize>) -> bool {
    &&& forall|k: int| 0 <= k < table.len() && k < 2 ==> #[trigger] table[k] == k
    &&& forall|k: int|
        2 <= k < table.len() ==> 2 <= #[trigger] table[k] <= k && divides(table[k] as int, k)
            && no_divisor_below(k, table[k] as int)
}

/// Returns the prime factors of `m`, the smallest first, each as often as it divides `m`,
/// read off a table of least divisors; nothing for 0 and 1.
pub fn osa_k(m: usize, min_factor: &Vec<usize>) -> (primes: Vec<usize>)
    requires
        m >= 2 ==> m < min_factor@.len(),
        is_min_factor_table(min_factor@),
    ensures
        m >= 1 ==> is_factorization(primes@, m as int),
        m == 0 ==> primes@.len() == 0,
{
    let mut k = m;
    let mut primes: Vec<usize> = Vec::new();
    while k >= 2
        invariant
            k >= 2 ==> k < min_factor@.len(),
            is_min_factor_table(min_factor@),
            m >= 1 ==> k >= 1 && product(primes@) * k == m,
            k <= m,
            m == 0 ==> primes@.len() == 0,
            ascending(primes@),
            forall|j: int|
                0 <= j < primes@.len() ==> is_prime_number(#[trigger] primes@[j] as int),
            forall|j: int|
                0 <= j < primes@.len() ==> no_divisor_below(k as int, #[trigger] primes@[j] as int),
        decreases k,
    {
        let p = min_factor[k];
        proof {
            let ki = k as int;
            let pi = p as int;
            assert(2 <= min_factor@[ki] <= ki);
            lemma_least_divisor_is_prime(ki, pi);
            lemma_cofactor(ki, pi);
            lemma_product_push(primes@, p);
            let c = ki / pi;
            let pl = product(primes@);
            assert(pl * pi * c == pl * (pi * c)) by (nonlinear_arith);
            assert(c < ki) by (nonlinear_arith)
                requires
                    pi * c == ki,
                    pi >= 2,
                    c >= 1,
            ;
            assert forall|j: int| 0 <= j < primes@.len() implies #[trigger] primes@[j] <= p by {
                if primes@[j] > p {
                    assert(no_divisor_below(ki, primes@[j] as int));
                    assert(divides(pi, ki));
                }
            }
            lemma_cofactor_keeps_bound(ki, pi, pi);
            assert forall|j: int| 0 <= j < primes@.len() implies no_divisor_below(
                c,
                #[trigger] primes@[j] as int,
            ) by {
                lemma_cofactor_keeps_bound(ki, pi, primes@[j] as int);
            }
        }
        primes.push(p);
        k /= p;
    }
    primes
}

/// Returns, for every number from 0 up to `n`, its least divisor above 1; for 0 and 1 the
/// number itself. A number from 2 on is prime where the table holds the number itself.
pub fn pre_osa_k(n: usize) -> (min_factor: Vec<usize>)
    requires
        n < usize::MAX,
    ensures
        min_factor@.len() == n + 1,
        is_min_factor_table(min_factor@),
{
    let mut min_factor: Vec<usize> = Vec::new();
    let mut c: usize = 0;
    while c <= n
        invariant
            c <= n + 1,
            n < usize::MAX,
            min_factor@.len() == c,
            forall|k: int| 0 <= k < c ==> #[trigger] min_factor@[k] == k,
        decreases n + 1 - c,
    {
        min_factor.push(c);
        c += 1;
    }
    let mut i: usize = 2;
    while i <= n / i
        invariant
            2 <= i,
            min_factor@.len() == n + 1,
            forall|k: int| 0 <= k <= n ==> sieved_entry(#[trigger] min_factor@[k] as int, k, i as int),
        decreases n - i,
    {
        let ghost before = min_factor@;
        proof {
            lemma_fundamental_div_mod(n as int, i as int);
            let q = n as int / (i as int);
            assert(i * q >= i * 2) by (nonlinear_arith)
                requires
                    q >= 2,
                    i >= 0,
            ;
            assert(sieved_entry(before[i as int] as int, i as int, i as int));
        }
        if min_factor[i] == i {
            let mut j: usize = i;
            proof {
                lemma_mod_self_0(i as int);
            }
            while j <= n - i
                invariant
                    2 <= i <= j <= n,
                    divides(i as int, j as int),
                    min_factor@.len() == n + 1,
                    forall|k: int|
                        0 <= k <= n ==> #[trigger] min_factor@[k] == (if i < k <= j && divides(
                            i as int,
                            k,
                        ) && before[k] > i {
                            i
                        } else {
                            before[k]
                        }),
                decreases n - j,
            {
                proof {
                    lemma_next_multiple(i as int, j as int);
                    assert forall|k: int| j < k < j + i implies !divides(i as int, k) by {
                        lemma_multiples_gap(i as int, j as int, k);
                    }
                }
                j += i;
                if min_factor[j] > i {
                    min_factor.set(j, i);
                }
            }
            proof {
                assert forall|k: int| 0 <= k <= n implies sieved_entry(
                    #[trigger] min_factor@[k] as int,
                    k,
                    i + 1,
                ) by {
                    if j < k && divides(i as int, k) {
                        if k < j + i {
                            lemma_multiples_gap(i as int, j as int, k);
                        }
                    }
                    assert(sieved_entry(before[k] as int, k, i as int));
                }
            }
        } else {
            proof {
                assert(!unsieved(i as int, i as int));
                assert forall|k: int| 0 <= k <= n implies sieved_entry(
                    #[trigger] min_factor@[k] as int,
                    k,
                    i + 1,
                ) by {
                    if k >= 2 && divides(i as int, k) {
                        lemma_composite_divides(i as int, k);
                    }
                }
            }
        }
        i += 1;
    }
    proof {
        let q = n as int / (i as int);
        let r = n as int % (i as int);
        lemma_fundamental_div_mod(n as int, i as int);
        lemma_mod_bound(n as int, i as int);
        assert(n < i * i) by (nonlinear_arith)
            requires
                n == i * q + r,
                r < i,
                q < i,
                i >= 2,
        ;
        assert forall|k: int| 2 <= k < min_factor@.len() implies 2 <= #[trigger] min_factor@[k]
            <= k && divides(min_factor@[k] as int, k) && no_divisor_below(
            k,
            min_factor@[k] as int,
        ) by {
            assert(sieved_entry(min_factor@[k] as int, k, i as int));
            if min_factor@[k] == k {
                lemma_mod_self_0(k);
                if k >= i {
                    assert(no_divisor_below(k, i as int));
                    assert(k < i * i) by (nonlinear_arith)
                        requires
                            k <= n,
                            n < i * i,
                    ;
                    lemma_no_divisor_up_to_root(k, i as int);
                }
            }
        }
        assert forall|k: int| 0 <= k < min_factor@.len() && k < 2 implies #[trigger] min_factor@[k]
            == k by {
            assert(sieved_entry(min_factor@[k] as int, k, i as int));
        }
    }
    min_factor
}

/// Returns the divisors of `n`, the smallest first; nothing for 0.
pub fn divisors(n: usize) -> (list: Vec<usize>)
    ensures
        strictly_ascending(list@),
        forall|k: int| 0 <= k < list@.len() ==> 1 <= #[trigger] list@[k] <= n && divides(list@[k] as int, n as int),
        forall|d: int| 1 <= d <= n && divides(d, n as int) ==> exists|k: int|
            0 <= k < list@.len() && #[trigger] list@[k] == d,
{
    let mut list: Vec<usize> = Vec::new();
    let mut upper: Vec<usize> = Vec::new();
    let mut i: usize = 1;
    while i <= n / i
        invariant
            1 <= i <= n + 1,
            strictly_ascending(list@),
            forall|k: int| 0 <= k < list@.len() ==> 1 <= #[trigger] list@[k] < i && divides(list@[k] as int, n as int),
            forall|d: int| 1 <= d < i && divides(d, n as int) ==> exists|k: int|
                0 <= k < list@.len() && #[trigger] list@[k] == d,
            forall|k: int, l: int| 0 <= k < l < upper@.len() ==> upper@[k] > upper@[l],
            forall|k: int|
                0 <= k < upper@.len() ==> i <= #[trigger] upper@[k] <= n && divides(
                    upper@[k] as int,
                    n as int,
                ) && n as int / (upper@[k] as int) < i,
            forall|d: int|
                1 <= d < i && divides(d, n as int) && n as int / d != d ==> exists|k: int|
                    0 <= k < upper@.len() && #[trigger] upper@[k] == n as int / d,
        decreases n + 1 - i,
    {
        let ghost small = list@;
        let ghost large = upper@;
        let ghost ni = n as int;
        let ghost q = ni / (i as int);
        proof {
            lemma_fundamental_div_mod(ni, i as int);
            assert(i * q >= i * 1) by (nonlinear_arith)
                requires
                    q >= 1,
                    i >= 0,
            ;
            if i >= 2 {
                assert(i * q >= i * 2) by (nonlinear_arith)
                    requires
                        q >= 2,
                        i >= 0,
                ;
            }
            assert forall|k: int| 0 <= k < large.len() implies #[trigger] large[k] > q by {
                let e = large[k] as int;
                lemma_cofactor(ni, e);
                let c = ni / e;
                if e <= q {
                    assert(e * c < i * q) by (nonlinear_arith)
                        requires
                            1 <= c < i,
                            1 <= e <= q,
                    ;
                }
            }
        }
        if n % i == 0 {
            list.push(i);
            if n / i != i {
                upper.push(n / i);
            }
            proof {
                assert(divides(i as int, ni));
                lemma_cofactor(ni, i as int);
                assert forall|d: int| 1 <= d < i + 1 && divides(d, ni) implies exists|k: int|
                    0 <= k < list@.len() && #[trigger] list@[k] == d by {
                    if d == i {
                        assert(list@[small.len() as int] == d);
                    } else {
                        let k = choose|k: int| 0 <= k < small.len() && #[trigger] small[k] == d;
                        assert(list@[k] == d);
                    }
                }
                assert forall|d: int|
                    1 <= d < i + 1 && divides(d, ni) && ni / d != d implies exists|k: int|
                    0 <= k < upper@.len() && #[trigger] upper@[k] == ni / d by {
                    if d == i {
                        assert(upper@[large.len() as int] == ni / d);
                    } else {
                        let k = choose|k: int|
                            0 <= k < large.len() && #[trigger] large[k] == ni / d;
                        assert(upper@[k] == ni / d);
                    }
                }
            }
        }
        proof {
            assert forall|k: int| 0 <= k < upper@.len() implies i + 1 <= #[trigger] upper@[k] by {
                if k < large.len() {
                    assert(large[k] > q);
                }
            }
        }
        i += 1;
    }
    proof {
        let ni = n as int;
        let q = ni / (i as int);
        let r = ni % (i as int);
        lemma_fundamental_div_mod(ni, i as int);
        lemma_mod_bound(ni, i as int);
        assert(ni < i * i) by (nonlinear_arith)
            requires
                ni == i * q + r,
                r < i,
                q < i,
                i >= 1,
        ;
        assert forall|d: int| i <= d <= n && divides(d, ni) implies exists|k: int|
            0 <= k < upper@.len() && #[trigger] upper@[k] == d by {
            lemma_cofactor(ni, d);
            let c = ni / d;
            if c >= i {
                assert(c * d >= i * i) by (nonlinear_arith)
                    requires
                        c >= i,
                        d >= i,
                        i >= 1,
                ;
            }
            assert(divides(c, ni));
            assert(ni / c == d);
            let k = choose|k: int| 0 <= k < upper@.len() && #[trigger] upper@[k] == ni / c;
            assert(upper@[k] == d);
        }
    }
    let ghost small = list@;
    let mut k: usize = upper.len();
    while k > 0
        invariant
            k <= upper@.len(),
            list@.len() == small.len() + (upper@.len() - k),
            forall|a: int| 0 <= a < small.len() ==> list@[a] == small[a],
            forall|a: int|
                small.len() <= a < list@.len() ==> list@[a] == upper@[upper@.len() - 1 - (a
                    - small.len())],
        decreases k,
    {
        k -= 1;
        list.push(upper[k]);
    }
    proof {
        assert forall|a: int, b: int| 0 <= a < b < list@.len() implies list@[a] < list@[b] by {
            if b < small.len() {
                assert(small[a] < small[b]);
            } else if a < small.len() {
                let e = upper@[upper@.len() - 1 - (b - small.len())];
                assert(1 <= small[a] < i);
                assert(i <= e);
            } else {
                let ia = upper@.len() - 1 - (a - small.len());
                let ib = upper@.len() - 1 - (b - small.len());
                assert(0 <= ib < ia < upper@.len());
                assert(upper@[ib] > upper@[ia]);
            }
        }
        assert forall|a: int| 0 <= a < list@.len() implies 1 <= #[trigger] list@[a] <= n
            && divides(list@[a] as int, n as int) by {
            if a < small.len() {
                assert(1 <= small[a] < i);
            } else {
                let e = upper@[upper@.len() - 1 - (a - small.len())];
                assert(i <= e <= n);
            }
        }
        assert forall|d: int| 1 <= d <= n && divides(d, n as int) implies exists|a: int|
            0 <= a < list@.len() && #[trigger] list@[a] == d by {
            if d < i {
                let a = choose|a: int| 0 <= a < small.len() && #[trigger] small[a] == d;
                assert(list@[a] == d);
            } else {
                let c = choose|c: int| 0 <= c < upper@.len() && #[trigger] upper@[c] == d;
                let a = small.len() + (upper@.len() - 1 - c);
                assert(list@[a] == upper@[c]);
            }
        }
    }
    list
}

} // verus!
