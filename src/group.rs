//! Prime factorisation, primitive roots and discrete logarithm tables
//! over the multiplicative group of a prime field.

use vstd::prelude::*;
use vstd::arithmetic::power::pow;
use vstd::arithmetic::div_mod::{lemma_fundamental_div_mod, lemma_mod_multiples_vanish};

verus! {

/// `n` is a prime number.
pub open spec fn is_prime(n: int) -> bool {
    n >= 2 && forall|d: int| 2 <= d < n ==> #[trigger] (n % d) != 0
}

/// Moduli for which `mod_exp` on `u32` values neither overflows nor panics.
pub open spec fn mod_exp_ok(m: int) -> bool {
    2 <= m <= u32::MAX && (m - 1) < (u32::MAX as int) / (m - 1)
}

/// Relies on mod_exp::mod_exp: right-to-left binary exponentiation, which
/// returns `base^exponent mod modulus` and asserts that the squares of
/// residues fit in the integer type.
#[verifier::external_body]
fn mod_pow(base: u32, exponent: u32, modulus: u32) -> (r: u32)
    requires
        mod_exp_ok(modulus as int),
    ensures
        r as int == pow(base as int, exponent as nat) % (modulus as int),
{
    mod_exp::mod_exp(base, exponent, modulus)
}

/// `h` passes the generator test in `Z_(q+1)^*` against every entry of `primes`.
pub open spec fn passes_gen_test(q: int, primes: Seq<u32>, h: int) -> bool {
    forall|i: int| 0 <= i < primes.len() ==> #[trigger] pow(h, (q / primes[i] as int) as nat) % (q + 1) != 1
}

/// Tests whether `h` generates `Z_(q+1)^*`, given the distinct prime factors
/// of the group order `q` (Algorithm B.18 in Katz & Lindell).
pub fn test_gen(q: u32, prime_list: &Vec<u32>, h: u32) -> (r: bool)
    requires
        q < u32::MAX,
        mod_exp_ok(q + 1),
        forall|i: int| 0 <= i < prime_list@.len() ==> #[trigger] prime_list@[i] > 0,
    ensures
        r == passes_gen_test(q as int, prime_list@, h as int),
{
    let mut i: usize = 0;
    while i < prime_list.len()
        invariant
            0 <= i <= prime_list@.len(),
            q < u32::MAX,
            mod_exp_ok(q + 1),
            forall|k: int| 0 <= k < prime_list@.len() ==> #[trigger] prime_list@[k] > 0,
            forall|k: int| 0 <= k < i ==> #[trigger] pow(h as int, (q as int / prime_list@[k] as int) as nat) % (q + 1) != 1,
        decreases prime_list@.len() - i,
    {
        let exp = q / prime_list[i];
        let prod = mod_pow(h, exp, q + 1);
        if prod == 1 {
            assert(pow(h as int, (q as int / prime_list@[i as int] as int) as nat) % (q + 1) == 1);
            return false;
        }
        i += 1;
    }
    true
}

/// `list` is strictly increasing.
pub open spec fn strictly_increasing(list: Seq<u32>) -> bool {
    forall|i: int, j: int| 0 <= i < j < list.len() ==> list[i] < list[j]
}

/// `list` holds exactly the distinct prime factors of `order`, in increasing order.
pub open spec fn is_prime_factor_list(order: int, list: Seq<u32>) -> bool {
    &&& strictly_increasing(list)
    &&& forall|i: int| 0 <= i < list.len() ==> is_prime(#[trigger] list[i] as int) && order % (list[i] as int) == 0
    &&& forall|q: int| #[trigger] is_prime(q) && order % q == 0 ==> list.contains(q as u32)
}

proof fn lemma_dvd_trans(a: int, b: int, c: int)
    requires
        a >= 0,
        b > 0,
        c > 0,
        a % b == 0,
        b % c == 0,
    ensures
        a % c == 0,
{
    lemma_fundamental_div_mod(a, b);
    lemma_fundamental_div_mod(b, c);
    let x = a / b;
    let y = b / c;
    assert(a == c * (y * x) + 0) by (nonlinear_arith)
        requires
            a == b * x + 0,
            b == c * y + 0,
    ;
    lemma_mod_multiples_vanish(y * x, 0, c);
}

/// No multiple `a * c` with `0 < c < q` is divisible by the prime `q` unless `a` is.
proof fn lemma_no_small_multiple(q: int, a: int, c: int)
    requires
        is_prime(q),
        a % q != 0,
        1 <= c < q,
    ensures
        (a * c) % q != 0,
    decreases c,
{
    if c == 1 {
        assert(a * c == a);
    } else if (a * c) % q == 0 {
        lemma_fundamental_div_mod(q, c);
        lemma_fundamental_div_mod(a * c, q);
        let t = q / c;
        let r = q % c;
        let k = (a * c) / q;
        assert(r != 0) by {
            assert(q % c != 0);
        }
        assert(a * r == q * (a - k * t) + 0) by (nonlinear_arith)
            requires
                q == c * t + r,
                a * c == q * k + 0,
        ;
        lemma_mod_multiples_vanish(a - k * t, 0, q);
        assert(0 < r < c) by {
            assert(0 <= q % c < c) by (nonlinear_arith)
                requires
                    c > 0,
            ;
        }
        lemma_no_small_multiple(q, a, r);
    }
}

/// Euclid's lemma: a prime dividing a product divides one of its factors.
proof fn lemma_euclid(q: int, a: int, b: int)
    requires
        is_prime(q),
        (a * b) % q == 0,
        a % q != 0,
    ensures
        b % q == 0,
{
    lemma_fundamental_div_mod(b, q);
    let k = b / q;
    let b0 = b % q;
    assert(a * b == q * (a * k) + a * b0) by (nonlinear_arith)
        requires
            b == q * k + b0,
    ;
    lemma_mod_multiples_vanish(a * k, a * b0, q);
    if b0 != 0 {
        assert(0 < b0 < q) by (nonlinear_arith)
            requires
                q > 0,
                b0 == b % q,
                b0 != 0,
        ;
        lemma_no_small_multiple(q, a, b0);
    }
}

/// Every prime factor of `order` below `p` is in `list`; every one from `p`
/// on still divides the unfactored part `rest`.
spec fn factoring_state(order: int, rest: int, p: int, list: Seq<u32>) -> bool {
    forall|q: int| #[trigger] is_prime(q) && order % q == 0 ==>
        (q < p ==> list.contains(q as u32)) && (q >= p ==> rest % q == 0)
}

/// A number without divisors in `2..p` that `p` divides is prime.
proof fn lemma_least_divisor_prime(rest: int, p: int)
    requires
        2 <= p,
        rest >= 1,
        rest % p == 0,
        forall|d: int| 2 <= d < p ==> #[trigger] (rest % d) != 0,
    ensures
        is_prime(p),
{
    assert forall|d: int| 2 <= d < p implies #[trigger] (p % d) != 0 by {
        if p % d == 0 {
            lemma_dvd_trans(rest, p, d);
        }
    }
}

/// Finds the distinct prime factors of `order`, in increasing order, by trial
/// division up to the square root of what is left to factor.
pub fn prime_factors(order: u32) -> (r: Vec<u32>)
    ensures
        order >= 1 ==> is_prime_factor_list(order as int, r@),
        order == 0 ==> r@.len() == 0,
{
    let mut list: Vec<u32> = Vec::new();
    if order == 0 {
        return list;
    }
    let mut rest: u32 = order;
    let mut p: u32 = 2;
    while p <= rest / p
        invariant
            2 <= p <= order as int + 1,
            1 <= rest <= order,
            order % rest == 0,
            forall|d: int| 2 <= d < p ==> #[trigger] ((rest as int) % d) != 0,
            strictly_increasing(list@),
            forall|i: int| 0 <= i < list@.len() ==> #[trigger] list@[i] < p,
            forall|i: int| 0 <= i < list@.len() ==> is_prime(#[trigger] list@[i] as int) && (order as int) % (list@[i] as int) == 0,
            factoring_state(order as int, rest as int, p as int, list@),
        decreases order + 1 - p,
    {
        assert(p < rest) by (nonlinear_arith)
            requires
                2 <= p,
                p <= rest / p,
        ;
        if rest % p == 0 {
            proof {
                lemma_least_divisor_prime(rest as int, p as int);
                lemma_dvd_trans(order as int, rest as int, p as int);
            }
            let ghost old_list = list@;
            list.push(p);
            let ghost before: int = rest as int;
            while rest % p == 0
                invariant
                    2 <= p,
                    1 <= rest <= before,
                    before % (rest as int) == 0,
                    is_prime(p as int),
                    forall|q: int| #[trigger] is_prime(q) && q != p && before % q == 0 ==> (rest as int) % q == 0,
                decreases rest,
            {
                proof {
                    lemma_fundamental_div_mod(rest as int, p as int);
                }
                let next = rest / p;
                assert(next >= 1 && next < rest) by (nonlinear_arith)
                    requires
                        rest as int == p * next + 0,
                        rest >= 1,
                        p >= 2,
                ;
                assert forall|q: int| #[trigger] is_prime(q) && q != p && before % q == 0 implies (next as int) % q == 0 by {
                    assert((p as int) % q != 0) by {
                        if q < p {
                        } else {
                            assert((p as int) % q == p) by (nonlinear_arith)
                                requires
                                    q > p,
                                    p >= 0,
                            ;
                        }
                    }
                    assert((p as int) * (next as int) == rest as int);
                    lemma_euclid(q, p as int, next as int);
                }
                assert(rest as int == next * p + 0) by (nonlinear_arith)
                    requires
                        rest as int == p * next + 0,
                ;
                proof {
                    lemma_mod_multiples_vanish(p as int, 0, next as int);
                    lemma_dvd_trans(before, rest as int, next as int);
                }
                rest = next;
            }
            proof {
                lemma_dvd_trans(order as int, before, rest as int);
                assert forall|d: int| 2 <= d < p + 1 implies #[trigger] ((rest as int) % d) != 0 by {
                    if d < p && (rest as int) % d == 0 {
                        lemma_dvd_trans(before, rest as int, d);
                    }
                }
                assert forall|q: int| #[trigger] is_prime(q) && (order as int) % q == 0 implies
                    (q < p + 1 ==> list@.contains(q as u32)) && (q >= p + 1 ==> (rest as int) % q == 0) by {
                    if q < p {
                        assert(old_list.contains(q as u32));
                        let j = choose|j: int| 0 <= j < old_list.len() && old_list[j] == q as u32;
                        assert(list@[j] == q as u32);
                    }
                    if q == p {
                        assert(list@[list@.len() - 1] == p);
                    }
                }
            }
        }
        p += 1;
    }
    if rest > 1 {
        proof {
            lemma_leftover_prime(rest as int, p as int);
        }
        let ghost old_list = list@;
        list.push(rest);
        proof {
            assert forall|q: int| #[trigger] is_prime(q) && (order as int) % q == 0 implies list@.contains(q as u32) by {
                if q < p {
                    assert(old_list.contains(q as u32));
                    let j = choose|j: int| 0 <= j < old_list.len() && old_list[j] == q as u32;
                    assert(list@[j] == q as u32);
                } else {
                    assert((rest as int) % q == 0);
                    if q != rest {
                        assert(q <= rest) by {
                            if q > rest {
                                assert((rest as int) % q == rest) by (nonlinear_arith)
                                    requires
                                        q > rest,
                                        rest >= 0,
                                ;
                            }
                        }
                    }
                    assert(list@[list@.len() - 1] == rest);
                }
            }
        }
    } else {
        proof {
            assert forall|q: int| #[trigger] is_prime(q) && (order as int) % q == 0 implies list@.contains(q as u32) by {
                if q >= p {
                    assert(1int % q == 1) by (nonlinear_arith)
                        requires
                            q >= 2,
                    ;
                }
            }
        }
    }
    list
}

/// What is left after trial division by every number below `p`, when it is
/// less than `p * p` and above 1, is a prime not below `p`.
proof fn lemma_leftover_prime(rest: int, p: int)
    requires
        2 <= p,
        rest >= 2,
        forall|d: int| 2 <= d < p ==> #[trigger] (rest % d) != 0,
        p > rest / p,
    ensures
        is_prime(rest),
        rest >= p,
{
    assert(rest % rest == 0);
    assert(rest < p * p) by (nonlinear_arith)
        requires
            p > rest / p,
            p >= 2,
            rest >= 0,
    ;
    assert forall|d: int| 2 <= d < rest implies #[trigger] (rest % d) != 0 by {
        if d >= p && rest % d == 0 {
            lemma_fundamental_div_mod(rest, d);
            let e = rest / d;
            assert(2 <= e < p) by (nonlinear_arith)
                requires
                    rest == d * e + 0,
                    d >= p,
                    d < rest,
                    rest < p * p,
                    p >= 2,
            ;
            assert(rest == e * d + 0) by (nonlinear_arith)
                requires
                    rest == d * e + 0,
            ;
            lemma_mod_multiples_vanish(d, 0, e);
        }
    }
}

/// `h` passes the generator criterion in `Z_p^*`: for every prime `q`
/// dividing the group order `p - 1`, `h^((p - 1) / q) != 1 (mod p)`.
pub open spec fn is_generator(p: int, h: int) -> bool {
    forall|q: int| #[trigger] is_prime(q) && (p - 1) % q == 0 ==> pow(h, ((p - 1) / q) as nat) % p != 1
}

/// The candidates `1..n` that pass the generator criterion in `Z_p^*`, in increasing order.
pub open spec fn generators_below(p: int, n: int) -> Seq<u32>
    decreases n,
{
    if n <= 1 {
        Seq::empty()
    } else if is_generator(p, n - 1) {
        generators_below(p, n - 1).push((n - 1) as u32)
    } else {
        generators_below(p, n - 1)
    }
}

/// The test against the distinct prime factors of the order is the generator criterion.
proof fn lemma_gen_test_matches(q: int, primes: Seq<u32>, h: int)
    requires
        1 <= q <= u32::MAX,
        is_prime_factor_list(q, primes),
    ensures
        passes_gen_test(q, primes, h) == is_generator(q + 1, h),
{
    if passes_gen_test(q, primes, h) {
        assert forall|r: int| #[trigger] is_prime(r) && q % r == 0 implies pow(h, (q / r) as nat) % (q + 1) != 1 by {
            assert(r <= q) by {
                if r > q {
                    assert(q % r == q) by (nonlinear_arith)
                        requires
                            r > q,
                            q >= 0,
                    ;
                }
            }
            assert(primes.contains(r as u32));
            let i = choose|i: int| 0 <= i < primes.len() && primes[i] == r as u32;
            assert(pow(h, (q / primes[i] as int) as nat) % (q + 1) != 1);
        }
    }
    if is_generator(q + 1, h) {
        assert forall|i: int| 0 <= i < primes.len() implies #[trigger] pow(h, (q / primes[i] as int) as nat) % (q + 1) != 1 by {
            assert(is_prime(primes[i] as int));
        }
    }
}

/// Lists, in increasing order, the candidates `1..p-1` that generate `Z_p^*`
/// by the criterion of `test_gen`.
pub fn find_gen(p: u32) -> (r: Vec<u32>)
    requires
        mod_exp_ok(p as int),
    ensures
        r@ == generators_below(p as int, p - 1),
{
    let order = p - 1;
    let mut gen_list: Vec<u32> = Vec::new();
    let prime_list = prime_factors(order);
    let mut i: u32 = 1;
    while i < order
        invariant
            1 <= i,
            i <= order || order == 0,
            order == p - 1,
            mod_exp_ok(p as int),
            order >= 1 ==> is_prime_factor_list(order as int, prime_list@),
            gen_list@ == generators_below(p as int, i as int),
        decreases order - i,
    {
        proof {
            assert forall|k: int| 0 <= k < prime_list@.len() implies #[trigger] prime_list@[k] > 0 by {
                assert(is_prime(prime_list@[k] as int));
            }
            lemma_gen_test_matches(order as int, prime_list@, i as int);
        }
        if test_gen(order, &prime_list, i) {
            gen_list.push(i);
        }
        i += 1;
    }
    gen_list
}

/// Tabulates `g^0, g^1, ..., g^(p-2)` modulo `p`, where `g` is the first
/// generator that `find_gen` returns: the entry at `j` is the element whose
/// discrete logarithm is `j`.
pub fn gen_log_table(p: u32) -> (r: Vec<u32>)
    requires
        mod_exp_ok(p as int),
        generators_below(p as int, p - 1).len() > 0,
    ensures
        r@.len() == p - 1,
        forall|j: int| 0 <= j < p - 1 ==> #[trigger] r@[j] as int
            == pow(generators_below(p as int, p - 1)[0] as int, j as nat) % (p as int),
{
    let gen_list = find_gen(p);
    let g = gen_list[0];
    let mut log_table: Vec<u32> = Vec::new();
    let mut j: u32 = 0;
    while j < p - 1
        invariant
            j <= p - 1,
            mod_exp_ok(p as int),
            g == generators_below(p as int, p - 1)[0],
            log_table@.len() == j,
            forall|k: int| 0 <= k < j ==> #[trigger] log_table@[k] as int == pow(g as int, k as nat) % (p as int),
        decreases p - 1 - j,
    {
        let x = mod_pow(g, j, p);
        log_table.push(x);
        j += 1;
    }
    log_table
}

/// Whether `n` is prime, read off its distinct prime factors.
pub fn is_prime_u32(n: u32) -> (r: bool)
    ensures
        r == is_prime(n as int),
{
    if n < 2 {
        return false;
    }
    let factors = prime_factors(n);
    proof {
        if is_prime(n as int) {
            assert((n as int) % (n as int) == 0);
            assert(factors@.contains(n));
            assert forall|i: int| 0 <= i < factors@.len() implies #[trigger] factors@[i] == n by {
                let f = factors@[i] as int;
                assert(is_prime(f));
                if f < n {
                    assert((n as int) % f != 0);
                }
                if f > n {
                    assert((n as int) % f == n) by (nonlinear_arith)
                        requires
                            f > n,
                            n >= 0,
                    ;
                }
            }
            if factors@.len() > 1 {
                assert(factors@[0] < factors@[1]);
            }
        }
    }
    factors.len() == 1 && factors[0] == n
}

} // verus!
