use crate::divisibility::{
    divides, is_prime, lemma_divides_cancel, lemma_divides_quotient, lemma_divides_transitive,
    lemma_divisor_bound, lemma_multiple_divides, lemma_prime_divides_product,
    lemma_prime_not_dividing_square,
};
use crate::divisor_sum::{
    divisor_square_sum, geometric_sum, is_divisor_of, lemma_divisor_sum_as_selection,
    lemma_prime_power_term, sigma2, sigma2_product,
};
use crate::factorization::{
    group_product, group_runs, is_prime_power_list, lemma_groups_of_prime_factors,
    prime_factors_of,
};
use crate::sums::{lemma_sum_extend, lemma_sum_scaled, lemma_sum_split};
use vstd::arithmetic::power::{
    lemma_pow0, lemma_pow1, lemma_pow_adds, lemma_pow_multiplies, lemma_pow_positive,
    lemma_square_is_pow2, pow,
};
use vstd::prelude::*;

verus! {

/// `p` to the power `e`, as a natural number.
pub open spec fn prime_power(p: nat, e: nat) -> nat {
    pow(p as int, e) as nat
}

/// Powers of a positive base are positive, start at 1 and grow by the base.
pub proof fn lemma_prime_power(p: nat, e: nat)
    requires
        p >= 1,
    ensures
        prime_power(p, e) >= 1,
        prime_power(p, e) == pow(p as int, e),
        prime_power(p, 0) == 1,
        prime_power(p, e + 1) == prime_power(p, e) * p,
        prime_power(p, e + 1) == p * prime_power(p, e),
{
    lemma_pow_positive(p as int, e);
    lemma_pow_positive(p as int, e + 1);
    lemma_pow0(p as int);
    lemma_pow1(p as int);
    lemma_pow_adds(p as int, e, 1);
    assert(pow(p as int, e) * p == p * pow(p as int, e)) by (nonlinear_arith);
}

/// Selects the divisors of `big` that do not divide `small`.
pub open spec fn is_divisor_of_only(big: nat, small: nat) -> spec_fn(nat) -> bool {
    |d: nat| divides(d, big) && !divides(d, small)
}

/// With `p` prime and not a divisor of `r`: what divides `p^(e+1)·r` and not
/// `p^e·r` is a multiple of `p^(e+1)`.
pub proof fn lemma_new_divisors_hold_the_power(p: nat, e: nat, r: nat, d: nat)
    requires
        is_prime(p),
        r >= 1,
        !divides(p, r),
        divides(d, prime_power(p, e + 1) * r),
        !divides(d, prime_power(p, e) * r),
    ensures
        divides(prime_power(p, e + 1), d),
    decreases e,
{
    lemma_prime_power(p, e);
    let n = prime_power(p, e) * r;
    let big = prime_power(p, e + 1) * r;
    assert(big == p * n) by (nonlinear_arith)
        requires
            big == prime_power(p, e + 1) * r,
            prime_power(p, e + 1) == p * prime_power(p, e),
            n == prime_power(p, e) * r,
    ;
    assert(n >= 1) by (nonlinear_arith)
        requires
            n == prime_power(p, e) * r,
            prime_power(p, e) >= 1,
            r >= 1,
    ;
    lemma_divides_quotient(d, big);
    let k = big / d;
    lemma_multiple_divides(p, n);
    lemma_prime_divides_product(p, d, k);
    if divides(p, k) {
        lemma_divides_quotient(p, k);
        let j = k / p;
        assert(n == d * j) by (nonlinear_arith)
            requires
                p * n == d * k,
                k == p * j,
                p >= 1,
        ;
        lemma_multiple_divides(d, j);
        assert(false);
    }
    lemma_divides_quotient(p, d);
    let rest = d / p;
    assert(rest >= 1) by (nonlinear_arith)
        requires
            d == p * rest,
            d >= 1,
            rest >= 0,
    ;
    if e == 0 {
        lemma_pow1(p as int);
    } else {
        let prev = (e - 1) as nat;
        lemma_prime_power(p, prev);
        let m = prime_power(p, prev) * r;
        assert(n == p * m) by (nonlinear_arith)
            requires
                n == prime_power(p, e) * r,
                prime_power(p, e) == p * prime_power(p, prev),
                m == prime_power(p, prev) * r,
        ;
        lemma_divides_cancel(p, rest, n);
        lemma_divides_cancel(p, rest, m);
        lemma_new_divisors_hold_the_power(p, prev, r, rest);
        lemma_divides_cancel(p, prime_power(p, e), rest);
    }
}

/// With `p` prime and not a divisor of `r`: the divisors of `p^(e+1)·r` are
/// those of `p^e·r` and, besides, `p^(e+1)` times each divisor of `r`.
pub proof fn lemma_divisor_sum_next_power(p: nat, e: nat, r: nat)
    requires
        is_prime(p),
        r >= 1,
        !divides(p, r),
    ensures
        divisor_square_sum(prime_power(p, e + 1) * r) == divisor_square_sum(prime_power(p, e) * r)
            + prime_power(p, e + 1) * prime_power(p, e + 1) * divisor_square_sum(r),
{
    lemma_prime_power(p, e);
    lemma_prime_power(p, e + 1);
    let low = prime_power(p, e);
    let q = prime_power(p, e + 1);
    let n = low * r;
    let big = q * r;
    assert(big == p * n) by (nonlinear_arith)
        requires
            big == q * r,
            q == p * low,
            n == low * r,
    ;
    assert(n >= 1 && big >= n) by (nonlinear_arith)
        requires
            n == low * r,
            big == p * n,
            low >= 1,
            r >= 1,
            p >= 2,
    ;
    lemma_multiple_divides(n, p);
    assert(n * p == p * n) by (nonlinear_arith);
    let all = is_divisor_of(big);
    let old = is_divisor_of(n);
    let fresh = is_divisor_of_only(big, n);
    let base = is_divisor_of(r);
    assert forall|d: nat| 1 <= d <= big implies (#[trigger] all(d) <==> old(d) || fresh(d)) by {
        if divides(d, n) {
            lemma_divides_transitive(d, n, big);
        }
    }
    assert forall|d: nat| 1 <= d <= big implies !(#[trigger] old(d) && fresh(d)) by {}
    lemma_sum_split(all, old, fresh, big);
    assert forall|d: nat| n < d <= big implies !#[trigger] old(d) by {
        if divides(d, n) {
            lemma_divisor_bound(d, n);
        }
    }
    lemma_sum_extend(old, n, big);
    assert forall|d: nat| 1 <= d <= q * r && #[trigger] fresh(d) implies d % q == 0 by {
        lemma_new_divisors_hold_the_power(p, e, r, d);
    }
    assert forall|d: nat| 1 <= d <= r implies (#[trigger] base(d) <==> fresh(q * d)) by {
        lemma_divides_cancel(q, d, r);
        assert(q * d == low * (p * d)) by (nonlinear_arith)
            requires
                q == p * low,
        ;
        assert(p * d >= 1) by (nonlinear_arith)
            requires
                p >= 2,
                d >= 1,
        ;
        lemma_divides_cancel(low, p * d, r);
        if divides(p * d, r) {
            lemma_multiple_divides(p, d);
            lemma_divides_transitive(p, p * d, r);
        }
    }
    lemma_sum_scaled(fresh, base, q, r);
    lemma_divisor_sum_as_selection(big, big);
    lemma_divisor_sum_as_selection(n, n);
    lemma_divisor_sum_as_selection(r, r);
}

/// With `p` prime and not a divisor of `r`: the divisor-square-sum of
/// `p^e·r` is that of `r` times 1 + p² + p⁴ + … + p^(2e).
pub proof fn lemma_divisor_sum_prime_power(p: nat, e: nat, r: nat)
    requires
        is_prime(p),
        r >= 1,
        !divides(p, r),
    ensures
        divisor_square_sum(prime_power(p, e) * r) == geometric_sum(p * p, e) * divisor_square_sum(
            r,
        ),
    decreases e,
{
    lemma_prime_power(p, e);
    let s = divisor_square_sum(r);
    if e == 0 {
        assert(1 * r == r && 1 * s == s) by (nonlinear_arith);
    } else {
        let prev = (e - 1) as nat;
        lemma_divisor_sum_prime_power(p, prev, r);
        lemma_divisor_sum_next_power(p, prev, r);
        let q = prime_power(p, e);
        // q² is the e-th power of p².
        lemma_pow_multiplies(p as int, 2, e);
        lemma_pow_multiplies(p as int, e, 2);
        lemma_square_is_pow2(p as int);
        lemma_square_is_pow2(pow(p as int, e));
        assert(2 * e == e * 2) by (nonlinear_arith);
        assert((p * p) as int == pow(p as int, 2));
        assert(pow(pow(p as int, 2), e) == pow(p as int, 2 * e));
        assert(pow(pow(p as int, e), 2) == pow(p as int, e * 2));
        assert(pow((p * p) as int, e) == q * q);
        let g = geometric_sum(p * p, prev);
        assert(g * s + q * q * s == (g + q * q) * s) by (nonlinear_arith);
    }
}

/// A prime divides no power of another prime.
pub proof fn lemma_prime_not_dividing_power(p: nat, q: nat, e: nat)
    requires
        is_prime(p),
        is_prime(q),
        p != q,
    ensures
        !divides(p, prime_power(q, e)),
    decreases e,
{
    lemma_prime_power(q, e);
    if divides(p, prime_power(q, e)) {
        if e == 0 {
            lemma_divisor_bound(p, 1);
        } else {
            let prev = (e - 1) as nat;
            lemma_prime_power(q, prev);
            lemma_prime_divides_product(p, q, prime_power(q, prev));
            if divides(p, q) {
                lemma_divisor_bound(p, q);
            } else {
                lemma_prime_not_dividing_power(p, q, prev);
            }
        }
    }
}

/// The product of powers of primes is at least 1, and a prime that is not
/// among them does not divide it.
pub proof fn lemma_prime_not_dividing_product(p: nat, groups: Seq<(nat, nat)>)
    requires
        is_prime(p),
        forall|i: int| 0 <= i < groups.len() ==> is_prime(#[trigger] groups[i].0) && groups[i].0 != p,
    ensures
        group_product(groups) >= 1,
        !divides(p, group_product(groups)),
    decreases groups.len(),
{
    if groups.len() == 0 {
        if divides(p, 1) {
            lemma_divisor_bound(p, 1);
        }
    } else {
        let rest = groups.drop_last();
        let (q, e) = groups.last();
        assert(is_prime(groups[groups.len() - 1].0));
        assert forall|i: int| 0 <= i < rest.len() implies is_prime(#[trigger] rest[i].0)
            && rest[i].0 != p by {
            assert(rest[i] == groups[i]);
        }
        lemma_prime_not_dividing_product(p, rest);
        lemma_prime_power(q, e);
        lemma_prime_not_dividing_power(p, q, e);
        let a = group_product(rest);
        let b = prime_power(q, e);
        assert(a * b >= 1) by (nonlinear_arith)
            requires
                a >= 1,
                b >= 1,
        ;
        if divides(p, a * b) {
            lemma_prime_divides_product(p, a, b);
        }
    }
}

/// The product formula: for powers of distinct primes, the product of the
/// closed forms is σ₂ of the product of the powers.
pub proof fn lemma_sigma2_product_formula(groups: Seq<(nat, nat)>)
    requires
        is_prime_power_list(groups),
    ensures
        sigma2_product(groups) == sigma2(group_product(groups)),
    decreases groups.len(),
{
    if groups.len() == 0 {
        assert(1nat * 1nat == 1) by (nonlinear_arith);
        assert(divisor_square_sum(1) == 1) by {
            reveal_with_fuel(crate::divisor_sum::divisor_square_sum_upto, 2);
        }
    } else {
        let rest = groups.drop_last();
        let (p, a) = groups.last();
        assert(is_prime(groups[groups.len() - 1].0));
        assert forall|i: int| 0 <= i < rest.len() implies is_prime(#[trigger] rest[i].0)
            && rest[i].0 != p && rest[i].1 >= 1 by {
            assert(rest[i] == groups[i]);
        }
        assert(is_prime_power_list(rest)) by {
            assert forall|i: int, j: int| 0 <= i < j < rest.len() implies rest[i].0 < rest[j].0 by {
                assert(rest[i] == groups[i] && rest[j] == groups[j]);
            }
        }
        lemma_sigma2_product_formula(rest);
        lemma_prime_not_dividing_product(p, rest);
        let m = group_product(rest);
        let r = m * m;
        lemma_prime_not_dividing_square(p, m);
        assert(r >= 1) by (nonlinear_arith)
            requires
                r == m * m,
                m >= 1,
        ;
        lemma_divisor_sum_prime_power(p, 2 * a, r);
        lemma_prime_power_term(p, a);
        // (m · p^a)² = p^(2a) · m².
        lemma_prime_power(p, a);
        lemma_prime_power(p, 2 * a);
        lemma_pow_adds(p as int, a, a);
        assert(pow(p as int, 2 * a) == pow(p as int, a + a));
        let q = prime_power(p, a);
        let whole = group_product(groups);
        assert(whole == m * q);
        assert(whole * whole == prime_power(p, 2 * a) * r) by (nonlinear_arith)
            requires
                whole == m * q,
                prime_power(p, 2 * a) == q * q,
                r == m * m,
        ;
        let g = geometric_sum(p * p, 2 * a);
        let s = divisor_square_sum(r);
        assert(s * g == g * s) by (nonlinear_arith);
    }
}

/// Factoring `m`, grouping the factors and multiplying the closed forms of
/// the groups gives σ₂ of `m`: the sum of the squares of the divisors of `m²`.
pub proof fn lemma_factor_group_recombine(m: nat)
    requires
        m >= 1,
    ensures
        sigma2_product(group_runs(prime_factors_of(m))) == sigma2(m),
{
    lemma_groups_of_prime_factors(m);
    lemma_sigma2_product_formula(group_runs(prime_factors_of(m)));
}

} // verus!
