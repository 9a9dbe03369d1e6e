use vstd::arithmetic::div_mod::{
    lemma_div_multiples_vanish, lemma_fundamental_div_mod, lemma_mod_decreases,
    lemma_mod_multiples_basic, lemma_mul_mod_noop_left, lemma_small_mod,
};
use vstd::prelude::*;

verus! {

/// `d` divides `n`.
pub open spec fn divides(d: nat, n: nat) -> bool {
    d > 0 && n % d == 0
}

/// `p` is at least 2 and has no divisor strictly between 1 and itself.
pub open spec fn is_prime(p: nat) -> bool {
    p >= 2 && forall|d: nat| 1 < d < p ==> !#[trigger] divides(d, p)
}

/// A multiple of `d` is divisible by `d`, and the quotient is the multiplier.
pub proof fn lemma_multiple_divides(d: nat, k: nat)
    requires
        d > 0,
    ensures
        divides(d, d * k),
        (d * k) / d == k,
{
    lemma_mod_multiples_basic(k as int, d as int);
    lemma_div_multiples_vanish(k as int, d as int);
    assert(k * d == d * k) by (nonlinear_arith);
}

/// What `d` divides is `d` times the quotient.
pub proof fn lemma_divides_quotient(d: nat, n: nat)
    requires
        divides(d, n),
    ensures
        n == d * (n / d),
        n > 0 ==> 1 <= n / d <= n,
{
    lemma_fundamental_div_mod(n as int, d as int);
    let q = n / d;
    if n > 0 {
        assert(1 <= q <= n) by (nonlinear_arith)
            requires
                n == d * q,
                n > 0,
                d > 0,
                q >= 0,
        ;
    }
}

/// A divisor of a positive number is no larger than it.
pub proof fn lemma_divisor_bound(d: nat, n: nat)
    requires
        divides(d, n),
        n > 0,
    ensures
        d <= n,
{
    if d > n {
        lemma_small_mod(n, d);
    }
}

/// Divisibility is transitive.
pub proof fn lemma_divides_transitive(a: nat, b: nat, c: nat)
    requires
        divides(a, b),
        divides(b, c),
    ensures
        divides(a, c),
{
    lemma_divides_quotient(a, b);
    lemma_divides_quotient(b, c);
    let x = b / a;
    let y = c / b;
    assert(c == a * (x * y)) by (nonlinear_arith)
        requires
            b == a * x,
            c == b * y,
    ;
    lemma_multiple_divides(a, x * y);
}

/// A common factor of divisor and dividend can be cancelled, and restored.
pub proof fn lemma_divides_cancel(c: nat, d: nat, n: nat)
    requires
        c > 0,
        d > 0,
    ensures
        divides(c * d, c * n) <==> divides(d, n),
{
    assert(c * d > 0) by (nonlinear_arith)
        requires
            c > 0,
            d > 0,
    ;
    if divides(d, n) {
        lemma_divides_quotient(d, n);
        let q = n / d;
        assert(c * n == (c * d) * q) by (nonlinear_arith)
            requires
                n == d * q,
        ;
        lemma_multiple_divides(c * d, q);
    }
    if divides(c * d, c * n) {
        lemma_divides_quotient(c * d, c * n);
        let q = (c * n) / (c * d);
        assert(n == d * q) by (nonlinear_arith)
            requires
                c * n == (c * d) * q,
                c > 0,
        ;
        lemma_multiple_divides(d, q);
    }
}

/// What divides two numbers divides the first less a multiple of the second.
pub proof fn lemma_divides_combination(p: nat, x: nat, y: nat, c: nat, z: nat)
    requires
        divides(p, x),
        divides(p, y),
        x == z + c * y,
    ensures
        divides(p, z),
{
    lemma_divides_quotient(p, x);
    lemma_divides_quotient(p, y);
    let a = x / p;
    let b = y / p;
    assert(z == p * (a - c * b)) by (nonlinear_arith)
        requires
            x == p * a,
            y == p * b,
            x == z + c * y,
    ;
    assert(a - c * b >= 0) by (nonlinear_arith)
        requires
            z == p * (a - c * b),
            z >= 0,
            p > 0,
    ;
    lemma_multiple_divides(p, (a - c * b) as nat);
}

/// Euclid's lemma: a prime that divides a product divides one of its factors.
pub proof fn lemma_prime_divides_product(p: nat, a: nat, b: nat)
    requires
        is_prime(p),
        divides(p, a * b),
    ensures
        divides(p, a) || divides(p, b),
    decreases a,
{
    if a % p != 0 {
        let r = a % p;
        // p divides r·b, as r and a leave the same remainder.
        assert(divides(p, r * b)) by {
            lemma_mul_mod_noop_left(a as int, b as int, p as int);
        }
        if r == 1 {
            assert(r * b == b) by (nonlinear_arith)
                requires
                    r == 1,
            ;
        } else {
            // r lies strictly between 1 and p, so it leaves a remainder t in p,
            // and p divides t·b = p·b − (p / r)·(r·b).
            assert(!divides(r, p));
            let t = p % r;
            let q = p / r;
            lemma_fundamental_div_mod(p as int, r as int);
            lemma_multiple_divides(p, b);
            assert(p * b == t * b + q * (r * b)) by (nonlinear_arith)
                requires
                    p == r * q + t,
            ;
            lemma_divides_combination(p, p * b, r * b, q, t * b);
            lemma_mod_decreases(a, p);
            lemma_prime_divides_product(p, t, b);
            if divides(p, t) {
                lemma_small_mod(t, p);
            }
        }
    }
}

/// A prime that does not divide a number does not divide its square.
pub proof fn lemma_prime_not_dividing_square(p: nat, a: nat)
    requires
        is_prime(p),
        !divides(p, a),
    ensures
        !divides(p, a * a),
{
    if divides(p, a * a) {
        lemma_prime_divides_product(p, a, a);
    }
}

/// The least divisor of `n` that is at least `d`.
pub open spec fn least_divisor_from(n: nat, d: nat) -> nat
    decreases n - d,
{
    if d >= n {
        n
    } else if divides(d, n) {
        d
    } else {
        least_divisor_from(n, d + 1)
    }
}

/// The least divisor of `n` above 1: its least prime factor, for `n >= 2`.
pub open spec fn least_prime_factor(n: nat) -> nat {
    least_divisor_from(n, 2)
}

/// `least_divisor_from` is a divisor, and the least one from `d` on.
pub proof fn lemma_least_divisor_from(n: nat, d: nat)
    requires
        1 <= d <= n,
    ensures
        d <= least_divisor_from(n, d) <= n,
        divides(least_divisor_from(n, d), n),
        forall|c: nat| d <= c < least_divisor_from(n, d) ==> !#[trigger] divides(c, n),
    decreases n - d,
{
    if d >= n {
        lemma_multiple_divides(n, 1);
        assert(n * 1 == n);
    } else if !divides(d, n) {
        lemma_least_divisor_from(n, d + 1);
    }
}

/// The least prime factor of `n >= 2` is a prime divisor of `n`, and nothing
/// from 2 up to it divides `n`.
pub proof fn lemma_least_prime_factor(n: nat)
    requires
        n >= 2,
    ensures
        2 <= least_prime_factor(n) <= n,
        divides(least_prime_factor(n), n),
        is_prime(least_prime_factor(n)),
        forall|c: nat| 2 <= c < least_prime_factor(n) ==> !#[trigger] divides(c, n),
{
    lemma_least_divisor_from(n, 2);
    let p = least_prime_factor(n);
    assert forall|d: nat| 1 < d < p implies !#[trigger] divides(d, p) by {
        if divides(d, p) {
            lemma_divides_transitive(d, p, n);
        }
    }
}

/// A prime is its own least prime factor.
pub proof fn lemma_prime_least_factor(p: nat)
    requires
        is_prime(p),
    ensures
        least_prime_factor(p) == p,
{
    lemma_least_prime_factor(p);
}

/// A number from 2 on that is not prime has a prime factor whose square does
/// not exceed it.
pub proof fn lemma_composite_has_small_factor(n: nat)
    requires
        n >= 2,
        !is_prime(n),
    ensures
        least_prime_factor(n) * least_prime_factor(n) <= n,
        least_prime_factor(n) < n,
{
    lemma_least_prime_factor(n);
    let q = least_prime_factor(n);
    let d = choose|d: nat| 1 < d < n && #[trigger] divides(d, n);
    assert(q <= d);
    lemma_divides_quotient(q, n);
    let c = n / q;
    assert(c >= 2) by (nonlinear_arith)
        requires
            n == q * c,
            q < n,
            q >= 2,
            c >= 0,
    ;
    assert(c * q == q * c) by (nonlinear_arith);
    lemma_multiple_divides(c, q);
    assert(divides(c, n));
    assert(q * q <= n) by (nonlinear_arith)
        requires
            n == q * c,
            q <= c,
            q >= 2,
    ;
}

} // verus!
