use crate::divisibility::{divides, lemma_divides_quotient, lemma_multiple_divides};
use crate::sums::{
    lemma_sum_congruent, lemma_sum_empty, lemma_sum_extend, lemma_sum_monotonic, lemma_sum_single,
    lemma_sum_split, sum_squares_where,
};
use vstd::arithmetic::div_mod::{lemma_div_multiples_vanish, lemma_mod_multiples_basic};
use vstd::arithmetic::power::{
    lemma_pow1, lemma_pow_adds, lemma_pow_multiplies, lemma_pow_positive,
    lemma_square_is_pow2, pow,
};
use vstd::prelude::*;

verus! {

/// The sum of the squares of the divisors of `n` from 1 up to `k`.
pub open spec fn divisor_square_sum_upto(n: nat, k: nat) -> nat
    decreases k,
{
    if k == 0 {
        0
    } else {
        divisor_square_sum_upto(n, (k - 1) as nat) + if n % k == 0 {
            k * k
        } else {
            0
        }
    }
}

/// The sum of the squares of all divisors of `n`.
pub open spec fn divisor_square_sum(n: nat) -> nat {
    divisor_square_sum_upto(n, n)
}

/// σ₂ of the engine: the sum of the squares of all divisors of `m²`.
pub open spec fn sigma2(m: nat) -> nat {
    divisor_square_sum(m * m)
}

/// 1 + b + b² + … + b^e.
pub open spec fn geometric_sum(b: nat, e: nat) -> nat
    decreases e,
{
    if e == 0 {
        1
    } else {
        geometric_sum(b, (e - 1) as nat) + pow(b as int, e) as nat
    }
}

/// The closed form of the divisor-square-sum of the square of the prime power
/// `p^a`: (p^(2·(2a+1)) − 1) / (p² − 1).
pub open spec fn prime_power_term(p: nat, a: nat) -> nat {
    ((pow(p as int, 2 * (2 * a + 1)) - 1) / (p * p - 1)) as nat
}

/// The product of the closed forms of the groups.
pub open spec fn sigma2_product(groups: Seq<(nat, nat)>) -> nat
    decreases groups.len(),
{
    if groups.len() == 0 {
        1
    } else {
        sigma2_product(groups.drop_last()) * prime_power_term(groups.last().0, groups.last().1)
    }
}

/// (b − 1) · (1 + b + … + b^e) = b^(e+1) − 1.
pub proof fn lemma_geometric_sum(b: nat, e: nat)
    requires
        b >= 1,
    ensures
        (b - 1) * geometric_sum(b, e) == pow(b as int, e + 1) - 1,
        geometric_sum(b, e) >= 1,
    decreases e,
{
    lemma_pow1(b as int);
    if e == 0 {
        assert((b - 1) * 1 == b - 1) by (nonlinear_arith);
    } else {
        lemma_geometric_sum(b, (e - 1) as nat);
        lemma_pow_adds(b as int, e, 1);
        lemma_pow_positive(b as int, e);
        let g = geometric_sum(b, (e - 1) as nat);
        let x = pow(b as int, e);
        assert((b - 1) * (g + x) == x * b - 1) by (nonlinear_arith)
            requires
                (b - 1) * g == x - 1,
        ;
    }
}

/// For `p >= 2` the division in the closed form is exact, and the closed form
/// is the sum of the even powers of `p` up to `p^(4a)`.
pub proof fn lemma_prime_power_term(p: nat, a: nat)
    requires
        p >= 2,
    ensures
        p * p - 1 > 0,
        pow(p as int, 2 * (2 * a + 1)) >= 1,
        (pow(p as int, 2 * (2 * a + 1)) - 1) % (p * p - 1) == 0,
        prime_power_term(p, a) == geometric_sum(p * p, 2 * a),
        prime_power_term(p, a) >= 1,
{
    let b = p * p;
    assert(b >= 4) by (nonlinear_arith)
        requires
            b == p * p,
            p >= 2,
    ;
    lemma_square_is_pow2(p as int);
    lemma_pow_multiplies(p as int, 2, 2 * a + 1);
    lemma_geometric_sum(b, 2 * a);
    lemma_pow_positive(p as int, 2 * (2 * a + 1));
    let g = geometric_sum(b, 2 * a);
    let den = b - 1;
    assert(pow(p as int, 2 * (2 * a + 1)) - 1 == den * g);
    lemma_mod_multiples_basic(g as int, den);
    lemma_div_multiples_vanish(g as int, den);
    assert(g * den == den * g) by (nonlinear_arith);
}

/// Selects the divisors of `n`.
pub open spec fn is_divisor_of(n: nat) -> spec_fn(nat) -> bool {
    |d: nat| divides(d, n)
}

/// Selects the divisors of `n` whose cofactor is at most `i`.
pub open spec fn has_cofactor_upto(n: nat, i: nat) -> spec_fn(nat) -> bool {
    |d: nat| divides(d, n) && d * i >= n
}

/// Selects the divisors of `n` whose cofactor is `i + 1`.
pub open spec fn has_cofactor_next(n: nat, i: nat) -> spec_fn(nat) -> bool {
    |d: nat| divides(d, n) && d * i < n && d * (i + 1) >= n
}

/// The sum of the squares of the cofactors `n / d` of the divisors `d` of
/// `n` from 1 up to `i`.
pub open spec fn cofactor_square_sum(n: nat, i: nat) -> nat {
    sum_squares_where(has_cofactor_upto(n, i), n)
}

/// The divisor sum up to `k` is a sum over the selection of the divisors.
pub proof fn lemma_divisor_sum_as_selection(n: nat, k: nat)
    ensures
        divisor_square_sum_upto(n, k) == sum_squares_where(is_divisor_of(n), k),
    decreases k,
{
    if k > 0 {
        lemma_divisor_sum_as_selection(n, (k - 1) as nat);
        assert(is_divisor_of(n)(k) == divides(k, n));
    }
}

/// No divisor of a positive number has the cofactor 0.
pub proof fn lemma_cofactor_sum_zero(n: nat)
    requires
        n >= 1,
    ensures
        cofactor_square_sum(n, 0) == 0,
{
    let f = has_cofactor_upto(n, 0);
    assert forall|d: nat| 1 <= d <= n implies !#[trigger] f(d) by {
        assert(d * 0 == 0) by (nonlinear_arith);
    }
    lemma_sum_empty(f, n);
}

/// One more divisor adds the square of its cofactor, and a number that does
/// not divide adds nothing.
pub proof fn lemma_cofactor_sum_step(n: nat, i: nat)
    requires
        n >= 1,
        i + 1 <= n,
    ensures
        cofactor_square_sum(n, i + 1) == cofactor_square_sum(n, i) + if divides(i + 1, n) {
            (n / (i + 1)) * (n / (i + 1))
        } else {
            0
        },
{
    let f = has_cofactor_upto(n, i + 1);
    let g = has_cofactor_upto(n, i);
    let h = has_cofactor_next(n, i);
    assert forall|d: nat| 1 <= d <= n implies (#[trigger] f(d) <==> g(d) || h(d)) by {
        assert(d * i >= n ==> d * (i + 1) >= n) by (nonlinear_arith)
            requires
                d >= 0,
                i >= 0,
        ;
    }
    assert forall|d: nat| 1 <= d <= n implies !(#[trigger] g(d) && h(d)) by {}
    lemma_sum_split(f, g, h, n);
    let j = i + 1;
    // A divisor d selected by h has the cofactor j.
    assert forall|d: nat| 1 <= d <= n && #[trigger] h(d) implies n == d * j && divides(j, n) by {
        lemma_divides_quotient(d, n);
        let c = n / d;
        assert(i < c) by (nonlinear_arith)
            requires
                d * i < d * c,
                d >= 1,
        ;
        assert(c <= j) by (nonlinear_arith)
            requires
                d * c <= d * j,
                d >= 1,
        ;
        assert(j * d == d * j) by (nonlinear_arith);
        lemma_multiple_divides(j, d);
    }
    if divides(j, n) {
        lemma_divides_quotient(j, n);
        let x = n / j;
        assert(x * j == j * x) by (nonlinear_arith);
        lemma_multiple_divides(x, j);
        assert(x * i < n) by (nonlinear_arith)
            requires
                n == x * (i + 1),
                x >= 1,
        ;
        assert forall|d: nat| 1 <= d <= n implies (#[trigger] h(d) <==> d == x) by {
            if h(d) {
                assert(d == x) by (nonlinear_arith)
                    requires
                        n == d * j,
                        n == j * x,
                        j >= 1,
                ;
            }
        }
        lemma_sum_single(h, n, x);
    } else {
        assert forall|d: nat| 1 <= d <= n implies !#[trigger] h(d) by {}
        lemma_sum_empty(h, n);
    }
}

/// The cofactor sum grows with the bound on the cofactors.
pub proof fn lemma_cofactor_sum_monotonic(n: nat, i: nat, j: nat)
    requires
        n >= 1,
        i <= j <= n,
    ensures
        cofactor_square_sum(n, i) <= cofactor_square_sum(n, j),
    decreases j - i,
{
    if i < j {
        lemma_cofactor_sum_monotonic(n, i, (j - 1) as nat);
        lemma_cofactor_sum_step(n, (j - 1) as nat);
    }
}

/// The divisors of `m²` are those up to `m` and the cofactors of those below
/// `m`: the two sums make up σ₂.
pub proof fn lemma_square_divisors_pair(m: nat)
    requires
        m >= 1,
    ensures
        divisor_square_sum_upto(m * m, m) + cofactor_square_sum(m * m, (m - 1) as nat) == sigma2(m),
{
    let n = m * m;
    assert(n >= m) by (nonlinear_arith)
        requires
            n == m * m,
            m >= 1,
    ;
    let all = is_divisor_of(n);
    let small = |d: nat| divides(d, n) && d <= m;
    let large = has_cofactor_upto(n, (m - 1) as nat);
    lemma_divisor_sum_as_selection(n, n);
    lemma_divisor_sum_as_selection(n, m);
    assert forall|d: nat| 1 <= d <= n implies (#[trigger] all(d) <==> small(d) || large(d)) by {
        if divides(d, n) && d > m {
            lemma_divides_quotient(d, n);
            let c = n / d;
            assert(c < m) by (nonlinear_arith)
                requires
                    d * c == m * m,
                    d > m,
                    m >= 1,
                    c >= 0,
            ;
            assert(d * (m - 1) >= d * c) by (nonlinear_arith)
                requires
                    c <= m - 1,
                    d >= 0,
            ;
        }
    }
    assert forall|d: nat| 1 <= d <= n implies !(#[trigger] small(d) && large(d)) by {
        if d <= m {
            assert(d * (m - 1) < m * m) by (nonlinear_arith)
                requires
                    1 <= d <= m,
            ;
        }
    }
    lemma_sum_split(all, small, large, n);
    assert forall|d: nat| m < d <= n implies !#[trigger] small(d) by {}
    lemma_sum_extend(small, m, n);
    assert forall|d: nat| 1 <= d <= m implies #[trigger] small(d) == all(d) by {}
    lemma_sum_congruent(small, all, m);
}

/// What direct enumeration has summed after the candidates from 1 up to `i`:
/// the squares of the divisors of `m²` among them, and of their cofactors
/// where the cofactor is another number.
pub open spec fn enumeration_sum(m: nat, i: nat) -> nat {
    divisor_square_sum_upto(m * m, i) + cofactor_square_sum(
        m * m,
        if i < m {
            i
        } else {
            (m - 1) as nat
        },
    )
}

/// Direct enumeration never exceeds σ₂ on the way, and reaches it at `m`.
pub proof fn lemma_enumeration_sum(m: nat, i: nat)
    requires
        m >= 1,
        i <= m,
    ensures
        enumeration_sum(m, i) <= sigma2(m),
        enumeration_sum(m, m) == sigma2(m),
{
    let n = m * m;
    assert(n >= m) by (nonlinear_arith)
        requires
            n == m * m,
            m >= 1,
    ;
    lemma_square_divisors_pair(m);
    lemma_divisor_sum_as_selection(n, i);
    lemma_divisor_sum_as_selection(n, m);
    lemma_sum_monotonic(is_divisor_of(n), i, m);
    let j: nat = if i < m {
        i
    } else {
        (m - 1) as nat
    };
    lemma_cofactor_sum_monotonic(n, j, (m - 1) as nat);
}

/// What one candidate adds to the enumeration: nothing if it does not divide
/// `m²`; else its square and, below `m`, the square of its cofactor, which is
/// then another number; at `m` the cofactor is `m` itself.
pub proof fn lemma_enumeration_step(m: nat, d: nat)
    requires
        m >= 1,
        1 <= d <= m,
    ensures
        !divides(d, m * m) ==> enumeration_sum(m, d) == enumeration_sum(m, (d - 1) as nat),
        divides(d, m * m) && d < m ==> (m * m) / d > m && enumeration_sum(m, d) == enumeration_sum(
            m,
            (d - 1) as nat,
        ) + d * d + ((m * m) / d) * ((m * m) / d),
        d == m ==> divides(d, m * m) && (m * m) / d == m && enumeration_sum(m, d)
            == enumeration_sum(m, (d - 1) as nat) + d * d,
{
    let n = m * m;
    assert(n >= m) by (nonlinear_arith)
        requires
            n == m * m,
            m >= 1,
    ;
    if d < m {
        lemma_cofactor_sum_step(n, (d - 1) as nat);
        if divides(d, n) {
            lemma_divides_quotient(d, n);
            let c = n / d;
            assert(c > m) by (nonlinear_arith)
                requires
                    d * c == m * m,
                    1 <= d < m,
                    c >= 0,
            ;
        }
    } else {
        lemma_multiple_divides(m, m);
    }
}

} // verus!
