use crate::bignum::{
    big_div, big_from_u64, big_mul, big_one, big_pow, big_rem, big_sub, big_to_u128, big_value,
};
use crate::divisor_sum::{
    cofactor_square_sum, enumeration_sum, lemma_cofactor_sum_zero, lemma_enumeration_step,
    lemma_enumeration_sum, lemma_prime_power_term, prime_power_term, sigma2, sigma2_product,
};
use crate::error::EngineError;
use crate::factor::{
    factorize, groups_view, is_valid_table, lemma_trial_division, lemma_trial_division_of_zero,
    table_covers, trial_division, PrimeTable,
};
use crate::factorization::group_runs;
use crate::multiplicative::lemma_factor_group_recombine;
use num_bigint::BigUint;
use vstd::arithmetic::power::lemma_square_is_pow2;
use vstd::prelude::*;

verus! {

/// Every group's base is at least 2.
pub open spec fn has_proper_bases(groups: Seq<(u64, u16)>) -> bool {
    forall|i: int| 0 <= i < groups.len() ==> (#[trigger] groups[i]).0 >= 2
}

/// The divisor-square-sum of the square of the prime power `p^a` by its
/// closed form, in arbitrary precision. The division is checked to leave no
/// remainder; it never does.
fn prime_power_sum(p: u64, a: u16) -> (r: Result<BigUint, EngineError>)
    requires
        p >= 2,
    ensures
        r matches Ok(term) && big_value(term) == prime_power_term(p as nat, a as nat),
{
    let base = big_from_u64(p);
    let one = big_one();
    let exponent: u32 = 2 * (2 * (a as u32) + 1);
    proof {
        lemma_prime_power_term(p as nat, a as nat);
        lemma_square_is_pow2(p as int);
    }
    let numerator = big_sub(&big_pow(&base, exponent), &one);
    let denominator = big_sub(&big_pow(&base, 2), &one);
    let remainder = big_rem(&numerator, &denominator);
    match big_to_u128(&remainder) {
        Some(0) => Ok(big_div(&numerator, &denominator)),
        _ => Err(EngineError::InternalInvariantViolation),
    }
}

/// The product of the closed forms of the groups, in arbitrary precision;
/// `InternalInvariantViolation` where a group's base is below 2, for which
/// the closed form has no exact division.
pub fn sigma_2_from_groups(groups: &Vec<(u64, u16)>) -> (r: Result<BigUint, EngineError>)
    ensures
        match r {
            Ok(value) => has_proper_bases(groups@) && big_value(value) == sigma2_product(
                groups_view(groups@),
            ),
            Err(e) => e == EngineError::InternalInvariantViolation && !has_proper_bases(groups@),
        },
{
    let mut result = big_one();
    let mut i: usize = 0;
    let ghost all = groups_view(groups@);
    assert(all.take(0) =~= Seq::<(nat, nat)>::empty());
    while i < groups.len()
        invariant
            0 <= i <= groups.len(),
            all == groups_view(groups@),
            has_proper_bases(groups@.take(i as int)),
            big_value(result) == sigma2_product(all.take(i as int)),
        decreases groups.len() - i,
    {
        let (p, a) = groups[i];
        if p < 2 {
            assert(!has_proper_bases(groups@)) by {
                assert(groups@[i as int].0 < 2);
            }
            return Err(EngineError::InternalInvariantViolation);
        }
        match prime_power_sum(p, a) {
            Ok(term) => {
                proof {
                    assert(all.take(i + 1).drop_last() =~= all.take(i as int));
                    assert(all.take(i + 1).last() == (p as nat, a as nat));
                    assert forall|k: int| 0 <= k < i + 1 implies (#[trigger] groups@.take(
                        i + 1,
                    )[k]).0 >= 2 by {
                        if k < i {
                            assert(groups@.take(i as int)[k].0 >= 2);
                        }
                    }
                }
                result = big_mul(&result, &term);
            },
            Err(e) => {
                assert(false);
                return Err(e);
            },
        }
        i = i + 1;
    }
    proof {
        assert(all.take(i as int) =~= all);
        assert(groups@.take(i as int) =~= groups@);
    }
    Ok(result)
}

/// What multiplicative evaluation computes for `n` over the table `t`: the
/// product of the closed forms of the groups that trial division finds.
pub open spec fn multiplicative_value(n: nat, t: Seq<u64>) -> nat {
    sigma2_product(group_runs(trial_division(n, t, 0)))
}

/// Over a table that covers `n`, multiplicative evaluation computes σ₂ of
/// `n`; for 0, in which no factor is found, it computes 1.
pub proof fn lemma_multiplicative_value(n: nat, t: Seq<u64>)
    requires
        is_valid_table(t),
    ensures
        n == 0 ==> multiplicative_value(n, t) == 1,
        n >= 1 && table_covers(t, n) ==> multiplicative_value(n, t) == sigma2(n),
{
    if n == 0 {
        lemma_trial_division_of_zero(t);
        assert(group_runs(Seq::<nat>::empty()) =~= Seq::<(nat, nat)>::empty());
    } else if table_covers(t, n) {
        lemma_trial_division(t, n);
        lemma_factor_group_recombine(n);
    }
}

/// σ₂ of `n` by multiplicative evaluation, in arbitrary precision: `n` is
/// factored over the table and the closed forms of its prime powers are
/// multiplied. No error comes of it. Where the table covers `n`, the value is
/// σ₂ of `n`; for 0, which has no factors, it is 1.
pub fn sigma_2_wide(n: u64, table: &PrimeTable) -> (r: Result<BigUint, EngineError>)
    ensures
        r is Ok,
        big_value(r->Ok_0) == multiplicative_value(n as nat, table@),
        n == 0 ==> big_value(r->Ok_0) == 1,
        n >= 1 && table_covers(table@, n as nat) ==> big_value(r->Ok_0) == sigma2(n as nat),
{
    let groups = factorize(n, table);
    proof {
        if n == 0 {
            assert(groups_view(groups@) =~= Seq::<(nat, nat)>::empty());
        } else {
            lemma_factor_group_recombine(n as nat);
        }
    }
    sigma_2_from_groups(&groups)
}

/// σ₂ of `n` by multiplicative evaluation, as a `u128`, or
/// `ArithmeticOverflow` where the value does not fit; no other error comes of
/// it. Where the table covers `n`, the value is σ₂ of `n`; for 0 it is 1.
pub fn sigma_2_dirichlet(n: u64, table: &PrimeTable) -> (r: Result<u128, EngineError>)
    ensures
        match r {
            Ok(value) => value == multiplicative_value(n as nat, table@),
            Err(e) => e == EngineError::ArithmeticOverflow && multiplicative_value(
                n as nat,
                table@,
            ) > u128::MAX,
        },
        n == 0 ==> r == Ok::<u128, EngineError>(1),
        n >= 1 && table_covers(table@, n as nat) ==> match r {
            Ok(value) => value == sigma2(n as nat),
            Err(_) => sigma2(n as nat) > u128::MAX,
        },
{
    match sigma_2_wide(n, table) {
        Ok(value) => match big_to_u128(&value) {
            Some(narrow) => Ok(narrow),
            None => Err(EngineError::ArithmeticOverflow),
        },
        Err(e) => Err(e),
    }
}

/// σ₂ of `num` by direct enumeration: each candidate from 1 up to `num` that
/// divides the square of `num` adds its square and, where the cofactor is
/// another number, the square of the cofactor. `ArithmeticOverflow` where σ₂
/// does not fit a `u128`.
pub fn sigma_2(num: u64) -> (r: Result<u128, EngineError>)
    ensures
        match r {
            Ok(value) => value == sigma2(num as nat),
            Err(e) => e == EngineError::ArithmeticOverflow && sigma2(num as nat) > u128::MAX,
        },
{
    if num == 0 {
        assert(0nat * 0nat == 0) by (nonlinear_arith);
        return Ok(0);
    }
    let m: u128 = num as u128;
    proof {
        assert(m * m <= 0xffff_ffff_ffff_ffff * 0xffff_ffff_ffff_ffff) by (nonlinear_arith)
            requires
                0 <= m <= 0xffff_ffff_ffff_ffff,
        ;
        assert(cofactor_square_sum((m * m) as nat, 0) == 0) by {
            assert(m * m >= 1) by (nonlinear_arith)
                requires
                    m >= 1,
            ;
            lemma_cofactor_sum_zero((m * m) as nat);
        }
    }
    let square: u128 = m * m;
    let mut sum_of_squares: u128 = 0;
    let mut d: u128 = 1;
    while d <= m
        invariant
            m == num,
            m >= 1,
            square == m * m,
            1 <= d <= m + 1,
            sum_of_squares == enumeration_sum(m as nat, (d - 1) as nat),
        decreases m + 1 - d,
    {
        proof {
            lemma_enumeration_step(m as nat, d as nat);
            lemma_enumeration_sum(m as nat, d as nat);
            assert(d * d <= m * m) by (nonlinear_arith)
                requires
                    1 <= d <= m,
            ;
        }
        if square % d == 0 {
            sum_of_squares =
            match sum_of_squares.checked_add(d * d) {
                Some(sum) => sum,
                None => {
                    return Err(EngineError::ArithmeticOverflow);
                },
            };
            let flr: u128 = square / d;
            if d != flr {
                let cofactor_square = match flr.checked_mul(flr) {
                    Some(product) => product,
                    None => {
                        return Err(EngineError::ArithmeticOverflow);
                    },
                };
                sum_of_squares =
                match sum_of_squares.checked_add(cofactor_square) {
                    Some(sum) => sum,
                    None => {
                        return Err(EngineError::ArithmeticOverflow);
                    },
                };
            }
        }
        d = d + 1;
    }
    proof {
        lemma_enumeration_sum(m as nat, m as nat);
    }
    Ok(sum_of_squares)
}

} // verus!
