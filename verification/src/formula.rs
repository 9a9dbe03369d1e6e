use crate::error::EngineError;
use vstd::prelude::*;

verus! {

/// f(n, k): the product of the four terms of the progression that starts at `n`
/// and steps by `k`, plus the fourth power of the step.
pub open spec fn progression_value(n: int, k: int) -> int {
    n * (n + k) * (n + 2 * k) * (n + 3 * k) + k * k * k * k
}

/// R(n, k): the closed form n·k + (n+k)² of the square root of f(n, k).
pub open spec fn root_of(n: int, k: int) -> int {
    n * k + (n + k) * (n + k)
}

/// The largest `s` whose square still fits an `i64`.
pub const MAX_SQUARE_BASE: i64 = 3_037_000_499;

/// f(n, k) is the square of R(n, k), for all integers.
pub proof fn lemma_progression_is_square(n: int, k: int)
    ensures
        progression_value(n, k) == root_of(n, k) * root_of(n, k),
{
    let a = n * n + 3 * n * k;
    let b = k * k;
    assert(n * (n + 3 * k) == a) by (nonlinear_arith)
        requires
            a == n * n + 3 * n * k,
    ;
    assert((n + k) * (n + 2 * k) == a + 2 * b) by (nonlinear_arith)
        requires
            a == n * n + 3 * n * k,
            b == k * k,
    ;
    assert(n * (n + k) * (n + 2 * k) * (n + 3 * k) == (n * (n + 3 * k)) * ((n + k) * (n + 2 * k)))
        by (nonlinear_arith);
    assert(a * (a + 2 * b) + b * b == (a + b) * (a + b)) by (nonlinear_arith);
    assert(k * k * k * k == b * b) by (nonlinear_arith)
        requires
            b == k * k,
    ;
    assert(root_of(n, k) == a + b) by (nonlinear_arith)
        requires
            a == n * n + 3 * n * k,
            b == k * k,
            root_of(n, k) == n * k + (n + k) * (n + k),
    ;
}

/// R is symmetric: the progressions (n, k) and (k, n) share their root.
pub proof fn lemma_root_symmetric(n: int, k: int)
    ensures
        root_of(n, k) == root_of(k, n),
{
    assert(n * k + (n + k) * (n + k) == k * n + (k + n) * (k + n)) by (nonlinear_arith);
}

/// Where start and step are equal, the root is five times the square.
pub proof fn lemma_root_of_equal(s: int)
    ensures
        root_of(s, s) == 5 * s * s,
{
    assert(s * s + (s + s) * (s + s) == 5 * s * s) by (nonlinear_arith);
}

/// R grows with either argument on the positive quadrant, strictly in the
/// second.
pub proof fn lemma_root_monotonic(n1: int, k1: int, n2: int, k2: int)
    requires
        0 <= n1 <= n2,
        0 <= k1 <= k2,
    ensures
        root_of(n1, k1) <= root_of(n2, k2),
        (n1 < n2 || k1 < k2) && (n2 + k2 > 0) ==> root_of(n1, k1) < root_of(n2, k2),
{
    assert(n1 * k1 <= n2 * k2) by (nonlinear_arith)
        requires
            0 <= n1 <= n2,
            0 <= k1 <= k2,
    ;
    let a = n1 + k1;
    let b = n2 + k2;
    assert(a * a <= b * b) by (nonlinear_arith)
        requires
            0 <= a <= b,
    ;
    if (n1 < n2 || k1 < k2) {
        assert(a * a < b * b) by (nonlinear_arith)
            requires
                0 <= a < b,
        ;
    }
}

/// The root of the progression (n, k), or `ArithmeticOverflow` where it does
/// not fit an `i64`.
pub fn root(n: i64, k: i64) -> (r: Result<i64, EngineError>)
    ensures
        match r {
            Ok(v) => v == root_of(n as int, k as int),
            Err(e) => e == EngineError::ArithmeticOverflow && !(i64::MIN <= root_of(
                n as int,
                k as int,
            ) <= i64::MAX),
        },
{
    let nw: i128 = n as i128;
    let kw: i128 = k as i128;
    let sum: i128 = nw + kw;
    if sum > i64::MAX as i128 || sum < i64::MIN as i128 {
        proof {
            // Both arguments have the sign of the sum, so their product is positive.
            assert(nw * kw > 0) by (nonlinear_arith)
                requires
                    (nw >= 1 && kw >= 1) || (nw <= -1 && kw <= -1),
            ;
            assert(sum * sum > 0x7fff_ffff_ffff_ffff) by (nonlinear_arith)
                requires
                    sum > 0x7fff_ffff_ffff_ffff || sum < -0x8000_0000_0000_0000,
            ;
        }
        return Err(EngineError::ArithmeticOverflow);
    }
    proof {
        assert(sum * sum <= 0x4000_0000_0000_0000_0000_0000_0000_0000) by (nonlinear_arith)
            requires
                -0x8000_0000_0000_0000 <= sum <= 0x8000_0000_0000_0000,
        ;
        // The two arguments are not both the least `i64`: their sum would be too small.
        assert(-0x4000_0000_0000_0000_0000_0000_0000_0000 <= nw * kw
            < 0x4000_0000_0000_0000_0000_0000_0000_0000) by (nonlinear_arith)
            requires
                -0x8000_0000_0000_0000 <= nw < 0x8000_0000_0000_0000,
                -0x8000_0000_0000_0000 <= kw < 0x8000_0000_0000_0000,
                nw > -0x8000_0000_0000_0000 || kw > -0x8000_0000_0000_0000,
        ;
        assert(sum * sum >= 0) by (nonlinear_arith);
    }
    let value: i128 = nw * kw + sum * sum;
    if value > i64::MAX as i128 || value < i64::MIN as i128 {
        Err(EngineError::ArithmeticOverflow)
    } else {
        Ok(value as i64)
    }
}

/// The root of the degenerate progression whose start and step are both `s`:
/// five times the square of `s`, or `ArithmeticOverflow` where that does not
/// fit an `i64`.
pub fn root_equal(s: i64) -> (r: Result<i64, EngineError>)
    ensures
        match r {
            Ok(v) => v == 5 * s * s && v == root_of(s as int, s as int),
            Err(e) => e == EngineError::ArithmeticOverflow && 5 * s * s > i64::MAX,
        },
{
    proof {
        lemma_root_of_equal(s as int);
    }
    if s > MAX_SQUARE_BASE || s < -MAX_SQUARE_BASE {
        proof {
            assert(5 * s * s > i64::MAX) by (nonlinear_arith)
                requires
                    s > 3_037_000_499 || s < -3_037_000_499,
            ;
        }
        return Err(EngineError::ArithmeticOverflow);
    }
    let sw: i128 = s as i128;
    proof {
        assert(0 <= sw * sw <= 3_037_000_499 * 3_037_000_499) by (nonlinear_arith)
            requires
                -3_037_000_499 <= sw <= 3_037_000_499,
        ;
        assert(5 * sw * sw == 5 * (sw * sw)) by (nonlinear_arith);
    }
    let value: i128 = 5 * (sw * sw);
    if value > i64::MAX as i128 {
        Err(EngineError::ArithmeticOverflow)
    } else {
        Ok(value as i64)
    }
}

} // verus!
