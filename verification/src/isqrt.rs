use vstd::prelude::*;

verus! {

/// The square of an integer.
pub open spec fn square(x: int) -> int {
    x * x
}

/// Squaring keeps the order of non-negative integers.
pub proof fn lemma_square_monotonic(a: int, b: int)
    requires
        0 <= a <= b,
    ensures
        square(a) <= square(b),
        a < b ==> square(a) < square(b),
{
    assert(a * a <= b * b) by (nonlinear_arith)
        requires
            0 <= a <= b,
    ;
    if a < b {
        assert(a * a < b * b) by (nonlinear_arith)
            requires
                0 <= a < b,
        ;
    }
}

/// A perfect square has exactly one non-negative root.
pub proof fn lemma_square_root_unique(a: int, b: int)
    requires
        0 <= a,
        0 <= b,
        square(a) == square(b),
    ensures
        a == b,
{
    if a < b {
        lemma_square_monotonic(a, b);
    } else if b < a {
        lemma_square_monotonic(b, a);
    }
}

/// The non-negative root of `n` where `n` is a perfect square, `None` where
/// it is not. The test is exact over the whole range of `i128`: the root is
/// found by bisection on integers and squared again.
pub fn is_perfect_square(n: i128) -> (r: Option<i128>)
    ensures
        match r {
            Some(root) => root >= 0 && square(root as int) == n,
            None => forall|x: int| #[trigger] square(x) != n,
        },
{
    if n < 0 {
        proof {
            assert forall|x: int| #[trigger] square(x) != n by {
                assert(x * x >= 0) by (nonlinear_arith);
            }
        }
        return None;
    }
    let target: u128 = n as u128;
    let mut lo: u128 = 0;
    let mut hi: u128 = 0x1_0000_0000_0000_0000;
    proof {
        assert(square(hi as int) > target) by (nonlinear_arith)
            requires
                hi == 0x1_0000_0000_0000_0000,
                target < 0x8000_0000_0000_0000_0000_0000_0000_0000,
                square(hi as int) == hi * hi,
        ;
    }
    while hi - lo > 1
        invariant
            lo < hi <= 0x1_0000_0000_0000_0000,
            square(lo as int) <= target < square(hi as int),
        decreases hi - lo,
    {
        let mid: u128 = lo + (hi - lo) / 2;
        proof {
            assert(mid * mid <= 0xffff_ffff_ffff_ffff * 0xffff_ffff_ffff_ffff) by (nonlinear_arith)
                requires
                    0 <= mid <= 0xffff_ffff_ffff_ffff,
            ;
        }
        if mid * mid <= target {
            lo = mid;
        } else {
            hi = mid;
        }
    }
    proof {
        assert(lo * lo <= 0xffff_ffff_ffff_ffff * 0xffff_ffff_ffff_ffff) by (nonlinear_arith)
            requires
                0 <= lo <= 0xffff_ffff_ffff_ffff,
        ;
    }
    if lo * lo == target {
        Some(lo as i128)
    } else {
        proof {
            assert forall|x: int| #[trigger] square(x) != n by {
                let a = if x < 0 {
                    -x
                } else {
                    x
                };
                assert(square(a) == square(x)) by (nonlinear_arith)
                    requires
                        a == x || a == -x,
                        square(a) == a * a,
                        square(x) == x * x,
                ;
                if a <= lo {
                    lemma_square_monotonic(a, lo as int);
                } else {
                    lemma_square_monotonic(hi as int, a);
                }
            }
        }
        None
    }
}

} // verus!
