use crate::divisor_sum::{enumeration_sum, lemma_enumeration_sum, sigma2, sigma2_product};
use crate::error::EngineError;
use crate::factorization::{group_runs, prime_factors_of};
use crate::factor::{factors_view, groups_view};
use crate::formula::{lemma_root_monotonic, lemma_root_of_equal, lemma_root_symmetric, root_of};
use crate::isqrt::{lemma_square_root_unique, square};
use crate::multiplicative::lemma_factor_group_recombine;
use crate::pairs::{
    is_match, lemma_pairs_below_exact, pairs_below, pairs_view, total_pair_count,
};
use vstd::prelude::*;
use vstd::seq_lib::seq_to_set_is_finite;

verus! {

/// The two strategies for σ₂ agree: what direct enumeration has summed once
/// it has reached `m` is the product of the closed forms over the prime
/// factorisation of `m`.
pub proof fn lemma_sigma2_strategies_agree(m: nat)
    requires
        m >= 1,
    ensures
        enumeration_sum(m, m) == sigma2_product(group_runs(prime_factors_of(m))),
        enumeration_sum(m, m) == sigma2(m),
{
    lemma_enumeration_sum(m, m);
    lemma_factor_group_recombine(m);
}

/// The root is a function of its arguments: two results that meet the
/// contract of `root` for the same progression are the same.
pub proof fn lemma_root_is_determined(
    n: int,
    k: int,
    first: Result<i64, EngineError>,
    second: Result<i64, EngineError>,
)
    requires
        match first {
            Ok(v) => v == root_of(n, k),
            Err(e) => e == EngineError::ArithmeticOverflow && !(i64::MIN <= root_of(n, k)
                <= i64::MAX),
        },
        match second {
            Ok(v) => v == root_of(n, k),
            Err(e) => e == EngineError::ArithmeticOverflow && !(i64::MIN <= root_of(n, k)
                <= i64::MAX),
        },
    ensures
        first == second,
{
}

/// The perfect-square test is a function of its argument.
pub proof fn lemma_perfect_square_is_determined(n: int, first: Option<i128>, second: Option<i128>)
    requires
        match first {
            Some(root) => root >= 0 && square(root as int) == n,
            None => forall|x: int| #[trigger] square(x) != n,
        },
        match second {
            Some(root) => root >= 0 && square(root as int) == n,
            None => forall|x: int| #[trigger] square(x) != n,
        },
    ensures
        first == second,
{
    match (first, second) {
        (Some(a), Some(b)) => {
            lemma_square_root_unique(a as int, b as int);
        },
        (Some(a), None) => {
            assert(square(a as int) != n);
        },
        (None, Some(b)) => {
            assert(square(b as int) != n);
        },
        (None, None) => {},
    }
}

/// σ₂ as a `u128` is a function of its argument, whichever strategy computes
/// it: two results that are σ₂ where it fits and `ArithmeticOverflow` where
/// it does not are the same.
pub proof fn lemma_sigma2_is_determined(
    m: nat,
    first: Result<u128, EngineError>,
    second: Result<u128, EngineError>,
)
    requires
        match first {
            Ok(value) => value == sigma2(m),
            Err(e) => e == EngineError::ArithmeticOverflow && sigma2(m) > u128::MAX,
        },
        match second {
            Ok(value) => value == sigma2(m),
            Err(e) => e == EngineError::ArithmeticOverflow && sigma2(m) > u128::MAX,
        },
    ensures
        first == second,
{
}

/// A search is a function of its arguments: two lists of pairs that stand for
/// the same sequence of pairs of integers are the same.
pub proof fn lemma_pairs_are_determined(first: Seq<(i64, i64)>, second: Seq<(i64, i64)>)
    requires
        pairs_view(first) == pairs_view(second),
    ensures
        first == second,
{
    assert(first.len() == pairs_view(first).len());
    assert(second.len() == pairs_view(second).len());
    assert forall|i: int| 0 <= i < first.len() implies first[i] == second[i] by {
        assert(pairs_view(first)[i] == (first[i].0 as int, first[i].1 as int));
        assert(pairs_view(second)[i] == (second[i].0 as int, second[i].1 as int));
    }
    assert(first =~= second);
}

/// A list of factors is determined by the numbers it stands for.
pub proof fn lemma_factors_are_determined(first: Seq<u64>, second: Seq<u64>)
    requires
        factors_view(first) == factors_view(second),
    ensures
        first == second,
{
    assert(first.len() == factors_view(first).len());
    assert(second.len() == factors_view(second).len());
    assert forall|i: int| 0 <= i < first.len() implies first[i] == second[i] by {
        assert(factors_view(first)[i] == first[i] as nat);
        assert(factors_view(second)[i] == second[i] as nat);
    }
    assert(first =~= second);
}

/// A list of groups is determined by the pairs of numbers it stands for.
pub proof fn lemma_groups_are_determined(first: Seq<(u64, u16)>, second: Seq<(u64, u16)>)
    requires
        groups_view(first) == groups_view(second),
    ensures
        first == second,
{
    assert(first.len() == groups_view(first).len());
    assert(second.len() == groups_view(second).len());
    assert forall|i: int| 0 <= i < first.len() implies first[i] == second[i] by {
        assert(groups_view(first)[i] == (first[i].0 as nat, first[i].1 as nat));
        assert(groups_view(second)[i] == (second[i].0 as nat, second[i].1 as nat));
    }
    assert(first =~= second);
}

/// `(n, k)` is a progression of positive start and step with root `v`.
pub open spec fn is_solution(n: int, k: int, v: int) -> bool {
    n >= 1 && k >= 1 && root_of(n, k) == v
}

/// Every progression of positive start and step with root `v`.
pub open spec fn solutions(v: int) -> Set<(int, int)> {
    Set::new(|p: (int, int)| is_solution(p.0, p.1, v))
}

/// Each pair with start and step exchanged.
pub open spec fn mirrored(pairs: Seq<(int, int)>) -> Seq<(int, int)> {
    pairs.map_values(|p: (int, int)| (p.1, p.0))
}

/// The self-pair `(s, s)`, the matches of the complete search, and the same
/// matches with start and step exchanged.
pub open spec fn all_solutions(s: int) -> Seq<(int, int)> {
    seq![(s, s)] + pairs_below(s, 5 * s * s) + mirrored(pairs_below(s, 5 * s * s))
}

/// The progressions that share the root of the degenerate progression
/// `(s, s)` are that progression and, in both orders, the matches of the
/// complete search; so they are odd in number.
pub proof fn lemma_solution_count_is_odd(s: int)
    requires
        s >= 1,
    ensures
        solutions(5 * s * s).finite(),
        solutions(5 * s * s).len() == total_pair_count(pairs_below(s, 5 * s * s).len()),
        solutions(5 * s * s).len() % 2 == 1,
{
    let v = 5 * s * s;
    let found = pairs_below(s, v);
    let back = mirrored(found);
    let list = all_solutions(s);
    let count = found.len() as int;
    lemma_pairs_below_exact(s, v);
    lemma_root_of_equal(s);
    assert(list.len() == 1 + 2 * count);
    assert(list[0] == (s, s));
    assert forall|i: int| 0 <= i < count implies list[1 + i] == found[i] && list[1 + count + i] == (
        found[i].1,
        found[i].0,
    ) by {
        assert(back[i] == (found[i].1, found[i].0));
    }
    // Entries differ: the self-pair has equal parts, a match the smaller part
    // first, a mirrored match the larger; and the starts of the matches differ.
    assert forall|i: int, j: int| 0 <= i < list.len() && 0 <= j < list.len() && i != j implies list[i]
        != list[j] by {
        if 1 <= i <= count {
            assert(list[i] == found[i - 1]);
        } else if i > count {
            assert(list[i] == (found[i - 1 - count].1, found[i - 1 - count].0));
        }
        if 1 <= j <= count {
            assert(list[j] == found[j - 1]);
        } else if j > count {
            assert(list[j] == (found[j - 1 - count].1, found[j - 1 - count].0));
        }
        if 1 <= i <= count && 1 <= j <= count {
            if i < j {
                assert(found[i - 1].0 < found[j - 1].0);
            } else {
                assert(found[j - 1].0 < found[i - 1].0);
            }
        }
        if i > count && j > count {
            if i < j {
                assert(found[i - 1 - count].0 < found[j - 1 - count].0);
            } else {
                assert(found[j - 1 - count].0 < found[i - 1 - count].0);
            }
        }
    }
    assert(list.no_duplicates());
    assert forall|p: (int, int)| list.to_set().contains(p) <==> solutions(v).contains(p) by {
        if list.contains(p) {
            let i = choose|i: int| 0 <= i < list.len() && list[i] == p;
            if 1 <= i <= count {
                assert(list[i] == found[i - 1]);
            } else if i > count {
                assert(list[i] == (found[i - 1 - count].1, found[i - 1 - count].0));
                lemma_root_symmetric(found[i - 1 - count].0, found[i - 1 - count].1);
            }
        }
        if is_solution(p.0, p.1, v) {
            let (n, k) = p;
            if n == k {
                lemma_root_of_equal(n);
                assert(n == s) by (nonlinear_arith)
                    requires
                        5 * n * n == 5 * s * s,
                        n >= 1,
                        s >= 1,
                ;
                assert(list[0] == p);
            } else if n < k {
                if n >= s {
                    lemma_root_monotonic(s, s, n, k);
                }
                assert(n < s);
                assert(is_match(n, k, v));
                assert(found.contains((n, k)));
                let i = choose|i: int| 0 <= i < found.len() && found[i] == (n, k);
                assert(list[1 + i] == p);
            } else {
                lemma_root_symmetric(n, k);
                if k >= s {
                    lemma_root_monotonic(s, s, k, n);
                }
                assert(k < s);
                assert(is_match(k, n, v));
                assert(found.contains((k, n)));
                let i = choose|i: int| 0 <= i < found.len() && found[i] == (k, n);
                assert(list[1 + count + i] == p);
            }
        }
    }
    assert(list.to_set() =~= solutions(v));
    list.unique_seq_to_set();
    seq_to_set_is_finite(list);
}

} // verus!
