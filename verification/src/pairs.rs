use crate::formula::{lemma_root_monotonic, root_of, MAX_SQUARE_BASE};
use crate::isqrt::{is_perfect_square, lemma_square_root_unique, square};
use vstd::prelude::*;

verus! {

/// How the search for progressions that share a root walks its candidates.
#[derive(Clone, Copy, Debug, PartialEq, Eq, Structural)]
pub enum SearchStrategy {
    /// For each start, scan the steps of a window downwards.
    DoubleLoop,
    /// For each start, solve the quadratic for the step.
    QuadraticSolve,
}

/// `(n, k)` is a progression with root `v` whose step is larger than its start.
pub open spec fn is_match(n: int, k: int, v: int) -> bool {
    n < k && root_of(n, k) == v
}

/// Some step larger than `n` gives the progression that starts at `n` the root `v`.
pub open spec fn has_partner(n: int, v: int) -> bool {
    exists|k: int| is_match(n, k, v)
}

/// The step larger than `n` that gives the root `v`, where there is one.
pub open spec fn partner(n: int, v: int) -> int {
    choose|k: int| is_match(n, k, v)
}

/// Every progression `(n, k)` with `1 <= n < s`, `n < k` and root `v`, by
/// ascending start.
pub open spec fn pairs_below(s: int, v: int) -> Seq<(int, int)>
    decreases s,
{
    if s <= 1 {
        Seq::empty()
    } else {
        let rest = pairs_below(s - 1, v);
        if has_partner(s - 1, v) {
            rest.push((s - 1, partner(s - 1, v)))
        } else {
            rest
        }
    }
}

/// The exclusive upper end of the window of steps that the double loop scans
/// for the sequence value `s`: 2.24 times `s`, rounded down.
pub open spec fn double_loop_bound(s: int) -> int {
    224 * s / 100
}

/// The step `k` lies in the window that the double loop scans for `s`.
pub open spec fn in_window(s: int, k: int) -> bool {
    s < k < double_loop_bound(s)
}

/// Those progressions of `pairs_below(t, v)` whose step lies in the window of `s`.
pub open spec fn window_pairs_below(t: int, s: int, v: int) -> Seq<(int, int)>
    decreases t,
{
    if t <= 1 {
        Seq::empty()
    } else {
        let rest = window_pairs_below(t - 1, s, v);
        if has_partner(t - 1, v) && in_window(s, partner(t - 1, v)) {
            rest.push((t - 1, partner(t - 1, v)))
        } else {
            rest
        }
    }
}

/// The number of matches after which the search stops early: the least count
/// with which the pairs found, the self-pair as one and each match as two,
/// reach the last digit of the divisor sum, where the exit is on and that
/// digit is 3 or 9.
pub open spec fn match_limit(early_exit: bool, sigma2: nat) -> Option<nat> {
    let d10 = sigma2 % 10;
    if early_exit && (d10 == 3 || d10 == 9) {
        Some(((d10 - 1) / 2) as nat)
    } else {
        None
    }
}

/// The first `limit` entries of `full`, or all of it where there is no limit
/// or `full` is no longer than that.
pub open spec fn limited(full: Seq<(int, int)>, limit: Option<nat>) -> Seq<(int, int)> {
    match limit {
        Some(l) => if l < full.len() {
            full.take(l as int)
        } else {
            full
        },
        None => full,
    }
}

/// What a search returns, by strategy.
pub open spec fn search_result(
    s: int,
    v: int,
    strategy: SearchStrategy,
    early_exit: bool,
    sigma2: nat,
) -> Seq<(int, int)> {
    let full = match strategy {
        SearchStrategy::QuadraticSolve => pairs_below(s, v),
        SearchStrategy::DoubleLoop => window_pairs_below(s, s, v),
    };
    limited(full, match_limit(early_exit, sigma2))
}

/// A vector of pairs as a sequence of pairs of integers.
pub open spec fn pairs_view(pairs: Seq<(i64, i64)>) -> Seq<(int, int)> {
    pairs.map_values(|p: (i64, i64)| (p.0 as int, p.1 as int))
}

/// The self-pair counted once and each match twice, for the two orders of its
/// start and step.
pub open spec fn total_pair_count(matches: nat) -> nat {
    1 + 2 * matches
}

/// A start of at least 1 has at most one larger step with a given root.
pub proof fn lemma_partner_unique(n: int, k1: int, k2: int, v: int)
    requires
        n >= 0,
        is_match(n, k1, v),
        is_match(n, k2, v),
    ensures
        k1 == k2,
{
    if k1 < k2 {
        lemma_root_monotonic(n, k1, n, k2);
    } else if k2 < k1 {
        lemma_root_monotonic(n, k2, n, k1);
    }
}

/// A match is the partner of its start.
pub proof fn lemma_match_is_partner(n: int, k: int, v: int)
    requires
        n >= 0,
        is_match(n, k, v),
    ensures
        has_partner(n, v),
        partner(n, v) == k,
{
    lemma_partner_unique(n, k, partner(n, v), v);
}

/// With root `v`, the step solves k² + 3·n·k + (n² − v) = 0: twice the step
/// plus three times the start is a root of the discriminant 5·n² + 4·v.
pub proof fn lemma_match_discriminant(n: int, k: int, v: int)
    ensures
        root_of(n, k) == v <==> square(2 * k + 3 * n) == 5 * n * n + 4 * v,
{
    assert((2 * k + 3 * n) * (2 * k + 3 * n) == 5 * n * n + 4 * (n * k + (n + k) * (n + k)))
        by (nonlinear_arith);
}

/// A start whose own degenerate root reaches `v` has no partner.
pub proof fn lemma_no_partner_beyond(n: int, v: int)
    requires
        n >= 1,
        5 * n * n >= v,
    ensures
        !has_partner(n, v),
{
    assert forall|k: int| !is_match(n, k, v) by {
        if n < k {
            lemma_root_monotonic(n, n, n, k);
            crate::formula::lemma_root_of_equal(n);
        }
    }
}

/// Starts without a partner add nothing to the list.
pub proof fn lemma_pairs_below_stable(a: int, b: int, v: int)
    requires
        1 <= a <= b,
        forall|n: int| a <= n < b ==> !has_partner(n, v),
    ensures
        pairs_below(b, v) == pairs_below(a, v),
    decreases b - a,
{
    if a < b {
        lemma_pairs_below_stable(a, b - 1, v);
    }
}

/// Every entry of the list is a match below `s`, and every such match is in it.
pub proof fn lemma_pairs_below_exact(s: int, v: int)
    ensures
        forall|i: int|
            0 <= i < pairs_below(s, v).len() ==> {
                let p = #[trigger] pairs_below(s, v)[i];
                1 <= p.0 < s && is_match(p.0, p.1, v)
            },
        forall|n: int, k: int|
            1 <= n < s && is_match(n, k, v) ==> pairs_below(s, v).contains((n, k)),
        forall|i: int, j: int|
            0 <= i < j < pairs_below(s, v).len() ==> pairs_below(s, v)[i].0 < pairs_below(s, v)[j].0,
        pairs_below(s, v).len() <= if s <= 1 { 0 } else { s - 1 },
    decreases s,
{
    if s > 1 {
        lemma_pairs_below_exact(s - 1, v);
        let rest = pairs_below(s - 1, v);
        let full = pairs_below(s, v);
        assert forall|n: int, k: int| 1 <= n < s && is_match(n, k, v) implies full.contains(
            (n, k),
        ) by {
            if n < s - 1 {
                assert(rest.contains((n, k)));
                let i = choose|i: int| 0 <= i < rest.len() && rest[i] == (n, k);
                assert(full[i] == (n, k));
            } else {
                lemma_match_is_partner(n, k, v);
                assert(full[full.len() - 1] == (n, k));
            }
        }
    }
}

/// An earlier list is the head of a later one.
pub proof fn lemma_pairs_below_prefix(a: int, b: int, v: int)
    requires
        a <= b,
    ensures
        pairs_below(a, v).len() <= pairs_below(b, v).len(),
        pairs_below(a, v) == pairs_below(b, v).take(pairs_below(a, v).len() as int),
    decreases b - a,
{
    if a < b {
        if b <= 1 {
            assert(pairs_below(a, v) =~= pairs_below(b, v).take(0));
        } else {
            lemma_pairs_below_prefix(a, b - 1, v);
            let len = pairs_below(a, v).len() as int;
            assert(pairs_below(b - 1, v).take(len) =~= pairs_below(b, v).take(len));
        }
    } else {
        assert(pairs_below(a, v) =~= pairs_below(b, v).take(pairs_below(a, v).len() as int));
    }
}

/// The window list holds matches only, and is part of the complete list.
pub proof fn lemma_window_pairs_sound(t: int, s: int, v: int)
    ensures
        forall|i: int|
            0 <= i < window_pairs_below(t, s, v).len() ==> {
                let p = #[trigger] window_pairs_below(t, s, v)[i];
                1 <= p.0 < t && is_match(p.0, p.1, v) && in_window(s, p.1)
            },
    decreases t,
{
    if t > 1 {
        lemma_window_pairs_sound(t - 1, s, v);
        if has_partner(t - 1, v) {
            assert(is_match(t - 1, partner(t - 1, v), v));
        }
        let rest = window_pairs_below(t - 1, s, v);
        assert forall|i: int| 0 <= i < window_pairs_below(t, s, v).len() implies {
            let p = #[trigger] window_pairs_below(t, s, v)[i];
            1 <= p.0 < t && is_match(p.0, p.1, v) && in_window(s, p.1)
        } by {
            if i < rest.len() {
                assert(window_pairs_below(t, s, v)[i] == rest[i]);
            }
        }
    }
}

/// Every pair that a search returns has a start of at least 1 and below `s`,
/// a larger step, and the root `v` in either order of start and step.
pub proof fn lemma_search_result_sound(
    s: int,
    v: int,
    strategy: SearchStrategy,
    early_exit: bool,
    sigma2: nat,
)
    ensures
        forall|i: int|
            0 <= i < search_result(s, v, strategy, early_exit, sigma2).len() ==> {
                let p = #[trigger] search_result(s, v, strategy, early_exit, sigma2)[i];
                1 <= p.0 < s && p.0 < p.1 && root_of(p.0, p.1) == v && root_of(p.1, p.0) == v
            },
{
    lemma_pairs_below_exact(s, v);
    lemma_window_pairs_sound(s, s, v);
    let result = search_result(s, v, strategy, early_exit, sigma2);
    assert forall|i: int| 0 <= i < result.len() implies {
        let p = #[trigger] result[i];
        1 <= p.0 < s && p.0 < p.1 && root_of(p.0, p.1) == v && root_of(p.1, p.0) == v
    } by {
        let p = result[i];
        crate::formula::lemma_root_symmetric(p.0, p.1);
        match strategy {
            SearchStrategy::QuadraticSolve => {
                assert(p == pairs_below(s, v)[i]);
            },
            SearchStrategy::DoubleLoop => {
                assert(p == window_pairs_below(s, s, v)[i]);
            },
        }
    }
}

/// The pairs that share a root, the self-pair counted once and each match
/// twice, are odd in number.
pub proof fn lemma_total_pair_count_odd(matches: nat)
    ensures
        total_pair_count(matches) % 2 == 1,
{
}

/// Among the progressions whose root is that of the degenerate progression
/// `(s, s)`, the step of a match with a start below `s` lies in the window
/// that the double loop scans.
pub proof fn lemma_partner_in_window(s: int, n: int, k: int)
    requires
        1 <= n < s,
        is_match(n, k, 5 * s * s),
    ensures
        in_window(s, k),
{
    crate::formula::lemma_root_of_equal(s);
    if k <= s {
        lemma_root_monotonic(n, k, s, s);
    }
    if k >= double_loop_bound(s) {
        // Then 224·s < 100·(k + 1), so 5·s² < (k + 1)², which the root exceeds.
        assert(50176 * (s * s) < 10000 * ((k + 1) * (k + 1))) by (nonlinear_arith)
            requires
                0 < 224 * s < 100 * (k + 1),
        ;
        assert((k + 1) * (k + 1) <= root_of(1, k)) by (nonlinear_arith)
            requires
                k >= 0,
                root_of(1, k) == 1 * k + (1 + k) * (1 + k),
        ;
        lemma_root_monotonic(1, k, n, k);
        assert(5 * s * s == 5 * (s * s)) by (nonlinear_arith);
    }
}

/// For the root of the degenerate progression `(s, s)`, the window of the
/// double loop misses no match: up to any start, its list is the complete one.
pub proof fn lemma_window_is_complete(t: int, s: int)
    requires
        t <= s,
    ensures
        window_pairs_below(t, s, 5 * s * s) == pairs_below(t, 5 * s * s),
    decreases t,
{
    if t > 1 {
        lemma_window_is_complete(t - 1, s);
        let v = 5 * s * s;
        if has_partner(t - 1, v) {
            assert(is_match(t - 1, partner(t - 1, v), v));
            lemma_partner_in_window(s, t - 1, partner(t - 1, v));
        }
    }
}

/// On the root of the degenerate progression `(s, s)`, the double loop and
/// the quadratic solve return the same pairs, with or without the early exit.
pub proof fn lemma_strategies_agree(s: int, early_exit: bool, sigma2: nat)
    ensures
        search_result(s, 5 * s * s, SearchStrategy::DoubleLoop, early_exit, sigma2)
            == search_result(s, 5 * s * s, SearchStrategy::QuadraticSolve, early_exit, sigma2),
{
    lemma_window_is_complete(s, s);
}

/// The number of matches after which the search stops early, if any.
fn stop_after(early_exit: bool, sigma2: u128) -> (limit: Option<usize>)
    ensures
        match limit {
            Some(l) => match_limit(early_exit, sigma2 as nat) == Some(l as nat) && l >= 1,
            None => match_limit(early_exit, sigma2 as nat).is_none(),
        },
{
    let d10: u128 = sigma2 % 10;
    if early_exit && d10 == 3 {
        Some(1)
    } else if early_exit && d10 == 9 {
        Some(4)
    } else {
        None
    }
}

/// The step larger than `n` with which the progression from `n` has root `v`,
/// by the quadratic formula: the discriminant 5·n² + 4·v must be a perfect
/// square, and its root less three times `n` positive and even.
fn solve_step(n: i64, v: i64) -> (step: Option<i64>)
    requires
        1 <= n <= MAX_SQUARE_BASE,
        5 * n * n < v,
    ensures
        match step {
            Some(k) => is_match(n as int, k as int, v as int),
            None => !has_partner(n as int, v as int),
        },
{
    let nw: i128 = n as i128;
    let vw: i128 = v as i128;
    proof {
        assert(0 <= nw * nw <= 3_037_000_499 * 3_037_000_499) by (nonlinear_arith)
            requires
                1 <= nw <= 3_037_000_499,
        ;
        assert(5 * (nw * nw) == 5 * nw * nw) by (nonlinear_arith);
    }
    let disc: i128 = 5 * (nw * nw) + 4 * vw;
    let found = is_perfect_square(disc);
    let mut step: Option<i64> = None;
    if let Some(r) = found {
        proof {
            // The root of a discriminant below 2^66 is below 2^33.
            assert(r < 0x2_0000_0000) by (nonlinear_arith)
                requires
                    r >= 0,
                    r * r == disc,
                    disc < 0x4_0000_0000_0000_0000,
            ;
        }
        let num: i128 = r - 3 * nw;
        if num > 0 {
            if num % 2 == 0 {
                let k: i128 = num / 2;
                if k > nw {
                    proof {
                        assert(2 * k + 3 * nw == r);
                        lemma_match_discriminant(nw as int, k as int, vw as int);
                    }
                    step = Some(k as i64);
                }
            }
        }
    }
    proof {
        if step.is_none() && has_partner(n as int, v as int) {
            let k = partner(n as int, v as int);
            let x = 2 * k + 3 * n;
            lemma_match_discriminant(n as int, k, v as int);
            assert(square(x) == disc);
            match found {
                Some(r) => {
                    lemma_square_root_unique(r as int, x);
                    assert(r - 3 * nw == 2 * k);
                    assert(false);
                },
                None => {
                    assert(false);
                },
            }
        }
    }
    step
}

/// The search by direct quadratic solve: for each start from 1 up to, not
/// including, `s`, the one larger step that gives the root `v`, if there is
/// one. With `early_exit` on and a divisor sum `sigma2` whose last digit is 3
/// or 9, the search stops once the pairs found, the self-pair counted as one
/// and each match as two, reach that digit; the list is then the head of the
/// complete one.
pub fn get_pairs(s: i64, v: i64, early_exit: bool, sigma2: u128) -> (pairs: Vec<(i64, i64)>)
    ensures
        pairs_view(pairs@) == search_result(
            s as int,
            v as int,
            SearchStrategy::QuadraticSolve,
            early_exit,
            sigma2 as nat,
        ),
{
    let limit = stop_after(early_exit, sigma2);
    let mut pairs: Vec<(i64, i64)> = Vec::new();
    let mut n2: i64 = 1;
    assert(pairs_view(pairs@) =~= pairs_below(1, v as int));
    while n2 < s
        invariant
            1 <= n2,
            n2 <= s || n2 == 1,
            pairs_view(pairs@) == pairs_below(n2 as int, v as int),
            match limit {
                Some(l) => match_limit(early_exit, sigma2 as nat) == Some(l as nat) && pairs.len()
                    < l,
                None => match_limit(early_exit, sigma2 as nat).is_none(),
            },
        decreases s - n2,
    {
        let mut exhausted: bool = n2 > MAX_SQUARE_BASE;
        if !exhausted {
            proof {
                assert(0 <= n2 * n2 <= 3_037_000_499 * 3_037_000_499) by (nonlinear_arith)
                    requires
                        1 <= n2 <= 3_037_000_499,
                ;
                assert(5 * (n2 * n2) == 5 * n2 * n2) by (nonlinear_arith);
            }
            exhausted = 5 * ((n2 as i128) * (n2 as i128)) >= v as i128;
        }
        if exhausted {
            // No later start can reach `v`: its own degenerate root is too large.
            proof {
                if n2 > MAX_SQUARE_BASE {
                    assert(5 * n2 * n2 >= v) by (nonlinear_arith)
                        requires
                            n2 > 3_037_000_499,
                            v <= 0x7fff_ffff_ffff_ffff,
                    ;
                }
                assert forall|n: int| n2 <= n < s implies !has_partner(n, v as int) by {
                    assert(5 * n * n >= v) by (nonlinear_arith)
                        requires
                            1 <= n2 <= n,
                            5 * n2 * n2 >= v,
                    ;
                    lemma_no_partner_beyond(n, v as int);
                }
                lemma_pairs_below_stable(n2 as int, s as int, v as int);
            }
            return pairs;
        }
        let ghost before = pairs@;
        match solve_step(n2, v) {
            Some(k2) => {
                pairs.push((n2, k2));
                proof {
                    lemma_match_is_partner(n2 as int, k2 as int, v as int);
                    assert(pairs_view(pairs@) =~= pairs_view(before).push((n2 as int, k2 as int)));
                }
                if let Some(l) = limit {
                    if pairs.len() >= l {
                        proof {
                            lemma_pairs_below_prefix(n2 + 1, s as int, v as int);
                            let full = pairs_below(s as int, v as int);
                            if !(l < full.len()) {
                                assert(full.take(l as int) =~= full);
                            }
                        }
                        return pairs;
                    }
                }
            },
            None => {},
        }
        n2 = n2 + 1;
    }
    proof {
        if s <= 1 {
            assert(pairs_below(s as int, v as int) =~= pairs_below(1, v as int));
        }
        assert(pairs_view(pairs@).len() == pairs.len());
    }
    pairs
}


/// An earlier window list is the head of a later one.
pub proof fn lemma_window_pairs_prefix(a: int, b: int, s: int, v: int)
    requires
        a <= b,
    ensures
        window_pairs_below(a, s, v).len() <= window_pairs_below(b, s, v).len(),
        window_pairs_below(a, s, v) == window_pairs_below(b, s, v).take(
            window_pairs_below(a, s, v).len() as int,
        ),
    decreases b - a,
{
    let head = window_pairs_below(a, s, v);
    if a < b {
        if b <= 1 {
            assert(head =~= window_pairs_below(b, s, v).take(0));
        } else {
            lemma_window_pairs_prefix(a, b - 1, s, v);
            let len = head.len() as int;
            assert(window_pairs_below(b - 1, s, v).take(len) =~= window_pairs_below(b, s, v).take(
                len,
            ));
        }
    } else {
        assert(head =~= window_pairs_below(b, s, v).take(head.len() as int));
    }
}

/// Starts without a partner in the window add nothing to the window list.
pub proof fn lemma_window_pairs_stable(a: int, b: int, s: int, v: int)
    requires
        1 <= a <= b,
        forall|n: int| a <= n < b ==> !(has_partner(n, v) && in_window(s, partner(n, v))),
    ensures
        window_pairs_below(b, s, v) == window_pairs_below(a, s, v),
    decreases b - a,
{
    if a < b {
        lemma_window_pairs_stable(a, b - 1, s, v);
    }
}

/// Past a match `(n, k)` whose step is at least two above its start, no later
/// start has a match with a step of `k - 1` or more: the steps of the matches
/// fall as the starts rise.
pub proof fn lemma_later_steps_are_smaller(n: int, k: int, m: int, j: int, v: int)
    requires
        1 <= n < m,
        n + 2 <= k,
        k - 1 <= j,
        root_of(n, k) == v,
    ensures
        root_of(m, j) > v,
{
    assert(root_of(n + 1, k - 1) == root_of(n, k) + (k - n - 1)) by (nonlinear_arith)
        requires
            root_of(n + 1, k - 1) == (n + 1) * (k - 1) + ((n + 1) + (k - 1)) * ((n + 1) + (k - 1)),
            root_of(n, k) == n * k + (n + k) * (n + k),
    ;
    lemma_root_monotonic(n + 1, k - 1, m, j);
}

/// The largest step in `lower .. upper` with which the progression from `n`
/// has root `v`, scanning downwards.
fn scan_window(n: i64, v: i64, lower: i128, upper: i128) -> (hit: Option<i64>)
    requires
        1 <= n < lower,
        upper <= MAX_SQUARE_BASE + 1,
    ensures
        match hit {
            Some(k) => lower <= k < upper && root_of(n as int, k as int) == v,
            None => forall|k: int| lower <= k < upper ==> root_of(n as int, k) != v,
        },
{
    if upper <= lower {
        return None;
    }
    let nw: i128 = n as i128;
    let mut k2: i128 = upper - 1;
    while k2 >= lower
        invariant
            nw == n,
            1 <= n < lower,
            lower - 1 <= k2 < upper <= MAX_SQUARE_BASE + 1,
            forall|k: int| k2 < k < upper ==> root_of(n as int, k) != v,
        decreases k2 - lower + 1,
    {
        proof {
            assert(0 <= nw * k2 <= 3_037_000_500 * 3_037_000_500) by (nonlinear_arith)
                requires
                    0 <= nw <= 3_037_000_500,
                    0 <= k2 <= 3_037_000_500,
            ;
            let sum = nw + k2;
            assert(0 <= sum * sum <= 6_074_001_000 * 6_074_001_000) by (nonlinear_arith)
                requires
                    0 <= sum <= 6_074_001_000,
            ;
        }
        let value: i128 = nw * k2 + (nw + k2) * (nw + k2);
        if value == v as i128 {
            return Some(k2 as i64);
        }
        k2 = k2 - 1;
    }
    None
}

/// The search by bounded double loop: for each start from 1 up to, not
/// including, `s`, the steps from just below `double_loop_bound(s)` down to
/// `s + 1` are tried until one gives the root `v`; after a match the scan for
/// later starts begins two below the step found. The result is every match
/// whose step lies in that window, by ascending start. With `early_exit` on
/// and a divisor sum `sigma2` whose last digit is 3 or 9, the search stops as
/// in `get_pairs`.
pub fn get_pairs_old(s: i64, v: i64, early_exit: bool, sigma2: u128) -> (pairs: Vec<(i64, i64)>)
    ensures
        pairs_view(pairs@) == search_result(
            s as int,
            v as int,
            SearchStrategy::DoubleLoop,
            early_exit,
            sigma2 as nat,
        ),
{
    let limit = stop_after(early_exit, sigma2);
    let mut pairs: Vec<(i64, i64)> = Vec::new();
    if s <= 1 {
        assert(pairs_view(pairs@) =~= window_pairs_below(s as int, s as int, v as int));
        return pairs;
    }
    let bound: i128 = 224 * (s as i128) / 100;
    let cap: i128 = MAX_SQUARE_BASE as i128 + 1;
    let lower: i128 = s as i128 + 1;
    let mut upper: i128 = if bound < cap {
        bound
    } else {
        cap
    };
    let mut n2: i64 = 1;
    proof {
        assert(pairs_view(pairs@) =~= window_pairs_below(1, s as int, v as int));
        // A step whose square exceeds every `i64` is part of no match.
        assert forall|n: int, k: int| 1 <= n && upper <= k < bound implies #[trigger] root_of(n, k)
            != v by {
            assert(n * k + (n + k) * (n + k) > 0x7fff_ffff_ffff_ffff) by (nonlinear_arith)
                requires
                    1 <= n,
                    3_037_000_500 <= k,
            ;
        }
    }
    while n2 < s
        invariant
            1 <= n2 <= s,
            lower == s + 1,
            bound == double_loop_bound(s as int),
            upper <= bound,
            upper <= MAX_SQUARE_BASE + 1,
            pairs_view(pairs@) == window_pairs_below(n2 as int, s as int, v as int),
            forall|n: int, k: int| n2 <= n && upper <= k < bound ==> #[trigger] root_of(n, k) != v,
            match limit {
                Some(l) => match_limit(early_exit, sigma2 as nat) == Some(l as nat) && pairs.len()
                    < l,
                None => match_limit(early_exit, sigma2 as nat).is_none(),
            },
        decreases s - n2,
    {
        if upper <= lower {
            // The window is used up: no step in it is left for any later start.
            proof {
                assert forall|n: int| n2 <= n < s implies !(has_partner(n, v as int) && in_window(
                    s as int,
                    partner(n, v as int),
                )) by {
                    if has_partner(n, v as int) {
                        assert(is_match(n, partner(n, v as int), v as int));
                    }
                }
                lemma_window_pairs_stable(n2 as int, s as int, s as int, v as int);
            }
            return pairs;
        }
        let ghost before = pairs@;
        match scan_window(n2, v, lower, upper) {
            Some(k2) => {
                pairs.push((n2, k2));
                proof {
                    lemma_match_is_partner(n2 as int, k2 as int, v as int);
                    assert(pairs_view(pairs@) =~= pairs_view(before).push((n2 as int, k2 as int)));
                    assert forall|n: int, k: int| n2 + 1 <= n && k2 - 1 <= k < bound implies
                        #[trigger] root_of(n, k) != v by {
                        lemma_later_steps_are_smaller(n2 as int, k2 as int, n, k, v as int);
                    }
                }
                upper = k2 as i128 - 1;
                if let Some(l) = limit {
                    if pairs.len() >= l {
                        proof {
                            lemma_window_pairs_prefix(n2 + 1, s as int, s as int, v as int);
                            let full = window_pairs_below(s as int, s as int, v as int);
                            if !(l < full.len()) {
                                assert(full.take(l as int) =~= full);
                            }
                        }
                        return pairs;
                    }
                }
            },
            None => {
                proof {
                    if has_partner(n2 as int, v as int) {
                        assert(is_match(n2 as int, partner(n2 as int, v as int), v as int));
                    }
                }
            },
        }
        n2 = n2 + 1;
    }
    proof {
        assert(pairs_view(pairs@).len() == pairs.len());
    }
    pairs
}

/// Every progression `(n, k)` with `1 <= n < s`, `n < k` and root `v` that the
/// chosen strategy reaches, by ascending start; with `early_exit` on and a
/// divisor sum `sigma2` whose last digit is 3 or 9, only the head of that list
/// with which the pairs found reach that digit.
pub fn find_pairs(s: i64, v: i64, strategy: SearchStrategy, early_exit: bool, sigma2: u128) -> (pairs:
    Vec<(i64, i64)>)
    ensures
        pairs_view(pairs@) == search_result(s as int, v as int, strategy, early_exit, sigma2 as nat),
        forall|i: int|
            0 <= i < pairs.len() ==> {
                let p = #[trigger] pairs[i];
                1 <= p.0 < s && p.0 < p.1 && root_of(p.0 as int, p.1 as int) == v && root_of(
                    p.1 as int,
                    p.0 as int,
                ) == v
            },
        total_pair_count(pairs.len() as nat) % 2 == 1,
{
    let pairs = match strategy {
        SearchStrategy::DoubleLoop => get_pairs_old(s, v, early_exit, sigma2),
        SearchStrategy::QuadraticSolve => get_pairs(s, v, early_exit, sigma2),
    };
    proof {
        lemma_search_result_sound(s as int, v as int, strategy, early_exit, sigma2 as nat);
        assert forall|i: int| 0 <= i < pairs.len() implies {
            let p = #[trigger] pairs[i];
            1 <= p.0 < s && p.0 < p.1 && root_of(p.0 as int, p.1 as int) == v && root_of(
                p.1 as int,
                p.0 as int,
            ) == v
        } by {
            assert(pairs_view(pairs@)[i] == (pairs[i].0 as int, pairs[i].1 as int));
        }
    }
    pairs
}


} // verus!
