use crate::divisibility::{
    divides, is_prime, least_prime_factor, lemma_divides_quotient, lemma_divides_transitive,
    lemma_least_prime_factor, lemma_multiple_divides,
};
use vstd::arithmetic::div_mod::lemma_div_decreases;
use vstd::arithmetic::power::{
    lemma0_pow, lemma_pow0, lemma_pow1, lemma_pow_adds, lemma_pow_positive, pow,
};
use vstd::prelude::*;

verus! {

/// The product of the entries of a sequence; 1 for the empty one.
pub open spec fn product(s: Seq<nat>) -> nat
    decreases s.len(),
{
    if s.len() == 0 {
        1
    } else {
        product(s.drop_last()) * s.last()
    }
}

/// The prime factors of `m` with repetition, in ascending order; empty for 0
/// and 1.
pub open spec fn prime_factors_of(m: nat) -> Seq<nat>
    decreases m,
    via prime_factors_of_decreases
{
    if m <= 1 {
        Seq::empty()
    } else {
        seq![least_prime_factor(m)] + prime_factors_of(m / least_prime_factor(m))
    }
}

#[via_fn]
proof fn prime_factors_of_decreases(m: nat) {
    if m > 1 {
        lemma_least_prime_factor(m);
        lemma_div_decreases(m as int, least_prime_factor(m) as int);
    }
}

/// Adjacent equal entries of `s` folded into pairs of value and count, in the
/// order of `s`.
pub open spec fn group_runs(s: Seq<nat>) -> Seq<(nat, nat)>
    decreases s.len(),
{
    if s.len() == 0 {
        Seq::empty()
    } else {
        let head = group_runs(s.drop_last());
        if head.len() > 0 && head.last().0 == s.last() {
            head.drop_last().push((s.last(), head.last().1 + 1))
        } else {
            head.push((s.last(), 1))
        }
    }
}

/// Each group's value repeated as often as its count, in order: the inverse
/// of `group_runs`.
pub open spec fn expand_runs(groups: Seq<(nat, nat)>) -> Seq<nat>
    decreases groups.len(),
{
    if groups.len() == 0 {
        Seq::empty()
    } else {
        expand_runs(groups.drop_last()) + Seq::new(groups.last().1, |i: int| groups.last().0)
    }
}

/// The product of the prime powers that the groups stand for.
pub open spec fn group_product(groups: Seq<(nat, nat)>) -> nat
    decreases groups.len(),
{
    if groups.len() == 0 {
        1
    } else {
        group_product(groups.drop_last()) * (pow(groups.last().0 as int, groups.last().1) as nat)
    }
}

/// The groups are powers of distinct primes, by ascending prime, each with an
/// exponent of at least 1.
pub open spec fn is_prime_power_list(groups: Seq<(nat, nat)>) -> bool {
    &&& forall|i: int| 0 <= i < groups.len() ==> is_prime(#[trigger] groups[i].0) && groups[i].1 >= 1
    &&& forall|i: int, j: int| 0 <= i < j < groups.len() ==> groups[i].0 < groups[j].0
}

/// No entry is smaller than an earlier one.
pub open spec fn is_ascending(s: Seq<nat>) -> bool {
    forall|i: int, j: int| 0 <= i < j < s.len() ==> s[i] <= s[j]
}

/// A power of a natural number is a natural number.
pub proof fn lemma_pow_nonnegative(b: nat, e: nat)
    ensures
        pow(b as int, e) >= 0,
{
    if b > 0 {
        lemma_pow_positive(b as int, e);
    } else if e > 0 {
        lemma0_pow(e);
    } else {
        lemma_pow0(0);
    }
}

/// The product of a concatenation is the product of the products.
pub proof fn lemma_product_concat(a: Seq<nat>, b: Seq<nat>)
    ensures
        product(a + b) == product(a) * product(b),
    decreases b.len(),
{
    if b.len() == 0 {
        assert(a + b =~= a);
        assert(product(a) * 1 == product(a)) by (nonlinear_arith);
    } else {
        assert((a + b).drop_last() =~= a + b.drop_last());
        lemma_product_concat(a, b.drop_last());
        assert(product(a) * product(b.drop_last()) * b.last() == product(a) * (product(
            b.drop_last(),
        ) * b.last())) by (nonlinear_arith);
    }
}

/// A product of `len` entries that are all at least 2 is at least 2 to the `len`.
pub proof fn lemma_product_lower_bound(s: Seq<nat>)
    requires
        forall|i: int| 0 <= i < s.len() ==> s[i] >= 2,
    ensures
        product(s) >= pow(2, s.len()),
    decreases s.len(),
{
    if s.len() == 0 {
        lemma_pow0(2);
    } else {
        lemma_product_lower_bound(s.drop_last());
        let rest = product(s.drop_last());
        let half = pow(2, (s.len() - 1) as nat);
        lemma_pow_positive(2, (s.len() - 1) as nat);
        lemma_pow_adds(2, (s.len() - 1) as nat, 1);
        lemma_pow1(2);
        assert(rest * s.last() >= half * 2) by (nonlinear_arith)
            requires
                rest >= half,
                half > 0,
                s.last() >= 2,
        ;
    }
}

/// The list of prime factors holds primes that divide `m`, in ascending
/// order, and their product is `m`.
pub proof fn lemma_prime_factors_of(m: nat)
    requires
        m >= 1,
    ensures
        forall|i: int|
            0 <= i < prime_factors_of(m).len() ==> is_prime(#[trigger] prime_factors_of(m)[i])
                && divides(prime_factors_of(m)[i], m),
        is_ascending(prime_factors_of(m)),
        product(prime_factors_of(m)) == m,
    decreases m,
{
    if m >= 2 {
        let p = least_prime_factor(m);
        lemma_least_prime_factor(m);
        lemma_divides_quotient(p, m);
        let c = m / p;
        let rest = prime_factors_of(c);
        let all = prime_factors_of(m);
        lemma_div_decreases(m as int, p as int);
        lemma_prime_factors_of(c);
        assert(c * p == p * c) by (nonlinear_arith);
        lemma_multiple_divides(c, p);
        assert forall|i: int| 0 <= i < all.len() implies is_prime(#[trigger] all[i]) && divides(
            all[i],
            m,
        ) by {
            if i > 0 {
                assert(all[i] == rest[i - 1]);
                lemma_divides_transitive(rest[i - 1], c, m);
            }
        }
        assert forall|i: int, j: int| 0 <= i < j < all.len() implies all[i] <= all[j] by {
            assert(is_prime(all[j]) && divides(all[j], m));
            if i > 0 {
                assert(all[i] == rest[i - 1] && all[j] == rest[j - 1]);
            }
        }
        lemma_product_concat(seq![p], rest);
        assert(seq![p].drop_last() =~= Seq::<nat>::empty());
        assert(product(seq![p]) == p) by {
            assert(product(Seq::<nat>::empty()) == 1);
            assert(1 * p == p) by (nonlinear_arith);
        }
    } else {
        assert(product(prime_factors_of(m)) == 1);
    }
}

/// What one more entry does to the groups: those before the last keep value
/// and count, the last either grows by one or a new group follows it.
pub proof fn lemma_group_runs_push(s: Seq<nat>, x: nat)
    ensures
        group_runs(s).len() <= group_runs(s.push(x)).len(),
        forall|i: int|
            0 <= i < group_runs(s).len() ==> (#[trigger] group_runs(s.push(x))[i]).0 == group_runs(
                s,
            )[i].0 && group_runs(s.push(x))[i].1 >= group_runs(s)[i].1,
        group_runs(s.push(x)).len() > 0,
        group_runs(s.push(x)).last().0 == x,
{
    assert(s.push(x).drop_last() =~= s);
}

/// The groups of a head of `s` are, one by one, groups of `s` with a count
/// that is no larger.
pub proof fn lemma_group_runs_take(s: Seq<nat>, j: int)
    requires
        0 <= j <= s.len(),
    ensures
        group_runs(s.take(j)).len() <= group_runs(s).len(),
        forall|i: int|
            0 <= i < group_runs(s.take(j)).len() ==> (#[trigger] group_runs(s)[i]).0 == group_runs(
                s.take(j),
            )[i].0 && group_runs(s)[i].1 >= group_runs(s.take(j))[i].1,
    decreases s.len() - j,
{
    if j == s.len() {
        assert(s.take(j) =~= s);
    } else {
        assert(s.take(j + 1) =~= s.take(j).push(s[j]));
        lemma_group_runs_push(s.take(j), s[j]);
        lemma_group_runs_take(s, j + 1);
        let a = group_runs(s.take(j));
        let b = group_runs(s.take(j + 1));
        assert forall|i: int| 0 <= i < a.len() implies (#[trigger] group_runs(s)[i]).0 == a[i].0
            && group_runs(s)[i].1 >= a[i].1 by {
            assert(b[i].0 == a[i].0 && b[i].1 >= a[i].1);
        }
    }
}

/// No count of a group exceeds the length of the sequence.
pub proof fn lemma_group_runs_counts(s: Seq<nat>)
    ensures
        group_runs(s).len() <= s.len(),
        forall|i: int| 0 <= i < group_runs(s).len() ==> 1 <= (#[trigger] group_runs(s)[i]).1 <= s.len(),
    decreases s.len(),
{
    if s.len() > 0 {
        lemma_group_runs_counts(s.drop_last());
    }
}

/// Expanding the groups of a sequence gives the sequence back.
pub proof fn lemma_expand_group_runs(s: Seq<nat>)
    ensures
        expand_runs(group_runs(s)) == s,
    decreases s.len(),
{
    if s.len() > 0 {
        let t = s.drop_last();
        let x = s.last();
        let head = group_runs(t);
        let all = group_runs(s);
        lemma_expand_group_runs(t);
        lemma_group_runs_counts(t);
        if head.len() > 0 && head.last().0 == x {
            let c = head.last().1;
            assert(all.drop_last() =~= head.drop_last());
            assert(expand_runs(head) == expand_runs(head.drop_last()) + Seq::new(c, |i: int| x));
            assert(Seq::new(c + 1, |i: int| x) =~= Seq::new(c, |i: int| x).push(x));
            assert(expand_runs(all) =~= expand_runs(head).push(x));
        } else {
            assert(all.drop_last() =~= head);
            assert(Seq::new(1, |i: int| x) =~= seq![x]);
            assert(expand_runs(all) =~= expand_runs(head).push(x));
        }
        assert(t.push(x) =~= s);
    }
}

/// Every group's value is an entry of the sequence.
pub proof fn lemma_group_runs_values(s: Seq<nat>)
    ensures
        forall|i: int| 0 <= i < group_runs(s).len() ==> s.contains((#[trigger] group_runs(s)[i]).0),
    decreases s.len(),
{
    if s.len() > 0 {
        let t = s.drop_last();
        let head = group_runs(t);
        let all = group_runs(s);
        lemma_group_runs_values(t);
        assert(s[s.len() - 1] == s.last());
        assert forall|i: int| 0 <= i < all.len() implies s.contains((#[trigger] all[i]).0) by {
            if i < all.len() - 1 {
                assert(all[i] == head[i]);
                let k = choose|k: int| 0 <= k < t.len() && t[k] == head[i].0;
                assert(s[k] == head[i].0);
            }
        }
    }
}

/// The groups stand for the product of the sequence.
pub proof fn lemma_group_runs_product(s: Seq<nat>)
    ensures
        group_product(group_runs(s)) == product(s),
    decreases s.len(),
{
    if s.len() > 0 {
        let t = s.drop_last();
        let x = s.last();
        let head = group_runs(t);
        let all = group_runs(s);
        lemma_group_runs_product(t);
        if head.len() > 0 && head.last().0 == x {
            let c = head.last().1;
            assert(all.drop_last() =~= head.drop_last());
            lemma_pow_adds(x as int, c, 1);
            lemma_pow1(x as int);
            lemma_pow_nonnegative(x, c);
            lemma_pow_nonnegative(x, c + 1);
            let base = group_product(head.drop_last());
            assert(base * (pow(x as int, c) * x) == (base * pow(x as int, c)) * x)
                by (nonlinear_arith);
        } else {
            assert(all.drop_last() =~= head);
            lemma_pow1(x as int);
        }
    }
}

/// The groups of an ascending sequence have strictly ascending values that
/// are entries of the sequence.
pub proof fn lemma_group_runs_ascending(s: Seq<nat>)
    requires
        is_ascending(s),
    ensures
        forall|i: int, j: int|
            0 <= i < j < group_runs(s).len() ==> group_runs(s)[i].0 < group_runs(s)[j].0,
        forall|i: int|
            0 <= i < group_runs(s).len() ==> s.contains((#[trigger] group_runs(s)[i]).0)
                && group_runs(s)[i].1 >= 1,
        s.len() > 0 ==> group_runs(s).len() > 0 && group_runs(s).last().0 == s.last(),
    decreases s.len(),
{
    if s.len() > 0 {
        let t = s.drop_last();
        let x = s.last();
        let head = group_runs(t);
        let all = group_runs(s);
        lemma_group_runs_ascending(t);
        assert forall|i: int| 0 <= i < head.len() implies s.contains((#[trigger] head[i]).0) by {
            let k = choose|k: int| 0 <= k < t.len() && t[k] == head[i].0;
            assert(s[k] == head[i].0);
        }
        assert(s[s.len() - 1] == x);
        if head.len() > 0 && head.last().0 == x {
            let c = head.last().1;
            assert(all.drop_last() =~= head.drop_last());
            assert forall|i: int| 0 <= i < all.len() implies s.contains((#[trigger] all[i]).0)
                && all[i].1 >= 1 by {
                if i < all.len() - 1 {
                    assert(all[i] == head[i]);
                }
            }
        } else {
            assert(all.drop_last() =~= head);
            if head.len() > 0 {
                assert(t[t.len() - 1] == s[t.len() - 1]);
                assert(head.last().0 < x);
            }
            assert forall|i: int| 0 <= i < all.len() implies s.contains((#[trigger] all[i]).0)
                && all[i].1 >= 1 by {
                if i < all.len() - 1 {
                    assert(all[i] == head[i]);
                }
            }
        }
    }
}

/// The groups of the prime factors of `m` are powers of distinct primes whose
/// product is `m`.
pub proof fn lemma_groups_of_prime_factors(m: nat)
    requires
        m >= 1,
    ensures
        is_prime_power_list(group_runs(prime_factors_of(m))),
        group_product(group_runs(prime_factors_of(m))) == m,
{
    let s = prime_factors_of(m);
    lemma_prime_factors_of(m);
    lemma_group_runs_ascending(s);
    lemma_group_runs_product(s);
    let g = group_runs(s);
    assert forall|i: int| 0 <= i < g.len() implies is_prime(#[trigger] g[i].0) && g[i].1 >= 1 by {
        assert(s.contains(g[i].0));
        let k = choose|k: int| 0 <= k < s.len() && s[k] == g[i].0;
        assert(is_prime(s[k]));
    }
}

} // verus!
