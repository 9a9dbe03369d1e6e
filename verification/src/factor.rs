use crate::divisibility::{
    divides, is_prime, least_prime_factor, lemma_composite_has_small_factor,
    lemma_divides_quotient, lemma_divides_transitive, lemma_least_prime_factor,
    lemma_multiple_divides, lemma_prime_least_factor,
};
use crate::error::EngineError;
use crate::factorization::{
    group_product, group_runs, is_prime_power_list, lemma_group_runs_counts,
    lemma_group_runs_product, lemma_group_runs_take, lemma_group_runs_values,
    lemma_groups_of_prime_factors, lemma_product_lower_bound, prime_factors_of, product,
};
use vstd::arithmetic::div_mod::{lemma_div_by_self, lemma_div_decreases};
use vstd::arithmetic::power::lemma_pow_increases;
use vstd::arithmetic::power2::{lemma2_to64, lemma_pow2};
use vstd::prelude::*;

verus! {

/// The entries are at least 2 and strictly ascending.
pub open spec fn is_valid_table(t: Seq<u64>) -> bool {
    &&& forall|i: int| 0 <= i < t.len() ==> #[trigger] t[i] >= 2
    &&& forall|i: int, j: int| 0 <= i < j < t.len() ==> t[i] < t[j]
}

/// `q` is an entry of the table.
pub open spec fn in_table(t: Seq<u64>, q: nat) -> bool {
    exists|i: int| 0 <= i < t.len() && t[i] as nat == q
}

/// The table holds every prime whose square does not exceed `m`: it is
/// complete up to the square root of `m`.
pub open spec fn table_covers(t: Seq<u64>, m: nat) -> bool {
    forall|q: nat| is_prime(q) && q * q <= m ==> #[trigger] in_table(t, q)
}

/// A list of factors as a sequence of natural numbers.
pub open spec fn factors_view(s: Seq<u64>) -> Seq<nat> {
    s.map_values(|x: u64| x as nat)
}

/// A list of prime-power groups as a sequence of pairs of natural numbers.
pub open spec fn groups_view(s: Seq<(u64, u16)>) -> Seq<(nat, nat)> {
    s.map_values(|g: (u64, u16)| (g.0 as nat, g.1 as nat))
}

/// How often `p` divides `n` in a row.
pub open spec fn multiplicity(n: nat, p: nat) -> nat
    decreases n,
    via multiplicity_decreases
{
    if p >= 2 && n >= 1 && n % p == 0 {
        1 + multiplicity(n / p, p)
    } else {
        0
    }
}

#[via_fn]
proof fn multiplicity_decreases(n: nat, p: nat) {
    if p >= 2 && n >= 1 {
        lemma_div_decreases(n as int, p as int);
    }
}

/// What is left of `n` once `p` is divided out as often as it divides.
pub open spec fn without_factor(n: nat, p: nat) -> nat
    decreases n,
    via without_factor_decreases
{
    if p >= 2 && n >= 1 && n % p == 0 {
        without_factor(n / p, p)
    } else {
        n
    }
}

#[via_fn]
proof fn without_factor_decreases(n: nat, p: nat) {
    if p >= 2 && n >= 1 {
        lemma_div_decreases(n as int, p as int);
    }
}

/// `count` copies of `p`.
pub open spec fn repeated(p: nat, count: nat) -> Seq<nat> {
    Seq::new(count, |k: int| p)
}

/// The factors that trial division finds in `n` from the table's entry `i`
/// on: each entry as often as it divides what is left, in the table's order,
/// until the square of an entry exceeds what is left or the table ends; then
/// what is left, if above 1.
pub open spec fn trial_division(n: nat, t: Seq<u64>, i: int) -> Seq<nat>
    decreases t.len() - i,
{
    if i < 0 || i >= t.len() || t[i] * t[i] > n {
        if n > 1 {
            seq![n]
        } else {
            Seq::empty()
        }
    } else {
        repeated(t[i] as nat, multiplicity(n, t[i] as nat)) + trial_division(
            without_factor(n, t[i] as nat),
            t,
            i + 1,
        )
    }
}

/// An ascending table of trial divisors, each at least 2. Factorisation is
/// exact for every number up to the square of which the table holds all
/// primes.
pub struct PrimeTable {
    primes: Vec<u64>,
}

impl View for PrimeTable {
    type V = Seq<u64>;

    closed spec fn view(&self) -> Seq<u64> {
        self.primes@
    }
}

impl PrimeTable {
    #[verifier::type_invariant]
    spec fn well_formed(self) -> bool {
        is_valid_table(self.primes@)
    }

    /// The table with the entries of `primes`, or `MalformedPrimeTable` where
    /// they are not strictly ascending or one of them is below 2.
    pub fn new(primes: Vec<u64>) -> (r: Result<PrimeTable, EngineError>)
        ensures
            match r {
                Ok(table) => table@ == primes@ && is_valid_table(primes@),
                Err(e) => e == EngineError::MalformedPrimeTable && !is_valid_table(primes@),
            },
    {
        let mut i: usize = 0;
        while i < primes.len()
            invariant
                0 <= i <= primes.len(),
                is_valid_table(primes@.take(i as int)),
            decreases primes.len() - i,
        {
            if primes[i] < 2 {
                return Err(EngineError::MalformedPrimeTable);
            }
            if i > 0 && primes[i - 1] >= primes[i] {
                return Err(EngineError::MalformedPrimeTable);
            }
            proof {
                let head = primes@.take(i as int);
                let next = primes@.take(i + 1);
                assert forall|a: int, b: int| 0 <= a < b < next.len() implies next[a] < next[b] by {
                    if b == i && a < i - 1 {
                        assert(head[a] < head[i - 1]);
                    }
                    if b < i {
                        assert(head[a] < head[b]);
                    }
                }
                assert forall|a: int| 0 <= a < next.len() implies #[trigger] next[a] >= 2 by {
                    if a < i {
                        assert(head[a] >= 2);
                    }
                }
            }
            i = i + 1;
        }
        assert(primes@.take(i as int) =~= primes@);
        Ok(PrimeTable { primes })
    }

    /// The number of entries.
    pub fn len(&self) -> (n: usize)
        ensures
            n == self@.len(),
    {
        self.primes.len()
    }

    /// The entries, which are at least 2 and strictly ascending.
    pub fn as_slice(&self) -> (entries: &[u64])
        ensures
            entries@ == self@,
            is_valid_table(self@),
    {
        proof {
            use_type_invariant(self);
        }
        self.primes.as_slice()
    }
}

/// In a covering table, the first entry that divides what is left of the
/// number is the least prime factor of what is left.
pub proof fn lemma_trial_divisor_is_least(t: Seq<u64>, i: int, n: nat, m: nat)
    requires
        is_valid_table(t),
        table_covers(t, m),
        0 <= i < t.len(),
        1 <= n <= m,
        divides(t[i] as nat, n),
        forall|j: int| 0 <= j < i ==> !divides(#[trigger] t[j] as nat, n),
    ensures
        n >= 2,
        least_prime_factor(n) == t[i],
{
    let p = t[i] as nat;
    crate::divisibility::lemma_divisor_bound(p, n);
    lemma_least_prime_factor(n);
    let q = least_prime_factor(n);
    if is_prime(n) {
        lemma_prime_least_factor(n);
    } else {
        lemma_composite_has_small_factor(n);
        assert(in_table(t, q));
        let j = choose|j: int| 0 <= j < t.len() && t[j] as nat == q;
        assert(!(j < i));
    }
}

/// In a covering table, what is left of the number once an entry's square
/// exceeds it, or the table is used up, is 1 or a prime.
pub proof fn lemma_cofactor_is_prime(t: Seq<u64>, i: int, n: nat, m: nat)
    requires
        is_valid_table(t),
        table_covers(t, m),
        0 <= i <= t.len(),
        2 <= n <= m,
        forall|j: int| 0 <= j < i ==> !divides(#[trigger] t[j] as nat, n),
        i < t.len() ==> t[i] * t[i] > n,
    ensures
        is_prime(n),
{
    if !is_prime(n) {
        lemma_composite_has_small_factor(n);
        lemma_least_prime_factor(n);
        let q = least_prime_factor(n);
        assert(in_table(t, q));
        let j = choose|j: int| 0 <= j < t.len() && t[j] as nat == q;
        assert(!(j < i));
        let p = t[i] as nat;
        assert(p * p <= q * q) by (nonlinear_arith)
            requires
                p <= q,
        ;
    }
}

/// In a covering table, an entry that no earlier entry's multiples hide is
/// divided out exactly as the prime factorisation has it, and no entry up to
/// it divides what is left.
pub proof fn lemma_factor_run(t: Seq<u64>, i: int, n: nat, m: nat)
    requires
        is_valid_table(t),
        table_covers(t, m),
        0 <= i < t.len(),
        1 <= n <= m,
        forall|j: int| 0 <= j < i ==> !divides(#[trigger] t[j] as nat, n),
    ensures
        prime_factors_of(n) == repeated(t[i] as nat, multiplicity(n, t[i] as nat))
            + prime_factors_of(without_factor(n, t[i] as nat)),
        1 <= without_factor(n, t[i] as nat) <= n,
        forall|j: int| 0 <= j <= i ==> !divides(#[trigger] t[j] as nat, without_factor(n, t[i] as nat)),
    decreases n,
{
    let p = t[i] as nat;
    if n % p == 0 {
        lemma_trial_divisor_is_least(t, i, n, m);
        lemma_divides_quotient(p, n);
        let rest = n / p;
        assert(rest * p == p * rest) by (nonlinear_arith);
        lemma_multiple_divides(rest, p);
        lemma_div_decreases(n as int, p as int);
        assert forall|j: int| 0 <= j < i implies !divides(#[trigger] t[j] as nat, rest) by {
            if divides(t[j] as nat, rest) {
                lemma_divides_transitive(t[j] as nat, rest, n);
            }
        }
        lemma_factor_run(t, i, rest, m);
        let c = multiplicity(rest, p);
        assert(repeated(p, c + 1) =~= seq![p] + repeated(p, c));
        assert(prime_factors_of(n) =~= repeated(p, c + 1) + prime_factors_of(
            without_factor(rest, p),
        ));
    } else {
        assert(repeated(p, 0) + prime_factors_of(n) =~= prime_factors_of(n));
    }
}

/// In a covering table, trial division finds the prime factors in ascending
/// order.
pub proof fn lemma_trial_division_from(t: Seq<u64>, i: int, n: nat, m: nat)
    requires
        is_valid_table(t),
        table_covers(t, m),
        0 <= i <= t.len(),
        1 <= n <= m,
        forall|j: int| 0 <= j < i ==> !divides(#[trigger] t[j] as nat, n),
    ensures
        trial_division(n, t, i) == prime_factors_of(n),
    decreases t.len() - i,
{
    if i >= t.len() || t[i] * t[i] > n {
        if n > 1 {
            lemma_cofactor_is_prime(t, i, n, m);
            lemma_prime_least_factor(n);
            lemma_div_by_self(n as int);
            assert(prime_factors_of(1) =~= Seq::<nat>::empty());
            assert((n as nat) / least_prime_factor(n) == 1);
            assert(prime_factors_of(n) =~= seq![n]);
        }
    } else {
        lemma_factor_run(t, i, n, m);
        lemma_trial_division_from(t, i + 1, without_factor(n, t[i] as nat), m);
    }
}

/// Trial division finds no factor in 0.
pub proof fn lemma_trial_division_of_zero(t: Seq<u64>)
    requires
        is_valid_table(t),
    ensures
        trial_division(0, t, 0) == Seq::<nat>::empty(),
{
    if t.len() > 0 {
        let p = t[0];
        assert(p * p > 0) by (nonlinear_arith)
            requires
                p >= 2,
        ;
    }
    assert(trial_division(0, t, 0) =~= Seq::<nat>::empty());
}

/// In a table that covers `n`, trial division finds the prime factors of `n`
/// in ascending order.
pub proof fn lemma_trial_division(t: Seq<u64>, n: nat)
    requires
        is_valid_table(t),
        table_covers(t, n),
    ensures
        trial_division(n, t, 0) == prime_factors_of(n),
{
    if n >= 1 {
        lemma_trial_division_from(t, 0, n, n);
    } else {
        lemma_trial_division_of_zero(t);
        assert(prime_factors_of(0) =~= Seq::<nat>::empty());
    }
}

/// The factors of `num` by trial division: each entry of the table, in order,
/// is divided out as often as it divides, until the square of an entry
/// exceeds what is left; what is left, if above 1, is the last factor. The
/// factors multiply to `num`. Where the table covers `num`, they are its prime
/// factors in ascending order.
pub fn prime_factors(num: u64, table: &PrimeTable) -> (factors: Vec<u64>)
    ensures
        factors_view(factors@) == trial_division(num as nat, table@, 0),
        num >= 1 ==> product(factors_view(factors@)) == num,
        num == 0 ==> factors@.len() == 0,
        forall|k: int| 0 <= k < factors.len() ==> #[trigger] factors[k] >= 2,
        table_covers(table@, num as nat) ==> factors_view(factors@) == prime_factors_of(num as nat),
{
    let mut factors: Vec<u64> = Vec::new();
    proof {
        use_type_invariant(table);
        if table_covers(table@, num as nat) {
            lemma_trial_division(table@, num as nat);
        }
        assert(factors_view(factors@) =~= Seq::<nat>::empty());
    }
    if num == 0 {
        proof {
            lemma_trial_division_of_zero(table@);
        }
        return factors;
    }
    proof {
        assert(factors_view(factors@) + trial_division(num as nat, table@, 0) =~= trial_division(
            num as nat,
            table@,
            0,
        ));
        assert(1 * num == num) by (nonlinear_arith);
    }
    let ghost all = trial_division(num as nat, table@, 0);
    let mut n: u64 = num;
    let mut i: usize = 0;
    while i < table.primes.len()
        invariant
            is_valid_table(table.primes@),
            0 <= i <= table.primes.len(),
            1 <= n <= num,
            product(factors_view(factors@)) * n == num,
            forall|k: int| 0 <= k < factors.len() ==> #[trigger] factors[k] >= 2,
            factors_view(factors@) + trial_division(n as nat, table.primes@, i as int) == all,
        ensures
            i < table.primes.len() ==> table.primes@[i as int] * table.primes@[i as int] > n,
        decreases table.primes.len() - i,
    {
        let p: u64 = table.primes[i];
        proof {
            assert(p * p <= 0xffff_ffff_ffff_ffff * 0xffff_ffff_ffff_ffff) by (nonlinear_arith)
                requires
                    0 <= p <= 0xffff_ffff_ffff_ffff,
            ;
        }
        if (p as u128) * (p as u128) > n as u128 {
            break ;
        }
        while n % p == 0
            invariant
                is_valid_table(table.primes@),
                0 <= i < table.primes.len(),
                p == table.primes@[i as int],
                1 <= n <= num,
                product(factors_view(factors@)) * n == num,
                forall|k: int| 0 <= k < factors.len() ==> #[trigger] factors[k] >= 2,
                factors_view(factors@) + (repeated(p as nat, multiplicity(n as nat, p as nat))
                    + trial_division(
                    without_factor(n as nat, p as nat),
                    table.primes@,
                    i + 1,
                )) == all,
            decreases n,
        {
            let ghost before = factors@;
            let ghost rest: nat = (n / p) as nat;
            proof {
                lemma_divides_quotient(p as nat, n as nat);
                let total = product(factors_view(before));
                assert(total * p * rest == total * n) by (nonlinear_arith)
                    requires
                        n == p * rest,
                ;
                assert(rest < n) by (nonlinear_arith)
                    requires
                        n == p * rest,
                        p >= 2,
                        rest >= 1,
                ;
                let c = multiplicity(rest, p as nat);
                assert(repeated(p as nat, c + 1) =~= seq![p as nat] + repeated(p as nat, c));
                let tail = trial_division(without_factor(rest, p as nat), table.primes@, i + 1);
                assert(factors_view(before).push(p as nat) + (repeated(p as nat, c) + tail)
                    =~= factors_view(before) + (repeated(p as nat, c + 1) + tail));
            }
            factors.push(p);
            n = n / p;
            proof {
                assert(factors_view(factors@) =~= factors_view(before).push(p as nat));
                assert(factors_view(factors@).drop_last() =~= factors_view(before));
            }
        }
        proof {
            let tail = trial_division(n as nat, table.primes@, i + 1);
            assert(repeated(p as nat, 0) + tail =~= tail);
        }
        i = i + 1;
    }
    if n > 1 {
        let ghost before = factors@;
        factors.push(n);
        proof {
            assert(factors_view(factors@) =~= factors_view(before).push(n as nat));
            assert(factors_view(factors@).drop_last() =~= factors_view(before));
            assert(factors_view(before).push(n as nat) =~= factors_view(before) + seq![n as nat]);
        }
    } else {
        proof {
            assert(factors_view(factors@) + Seq::<nat>::empty() =~= factors_view(factors@));
            assert(product(factors_view(factors@)) * 1 == product(factors_view(factors@)))
                by (nonlinear_arith);
        }
    }
    factors
}

/// Adjacent equal factors folded into pairs of factor and count, in the order
/// of the list; `ArithmeticOverflow` where a factor is repeated more than
/// 65,535 times in a row.
pub fn group_factors(all_factors: &Vec<u64>) -> (r: Result<Vec<(u64, u16)>, EngineError>)
    ensures
        match r {
            Ok(groups) => groups_view(groups@) == group_runs(factors_view(all_factors@)),
            Err(e) => e == EngineError::ArithmeticOverflow && exists|i: int|
                0 <= i < group_runs(factors_view(all_factors@)).len() && (#[trigger] group_runs(
                    factors_view(all_factors@),
                )[i]).1 > u16::MAX,
        },
{
    let mut grouped: Vec<(u64, u16)> = Vec::new();
    let ghost s = factors_view(all_factors@);
    if all_factors.len() == 0 {
        assert(groups_view(grouped@) =~= group_runs(s));
        return Ok(grouped);
    }
    let mut current: u64 = all_factors[0];
    let mut count: u16 = 1;
    let mut f: usize = 1;
    proof {
        assert(s.take(1).drop_last() =~= Seq::<nat>::empty());
        assert(group_runs(Seq::<nat>::empty()) =~= Seq::<(nat, nat)>::empty());
        assert(s.take(1).last() == current as nat);
        assert(group_runs(s.take(1)) =~= groups_view(grouped@).push((current as nat, 1nat)));
    }
    while f < all_factors.len()
        invariant
            s == factors_view(all_factors@),
            1 <= f <= all_factors.len(),
            count >= 1,
            group_runs(s.take(f as int)) == groups_view(grouped@).push(
                (current as nat, count as nat),
            ),
        decreases all_factors.len() - f,
    {
        let x: u64 = all_factors[f];
        let ghost before = grouped@;
        proof {
            assert(s.take(f + 1).drop_last() =~= s.take(f as int));
            assert(s.take(f + 1).last() == x as nat);
        }
        if x == current {
            if count == u16::MAX {
                proof {
                    let head = groups_view(before);
                    assert(group_runs(s.take(f + 1)) =~= head.push(
                        (current as nat, (count + 1) as nat),
                    ));
                    lemma_group_runs_take(s, f + 1);
                    assert(group_runs(s.take(f + 1))[head.len() as int].1 > u16::MAX);
                    assert(group_runs(s)[head.len() as int].1 > u16::MAX);
                }
                return Err(EngineError::ArithmeticOverflow);
            }
            count = count + 1;
            proof {
                assert(group_runs(s.take(f + 1)) =~= groups_view(grouped@).push(
                    (current as nat, count as nat),
                ));
            }
        } else {
            grouped.push((current, count));
            proof {
                assert(groups_view(grouped@) =~= groups_view(before).push(
                    (current as nat, count as nat),
                ));
            }
            current = x;
            count = 1;
        }
        f = f + 1;
    }
    let ghost before = grouped@;
    grouped.push((current, count));
    proof {
        assert(s.take(f as int) =~= s);
        assert(groups_view(grouped@) =~= groups_view(before).push((current as nat, count as nat)));
    }
    Ok(grouped)
}

/// The prime-power groups of `m` by trial division over the table. The powers
/// multiply to `m`. Where the table covers `m`, the groups are the powers of
/// the distinct primes of `m`, by ascending prime.
pub fn factorize(m: u64, table: &PrimeTable) -> (groups: Vec<(u64, u16)>)
    ensures
        groups_view(groups@) == group_runs(trial_division(m as nat, table@, 0)),
        m >= 1 ==> group_product(groups_view(groups@)) == m,
        m == 0 ==> groups@.len() == 0,
        forall|i: int| 0 <= i < groups.len() ==> (#[trigger] groups[i]).0 >= 2 && groups[i].1 >= 1,
        table_covers(table@, m as nat) ==> groups_view(groups@) == group_runs(
            prime_factors_of(m as nat),
        ),
        table_covers(table@, m as nat) && m >= 1 ==> is_prime_power_list(groups_view(groups@)),
{
    let factors = prime_factors(m, table);
    let ghost s = factors_view(factors@);
    proof {
        lemma_group_runs_product(s);
        lemma_group_runs_counts(s);
        if m >= 1 {
            lemma_groups_of_prime_factors(m as nat);
            // A product of 64 or more factors of at least 2 would not fit.
            lemma_product_lower_bound(s);
            if s.len() >= 64 {
                lemma_pow_increases(2, 64, s.len());
                lemma2_to64();
                lemma_pow2(64);
            }
        }
    }
    match group_factors(&factors) {
        Ok(groups) => {
            proof {
                assert(groups_view(groups@).len() == groups@.len());
                lemma_group_runs_values(s);
                assert forall|i: int| 0 <= i < groups.len() implies (#[trigger] groups[i]).0 >= 2
                    && groups[i].1 >= 1 by {
                    let g = groups_view(groups@)[i];
                    assert(g == (groups[i].0 as nat, groups[i].1 as nat));
                    assert(s.contains(group_runs(s)[i].0));
                    let k = choose|k: int| 0 <= k < s.len() && s[k] == g.0;
                    assert(s[k] == factors[k] as nat);
                }
            }
            groups
        },
        Err(_) => {
            assert(false);
            Vec::new()
        },
    }
}

} // verus!
