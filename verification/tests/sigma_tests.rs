use num_bigint::BigUint;
use product_of_four::error::EngineError;
use product_of_four::factor::{factorize, group_factors, prime_factors, PrimeTable};
use product_of_four::sigma::{sigma_2, sigma_2_dirichlet, sigma_2_from_groups, sigma_2_wide};

fn primes_up_to(limit: u64) -> Vec<u64> {
    let mut primes: Vec<u64> = Vec::new();
    let mut candidate: u64 = 2;
    while candidate <= limit {
        if primes.iter().all(|p| candidate % p != 0) {
            primes.push(candidate);
        }
        candidate += 1;
    }
    primes
}

fn table_up_to(limit: u64) -> PrimeTable {
    PrimeTable::new(primes_up_to(limit)).unwrap()
}

fn sigma_by_definition(m: u64) -> u128 {
    let n = (m as u128) * (m as u128);
    let mut sum: u128 = 0;
    let mut d: u128 = 1;
    while d <= n {
        if n % d == 0 {
            sum += d * d;
        }
        d += 1;
    }
    sum
}

#[test]
fn sigma_of_one_is_one() {
    let table = table_up_to(10);
    assert_eq!(sigma_2(1), Ok(1));
    assert_eq!(sigma_2_dirichlet(1, &table), Ok(1));
}

#[test]
fn sigma_of_two_is_twenty_one() {
    let table = table_up_to(10);
    assert_eq!(sigma_2(2), Ok(21));
    assert_eq!(sigma_2_dirichlet(2, &table), Ok(21));
}

#[test]
fn sigma_known_values() {
    let table = table_up_to(100);
    let expected: [(u64, u128); 10] = [
        (1, 1),
        (2, 21),
        (3, 91),
        (4, 341),
        (5, 651),
        (6, 1911),
        (10, 13671),
        (12, 31031),
        (30, 1244061),
        (100, 138753241),
    ];
    for (m, value) in expected {
        assert_eq!(sigma_2(m), Ok(value));
        assert_eq!(sigma_2_dirichlet(m, &table), Ok(value));
        assert_eq!(sigma_2_wide(m, &table), Ok(BigUint::from(value)));
    }
}

#[test]
fn sigma_of_zero() {
    let table = table_up_to(10);
    assert_eq!(sigma_2(0), Ok(0));
    assert_eq!(sigma_2_dirichlet(0, &table), Ok(1));
}

#[test]
fn direct_enumeration_matches_the_definition() {
    for m in 1u64..=60 {
        assert_eq!(sigma_2(m), Ok(sigma_by_definition(m)));
    }
}

#[test]
fn both_strategies_agree() {
    let table = table_up_to(260);
    for m in 1u64..=2000 {
        assert_eq!(sigma_2(m), sigma_2_dirichlet(m, &table));
    }
    for m in [65_000u64, 65_505, 65_521, 65_536] {
        assert_eq!(sigma_2(m), sigma_2_dirichlet(m, &table));
    }
}

#[test]
fn factor_group_recombine_round_trip() {
    let table = table_up_to(100);
    for m in 1u64..=1000 {
        let factors = prime_factors(m, &table);
        assert_eq!(factors.iter().product::<u64>(), m);
        let groups = group_factors(&factors).unwrap();
        let value = sigma_2_from_groups(&groups).unwrap();
        assert_eq!(u128::try_from(value), Ok(sigma_2(m).unwrap()));
    }
}

#[test]
fn prime_factors_examples() {
    let table = table_up_to(100);
    assert_eq!(prime_factors(1, &table), Vec::<u64>::new());
    assert_eq!(prime_factors(0, &table), Vec::<u64>::new());
    assert_eq!(prime_factors(2, &table), vec![2]);
    assert_eq!(prime_factors(1700, &table), vec![2, 2, 5, 5, 17]);
    assert_eq!(prime_factors(97, &table), vec![97]);
    assert_eq!(prime_factors(9409, &table), vec![97, 97]);
    // A prime beyond the table is left as the last factor.
    assert_eq!(prime_factors(2 * 10_007, &table), vec![2, 10_007]);
    assert_eq!(prime_factors(10_007, &table), vec![10_007]);
    assert_eq!(prime_factors(1 << 63, &table), vec![2; 63]);
    assert_eq!(
        prime_factors(18_446_744_073_709_551_557, &table_up_to(3)),
        vec![18_446_744_073_709_551_557]
    );
}

#[test]
fn prime_factors_with_an_empty_table() {
    let table = PrimeTable::new(Vec::new()).unwrap();
    assert_eq!(table.len(), 0);
    assert_eq!(prime_factors(7, &table), vec![7]);
    assert_eq!(prime_factors(1, &table), Vec::<u64>::new());
}

#[test]
fn group_factors_examples() {
    assert_eq!(
        group_factors(&vec![2, 2, 5, 5, 5, 17]),
        Ok(vec![(2, 2), (5, 3), (17, 1)])
    );
    assert_eq!(group_factors(&Vec::new()), Ok(Vec::new()));
    assert_eq!(group_factors(&vec![7]), Ok(vec![(7, 1)]));
    // Only adjacent equal values are folded.
    assert_eq!(group_factors(&vec![3, 2, 3, 3]), Ok(vec![(3, 1), (2, 1), (3, 2)]));
}

#[test]
fn group_factors_count_limit() {
    assert_eq!(group_factors(&vec![2; 65_535]), Ok(vec![(2, 65_535)]));
    assert_eq!(group_factors(&vec![2; 65_536]), Err(EngineError::ArithmeticOverflow));
    let mut long: Vec<u64> = vec![3; 10];
    long.extend(vec![5; 70_000]);
    assert_eq!(group_factors(&long), Err(EngineError::ArithmeticOverflow));
}

#[test]
fn factorize_examples() {
    let table = table_up_to(100);
    assert_eq!(factorize(1700, &table), vec![(2, 2), (5, 2), (17, 1)]);
    assert_eq!(factorize(1, &table), Vec::new());
    assert_eq!(factorize(0, &table), Vec::new());
    assert_eq!(factorize(1 << 63, &table), vec![(2, 63)]);
    assert_eq!(factorize(65_505, &table), vec![(3, 1), (5, 1), (11, 1), (397, 1)]);
}

#[test]
fn prime_table_is_validated() {
    assert!(PrimeTable::new(vec![2, 3, 5, 7]).is_ok());
    assert!(PrimeTable::new(vec![2, 4, 9]).is_ok());
    assert!(matches!(PrimeTable::new(vec![3, 2]), Err(EngineError::MalformedPrimeTable)));
    assert!(matches!(PrimeTable::new(vec![2, 2]), Err(EngineError::MalformedPrimeTable)));
    assert!(matches!(PrimeTable::new(vec![1, 2]), Err(EngineError::MalformedPrimeTable)));
    assert!(matches!(PrimeTable::new(vec![0]), Err(EngineError::MalformedPrimeTable)));
    let table = PrimeTable::new(vec![2, 3, 5]).unwrap();
    assert_eq!(table.len(), 3);
    assert_eq!(table.as_slice(), &[2, 3, 5]);
}

#[test]
fn closed_form_of_single_prime_powers() {
    // (2^6 - 1) / 3 = 21, (3^6 - 1) / 8 = 91, (2^10 - 1) / 3 = 341.
    assert_eq!(sigma_2_from_groups(&vec![(2, 1)]), Ok(BigUint::from(21u32)));
    assert_eq!(sigma_2_from_groups(&vec![(3, 1)]), Ok(BigUint::from(91u32)));
    assert_eq!(sigma_2_from_groups(&vec![(2, 2)]), Ok(BigUint::from(341u32)));
    assert_eq!(sigma_2_from_groups(&vec![(2, 1), (3, 1)]), Ok(BigUint::from(1911u32)));
    assert_eq!(sigma_2_from_groups(&Vec::new()), Ok(BigUint::from(1u32)));
    assert_eq!(sigma_2_from_groups(&vec![(7, 0)]), Ok(BigUint::from(1u32)));
}

#[test]
fn closed_form_rejects_a_base_below_two() {
    assert_eq!(
        sigma_2_from_groups(&vec![(1, 1)]),
        Err(EngineError::InternalInvariantViolation)
    );
    assert_eq!(
        sigma_2_from_groups(&vec![(2, 1), (0, 3)]),
        Err(EngineError::InternalInvariantViolation)
    );
}

#[test]
fn closed_form_beyond_fixed_width() {
    // 2^32: the sum of the even powers of 2 up to 2^128 is (2^130 - 1) / 3.
    let expected = ((BigUint::from(1u32) << 130u32) - BigUint::from(1u32)) / BigUint::from(3u32);
    assert_eq!(sigma_2_from_groups(&vec![(2, 32)]), Ok(expected.clone()));
    let table = table_up_to(10);
    assert_eq!(sigma_2_wide(1 << 32, &table), Ok(expected));
    assert_eq!(sigma_2_dirichlet(1 << 32, &table), Err(EngineError::ArithmeticOverflow));
    assert_eq!(sigma_2(1 << 32), Err(EngineError::ArithmeticOverflow));
}

#[test]
fn largest_values_that_fit() {
    // 2^31: (2^126 - 1) / 3 fits a u128.
    let table = table_up_to(10);
    let expected: u128 = ((1u128 << 126) - 1) / 3;
    assert_eq!(sigma_2_dirichlet(1 << 31, &table), Ok(expected));
}

#[test]
fn repeated_calls_give_the_same_sums() {
    let table = table_up_to(100);
    assert_eq!(sigma_2(360), sigma_2(360));
    assert_eq!(sigma_2_dirichlet(360, &table), sigma_2_dirichlet(360, &table));
    assert_eq!(prime_factors(360, &table), prime_factors(360, &table));
    assert_eq!(factorize(360, &table), factorize(360, &table));
}

#[test]
fn trial_division_over_a_table_with_gaps() {
    // Without 3 in the table, 21 is left whole; with composite entries only,
    // the entries themselves are divided out.
    let table = PrimeTable::new(vec![2, 7]).unwrap();
    assert_eq!(prime_factors(21, &table), vec![21]);
    assert_eq!(prime_factors(42, &table), vec![2, 21]);
    let table = PrimeTable::new(vec![6]).unwrap();
    assert_eq!(prime_factors(180, &table), vec![6, 6, 5]);
    assert_eq!(prime_factors(18, &table), vec![18]);
    assert_eq!(factorize(180, &table), vec![(6, 2), (5, 1)]);
}

#[test]
fn prime_factors_stop_at_the_square_of_an_entry() {
    let table = PrimeTable::new(vec![2, 3, 5, 7]).unwrap();
    // 11 · 13: no entry divides, and 7² = 49 does not exceed 143.
    assert_eq!(prime_factors(143, &table), vec![143]);
    assert_eq!(prime_factors(3 * 3 * 3 * 2, &table), vec![2, 3, 3, 3]);
    assert_eq!(prime_factors(18, &PrimeTable::new(vec![3]).unwrap()), vec![3, 3, 2]);
}
