use product_of_four::formula::{root, root_equal};
use product_of_four::pairs::{find_pairs, get_pairs, get_pairs_old, SearchStrategy};

fn brute_force(s: i64, v: i64) -> Vec<(i64, i64)> {
    let mut found = Vec::new();
    for n in 1..s {
        let mut k = n + 1;
        while n * k + (n + k) * (n + k) <= v {
            if n * k + (n + k) * (n + k) == v {
                found.push((n, k));
            }
            k += 1;
        }
    }
    found
}

#[test]
fn pairs_for_eleven() {
    let v = root_equal(11).unwrap();
    assert_eq!(v, 605);
    assert_eq!(find_pairs(11, v, SearchStrategy::QuadraticSolve, false, 0), vec![(4, 19)]);
    assert_eq!(find_pairs(11, v, SearchStrategy::DoubleLoop, false, 0), vec![(4, 19)]);
    assert_eq!(root(4, 19), Ok(605));
    assert_eq!(root(19, 4), Ok(605));
}

#[test]
fn pairs_for_values_without_a_match() {
    for s in 1i64..=10 {
        let v = root_equal(s).unwrap();
        assert_eq!(get_pairs(s, v, false, 0), Vec::new());
        assert_eq!(get_pairs_old(s, v, false, 0), Vec::new());
    }
}

#[test]
fn pairs_for_two_hundred_and_nine() {
    let v = root_equal(209).unwrap();
    let all = vec![(11, 451), (76, 361), (116, 311), (139, 284)];
    assert_eq!(get_pairs(209, v, false, 0), all);
    assert_eq!(get_pairs_old(209, v, false, 0), all);
}

#[test]
fn every_pair_has_the_root_in_both_orders() {
    for s in 1i64..=300 {
        let v = root_equal(s).unwrap();
        for (n, k) in find_pairs(s, v, SearchStrategy::QuadraticSolve, false, 0) {
            assert!(1 <= n && n < s && n < k);
            assert_eq!(root(n, k), Ok(v));
            assert_eq!(root(k, n), Ok(v));
        }
    }
}

#[test]
fn quadratic_solve_finds_every_pair() {
    for s in 1i64..=150 {
        let v = root_equal(s).unwrap();
        assert_eq!(get_pairs(s, v, false, 0), brute_force(s, v));
    }
}

#[test]
fn strategies_return_the_same_pairs() {
    for s in 1i64..=400 {
        let v = root_equal(s).unwrap();
        assert_eq!(
            find_pairs(s, v, SearchStrategy::DoubleLoop, false, 0),
            find_pairs(s, v, SearchStrategy::QuadraticSolve, false, 0)
        );
    }
    let v = root_equal(65_505).unwrap();
    let fast = find_pairs(65_505, v, SearchStrategy::QuadraticSolve, false, 0);
    assert_eq!(fast, brute_force_sparse(65_505, v));
}

fn brute_force_sparse(s: i64, v: i64) -> Vec<(i64, i64)> {
    // For each start the step is bracketed by bisection on the growing root.
    let mut found = Vec::new();
    for n in 1..s {
        let (mut lo, mut hi) = (n, 3 * s);
        while hi - lo > 1 {
            let mid = (lo + hi) / 2;
            if n * mid + (n + mid) * (n + mid) <= v {
                lo = mid;
            } else {
                hi = mid;
            }
        }
        if lo > n && n * lo + (n + lo) * (n + lo) == v {
            found.push((n, lo));
        }
    }
    found
}

#[test]
fn total_pair_count_is_odd() {
    for s in 1i64..=300 {
        let v = root_equal(s).unwrap();
        let matches = get_pairs(s, v, false, 0).len();
        assert_eq!((1 + 2 * matches) % 2, 1);
    }
}

#[test]
fn early_exit_stops_at_the_digit() {
    let v = root_equal(209).unwrap();
    // Last digit 3: one match makes three pairs.
    assert_eq!(get_pairs(209, v, true, 3), vec![(11, 451)]);
    assert_eq!(get_pairs_old(209, v, true, 13), vec![(11, 451)]);
    // Last digit 9: four matches make nine pairs.
    assert_eq!(get_pairs(209, v, true, 9).len(), 4);
    assert_eq!(get_pairs_old(209, v, true, 109).len(), 4);
    let v = root_equal(121).unwrap();
    assert_eq!(get_pairs(121, v, true, 9), vec![(29, 229), (44, 209)]);
    assert_eq!(get_pairs(121, v, true, 3), vec![(29, 229)]);
    assert_eq!(get_pairs_old(121, v, true, 3), vec![(29, 229)]);
}

#[test]
fn early_exit_needs_the_digit_and_the_switch() {
    let v = root_equal(209).unwrap();
    assert_eq!(get_pairs(209, v, false, 3).len(), 4);
    assert_eq!(get_pairs(209, v, true, 1).len(), 4);
    assert_eq!(get_pairs(209, v, true, 7).len(), 4);
    assert_eq!(get_pairs_old(209, v, false, 3).len(), 4);
    assert_eq!(get_pairs_old(209, v, true, 5).len(), 4);
}

#[test]
fn search_on_degenerate_inputs() {
    assert_eq!(get_pairs(0, 0, false, 0), Vec::new());
    assert_eq!(get_pairs(-5, 605, false, 0), Vec::new());
    assert_eq!(get_pairs(1, 5, false, 0), Vec::new());
    assert_eq!(get_pairs(11, -605, false, 0), Vec::new());
    assert_eq!(get_pairs_old(0, 0, false, 0), Vec::new());
    assert_eq!(get_pairs_old(-5, 605, false, 0), Vec::new());
    assert_eq!(get_pairs_old(11, -605, false, 0), Vec::new());
    assert_eq!(get_pairs(i64::MAX, 605, false, 0), vec![(4, 19)]);
}

#[test]
fn search_with_a_root_of_another_value() {
    // 599 is the root of (1, 23) and of no degenerate progression. The
    // quadratic solve finds the pair for any `s` above 1; the double loop only
    // where 23 lies between `s` and 2.24 times `s`.
    assert_eq!(root(1, 23), Ok(599));
    assert_eq!(get_pairs(3, 599, false, 0), vec![(1, 23)]);
    assert_eq!(get_pairs_old(3, 599, false, 0), Vec::new());
    assert_eq!(get_pairs_old(11, 599, false, 0), vec![(1, 23)]);
}

#[test]
fn repeated_searches_give_the_same_pairs() {
    let v = root_equal(121).unwrap();
    assert_eq!(get_pairs(121, v, false, 0), get_pairs(121, v, false, 0));
    assert_eq!(get_pairs_old(121, v, true, 3), get_pairs_old(121, v, true, 3));
}

#[test]
fn progressions_sharing_a_root_are_odd_in_number() {
    for s in 1i64..=80 {
        let v = root_equal(s).unwrap();
        let mut count = 0;
        for n in 1..=3 * s {
            for k in 1..=3 * s {
                if n * k + (n + k) * (n + k) == v {
                    count += 1;
                }
            }
        }
        assert_eq!(count, 1 + 2 * get_pairs(s, v, false, 0).len());
        assert_eq!(count % 2, 1);
    }
}
