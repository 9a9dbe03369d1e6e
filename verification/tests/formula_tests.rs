use product_of_four::error::EngineError;
use product_of_four::formula::{root, root_equal};
use product_of_four::isqrt::is_perfect_square;

fn progression_value(n: i128, k: i128) -> i128 {
    n * (n + k) * (n + 2 * k) * (n + 3 * k) + k * k * k * k
}

#[test]
fn root_of_three_and_four_is_sixty_one() {
    assert_eq!(progression_value(3, 4), 3721);
    assert_eq!(root(3, 4), Ok(61));
    assert_eq!(61 * 61, 3721);
}

#[test]
fn root_of_small_equal_pairs() {
    assert_eq!(root(1, 1), Ok(5));
    assert_eq!(root(2, 2), Ok(20));
    assert_eq!(root_equal(1), Ok(5));
    assert_eq!(root_equal(2), Ok(20));
    assert_eq!(root_equal(0), Ok(0));
}

#[test]
fn root_equal_is_five_times_the_square() {
    for s in 1i64..=5000 {
        assert_eq!(root(s, s), Ok(5 * s * s));
        assert_eq!(root_equal(s), Ok(5 * s * s));
    }
}

#[test]
fn root_squared_is_the_progression_value() {
    for n in -20i64..=20 {
        for k in -20i64..=20 {
            let r = root(n, k).unwrap() as i128;
            assert_eq!(r * r, progression_value(n as i128, k as i128));
        }
    }
}

#[test]
fn root_is_symmetric() {
    for n in 1i64..=60 {
        for k in 1i64..=60 {
            assert_eq!(root(n, k), root(k, n));
        }
    }
}

#[test]
fn root_handles_negative_arguments() {
    assert_eq!(root(1, -1), Ok(-1));
    assert_eq!(root(-3, -4), Ok(61));
    assert_eq!(root(-5, 2), Ok(-1));
}

#[test]
fn root_reports_overflow() {
    assert_eq!(root(i64::MAX, i64::MAX), Err(EngineError::ArithmeticOverflow));
    assert_eq!(root(i64::MIN, i64::MIN), Err(EngineError::ArithmeticOverflow));
    assert_eq!(root(i64::MIN, i64::MAX), Err(EngineError::ArithmeticOverflow));
    assert_eq!(root(3_037_000_499, 1), Err(EngineError::ArithmeticOverflow));
}

#[test]
fn root_equal_at_the_boundary() {
    // 5·s² fits an i64 up to s = 1,358,187,913.
    assert_eq!(root_equal(1_358_187_913), Ok(5 * 1_358_187_913i64 * 1_358_187_913i64));
    assert_eq!(root_equal(1_358_187_914), Err(EngineError::ArithmeticOverflow));
    assert_eq!(root_equal(-1_358_187_914), Err(EngineError::ArithmeticOverflow));
    assert_eq!(root_equal(3_037_000_500), Err(EngineError::ArithmeticOverflow));
    assert_eq!(root_equal(i64::MAX), Err(EngineError::ArithmeticOverflow));
    assert_eq!(root_equal(i64::MIN), Err(EngineError::ArithmeticOverflow));
    assert_eq!(root(1_358_187_913, 1_358_187_913), root_equal(1_358_187_913));
}

#[test]
fn perfect_squares_are_recognised() {
    assert_eq!(is_perfect_square(0), Some(0));
    assert_eq!(is_perfect_square(1), Some(1));
    assert_eq!(is_perfect_square(3721), Some(61));
    assert_eq!(is_perfect_square(2), None);
    assert_eq!(is_perfect_square(3720), None);
    assert_eq!(is_perfect_square(-4), None);
    assert_eq!(is_perfect_square(i128::MIN), None);
    assert_eq!(is_perfect_square(i128::MAX), None);
}

#[test]
fn perfect_squares_beyond_floating_point_precision() {
    let r: i128 = 9_007_199_254_740_993; // 2^53 + 1
    assert_eq!(is_perfect_square(r * r), Some(r));
    assert_eq!(is_perfect_square(r * r + 1), None);
    assert_eq!(is_perfect_square(r * r - 1), None);
    let top: i128 = 13_043_817_825_332_782_212; // the largest root within i128
    assert_eq!(is_perfect_square(top * top), Some(top));
    assert_eq!(is_perfect_square(top * top + 1), None);
}

#[test]
fn perfect_square_test_agrees_with_squaring() {
    for r in 0i128..2000 {
        assert_eq!(is_perfect_square(r * r), Some(r));
        if r > 1 {
            assert_eq!(is_perfect_square(r * r - 1), None);
        }
    }
}

#[test]
fn repeated_calls_give_the_same_root() {
    assert_eq!(root(17, 23), root(17, 23));
    assert_eq!(root_equal(1234), root_equal(1234));
    assert_eq!(is_perfect_square(123_456_789), is_perfect_square(123_456_789));
}
