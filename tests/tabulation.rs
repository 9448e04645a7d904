use polynomial_tabulation::{evaluate, PolynomialError, PolynomialEvaluator};

fn power_sum(coefficients: &[i64], x: i64) -> i64 {
    let mut total: i64 = 0;
    let mut power: i64 = 1;
    for c in coefficients {
        total += c * power;
        power *= x;
    }
    total
}

#[test]
fn test_evaluation() {
    let polynomial = [1, 2, 3];
    let y = evaluate(&polynomial, &7).unwrap();
    assert_eq!(y, 1 + 2 * 7 + 3 * 7 * 7);
}

#[test]
fn test_polynomial_evaluator() {
    let polynomial = [1, 2, 3];
    let evaluator = PolynomialEvaluator::new(&polynomial, 0, 1).unwrap();
    for (x, y) in evaluator.take(100) {
        assert_eq!(y, evaluate(&polynomial, &x).unwrap())
    }

    let evaluator = PolynomialEvaluator::new(&polynomial, 7, 5).unwrap();
    for (x, y) in evaluator.take(10) {
        assert_eq!(y, evaluate(&polynomial, &x).unwrap())
    }
}

#[test]
fn evaluate_gives_one_hundred_sixty_two() {
    assert_eq!(evaluate(&[1, 2, 3], &7), Ok(162));
}

#[test]
fn evaluate_matches_power_sum() {
    let polynomial = [-4, 0, 7, -2, 1];
    for x in -20..20 {
        assert_eq!(evaluate(&polynomial, &x).unwrap(), power_sum(&polynomial, x));
    }
}

#[test]
fn evaluate_single_coefficient() {
    assert_eq!(evaluate(&[-9], &123), Ok(-9));
}

#[test]
fn evaluate_empty_fails() {
    assert_eq!(evaluate(&[], &5), Err(PolynomialError::EmptyPolynomial));
}

#[test]
fn new_empty_fails() {
    let r = PolynomialEvaluator::new(&[], 0, 1);
    assert!(matches!(r, Err(PolynomialError::EmptyPolynomial)));
}

#[test]
fn evaluate_wraps_around() {
    // x² at 2^32 is 2^64, which wraps to zero.
    assert_eq!(evaluate(&[0, 0, 1], &(1i64 << 32)), Ok(0));
    assert_eq!(evaluate(&[i64::MAX, 1], &1), Ok(i64::MIN));
}

#[test]
fn pulls_from_zero_step_one() {
    let pairs = PolynomialEvaluator::new(&[1, 2, 3], 0, 1).unwrap().take(100);
    assert_eq!(pairs.len(), 100);
    for (k, (x, y)) in pairs.into_iter().enumerate() {
        let k = k as i64;
        assert_eq!(x, k);
        assert_eq!(y, 1 + 2 * k + 3 * k * k);
    }
}

#[test]
fn pulls_from_seven_step_five() {
    let pairs = PolynomialEvaluator::new(&[1, 2, 3], 7, 5).unwrap().take(10);
    assert_eq!(pairs.len(), 10);
    for (k, (x, y)) in pairs.into_iter().enumerate() {
        let k = k as i64;
        assert_eq!(x, 7 + 5 * k);
        assert_eq!(y, 1 + 2 * x + 3 * x * x);
    }
}

#[test]
fn pulls_quartic_with_negative_step() {
    let polynomial = [-4, 0, 7, -2, 1];
    let pairs = PolynomialEvaluator::new(&polynomial, 13, -3).unwrap().take(12);
    for (k, (x, y)) in pairs.into_iter().enumerate() {
        assert_eq!(x, 13 - 3 * k as i64);
        assert_eq!(y, power_sum(&polynomial, x));
    }
}

#[test]
fn constant_polynomial_pulls_constant() {
    let pairs = PolynomialEvaluator::new(&[42], -3, 11).unwrap().take(20);
    for (k, (x, y)) in pairs.into_iter().enumerate() {
        assert_eq!(x, -3 + 11 * k as i64);
        assert_eq!(y, 42);
    }
}

#[test]
fn first_pull_is_initial_pair() {
    let mut e = PolynomialEvaluator::new(&[5, -1, 2], 4, 9).unwrap();
    assert_eq!(e.next(), Some((4, 5 - 4 + 2 * 16)));
    assert_eq!(e.next(), Some((13, 5 - 13 + 2 * 169)));
}

#[test]
fn pulling_again_never_restarts() {
    let polynomial = [3, -1, 0, 2];
    let mut live = PolynomialEvaluator::new(&polynomial, -5, 2).unwrap();
    let mut earlier = Vec::new();
    for _ in 0..10 {
        earlier.push(live.next().unwrap());
    }
    let fresh = PolynomialEvaluator::new(&polynomial, -5, 2).unwrap().take(10);
    assert_eq!(earlier, fresh);
    for _ in 0..10 {
        let p = live.next().unwrap();
        assert!(!earlier.contains(&p));
        earlier.push(p);
    }
}

#[test]
fn point_wraps_around() {
    let pairs = PolynomialEvaluator::new(&[0, 1], i64::MAX, 1).unwrap().take(2);
    assert_eq!(pairs, vec![(i64::MAX, i64::MAX), (i64::MIN, i64::MIN)]);
}

#[test]
fn values_wrap_like_evaluate() {
    let polynomial = [17, -3, 1 << 40, 9];
    let pairs = PolynomialEvaluator::new(&polynomial, 1 << 20, 1 << 19).unwrap().take(30);
    for (x, y) in pairs {
        assert_eq!(y, evaluate(&polynomial, &x).unwrap());
    }
}
