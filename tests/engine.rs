use threshold_secret_sharing::field::{mod_add, mod_inverse, mod_mul, mod_pow, mod_sub};
use threshold_secret_sharing::newton::{newton_evaluate, newton_interpolation_general};
use threshold_secret_sharing::paramgen::{check_prime, check_prime_form, factor};
use threshold_secret_sharing::poly::mod_evaluate_polynomial;
use threshold_secret_sharing::transform::{
    check_pow2, check_pow3, transform2, transform2_inverse, transform3, transform3_inverse,
};

#[test]
fn field_operations_exact_values() {
    assert_eq!(mod_add(5, 4, 7), 2);
    assert_eq!(mod_sub(1, 2, 7), 6);
    assert_eq!(mod_mul(6, 6, 7), 1);
    assert_eq!(mod_mul(5038848, 5038848, 5038849), 1);
    assert_eq!(mod_pow(5, 3, 433), 125);
    assert_eq!(mod_pow(354, 8, 433), 1);
    assert_eq!(mod_pow(17, 27, 433), 1);
    assert_eq!(mod_pow(3, 0, 7), 1);
}

#[test]
fn field_inverse() {
    assert_eq!(mod_inverse(3, 7), Some(5));
    assert_eq!(mod_inverse(8, 433).map(|x| x * 8 % 433), Some(1));
    assert_eq!(mod_inverse(0, 7), None);
    assert_eq!(mod_inverse(2, 4), None);
}

#[test]
fn powers_of_two_and_three() {
    assert!(check_pow2(1));
    assert!(check_pow2(8));
    assert!(!check_pow2(12));
    assert!(!check_pow2(0));
    assert!(check_pow3(27));
    assert!(!check_pow3(26));
}

#[test]
fn transform2_matches_direct_evaluation() {
    let a = vec![1, 2, 3, 4, 5, 6, 7, 8];
    let r = transform2(&a, 354, 433);
    for i in 0..8 {
        let x = mod_pow(354, i as u64, 433);
        assert_eq!(r[i], mod_evaluate_polynomial(&a, x, 433));
    }
}

#[test]
fn transform3_matches_direct_evaluation() {
    let a = vec![4, 0, 9, 1, 1, 432, 7, 3, 2];
    let r = transform3(&a, 150, 433);
    for i in 0..9 {
        let x = mod_pow(150, i as u64, 433);
        assert_eq!(r[i], mod_evaluate_polynomial(&a, x, 433));
    }
}

#[test]
fn transform_inverses_undo_forward() {
    let a = vec![10, 20, 30, 40, 50, 60, 70, 80];
    assert_eq!(transform2_inverse(&transform2(&a, 354, 433), 354, 433), a);
    let b = vec![1, 2, 3, 4, 5, 6, 7, 8, 9];
    assert_eq!(transform3_inverse(&transform3(&b, 150, 433), 150, 433), b);
    let c = vec![5];
    assert_eq!(transform2(&c, 1, 433), c);
}

#[test]
fn newton_interpolation_recovers_polynomial() {
    // f(x) = x^2 + 1
    let points = vec![1, 2, 3];
    let values = vec![2, 5, 10];
    let poly = newton_interpolation_general(&points, &values, 433).unwrap();
    assert_eq!(poly.coefficients, vec![2, 3, 1]);
    assert_eq!(newton_evaluate(&poly, 5, 433), 26);
    assert_eq!(newton_evaluate(&poly, 0, 433), 1);
}

#[test]
fn newton_interpolation_rejects_repeated_points() {
    let points = vec![1, 2, 1];
    let values = vec![2, 5, 2];
    assert!(newton_interpolation_general(&points, &values, 433).is_none());
}

#[test]
fn prime_form_and_factors() {
    assert!(check_prime_form(198, 8, 9, 433));
    assert!(!check_prime_form(198, 8, 9, 431));
    assert!(!check_prime_form(500, 8, 9, 433));
    assert_eq!(factor(16), vec![2, 8, 4, 4]);
    assert_eq!(factor(1), Vec::<usize>::new());
    assert_eq!(factor(432).len() % 2, 0);
}

#[test]
fn primality_by_trial_division() {
    assert!(check_prime(2));
    assert!(check_prime(433));
    assert!(check_prime(5038849));
    assert!(!check_prime(1));
    assert!(!check_prime(0));
    assert!(!check_prime(-7));
    assert!(!check_prime(435));
    assert!(!check_prime(49));
}

#[test]
fn prime_form_below_minimum_needs_no_division() {
    assert!(!check_prime_form(10, 0, 0, 3));
    assert!(!check_prime_form(1, 8, 9, 0));
}
