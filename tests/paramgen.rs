use threshold_secret_sharing::paramgen::{check_prime_form, factor, find_field, find_roots, generate_parameters};

#[test]
fn test_check_prime_form() {
    assert_eq!(primal::Primes::all().find(|p| check_prime_form(198, 8, 9, *p)).unwrap(), 433);
}

#[test]
fn test_factor() {
    assert_eq!(factor(40), [2, 20, 4, 10, 5, 8]);
    assert_eq!(factor(41), Vec::<usize>::new());
}

#[test]
fn test_find_field() {
    assert_eq!(find_field(198, 2usize.pow(3), 3usize.pow(2)).unwrap(), (433, 5));
    assert_eq!(find_field(198, 2usize.pow(3), 3usize.pow(3)).unwrap(), (433, 5));
    assert_eq!(find_field(198, 2usize.pow(8), 3usize.pow(6)).unwrap(), (746497, 5));
    assert_eq!(find_field(198, 2usize.pow(8), 3usize.pow(9)).unwrap(), (5038849, 29));
}

#[test]
fn test_find_roots() {
    assert_eq!(find_roots(2usize.pow(3), 3usize.pow(2), 433, 5), (354, 150));
    assert_eq!(find_roots(2usize.pow(3), 3usize.pow(3), 433, 5), (354, 17));
}

#[test]
fn test_generate_parameters() {
    assert_eq!(generate_parameters(200, 2usize.pow(3), 3usize.pow(2)).unwrap(), (433, 354, 150));
    assert_eq!(generate_parameters(200, 2usize.pow(3), 3usize.pow(3)).unwrap(), (433, 354, 17));
}
