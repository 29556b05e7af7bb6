use brute::{Brute, BruteError};

fn digits() -> Vec<char> {
    "0123456789".chars().collect()
}

#[test]
fn zero_minimum_is_refused() {
    assert_eq!(Brute::new(0, 3, digits()).err(), Some(BruteError::InvalidMin));
    assert_eq!(Brute::new(0, 0, digits()).err(), Some(BruteError::InvalidMin));
}

#[test]
fn maximum_below_minimum_is_refused() {
    assert_eq!(Brute::new(3, 2, digits()).err(), Some(BruteError::InvalidMax));
    assert_eq!(Brute::new(usize::MAX, 1, digits()).err(), Some(BruteError::InvalidMax));
}

#[test]
fn empty_charset_is_refused() {
    assert_eq!(Brute::new(1, 1, Vec::new()).err(), Some(BruteError::InvalidCharset));
    assert_eq!(Brute::new(2, 5, Vec::new()).err(), Some(BruteError::InvalidCharset));
}

#[test]
fn checks_are_made_in_order() {
    assert_eq!(Brute::new(0, 0, Vec::new()).err(), Some(BruteError::InvalidMin));
    assert_eq!(Brute::new(4, 0, Vec::new()).err(), Some(BruteError::InvalidMax));
    assert_eq!(Brute::new(4, 3, Vec::new()).err(), Some(BruteError::InvalidMax));
}

#[test]
fn valid_parameters_are_accepted() {
    assert!(Brute::new(1, 1, vec!['x']).is_ok());
    assert!(Brute::new(2, 7, digits()).is_ok());
    assert!(Brute::new(5, 5, vec!['a', 'a']).is_ok());
}

#[test]
fn first_string_is_the_first_symbol_repeated() {
    let mut brute = Brute::new(3, 4, vec!['q', 'r']).unwrap();
    assert_eq!(brute.next(), Some(String::from("qqq")));
}
