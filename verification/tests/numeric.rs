use rust_algorithms::factorials::{factorial, factorial_table};
use rust_algorithms::primes::{find_last_prime, is_prime};

#[test]
fn factorial_values() {
    assert_eq!(factorial(0), 1);
    assert_eq!(factorial(1), 1);
    assert_eq!(factorial(5), 120);
    assert_eq!(factorial(12), 479001600);
    assert_eq!(factorial(20), 2432902008176640000);
}

#[test]
fn factorial_table_entries() {
    let table = factorial_table();
    assert_eq!(table.len(), 16);
    assert_eq!(table[0], 1);
    assert_eq!(table[1], 1);
    assert_eq!(table[7], 5040);
    assert_eq!(table[15], 1307674368000);
}

#[test]
fn primality_of_small_numbers() {
    assert!(!is_prime(0));
    assert!(!is_prime(1));
    assert!(is_prime(2));
    assert!(is_prime(3));
    assert!(!is_prime(4));
    assert!(is_prime(97));
    assert!(!is_prime(100));
    assert!(is_prime(7919));
    assert!(!is_prime(7917));
}

#[test]
fn last_prime_up_to_a_bound() {
    assert_eq!(find_last_prime(0), 0);
    assert_eq!(find_last_prime(1), 0);
    assert_eq!(find_last_prime(2), 2);
    assert_eq!(find_last_prime(100), 97);
    assert_eq!(find_last_prime(97), 97);
    assert_eq!(find_last_prime(10000), 9973);
}
