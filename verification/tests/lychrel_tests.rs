//! The reverse-add engine on small numbers.

use lychrel_finder::digits::bit_length;
use lychrel_finder::{is_palindrome, lychrel_iteration, reverse_number, BigDecimalInt};

#[test]
fn test_reverse_number() {
    assert_eq!(
        reverse_number(&BigDecimalInt::from_u64(123)),
        BigDecimalInt::from_u64(321)
    );
    assert_eq!(
        reverse_number(&BigDecimalInt::from_u64(100)),
        BigDecimalInt::from_u64(1)
    );
    assert_eq!(
        reverse_number(&BigDecimalInt::from_u64(505)),
        BigDecimalInt::from_u64(505)
    );
}

#[test]
fn test_is_palindrome() {
    assert!(is_palindrome(&BigDecimalInt::from_u64(121)));
    assert!(is_palindrome(&BigDecimalInt::from_u64(1)));
    assert!(!is_palindrome(&BigDecimalInt::from_u64(123)));
    assert!(is_palindrome(&BigDecimalInt::from_u64(12321)));
}

#[test]
fn test_lychrel_iteration_simple() {
    let result = lychrel_iteration(BigDecimalInt::from_u64(89), 100);
    assert!(result.is_palindrome);
    assert_eq!(result.iterations, 24);
}

#[test]
fn test_lychrel_iteration_196() {
    let result = lychrel_iteration(BigDecimalInt::from_u64(196), 100);
    assert!(!result.is_palindrome);
    assert!(result.is_potential_lychrel);
    assert_eq!(result.iterations, 100);
}

#[test]
fn test_already_palindrome() {
    let result = lychrel_iteration(BigDecimalInt::from_u64(121), 100);
    assert!(result.is_palindrome);
    assert_eq!(result.iterations, 0);
}

#[test]
fn test_iterate_89_final_value() {
    let result = lychrel_iteration(BigDecimalInt::from_u64(89), 100);
    assert!(result.is_palindrome);
    assert_eq!(result.iterations, 24);
    assert_eq!(result.final_number, Some(BigDecimalInt::from_u64(8813200023188)));
}

#[test]
fn test_iterate_zero_is_palindrome() {
    let result = lychrel_iteration(BigDecimalInt::new_zero(), 5);
    assert!(result.is_palindrome);
    assert_eq!(result.iterations, 0);
    assert_eq!(result.final_number, Some(BigDecimalInt::new_zero()));
}

#[test]
fn test_reverse_add_step_fixed_point_only_at_zero() {
    // One step of reverse-add moves every nonzero value, palindromes
    // included; zero alone is fixed.
    let zero = BigDecimalInt::new_zero();
    let stepped_zero = zero.add_to(&reverse_number(&zero));
    assert_eq!(stepped_zero, zero);

    let pal = BigDecimalInt::from_u64(121);
    let stepped_pal = pal.add_to(&reverse_number(&pal));
    assert_ne!(stepped_pal, pal);
    assert_eq!(stepped_pal, BigDecimalInt::from_u64(242));

    let plain = BigDecimalInt::from_u64(196);
    let stepped_plain = plain.add_to(&reverse_number(&plain));
    assert_eq!(stepped_plain, BigDecimalInt::from_u64(887));
}

#[test]
fn test_reverse_twice_trims_trailing_zeros() {
    // Reversing twice returns the number, except that decimal-trailing
    // zeros are dropped.
    let with_zeros = BigDecimalInt::from_u64(1200);
    let back = reverse_number(&reverse_number(&with_zeros));
    assert_eq!(back, BigDecimalInt::from_u64(12));

    let without_zeros = BigDecimalInt::from_u64(1234);
    let back2 = reverse_number(&reverse_number(&without_zeros));
    assert_eq!(back2, without_zeros);
}

#[test]
fn test_digit_count_of_zero_is_one() {
    assert_eq!(BigDecimalInt::new_zero().digit_count(), 1);
    assert_eq!(BigDecimalInt::from_u64(7).digit_count(), 1);
    assert_eq!(BigDecimalInt::from_u64(1000).digit_count(), 4);
}

#[test]
fn test_decimal_bytes_round_trip() {
    let n = BigDecimalInt::from_u64(987654321);
    let bytes = n.to_decimal_bytes();
    assert_eq!(bytes, b"987654321".to_vec());
    let back = BigDecimalInt::from_decimal_bytes(&bytes).unwrap();
    assert_eq!(back, n);

    assert_eq!(BigDecimalInt::new_zero().to_decimal_bytes(), b"0".to_vec());
    assert!(BigDecimalInt::from_decimal_bytes(b"").is_none());
    assert!(BigDecimalInt::from_decimal_bytes(b"12a4").is_none());
    assert_eq!(
        BigDecimalInt::from_decimal_bytes(b"007").unwrap(),
        BigDecimalInt::from_u64(7)
    );
}

#[test]
fn test_palindrome_agrees_with_reversal_equality() {
    for n in [0u64, 5, 10, 11, 121, 123, 1000, 1001, 12321, 45654, 45653] {
        let number = BigDecimalInt::from_u64(n);
        let reversed = reverse_number(&number);
        assert_eq!(is_palindrome(&number), reversed == number, "mismatch at {}", n);
    }
}

#[test]
fn test_bit_length_values() {
    assert_eq!(bit_length(&BigDecimalInt::new_zero()), 0);
    assert_eq!(bit_length(&BigDecimalInt::from_u64(1)), 1);
    assert_eq!(bit_length(&BigDecimalInt::from_u64(2)), 2);
    assert_eq!(bit_length(&BigDecimalInt::from_u64(255)), 8);
    assert_eq!(bit_length(&BigDecimalInt::from_u64(256)), 9);
    assert_eq!(
        bit_length(&BigDecimalInt::from_u64(u64::MAX)),
        64
    );
}

#[test]
fn test_to_u64_round_trip_and_overflow() {
    assert_eq!(BigDecimalInt::from_u64(0).to_u64(), Some(0));
    assert_eq!(BigDecimalInt::from_u64(18446744073709551615).to_u64(), Some(u64::MAX));
    let too_big = BigDecimalInt::from_decimal_bytes(b"18446744073709551616").unwrap();
    assert_eq!(too_big.to_u64(), None);
}
