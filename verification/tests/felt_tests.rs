use rusty_diffie_hellman::felt::felt::Felt;
use rusty_diffie_hellman::felt::felt_errors::FeltError;

#[test]
fn test_felt_new() {
    let f = Felt::new(5, 7);
    assert_eq!(f.value(), 5);
    assert_eq!(f.modulus(), 7);
}

#[test]
fn test_felt_new_value_equals_modulus_should_have_value_zero() {
    let f = Felt::new(9, 9);
    assert_eq!(f.value(), 0);
    assert_eq!(f.modulus(), 9);
}

#[test]
fn test_add_with_no_overflow() {
    let f1 = Felt::new(1, 7);
    let f2 = Felt::new(3, 7);
    let f3 = f1.add(f2);
    assert_eq!(f3.value(), 4);
    assert_eq!(f3.modulus(), 7);
}

#[test]
fn test_add_with_overflow() {
    let f1 = Felt::new(5, 7);
    let f2 = Felt::new(3, 7);
    let f3 = f1.add(f2);
    assert_eq!(f3.value(), 1);
    assert_eq!(f3.modulus(), 7);
}

#[test]
fn test_subtract_with_no_overflow() {
    let f1 = Felt::new(3, 7);
    let f2 = Felt::new(1, 7);
    let f3 = f1.sub(f2);
    assert_eq!(f3.value(), 2);
    assert_eq!(f3.modulus(), 7);
}

#[test]
fn test_subtract_with_overflow() {
    let f1 = Felt::new(2, 7);
    let f2 = Felt::new(5, 7);
    let f3 = f1.sub(f2);
    assert_eq!(f3.value(), 4);
    assert_eq!(f3.modulus(), 7);
}

#[test]
fn test_subtract_self_should_equal_zero() {
    let f1 = Felt::new(5, 7);
    let f2 = f1.sub(f1);
    assert_eq!(f2.value(), 0);
    assert_eq!(f2.modulus(), 7);
}

#[test]
fn test_multiply_with_no_overflow() {
    let f1 = Felt::new(3, 7);
    let f2 = Felt::new(2, 7);
    let f3 = f1.mul(f2);
    assert_eq!(f3.value(), 6);
    assert_eq!(f3.modulus(), 7);
}

#[test]
fn test_multiply_with_overflow() {
    let f1 = Felt::new(5, 7);
    let f2 = Felt::new(3, 7);
    let f3 = f1.mul(f2);
    assert_eq!(f3.value(), 1);
    assert_eq!(f3.modulus(), 7);
}

#[test]
fn test_multiply_with_zero() {
    let f1 = Felt::new(5, 7);
    let f2 = Felt::new(0, 7);
    let f3 = f1.mul(f2);
    assert_eq!(f3.value(), 0);
    assert_eq!(f3.modulus(), 7);
}

#[test]
fn test_inverse_of_one_should_be_one() {
    let f = Felt::new(1, 7);
    let f_inv = f.inverse().unwrap();
    assert_eq!(f_inv.value(), 1);
    assert_eq!(f_inv.modulus(), 7);
}

#[test]
fn test_inverse_of_three_modulus_seven_should_be_five() {
    let f = Felt::new(3, 7);
    let f_inv = f.inverse().unwrap();
    assert_eq!(f_inv.value(), 5);
    assert_eq!(f_inv.modulus(), 7);
}

#[test]
fn test_multiply_with_inverse_should_equal_one() {
    let f = Felt::new(3, 7);
    let f_inv = f.inverse().unwrap();
    let f_one = f.mul(f_inv);
    assert_eq!(f_one.value(), 1);
    assert_eq!(f_one.modulus(), 7);
}

#[test]
fn test_divide_with_no_overflow() {
    let f1 = Felt::new(6, 7);
    let f2 = Felt::new(2, 7);
    let f3 = f1.div(f2).unwrap();
    assert_eq!(f3.value(), 3);
    assert_eq!(f3.modulus(), 7);
}

#[test]
fn test_divide_with_overflow() {
    let f1 = Felt::new(5, 7);
    let f2 = Felt::new(3, 7);
    let f3 = f1.div(f2).unwrap();
    assert_eq!(f3.value(), 4);
    assert_eq!(f3.modulus(), 7);
}

#[test]
fn test_divide_and_multiply_should_equal_original() {
    let f1 = Felt::new(5, 7);
    let f2 = Felt::new(3, 7);
    let f3 = f1.div(f2).unwrap();
    let f4 = f3.mul(f2);
    assert_eq!(f4.value(), 5);
    assert_eq!(f4.modulus(), 7);
}

#[test]
fn test_felt_pow_with_exponent_one() {
    let f = Felt::new(5, 7);
    let f_pow = f.pow(1);
    assert_eq!(f_pow.value(), 5);
    assert_eq!(f_pow.modulus(), 7);
}

#[test]
fn test_felt_pow_with_exponent_two() {
    let f = Felt::new(5, 7);
    let f_pow = f.pow(2);
    assert_eq!(f_pow.value(), 4);
    assert_eq!(f_pow.modulus(), 7);
}

#[test]
fn test_felt_pow_with_exponent_power_of_two() {
    let f = Felt::new(5, 97);
    let f_pow = f.pow(32);
    assert_eq!(f_pow.value(), 35);
    assert_eq!(f_pow.modulus(), 97);
}

#[test]
fn test_felt_pow_with_exponent_not_a_power_of_two() {
    let f = Felt::new(12, 101);
    let f_pow = f.pow(52);
    assert_eq!(f_pow.value(), 58);
    assert_eq!(f_pow.modulus(), 101);
}

#[test]
fn test_felt_pow_with_exponent_one_should_equal_original() {
    let f = Felt::new(5, 7);
    let f_pow = f.pow(1);
    assert_eq!(f_pow.value(), 5);
    assert_eq!(f_pow.modulus(), 7);
}

#[test]
fn test_felt_pow_with_exponent_zero_should_equal_one() {
    let f = Felt::new(5, 7);
    let f_pow = f.pow(0);
    assert_eq!(f_pow.value(), 1);
    assert_eq!(f_pow.modulus(), 7);
}

#[test]
fn test_negative_felt() {
    let f = Felt::new(5, 7);
    let f_neg = f.neg();
    assert_eq!(f_neg.value(), 2);
    assert_eq!(f_neg.modulus(), 7);
}

#[test]
fn test_felt_equal() {
    let f1 = Felt::new(5, 7);
    let f2 = Felt::new(5, 7);
    assert_eq!(f1, f2);
}

#[test]
fn test_felt_not_equal() {
    let f1 = Felt::new(5, 7);
    let f2 = Felt::new(3, 7);
    assert_ne!(f1, f2);
}

#[test]
fn test_felt_not_equal_with_different_modulus() {
    let f1 = Felt::new(5, 7);
    let f2 = Felt::new(5, 9);
    assert_ne!(f1, f2);
}

#[test]
fn test_felt_display() {
    let f = Felt::new(5, 7);
    assert_eq!(f.to_display_string(), "5 (mod 7)");
}

#[test]
fn felt_test_felt_new() {
    let f = Felt::new(5, 7);
    assert_eq!(f.value(), 5);
    assert_eq!(f.modulus(), 7);
}

#[test]
fn felt_test_felt_new_value_equals_modulus_should_have_value_zero() {
    let f = Felt::new(9, 9);
    assert_eq!(f.value(), 0);
    assert_eq!(f.modulus(), 9);
}

#[test]
fn felt_test_add_with_no_overflow() {
    let f1 = Felt::new(1, 7);
    let f2 = Felt::new(3, 7);
    let f3 = f1.add(f2);
    assert_eq!(f3.value(), 4);
    assert_eq!(f3.modulus(), 7);
}

#[test]
fn felt_test_add_with_overflow() {
    let f1 = Felt::new(5, 7);
    let f2 = Felt::new(3, 7);
    let f3 = f1.add(f2);
    assert_eq!(f3.value(), 1);
    assert_eq!(f3.modulus(), 7);
}

#[test]
fn felt_test_subtract_with_no_overflow() {
    let f1 = Felt::new(3, 7);
    let f2 = Felt::new(1, 7);
    let f3 = f1.sub(f2);
    assert_eq!(f3.value(), 2);
    assert_eq!(f3.modulus(), 7);
}

#[test]
fn felt_test_subtract_with_overflow() {
    let f1 = Felt::new(2, 7);
    let f2 = Felt::new(5, 7);
    let f3 = f1.sub(f2);
    assert_eq!(f3.value(), 4);
    assert_eq!(f3.modulus(), 7);
}

#[test]
fn felt_test_felt_display() {
    let f = Felt::new(5, 7);
    assert_eq!(f.to_display_string(), "5 (mod 7)");
}

#[test]
fn test_inverse_of_zero_fails() {
    let f = Felt::new(0, 7);
    assert_eq!(f.inverse(), Err(FeltError::NotInvertible(0, 7)));
}

#[test]
fn test_inverse_with_common_factor_fails() {
    let f = Felt::new(3, 9);
    assert_eq!(f.inverse(), Err(FeltError::NotInvertible(3, 9)));
}

#[test]
fn test_divide_by_zero_fails() {
    let f1 = Felt::new(5, 7);
    let f2 = Felt::new(0, 7);
    assert_eq!(f1.div(f2), Err(FeltError::DivisionByZero));
}

#[test]
fn test_divide_by_non_invertible_fails() {
    let f1 = Felt::new(5, 9);
    let f2 = Felt::new(6, 9);
    assert_eq!(f1.div(f2), Err(FeltError::NotInvertible(6, 9)));
}

#[test]
fn test_add_with_negation_is_zero() {
    for v in 0..11 {
        let f = Felt::new(v, 11);
        let sum = f.add(f.neg());
        assert_eq!(sum.value(), 0);
        assert_eq!(sum.modulus(), 11);
    }
}

#[test]
fn test_multiply_with_inverse_is_one_across_field() {
    for v in 1..13 {
        let f = Felt::new(v, 13);
        let inv = f.inverse().unwrap();
        let prod = f.mul(inv);
        assert_eq!(prod.value(), 1);
    }
}

#[test]
fn test_new_reduces_value() {
    let f = Felt::new(123_456_789, 97);
    assert_eq!(f.value(), 123_456_789 % 97);
    assert_eq!(f.modulus(), 97);
}

#[test]
fn test_felt_display_zero() {
    let f = Felt::new(0, 1021);
    assert_eq!(f.to_display_string(), "0 (mod 1021)");
}
