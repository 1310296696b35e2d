use crc8_rs::polynomial::Polynomial;

#[test]
fn rotate_left() {
    assert_eq!(Polynomial([0, 1, 0, 2]).rotate_left(1), Polynomial([1, 0, 2, 0]));
    assert_eq!(Polynomial([0, 1, 0, 2]).rotate_left(3), Polynomial([2, 0, 0, 0]));
    assert_eq!(Polynomial([0, 1, 0, 2]).rotate_left(4), Polynomial([0, 0, 0, 0]));
}

#[test]
fn bit_len() {
    assert_eq!(Polynomial([0x00, 0b1000_0000]).bit_len(), 7);
    assert_eq!(Polynomial([0x00, 0b1000_0000, 0x00]).bit_len(), 7 + 8);
    assert_eq!(Polynomial([0x00, 0b0000_1000, 0x00]).bit_len(), 3 + 8);
    assert_eq!(Polynomial([0x00, 0b0000_0100, 0x00]).bit_len(), 2 + 8);
}

#[test]
fn is_more_sign() {
    assert!(Polynomial([0x00, 0x08]).is_more_sign(Polynomial([0x00, 0x07])));
    assert!(Polynomial([0x80, 0x00]).is_more_sign(Polynomial([0x00, 0x07])));
    assert!(!Polynomial([0x00, 0x07]).is_more_sign(Polynomial([0x80, 0x00])));
}

#[test]
fn shift_left() {
    assert_eq!(Polynomial([0x00, 0xab]) << 8, Polynomial([0xab, 0x00]));
    assert_eq!(Polynomial([0x00, 0xab]) << 4, Polynomial([0x0a, 0xb0]));
    assert_eq!(Polynomial([0xcc, 0x33]) << 2, Polynomial([0x30, 0xcc]));
}

#[test]
fn div_test_vectors() {
    let num = [0x3f, 0x7e];
    let denum = [0x01, 0x1b];

    assert_eq!(Polynomial(num).bit_len(), 13);
    assert_eq!(Polynomial(denum).bit_len(), 8);

    assert_eq!(Polynomial(denum) << 5, Polynomial([0x23, 0x60]));

    assert_eq!(Polynomial(num) / Polynomial(denum), Polynomial([0x01, 0x1a]));
}

#[test]
fn zero_polynomial_has_bit_len_zero() {
    assert_eq!(Polynomial([0x00, 0x00, 0x00]).bit_len(), 0);
    assert_eq!(Polynomial([0x00]).bit_len(), 0);
    assert_eq!(Polynomial([0x01]).bit_len(), 0);
    assert_eq!(Polynomial([0x80, 0x00, 0x00, 0x00]).bit_len(), 31);
}

#[test]
fn equal_polynomials_are_not_more_significant() {
    assert!(!Polynomial([0x12, 0x34]).is_more_sign(Polynomial([0x12, 0x34])));
    assert!(!Polynomial([0x00, 0x00]).is_more_sign(Polynomial([0x00, 0x00])));
    assert!(Polynomial([0x00, 0x03]).is_more_sign(Polynomial([0x00, 0x02])));
}

#[test]
fn rotate_by_zero_and_past_width() {
    assert_eq!(Polynomial([7, 8, 9]).rotate_left(0), Polynomial([7, 8, 9]));
    assert_eq!(Polynomial([7, 8, 9]).rotate_left(usize::MAX), Polynomial([0, 0, 0]));
}

#[test]
fn shift_across_bytes_and_out() {
    assert_eq!(Polynomial([0x00, 0x00, 0x81]) << 9, Polynomial([0x01, 0x02, 0x00]));
    assert_eq!(Polynomial([0xff, 0xff]) << 0, Polynomial([0xff, 0xff]));
    assert_eq!(Polynomial([0xff, 0xff]) << 16, Polynomial([0x00, 0x00]));
    assert_eq!(Polynomial([0x80, 0x01]) << 1, Polynomial([0x00, 0x02]));
}

#[test]
fn subtraction_is_exclusive_or() {
    assert_eq!(Polynomial([0xf0, 0x0f]) - Polynomial([0xff, 0x00]), Polynomial([0x0f, 0x0f]));
    assert_eq!(Polynomial([0x5a, 0xa5]) - Polynomial([0x5a, 0xa5]), Polynomial([0x00, 0x00]));
}

#[test]
fn new_from_byte_fills_lowest_byte() {
    assert_eq!(Polynomial::<3>::new_from_byte(0xa6), Polynomial([0x00, 0x00, 0xa6]));
    assert_eq!(Polynomial::<1>::new_from_byte(0x07), Polynomial([0x07]));
}

#[test]
fn division_leaves_value_below_divisor() {
    assert_eq!(Polynomial([0x01, 0x00]) / Polynomial([0x00, 0x03]), Polynomial([0x00, 0x02]));
    assert_eq!(Polynomial([0x00, 0x05]) / Polynomial([0x00, 0x05]), Polynomial([0x00, 0x00]));
    assert_eq!(Polynomial([0x00, 0x04]) / Polynomial([0x00, 0x05]), Polynomial([0x00, 0x04]));
}
