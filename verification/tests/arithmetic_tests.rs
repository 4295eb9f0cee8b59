use besu_native::natural::{Comparison, Natural};
use besu_native::precompile::modexp;

#[test]
fn test_modexp_small() {
    assert_eq!(modexp(&[2], &[3], &[5]), vec![3u8]);
}

#[test]
fn test_modexp_multiword() {
    // Operands wide enough to exercise multi-digit multiply and division.
    let base = [1u8, 35, 69, 103, 137, 171, 205, 239, 0, 17, 34, 51, 68, 85, 102, 119];
    let exp = [31u8, 46, 61, 76, 91, 106, 121];
    let modulus = [254u8, 220, 186, 152, 118, 84, 50, 16, 254, 220, 186, 152, 118, 84, 50, 17];
    let expected = vec![
        62u8, 236, 178, 40, 138, 17, 252, 112, 99, 134, 151, 102, 180, 176, 183, 208,
    ];
    assert_eq!(modexp(&base, &exp, &modulus), expected);
}

#[test]
fn test_modexp_result_below_modulus() {
    // The result of a reduction is always strictly below the modulus.
    let out = modexp(&[0xff, 0xff], &[0x11], &[0x03, 0x21]);
    let result = Natural::from_big_endian(&out);
    let modulus = Natural::from_big_endian(&[0x03, 0x21]);
    assert_eq!(result.compare(&modulus), Comparison::Less);
}

#[test]
fn test_modexp_zero_modulus_is_empty() {
    assert_eq!(modexp(&[2], &[3], &[0]).len(), 0);
    assert_eq!(modexp(&[2], &[3], &[]).len(), 0);
    assert_eq!(modexp(&[2], &[3], &[0, 0, 0]).len(), 0);
}

#[test]
fn test_modexp_zero_exponent_is_one() {
    assert_eq!(modexp(&[9, 9], &[], &[7]), vec![1u8]);
    assert_eq!(modexp(&[9, 9], &[0, 0], &[7]), vec![1u8]);
}

#[test]
fn test_modexp_modulus_one_is_empty() {
    assert_eq!(modexp(&[5], &[10], &[1]).len(), 0);
}

#[test]
fn test_modexp_zero_base_is_zero() {
    // 0^5 mod 7 = 0, encoded as empty bytes.
    assert_eq!(modexp(&[0], &[5], &[7]).len(), 0);
}

#[test]
fn test_round_trip_strips_leading_zeros() {
    let n = Natural::from_big_endian(&[0, 0, 1, 2]);
    assert_eq!(n.to_big_endian(), vec![1u8, 2]);
    let z = Natural::from_big_endian(&[0, 0]);
    assert_eq!(z.to_big_endian(), Vec::<u8>::new());
    let w = Natural::from_big_endian(&[9, 0, 0, 0, 0, 0, 0, 0, 0]);
    assert_eq!(w.to_big_endian(), vec![9u8, 0, 0, 0, 0, 0, 0, 0, 0]);
}

#[test]
fn test_round_trip_value_preserved() {
    let bytes = [0u8, 7, 0, 0, 0, 0, 0, 0, 0, 1, 2, 3];
    let n1 = Natural::from_big_endian(&bytes);
    let enc = n1.to_big_endian();
    let n2 = Natural::from_big_endian(&enc);
    assert_eq!(n1.compare(&n2), Comparison::Equal);
}

#[test]
fn test_from_big_endian_empty_is_zero() {
    let n = Natural::from_big_endian(&[]);
    assert!(n.is_zero());
    assert_eq!(n.to_big_endian(), Vec::<u8>::new());
}

#[test]
fn test_add_carries_across_digits() {
    // 0xffff_ffff_ffff_ffff + 1 = 0x1_0000_0000_0000_0000
    let a = Natural::from_big_endian(&[0xff; 8]);
    let b = Natural::from_big_endian(&[1]);
    let sum = a.add(&b);
    assert_eq!(sum.to_big_endian(), vec![1u8, 0, 0, 0, 0, 0, 0, 0, 0]);
}

#[test]
fn test_sub_borrows_across_digits() {
    // 0x1_0000_0000_0000_0000 - 1 = 0xffff_ffff_ffff_ffff
    let a = Natural::from_big_endian(&[1, 0, 0, 0, 0, 0, 0, 0, 0]);
    let b = Natural::from_big_endian(&[1]);
    let diff = a.sub(&b);
    assert_eq!(diff.to_big_endian(), vec![0xffu8; 8]);
}

#[test]
fn test_mul_small_values() {
    // 255 * 255 = 65025 = 0xfe01
    let a = Natural::from_big_endian(&[255]);
    let b = Natural::from_big_endian(&[255]);
    assert_eq!(a.mul(&b).to_big_endian(), vec![0xfeu8, 0x01]);
}

#[test]
fn test_compare_orders_by_value() {
    let a = Natural::from_big_endian(&[1, 0]);
    let b = Natural::from_big_endian(&[0xff]);
    assert_eq!(a.compare(&b), Comparison::Greater);
    assert_eq!(b.compare(&a), Comparison::Less);
    let c = Natural::from_big_endian(&[0, 0xff]);
    assert_eq!(b.compare(&c), Comparison::Equal);
}

#[test]
fn test_divmod_quotient_and_remainder() {
    // 123456789012345678901234567890 = q * 987654321098 + r
    let a = Natural::from_big_endian(&[1, 142, 233, 15, 246, 195, 115, 224, 238, 78, 63, 10, 210]);
    let b = Natural::from_big_endian(&[229, 244, 200, 243, 202]);
    let (q, r) = a.divmod(&b);
    assert_eq!(q.to_big_endian(), vec![1u8, 188, 22, 214, 49, 9, 67, 135]);
    assert_eq!(r.to_big_endian(), vec![3u8, 100, 94, 157, 76]);
}

#[test]
fn test_reduce_below_modulus() {
    let a = Natural::from_big_endian(&[9, 9, 9, 9]);
    let m = Natural::from_big_endian(&[0, 251]);
    let r = a.reduce(&m);
    assert_eq!(r.compare(&m), Comparison::Less);
    // 151587081 mod 251 = 149
    assert_eq!(r.to_big_endian(), vec![149u8]);
}
