use bignum::biguint::BigUint;
use bignum::biguint::BigUint4096;
use bignum::biguint::ParseError;

#[test]
fn test_add_simple() {
    let a = BigUint4096::from_hex_be("1").unwrap();
    let b = BigUint4096::from_hex_be("2").unwrap();
    let c = a.add(&b);
    assert_eq!(c, BigUint4096::from_hex_be("3").unwrap());
    assert_eq!(c.to_hex_be(), format!("{:0>1024X}", 3u64));
}

#[test]
fn test_sub_simple() {
    let a = BigUint4096::from_hex_be("10").unwrap();
    let b = BigUint4096::from_hex_be("1").unwrap();
    let c = a.sub(&b);
    assert_eq!(c, BigUint4096::from_hex_be("F").unwrap());
    assert_eq!(c.to_hex_be(), format!("{:0>1024X}", 15u64));
}

#[test]
fn test_overflow_add() {
    let max: BigUint4096 = BigUint([!0u64; 64]);
    let one = BigUint4096::from_hex_be("1").unwrap();
    let sum = max.add(&one);
    assert_eq!(sum.0[0], 0);
}

#[test]
fn test_display_and_parse() {
    let hex = "123456789ABCDEF0FEDCBA9876543210";
    let s = format!("0x{}", hex);
    let x: BigUint4096 = s.parse().unwrap();
    assert_eq!(&x.to_hex_be()[64 * 16 - hex.len()..], hex);
    assert_eq!(x.to_hex_prefixed(), format!("0x{}", x.to_hex_be()));
}

#[test]
fn test_constructors() {
    let z = BigUint4096::zero();
    assert!(z.0.iter().all(|&l| l == 0));
    let o = BigUint4096::one();
    assert_eq!(o.0[0], 1);
    assert!(o.0[1..].iter().all(|&l| l == 0));
    let n = BigUint4096::from_native(0xDEADBEEF);
    assert_eq!(n.0[0], 0xDEADBEEF);
    let m = BigUint4096::max_value();
    assert!(m.0.iter().all(|&l| l == u64::MAX));
}

#[test]
fn test_hex_round_trip() {
    let v = BigUint4096::from_hex_be("123456abcdef").unwrap();
    let h = v.to_hex_be();
    assert_eq!(h.len(), 64 * 16);
    let back = BigUint4096::from_hex_be(&h).unwrap();
    assert_eq!(back, v);

    let z = BigUint4096::zero();
    let hz = z.to_hex_be();
    assert_eq!(hz, "0".repeat(1024));
    assert_eq!(BigUint4096::from_hex_be(&hz).unwrap(), z);

    let m = BigUint4096::max_value();
    assert_eq!(BigUint4096::from_hex_be(&m.to_hex_be()).unwrap(), m);
}

#[test]
fn test_from_hex_prefix_and_errors() {
    assert_eq!(
        BigUint4096::from_hex_be("0xff").unwrap(),
        BigUint4096::from_hex_be("FF").unwrap()
    );
    assert_eq!(
        BigUint4096::from_hex_be("0Xff").unwrap(),
        BigUint4096::from_hex_be("ff").unwrap()
    );
    // An empty string under-specifies every leading zero: it is zero.
    assert_eq!(BigUint4096::from_hex_be("").unwrap(), BigUint4096::zero());
    // One bad character is rejected, never a panic.
    assert_eq!(
        BigUint4096::from_hex_be("12G4"),
        Err(ParseError::InvalidHexDigit)
    );
    // More digits than 64 limbs can hold.
    let too_long = "1".repeat(64 * 16 + 1);
    assert_eq!(
        BigUint4096::from_hex_be(&too_long),
        Err(ParseError::StringTooLong)
    );
    // Exactly the full width is fine.
    let full = "A".repeat(64 * 16);
    assert!(BigUint4096::from_hex_be(&full).is_ok());
}

#[test]
fn test_additive_wraparound() {
    let sum = BigUint4096::max_value().add(&BigUint4096::one());
    assert_eq!(sum, BigUint4096::zero());
}

#[test]
fn test_subtractive_wraparound() {
    let diff = BigUint4096::zero().sub(&BigUint4096::one());
    assert_eq!(diff, BigUint4096::max_value());
}

#[test]
fn test_additive_inverse() {
    let a = BigUint4096::from_hex_be("123456789abcdef0123456789abcdef").unwrap();
    let b = BigUint4096::from_hex_be("fedcba9876543210").unwrap();
    assert_eq!(a.add(&b).sub(&b), a);
    let m = BigUint4096::max_value();
    assert_eq!(m.add(&b).sub(&b), m);
}

#[test]
fn test_add_commutative_associative() {
    let a = BigUint4096::from_native(0x1234_5678_9ABC_DEF0);
    let b = BigUint4096::max_value();
    let c = BigUint4096::from_hex_be("ffffffffffffffffffffffffffffffff").unwrap();
    assert_eq!(a.add(&b), b.add(&a));
    assert_eq!(a.add(&b).add(&c), a.add(&b.add(&c)));
}

#[test]
fn test_bitwise_laws() {
    let a = BigUint4096::from_hex_be("f0f0f0f0f0f0f0f0f0f0").unwrap();
    let b = BigUint4096::from_hex_be("1234567890abcdef1234").unwrap();
    let c = BigUint4096::max_value();
    assert_eq!(a.and(&b), b.and(&a));
    assert_eq!(a.or(&b), b.or(&a));
    assert_eq!(a.xor(&b), b.xor(&a));
    assert_eq!(a.and(&b).and(&c), a.and(&b.and(&c)));
    assert_eq!(a.or(&b).or(&c), a.or(&b.or(&c)));
    assert_eq!(a.xor(&b).xor(&c), a.xor(&b.xor(&c)));
}

#[test]
fn test_de_morgan() {
    let a = BigUint4096::from_hex_be("ffff0000ffff0000").unwrap();
    let b = BigUint4096::from_hex_be("123456789abcdef0").unwrap();
    assert_eq!(a.not().and(&b.not()), a.or(&b).not());
}

#[test]
fn test_not_flips_every_limb() {
    let z = BigUint4096::zero();
    assert_eq!(z.not(), BigUint4096::max_value());
}

#[test]
fn test_mul_simple() {
    let p = BigUint4096::from_native(123).mul(&BigUint4096::from_native(456));
    assert_eq!(p.0[0], 56088);
    assert!(p.0[1..].iter().all(|&l| l == 0));
}

#[test]
fn test_mul_cross_limb() {
    // (2^64 - 1)^2 == 2^128 - 2^65 + 1
    let m = BigUint4096::from_native(u64::MAX);
    let sq = m.mul(&m);
    assert_eq!(sq.0[0], 1);
    assert_eq!(sq.0[1], u64::MAX - 1);
    assert!(sq.0[2..].iter().all(|&l| l == 0));
}

#[test]
fn test_add_carries_across_limbs() {
    let a = BigUint4096::from_native(0xFFFFFFFFFFFFFFFF);
    let sum = a.add(&BigUint4096::from_native(1));
    assert_eq!(sum.0[0], 0);
    assert_eq!(sum.0[1], 1);
    assert!(sum.0[2..].iter().all(|&l| l == 0));
}

#[test]
fn test_shift_identities() {
    let v = BigUint4096::from_hex_be("123456789abcdef0f0f0").unwrap();
    assert_eq!(v.shl(0), v);
    assert_eq!(v.shr(0), v);
    assert_eq!(v.shl(64 * 64), BigUint4096::zero());
    assert_eq!(v.shr(64 * 64), BigUint4096::zero());
    assert_eq!(v.shl(100000), BigUint4096::zero());

    let one_shifted = BigUint4096::one().shl(64);
    assert_eq!(one_shifted.0[0], 0);
    assert_eq!(one_shifted.0[1], 1);

    // No bits are lost shifting a small value far up and back down.
    assert_eq!(v.shl(1000).shr(1000), v);
    assert_eq!(v.shl(67).shr(67), v);
}

#[test]
fn test_shift_cross_limb_bits() {
    let v = BigUint4096::from_native(1);
    let up = v.shl(65);
    assert_eq!(up.0[1], 2);
    assert_eq!(up.shr(65), v);
}

#[test]
fn test_in_place_variants() {
    let mut x = BigUint4096::from_native(10);
    x.add_assign(&BigUint4096::from_native(5));
    assert_eq!(x, BigUint4096::from_native(15));
    x.sub_assign(&BigUint4096::from_native(3));
    assert_eq!(x, BigUint4096::from_native(12));
    x.mul_assign(&BigUint4096::from_native(4));
    assert_eq!(x, BigUint4096::from_native(48));
    x.and_assign(&BigUint4096::from_native(0xFF));
    assert_eq!(x, BigUint4096::from_native(48));
    x.or_assign(&BigUint4096::from_native(0x100));
    assert_eq!(x, BigUint4096::from_native(0x130));
    x.xor_assign(&BigUint4096::from_native(0x30));
    assert_eq!(x, BigUint4096::from_native(0x100));
    x.shl_assign(4);
    assert_eq!(x, BigUint4096::from_native(0x1000));
    x.shr_assign(8);
    assert_eq!(x, BigUint4096::from_native(0x10));
    x.not_assign();
    assert_eq!(x, BigUint4096::from_native(0x10).not());
}

#[test]
fn test_small_width() {
    // A two-limb integer wraps at 2^128.
    let max = BigUint::<2>::max_value();
    assert_eq!(max.add(&BigUint::<2>::one()), BigUint::<2>::zero());
    let hex = max.to_hex_be();
    assert_eq!(hex, "F".repeat(32));
    assert_eq!(BigUint::<2>::from_hex_be(&hex).unwrap(), max);
    // Shifting past the width clears the value.
    assert_eq!(BigUint::<2>::one().shl(128), BigUint::<2>::zero());
}

#[test]
fn test_default_is_zero() {
    let d: BigUint4096 = Default::default();
    assert_eq!(d, BigUint4096::zero());
}
