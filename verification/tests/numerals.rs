use radix_script::base_literal::{BaseLiteral, NumError};

fn lit(base: u32, raw: &str) -> BaseLiteral {
    BaseLiteral::new(base, raw).unwrap()
}

#[test]
fn round_trip_small_values() {
    for base in 2u32..=64 {
        for v in [0u64, 1, 2, base as u64 - 1, base as u64, 255, 4096, 99999] {
            let l = BaseLiteral::from_int(base, v).unwrap();
            assert_eq!(l.to_int().unwrap(), v);
        }
    }
}

#[test]
fn round_trip_large_values() {
    for base in [2u32, 10, 16, 36, 64] {
        for v in [
            0x7FFF_FFFF_FFFF_FFFFu64,
            0x7FFF_FFFF_FFFF_FFFE,
            1 << 62,
            (1 << 63) - 12345,
        ] {
            let l = BaseLiteral::from_int(base, v).unwrap();
            assert_eq!(l.to_int().unwrap(), v);
        }
    }
}

#[test]
fn construct_lowercases() {
    let l = lit(16, "FF");
    assert_eq!(l.raw, "ff");
    assert_eq!(l.base, 16);
}

#[test]
fn construct_rejects_digit_outside_base() {
    assert_eq!(BaseLiteral::new(2, "2"), Err(NumError::InvalidDigit));
    assert_eq!(BaseLiteral::new(10, "a"), Err(NumError::InvalidDigit));
    assert_eq!(BaseLiteral::new(16, "g"), Err(NumError::InvalidDigit));
}

#[test]
fn construct_rejects_bad_base() {
    assert_eq!(BaseLiteral::new(1, "0"), Err(NumError::InvalidBase));
    assert_eq!(BaseLiteral::new(65, "0"), Err(NumError::InvalidBase));
    assert_eq!(BaseLiteral::new(0, "0"), Err(NumError::InvalidBase));
}

#[test]
fn upper_half_of_alphabet_is_unreachable() {
    // Base 40 admits the digit `A` (index 36), but construction folds the
    // string first, so `A` becomes `a` (index 10) and the value changes.
    let l = lit(40, "A");
    assert_eq!(l.raw, "a");
    assert_eq!(l.to_int().unwrap(), 10);
}

#[test]
fn to_int_positional() {
    assert_eq!(lit(16, "ff").to_int().unwrap(), 255);
    assert_eq!(lit(2, "1010").to_int().unwrap(), 10);
    assert_eq!(lit(10, "120").to_int().unwrap(), 120);
    assert_eq!(lit(64, "10").to_int().unwrap(), 64);
    assert_eq!(lit(10, "").to_int().unwrap(), 0);
}

#[test]
fn to_int_overflow() {
    // Twenty-one decimal digits cannot fit in 64 bits.
    assert_eq!(
        lit(10, "999999999999999999999").to_int(),
        Err(NumError::Overflow)
    );
}

#[test]
fn from_int_zero_is_single_zero_digit() {
    let l = BaseLiteral::from_int(36, 0).unwrap();
    assert_eq!(l.raw, "0");
    assert_eq!(l.to_int().unwrap(), 0);
}

#[test]
fn display_base_ten_is_bare() {
    assert_eq!(BaseLiteral::from_int(10, 1234).unwrap().display(), "1234");
}

#[test]
fn display_other_base_is_prefixed() {
    assert_eq!(BaseLiteral::from_int(16, 255).unwrap().display(), "b16@ff");
    assert_eq!(BaseLiteral::from_int(2, 5).unwrap().display(), "b2@101");
    assert_eq!(BaseLiteral::from_int(64, 63).unwrap().display(), "b64@/");
}

#[test]
fn add_encodes_in_left_base() {
    let a = lit(16, "ff");
    let b = lit(16, "1");
    let sum = a.add(&b).unwrap();
    assert_eq!(sum.base, 16);
    assert_eq!(sum.raw, "100");
}

#[test]
fn mixed_base_uses_each_side_own_radix() {
    // b16@ff + b2@10: 255 + 2, encoded back in the left radix.
    let a = lit(16, "ff");
    let b = lit(2, "10");
    let sum = a.add(&b).unwrap();
    assert_eq!(sum.base, 16);
    assert_eq!(sum.raw, "101");
}

#[test]
fn sub_underflow() {
    assert_eq!(lit(10, "3").sub(&lit(10, "5")), Err(NumError::Underflow));
    assert_eq!(lit(10, "5").sub(&lit(10, "3")).unwrap().raw, "2");
}

#[test]
fn add_overflow() {
    let max = BaseLiteral::from_int(16, u64::MAX).unwrap();
    assert_eq!(max.add(&lit(16, "1")), Err(NumError::Overflow));
}

#[test]
fn mul_overflow() {
    let big = BaseLiteral::from_int(10, 1 << 63).unwrap();
    assert_eq!(big.mul(&lit(10, "2")), Err(NumError::Overflow));
    assert_eq!(lit(10, "6").mul(&lit(10, "7")).unwrap().raw, "42");
}

#[test]
fn div_by_zero() {
    let a = BaseLiteral::from_int(10, 10).unwrap();
    assert_eq!(a.raw, "10");
    let zero = BaseLiteral::from_int(10, 0).unwrap();
    assert_eq!(a.div(&zero), Err(NumError::DivisionByZero));
    assert_eq!(a.div(&lit(10, "3")).unwrap().raw, "3");
}
