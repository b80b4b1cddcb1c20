use apuint::{ApUint, BigUint};
use std::collections::hash_map::DefaultHasher;
use std::hash::Hasher;

#[test]
fn decimal_round_trip_at_width_16() {
    let cases: Vec<(u64, &str)> = vec![(0, "0"), (1, "1"), (255, "255"), (65535, "65535")];
    for (value, expected) in cases {
        let a = ApUint::from_limbs(vec![value], 16);
        assert_eq!(a.to_string(), expected);
        assert_eq!(a.to_str_radix(10), expected);
    }
}

#[test]
fn hex_rendering_has_prefix_and_case() {
    let a = ApUint::from_limbs(vec![255], 16);
    assert_eq!(a.to_lower_hex(), "0xff");
    assert_eq!(a.to_upper_hex(), "0xFF");
    assert_eq!(a.to_str_radix(16), "ff");
}

#[test]
fn binary_and_octal_renderings() {
    let a = ApUint::from_limbs(vec![255], 16);
    assert_eq!(a.to_binary(), "0b11111111");
    assert_eq!(a.to_octal(), "0o377");
    let z = ApUint::zero(32);
    assert_eq!(z.to_binary(), "0b0");
    assert_eq!(z.to_octal(), "0o0");
    assert_eq!(z.to_lower_hex(), "0x0");
}

#[test]
fn rendering_crosses_limb_boundaries() {
    // 2^64 at width 128: two limbs, rendered through the unbounded form.
    let a = ApUint::from_limbs(vec![0, 1], 128);
    assert_eq!(a.to_string(), "18446744073709551616");
    assert_eq!(a.to_lower_hex(), "0x10000000000000000");
    let b = ApUint::from_limbs(vec![u64::MAX, u64::MAX], 128);
    assert_eq!(b.to_string(), "340282366920938463463374607431768211455");
    assert_eq!(b.to_upper_hex(), "0xFFFFFFFFFFFFFFFFFFFFFFFFFFFFFFFF");
}

#[test]
fn projection_is_lossless() {
    let a = ApUint::from_limbs(vec![123456789, 42], 128);
    let big = BigUint::from(&a);
    assert_eq!(big.digits(), a.digits());
    assert_eq!(big.to_str_radix(10), a.to_string());
    let z = ApUint::zero(64);
    let zbig = BigUint::from(&z);
    assert!(zbig.digits().is_empty());
    assert_eq!(zbig.to_str_radix(10), "0");
}

#[test]
fn all_hex_digits_render() {
    let a = ApUint::from_limbs(vec![0x0123_4567_89ab_cdef], 64);
    assert_eq!(a.to_str_radix(16), "123456789abcdef");
    assert_eq!(a.to_upper_hex(), "0x123456789ABCDEF");
}

fn hash_of(a: &ApUint) -> u64 {
    let mut state = DefaultHasher::new();
    a.hash(&mut state);
    state.finish()
}

#[test]
fn equal_values_hash_equal() {
    // The same magnitude reached along different routes, at different
    // declared widths and storage histories.
    let a = ApUint::from_limbs(vec![300], 16);
    let b = ApUint::from_limbs(vec![44, 0, 0], 64).add(&ApUint::from_limbs(vec![256], 16));
    assert!(a == b);
    assert_eq!(hash_of(&a), hash_of(&b));
    let za = ApUint::zero(8);
    let zb = ApUint::zero(512);
    assert!(za == zb);
    assert_eq!(hash_of(&za), hash_of(&zb));
}

#[test]
fn unbounded_rendering_in_every_radix() {
    let a = ApUint::from_limbs(vec![26], 8);
    let big = BigUint::from(&a);
    assert_eq!(big.to_str_radix(2), "11010");
    assert_eq!(big.to_str_radix(8), "32");
    assert_eq!(big.to_str_radix(10), "26");
    assert_eq!(big.to_str_radix(16), "1a");
}

#[test]
fn distinct_values_compare_unequal() {
    let a = ApUint::from_limbs(vec![300], 16);
    let c = ApUint::from_limbs(vec![301], 16);
    assert!(a != c);
}
