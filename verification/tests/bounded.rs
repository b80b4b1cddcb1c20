use apuint::ApUint;
use std::cmp::Ordering;

#[test]
fn normalize_is_idempotent() {
    let mut a = ApUint::from_limbs(vec![0xdead_beef, 7, 0, 0], 130);
    let before: Vec<u64> = a.digits().clone();
    a.normalize();
    assert_eq!(a.digits(), &before);
    a.normalize();
    assert_eq!(a.digits(), &before);
}

#[test]
fn fresh_zero_is_empty_at_any_width() {
    for bits in [0usize, 1, 8, 63, 64, 65, 256] {
        let z = ApUint::zero(bits);
        assert!(z.digits().is_empty());
        assert!(z.is_zero());
        assert!(z.normalized());
        assert_eq!(z.declared_bits(), bits);
    }
}

#[test]
fn zeroes_of_different_widths_are_equal() {
    let a = ApUint::zero(8);
    let b = ApUint::zero(512);
    assert!(a == b);
    let c = ApUint::from_limbs(vec![0, 0, 0], 256);
    assert!(a == c);
}

#[test]
fn masking_clears_bits_beyond_declared_width() {
    // Width 16 with a 64-bit limb: only the low 16 bits survive.
    let a = ApUint::from_limbs(vec![u64::MAX], 16);
    assert_eq!(a.digits().len(), 1);
    assert_eq!(a.digits()[0], 0xffff);
    assert_eq!(a.digits()[0] >> 16, 0);
    // Width 130: two full limbs and a 2-bit tail.
    let b = ApUint::from_limbs(vec![u64::MAX, u64::MAX, u64::MAX], 130);
    assert_eq!(b.digits().len(), 3);
    assert_eq!(b.digits()[2], 0b11);
}

#[test]
fn masking_from_tail_bits_not_limb_count() {
    // Fewer stored limbs than the width requires: nothing is masked.
    let a = ApUint::from_limbs(vec![u64::MAX], 130);
    assert_eq!(a.digits().len(), 1);
    assert_eq!(a.digits()[0], u64::MAX);
}

#[test]
fn normalization_drops_trailing_zero_limbs() {
    let a = ApUint::from_limbs(vec![5, 0, 0, 0], 256);
    assert_eq!(a.digits().len(), 1);
    assert_eq!(a.digits()[0], 5);
}

#[test]
fn zero_width_normalizes_to_zero() {
    let a = ApUint::from_limbs(vec![123, 456], 0);
    assert!(a.is_zero());
    assert!(a.digits().is_empty());
}

#[test]
fn addition_wraps_at_declared_width() {
    // 250 + 10 = 260, which needs nine bits; at width 8 it wraps to 4.
    let a = ApUint::from_limbs(vec![250], 8);
    let b = ApUint::from_limbs(vec![10], 8);
    let c = a.add(&b);
    assert_eq!(c.declared_bits(), 8);
    assert_eq!(c.digits(), &vec![4u64]);
    assert_eq!(c.to_string(), "4");
}

#[test]
fn addition_carries_across_limbs() {
    let a = ApUint::from_limbs(vec![u64::MAX], 128);
    let b = ApUint::from_limbs(vec![1], 128);
    let c = a.add(&b);
    assert_eq!(c.digits(), &vec![0u64, 1u64]);
    assert_eq!(c.to_lower_hex(), "0x10000000000000000");
}

#[test]
fn addition_is_commutative() {
    let pairs: Vec<(Vec<u64>, usize, Vec<u64>, usize)> = vec![
        (vec![250], 8, vec![10], 8),
        (vec![5], 8, vec![1000], 16),
        (vec![u64::MAX, u64::MAX], 130, vec![1], 64),
        (vec![], 0, vec![7], 8),
    ];
    for (da, wa, db, wb) in pairs {
        let a1 = ApUint::from_limbs(da.clone(), wa);
        let b1 = ApUint::from_limbs(db.clone(), wb);
        let a2 = ApUint::from_limbs(da, wa);
        let b2 = ApUint::from_limbs(db, wb);
        let ab = a1.add(&b1);
        let ba = b2.add(&a2);
        assert!(ab == ba);
        assert_eq!(ab.declared_bits(), ba.declared_bits());
        assert_eq!(ab.digits(), ba.digits());
    }
}

#[test]
fn addition_grows_width_to_the_larger_operand() {
    let a = ApUint::from_limbs(vec![5], 8);
    let b = ApUint::from_limbs(vec![1000], 16);
    let c = a.add(&b);
    assert_eq!(c.declared_bits(), 16);
    assert_eq!(c.to_string(), "1005");
}

#[test]
fn add_assign_accumulates() {
    let mut acc = ApUint::zero(16);
    let one = ApUint::from_limbs(vec![1], 16);
    for _ in 0..300 {
        acc.add_assign(&one);
    }
    assert_eq!(acc.to_string(), "300");
}

#[test]
fn add_assign_grows_width_to_a_wider_operand() {
    // Accumulating a width-16 value into a width-8 accumulator widens the
    // accumulator first, so 250 + 10 does not wrap at eight bits here.
    let mut acc = ApUint::from_limbs(vec![250], 8);
    let b = ApUint::from_limbs(vec![10], 16);
    acc.add_assign(&b);
    assert_eq!(acc.declared_bits(), 16);
    assert_eq!(acc.to_string(), "260");
    // A same-width accumulation still wraps at the accumulator's width.
    let mut w = ApUint::from_limbs(vec![250], 8);
    w.add_assign(&ApUint::from_limbs(vec![10], 8));
    assert_eq!(w.declared_bits(), 8);
    assert_eq!(w.to_string(), "4");
}

#[test]
fn ordering_is_by_magnitude() {
    let small = ApUint::from_limbs(vec![9], 64);
    let big = ApUint::from_limbs(vec![0, 1], 128);
    assert_eq!(small.cmp(&big), Ordering::Less);
    assert_eq!(big.cmp(&small), Ordering::Greater);
    assert_eq!(small.partial_cmp(&big), Some(Ordering::Less));
    // Same length, decided by the most-significant differing limb.
    let x = ApUint::from_limbs(vec![u64::MAX, 1], 128);
    let y = ApUint::from_limbs(vec![0, 2], 128);
    assert_eq!(x.cmp(&y), Ordering::Less);
}

#[test]
fn cmp_equal_exactly_on_equal_values() {
    let a = ApUint::from_limbs(vec![42], 8);
    let b = ApUint::from_limbs(vec![42, 0], 64);
    let c = ApUint::from_limbs(vec![43], 8);
    assert_eq!(a.cmp(&b), Ordering::Equal);
    assert!(a == b);
    assert_ne!(a.cmp(&c), Ordering::Equal);
    assert!(a != c);
}

#[test]
fn clone_preserves_value() {
    let a = ApUint::from_limbs(vec![7, 8, 9], 256);
    let b = a.clone();
    assert!(a == b);
    assert_eq!(a.declared_bits(), b.declared_bits());
    assert_eq!(a.digits(), b.digits());
}

#[test]
fn clone_from_overwrites_prior_content() {
    let a = ApUint::from_limbs(vec![1, 2, 3], 192);
    // Destinations with different prior contents, widths and capacities.
    let mut b = ApUint::from_limbs(vec![u64::MAX; 8], 512);
    let mut c = ApUint::zero(0);
    b.clone_from(&a);
    c.clone_from(&a);
    assert!(b == a);
    assert!(c == a);
    assert_eq!(b.declared_bits(), a.declared_bits());
    assert_eq!(c.declared_bits(), a.declared_bits());
}

#[test]
fn default_is_zero() {
    let d: ApUint = Default::default();
    assert!(d.is_zero());
    assert_eq!(d.declared_bits(), 0);
    assert!(d == ApUint::zero(64));
}

#[test]
fn set_zero_keeps_width() {
    let mut a = ApUint::from_limbs(vec![5, 6], 128);
    a.set_zero();
    assert!(a.is_zero());
    assert_eq!(a.declared_bits(), 128);
}

#[test]
fn limb_len_is_ceiling_division() {
    assert_eq!(ApUint::zero(0).limb_len(), 0);
    assert_eq!(ApUint::zero(1).limb_len(), 1);
    assert_eq!(ApUint::zero(64).limb_len(), 1);
    assert_eq!(ApUint::zero(65).limb_len(), 2);
    assert_eq!(ApUint::zero(128).limb_len(), 2);
    assert_eq!(ApUint::zero(130).limb_len(), 3);
    assert_eq!(ApUint::zero(130).tail_len(), 2);
    assert_eq!(ApUint::zero(128).tail_len(), 0);
}

#[test]
fn partial_cmp_is_always_some() {
    let a = ApUint::from_limbs(vec![1], 8);
    let b = ApUint::from_limbs(vec![1, 0], 64);
    assert_eq!(a.partial_cmp(&b), Some(Ordering::Equal));
    assert_eq!(b.partial_cmp(&a), Some(Ordering::Equal));
}

#[test]
fn adding_zero_changes_nothing_but_width() {
    let a = ApUint::from_limbs(vec![77], 8);
    let z = ApUint::zero(32);
    let c = a.add(&z);
    assert_eq!(c.to_string(), "77");
    assert_eq!(c.declared_bits(), 32);
}

#[test]
fn wrap_masks_the_tail_limb() {
    // At width 130 the top required limb keeps only two bits.
    let a = ApUint::from_limbs(vec![u64::MAX, u64::MAX, 0b01], 130);
    let b = ApUint::from_limbs(vec![1], 64);
    let c = a.add(&b);
    assert_eq!(c.digits(), &vec![0u64, 0u64, 0b10u64]);
}

#[test]
fn normalized_detects_raw_storage() {
    let mut a = ApUint::from_limbs(vec![1], 128);
    assert!(a.normalized());
    a.digits_mut().push(0);
    assert!(!a.normalized());
    a.normalize();
    assert!(a.normalized());
    assert_eq!(a.len(), 1);
}
