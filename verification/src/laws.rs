//! The laws the bounded type guarantees across operations: canonical form is
//! unique, so normalization is idempotent, zero has one representation,
//! addition commutes, and comparison and hashing agree with equality.

use crate::apuint::{
    is_sum_of, lemma_normalized_val_bound, max_bits, spec_hash_writes, spec_limb_len,
    spec_normalized, spec_tail_len, ApUintView,
};
use crate::limbs::{lemma_pow2_le, lemma_val_inj, lemma_val_zero, limbs_val};
use vstd::arithmetic::div_mod::{lemma_fundamental_div_mod_converse, lemma_small_mod};
use vstd::arithmetic::power2::{lemma_pow2_pos, pow2};
use vstd::bits::lemma_u64_shr_is_div;
use vstd::prelude::*;

verus! {

/// Normalizing an already-normalized value is a no-op: any normalized view
/// whose value is the normalized view's value reduced to the same width is
/// that view itself, limb for limb.
pub proof fn lemma_normalize_idempotent(v: ApUintView, w: ApUintView)
    requires
        spec_normalized(v),
        spec_normalized(w),
        w.bits == v.bits,
        limbs_val(w.limbs) == limbs_val(v.limbs) % pow2(v.bits),
    ensures
        w == v,
{
    lemma_normalized_val_bound(v);
    lemma_pow2_pos(v.bits);
    lemma_small_mod(limbs_val(v.limbs), pow2(v.bits));
    lemma_val_inj(w.limbs, v.limbs);
    assert(w =~= v);
}

/// Zero is canonical: every normalized zero value stores no limbs at all,
/// whatever its declared width, so zeroes of different widths are equal.
pub proof fn lemma_zero_canonical(v: ApUintView, w: ApUintView)
    requires
        spec_normalized(v),
        spec_normalized(w),
        limbs_val(v.limbs) == 0,
        limbs_val(w.limbs) == 0,
    ensures
        v.limbs == Seq::<u64>::empty(),
        v.limbs == w.limbs,
{
    lemma_val_zero(v.limbs);
    lemma_val_zero(w.limbs);
    assert(v.limbs =~= Seq::<u64>::empty());
    assert(v.limbs =~= w.limbs);
}

/// Masking is complete: in a normalized value at a width that is not a
/// multiple of the limb width, the top required limb has no bit set at or
/// above the width's tail position.
pub proof fn lemma_masked_high_bits_clear(v: ApUintView, i: u64)
    requires
        spec_normalized(v),
        spec_tail_len(v.bits) != 0,
        v.limbs.len() == spec_limb_len(v.bits),
        spec_tail_len(v.bits) <= i < 64,
    ensures
        v.limbs.last() >> i == 0,
{
    let top = v.limbs.last();
    let t = spec_tail_len(v.bits);
    lemma_pow2_le(t, i as nat);
    lemma_pow2_pos(i as nat);
    lemma_u64_shr_is_div(top, i);
    lemma_fundamental_div_mod_converse(top as int, pow2(i as nat) as int, 0, top as int);
}

/// Addition is commutative: any sum of `a` and `b` equals any sum of `b`
/// and `a`, in width and limb for limb.
pub proof fn lemma_add_commutative(a: ApUintView, b: ApUintView, r1: ApUintView, r2: ApUintView)
    requires
        is_sum_of(r1, a, b),
        is_sum_of(r2, b, a),
    ensures
        r1 == r2,
{
    assert(max_bits(a.bits, b.bits) == max_bits(b.bits, a.bits));
    lemma_val_inj(r1.limbs, r2.limbs);
    assert(r1 =~= r2);
}

/// Ordering agrees with equality: between normalized values, equal
/// magnitude is exactly equal limb content, so the comparison returns
/// `Equal` exactly on equal values.
pub proof fn lemma_cmp_consistent_with_eq(a: ApUintView, b: ApUintView)
    requires
        spec_normalized(a),
        spec_normalized(b),
    ensures
        limbs_val(a.limbs) == limbs_val(b.limbs) <==> a.limbs == b.limbs,
{
    if limbs_val(a.limbs) == limbs_val(b.limbs) {
        lemma_val_inj(a.limbs, b.limbs);
    }
}

/// Hashing agrees with equality: normalized values of equal magnitude feed
/// the hasher identical write sequences, and the hash is a function of
/// those writes alone.
pub proof fn lemma_hash_consistent_with_eq(a: ApUintView, b: ApUintView)
    requires
        spec_normalized(a),
        spec_normalized(b),
        limbs_val(a.limbs) == limbs_val(b.limbs),
    ensures
        spec_hash_writes(a.limbs) == spec_hash_writes(b.limbs),
{
    lemma_val_inj(a.limbs, b.limbs);
}

} // verus!
