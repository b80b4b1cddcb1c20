//! The bounded unsigned integer type and its normalization invariant.

mod addition;
mod convert;

pub use addition::is_sum_of;

use crate::limbs::{
    lemma_pow2_le, lemma_pow2_mod_mod, lemma_val_bound, lemma_val_inj, lemma_val_snoc,
    lemma_val_split, lemma_val_take_snoc, lemma_val_zero, limbs_val, trimmed,
};
use core::cmp::Ordering;
use std::collections::hash_map::DefaultHasher;
use std::hash::Hasher;
use vstd::arithmetic::div_mod::{
    lemma_fundamental_div_mod_converse, lemma_mod_bound, lemma_mod_breakdown, lemma_small_mod,
};
use vstd::arithmetic::power2::{lemma_pow2_adds, lemma_pow2_pos, pow2};
use vstd::bits::{
    lemma_u64_low_bits_mask_is_mod, lemma_u64_pow2_no_overflow, lemma_u64_shl_is_mul,
    low_bits_mask,
};
use vstd::prelude::*;

verus! {

/// A bit-width-bounded unsigned integer: a little-endian limb sequence
/// bounded by a declared bit width and kept in canonical form.
pub struct ApUint {
    pub(crate) data: Vec<u64>,
    pub(crate) bits: usize,
}

/// The mathematical content of an [`ApUint`]: its limb sequence and its
/// declared bit width.
#[verifier::ext_equal]
pub struct ApUintView {
    pub limbs: Seq<u64>,
    pub bits: nat,
}

impl View for ApUint {
    type V = ApUintView;

    open(crate) spec fn view(&self) -> ApUintView {
        ApUintView { limbs: self.data@, bits: self.bits as nat }
    }
}

/// The minimum number of limbs whose combined capacity covers `bits` bits.
pub open spec fn spec_limb_len(bits: nat) -> nat {
    (bits + 63) / 64
}

/// The number of significant bits in the most-significant required limb;
/// zero means that limb is fully used.
pub open spec fn spec_tail_len(bits: nat) -> nat {
    bits % 64
}

/// The normalization invariant: no limb beyond what the declared width
/// requires, the top required limb masked to its significant bits, and no
/// most-significant zero limb stored.
pub open spec fn spec_normalized(v: ApUintView) -> bool {
    &&& v.limbs.len() <= spec_limb_len(v.bits)
    &&& (v.limbs.len() == spec_limb_len(v.bits) && spec_tail_len(v.bits) != 0 ==> (
    v.limbs.last() as nat) < pow2(spec_tail_len(v.bits)))
    &&& trimmed(v.limbs)
}

/// The larger of two declared bit widths.
pub open spec fn max_bits(a: nat, b: nat) -> nat {
    if a >= b {
        a
    } else {
        b
    }
}

/// The write sequence that hashing a limb sequence feeds to a hasher: each
/// limb as its little-endian bytes.
pub open spec fn spec_hash_writes(limbs: Seq<u64>) -> Seq<Seq<u8>> {
    limbs.map_values(|x: u64| vstd::bytes::spec_u64_to_le_bytes(x))
}

/// A normalized value fits in its declared bit width.
pub proof fn lemma_normalized_val_bound(v: ApUintView)
    requires
        spec_normalized(v),
    ensures
        limbs_val(v.limbs) < pow2(v.bits),
{
    let k = spec_limb_len(v.bits);
    let t = spec_tail_len(v.bits);
    lemma_val_bound(v.limbs);
    if v.limbs.len() < k || t == 0 {
        // The whole stored sequence fits below the declared width.
        assert(64 * v.limbs.len() <= v.bits) by {
            if t == 0 {
                assert(64 * k == v.bits);
                assert(64 * v.limbs.len() <= 64 * k) by (nonlinear_arith)
                    requires
                        v.limbs.len() <= k,
                ;
            } else {
                assert(64 * (k - 1) + t == v.bits);
                assert(64 * v.limbs.len() <= 64 * (k - 1)) by (nonlinear_arith)
                    requires
                        v.limbs.len() <= k - 1,
                ;
            }
        }
        lemma_pow2_le(64 * v.limbs.len(), v.bits);
    } else {
        // Full length with a partial top limb: split below the top limb.
        let i = v.limbs.len() - 1;
        assert(v.limbs.take(i + 1) =~= v.limbs);
        lemma_val_take_snoc(v.limbs, i);
        lemma_val_bound(v.limbs.take(i));
        let p = pow2(64 * i as nat);
        let top = v.limbs.last();
        assert(v.bits == 64 * i + t);
        lemma_pow2_adds(64 * i as nat, t);
        assert(limbs_val(v.limbs.take(i)) + top * p < p * pow2(t)) by (nonlinear_arith)
            requires
                limbs_val(v.limbs.take(i)) < p,
                (top as nat) < pow2(t),
                0 < p,
        ;
    }
}

/// Between normalized views of the same width, limb equality is value
/// equality.
pub proof fn lemma_normalized_inj(v: ApUintView, w: ApUintView)
    requires
        spec_normalized(v),
        spec_normalized(w),
        limbs_val(v.limbs) == limbs_val(w.limbs),
    ensures
        v.limbs == w.limbs,
{
    lemma_val_inj(v.limbs, w.limbs);
}

impl ApUint {
    /// The number of limbs the declared bit width requires, by ceiling
    /// division.
    pub fn limb_len(&self) -> (r: usize)
        ensures
            r == spec_limb_len(self@.bits),
    {
        let q = self.bits / 64;
        let t = self.bits % 64;
        assert(self.bits == 64 * q + t);
        if t == 0 {
            assert(spec_limb_len(self@.bits) == q) by {
                assert((64 * q + 63) / 64 == q);
            }
            q
        } else {
            assert(q < usize::MAX) by {
                assert(64 * q <= self.bits);
            }
            assert(spec_limb_len(self@.bits) == q + 1) by {
                assert((64 * q + t + 63) / 64 == q + 1);
            }
            q + 1
        }
    }

    /// The number of significant bits in the most-significant required limb.
    pub fn tail_len(&self) -> (r: usize)
        ensures
            r == spec_tail_len(self@.bits),
    {
        self.bits % 64
    }

    /// The declared bit width this value is bounded to.
    pub fn declared_bits(&self) -> (r: usize)
        ensures
            r == self@.bits,
    {
        self.bits
    }

    /// The stored limbs, least significant first.
    pub fn digits(&self) -> (r: &Vec<u64>)
        ensures
            r@ == self@.limbs,
    {
        &self.data
    }

    /// Mutable access to the stored limbs. The caller is expected to
    /// re-establish the normalization invariant with [`ApUint::normalize`]
    /// before comparing or hashing the value.
    pub fn digits_mut(&mut self) -> (r: &mut Vec<u64>)
        ensures
            (*r)@ == old(self)@.limbs,
            final(self)@.limbs == (*final(r))@,
            final(self)@.bits == old(self)@.bits,
    {
        &mut self.data
    }

    /// The number of limbs currently stored.
    pub fn len(&self) -> (r: usize)
        ensures
            r == self@.limbs.len(),
    {
        self.data.len()
    }

    /// The canonical zero at declared bit width `bits`.
    pub fn zero(bits: usize) -> (r: ApUint)
        ensures
            r@.bits == bits,
            r@.limbs == Seq::<u64>::empty(),
            spec_normalized(r@),
    {
        let r = ApUint { data: Vec::new(), bits };
        assert(r@.limbs =~= Seq::<u64>::empty());
        r
    }

    /// Drops the magnitude to zero while keeping the declared width and the
    /// limb storage allocation.
    pub fn set_zero(&mut self)
        ensures
            final(self)@.bits == old(self)@.bits,
            final(self)@.limbs == Seq::<u64>::empty(),
            spec_normalized(final(self)@),
    {
        self.data.clear();
        assert(final(self)@.limbs =~= Seq::<u64>::empty());
    }

    /// Whether this value is zero, that is, stores no limbs.
    pub fn is_zero(&self) -> (r: bool)
        ensures
            r <==> self@.limbs.len() == 0,
            spec_normalized(self@) ==> (r <==> limbs_val(self@.limbs) == 0),
    {
        proof {
            if spec_normalized(self@) {
                lemma_val_zero(self@.limbs);
            }
        }
        self.data.is_empty()
    }

    /// Builds a value at declared width `bits` from raw limbs and
    /// normalizes it, so the result holds the raw magnitude reduced modulo
    /// two to the declared width.
    pub fn from_limbs(data: Vec<u64>, bits: usize) -> (r: ApUint)
        ensures
            r@.bits == bits,
            spec_normalized(r@),
            limbs_val(r@.limbs) == limbs_val(data@) % pow2(bits as nat),
    {
        let mut r = ApUint { data, bits };
        r.normalize();
        r
    }

    /// Read-only check of the normalization invariant.
    pub fn normalized(&self) -> (r: bool)
        ensures
            r == spec_normalized(self@),
    {
        let k = self.limb_len();
        let t = self.tail_len();
        if self.data.len() > k {
            return false;
        }
        if self.data.len() == 0 {
            return true;
        }
        let last = self.data[self.data.len() - 1];
        if last == 0 {
            return false;
        }
        if self.data.len() == k && t != 0 {
            proof {
                lemma_u64_pow2_no_overflow(t as nat);
                lemma_u64_shl_is_mul(1u64, t as u64);
            }
            let mask: u64 = (1u64 << (t as u64)) - 1;
            return last <= mask;
        }
        true
    }

    /// Re-establishes the normalization invariant in place: truncates to the
    /// required limb count, masks the top required limb to its significant
    /// bits, and drops most-significant zero limbs. The represented
    /// magnitude becomes the old magnitude reduced modulo two to the
    /// declared width.
    pub fn normalize(&mut self)
        ensures
            final(self)@.bits == old(self)@.bits,
            spec_normalized(final(self)@),
            limbs_val(final(self)@.limbs) == limbs_val(old(self)@.limbs) % pow2(
                old(self)@.bits,
            ),
    {
        let ghost n0 = limbs_val(old(self)@.limbs);
        let ghost bits = old(self)@.bits;
        let k = self.limb_len();
        let t = self.tail_len();
        self.data.truncate(k);
        proof {
            lemma_truncated_val(old(self)@.limbs, self@.limbs, bits);
        }
        let ghost truncated = self@.limbs;
        if t != 0 && self.data.len() == k {
            assert(k >= 1) by {
                assert(bits >= 1);
            }
            let last_i = k - 1;
            proof {
                lemma_u64_pow2_no_overflow(t as nat);
                lemma_u64_shl_is_mul(1u64, t as u64);
            }
            let mask: u64 = (1u64 << (t as u64)) - 1;
            assert(mask == low_bits_mask(t as nat));
            let top = self.data[last_i];
            let masked = top & mask;
            proof {
                lemma_u64_low_bits_mask_is_mod(top, t as nat);
                lemma_pow2_pos(t as nat);
                assert(masked as nat == (top as nat) % pow2(t as nat));
            }
            self.data[last_i] = masked;
            proof {
                assert(truncated.last() == top);
                lemma_masked_val(truncated, self@.limbs, bits);
            }
        } else {
            proof {
                lemma_unmasked_val(self@.limbs, bits);
            }
        }
        // The value now equals the original reduced modulo the declared
        // width; dropping most-significant zero limbs keeps it.
        proof {
            let k_ = spec_limb_len(bits);
            assert(bits <= 64 * k_) by {
                if spec_tail_len(bits) == 0 {
                    assert(64 * k_ == bits);
                } else {
                    assert(64 * (k_ - 1) + spec_tail_len(bits) == bits);
                }
            }
            lemma_pow2_pos(64 * k_);
            lemma_mod_bound(n0 as int, pow2(64 * k_) as int);
            lemma_small_mod(limbs_val(truncated), pow2(64 * k_));
            lemma_pow2_mod_mod(n0, bits, 64 * k_);
        }
        assert(limbs_val(self@.limbs) == n0 % pow2(bits));
        let ghost masked_limbs = self@.limbs;
        proof {
            assert(self@.limbs =~= masked_limbs.take(self@.limbs.len() as int));
        }
        while self.data.len() > 0 && self.data[self.data.len() - 1] == 0
            invariant
                self@.limbs.len() <= masked_limbs.len(),
                self@.limbs == masked_limbs.take(self@.limbs.len() as int),
                limbs_val(self@.limbs) == n0 % pow2(bits),
                self@.bits == bits,
            decreases self@.limbs.len(),
        {
            proof {
                let s = self@.limbs;
                assert(s =~= s.take(s.len() - 1).push(s.last()));
                lemma_val_snoc(s.take(s.len() - 1), s.last());
                assert(masked_limbs.take(s.len() - 1) =~= s.take(s.len() - 1));
            }
            self.data.pop();
        }
        proof {
            let s = self@.limbs;
            let k_ = spec_limb_len(bits);
            let t_ = spec_tail_len(bits);
            assert(s.len() <= masked_limbs.len());
            assert(masked_limbs.len() <= k_);
            if s.len() == k_ && t_ != 0 {
                assert(s =~= masked_limbs);
            }
        }
    }
}

impl ApUint {
    /// Three-way magnitude comparison, the same order the unbounded
    /// representation induces; the declared widths play no part. Both
    /// operands must be normalized.
    pub fn cmp(&self, other: &ApUint) -> (r: Ordering)
        requires
            spec_normalized(self@),
            spec_normalized(other@),
        ensures
            r == Ordering::Equal <==> limbs_val(self@.limbs) == limbs_val(other@.limbs),
            r == Ordering::Less <==> limbs_val(self@.limbs) < limbs_val(other@.limbs),
            r == Ordering::Greater <==> limbs_val(self@.limbs) > limbs_val(other@.limbs),
            r == Ordering::Equal <==> self@.limbs == other@.limbs,
    {
        proof {
            if limbs_val(self@.limbs) == limbs_val(other@.limbs) {
                lemma_val_inj(self@.limbs, other@.limbs);
            }
        }
        crate::biguint::cmp_slice(&self.data, &other.data)
    }

    /// The comparison wrapped in `Option`, always `Some`: the order is
    /// total.
    pub fn partial_cmp(&self, other: &ApUint) -> (r: Option<Ordering>)
        requires
            spec_normalized(self@),
            spec_normalized(other@),
        ensures
            r is Some,
            r == Some(Ordering::Equal) <==> limbs_val(self@.limbs) == limbs_val(other@.limbs),
            r == Some(Ordering::Less) <==> limbs_val(self@.limbs) < limbs_val(other@.limbs),
            r == Some(Ordering::Greater) <==> limbs_val(self@.limbs) > limbs_val(
                other@.limbs,
            ),
    {
        Some(self.cmp(other))
    }

    /// Overwrites `self` with `other`'s value and width, reusing the
    /// existing limb storage allocation, then re-normalizes. The prior
    /// content of `self` plays no part in the result.
    pub fn clone_from(&mut self, other: &ApUint)
        ensures
            final(self)@.bits == other@.bits,
            spec_normalized(final(self)@),
            limbs_val(final(self)@.limbs) == limbs_val(other@.limbs) % pow2(other@.bits),
            spec_normalized(other@) ==> final(self)@ == other@,
    {
        self.data.clear();
        let mut i: usize = 0;
        while i < other.data.len()
            invariant
                i <= other@.limbs.len(),
                self@.limbs == other@.limbs.take(i as int),
            decreases other@.limbs.len() - i,
        {
            proof {
                assert(other@.limbs.take(i + 1) =~= other@.limbs.take(i as int).push(
                    other@.limbs[i as int],
                ));
            }
            self.data.push(other.data[i]);
            i = i + 1;
        }
        proof {
            assert(other@.limbs.take(other@.limbs.len() as int) =~= other@.limbs);
        }
        self.bits = other.bits;
        self.normalize();
        proof {
            if spec_normalized(other@) {
                lemma_normalized_val_bound(other@);
                lemma_pow2_pos(other@.bits);
                lemma_small_mod(limbs_val(other@.limbs), pow2(other@.bits));
                lemma_val_inj(self@.limbs, other@.limbs);
            }
        }
    }

    /// Feeds the normalized limb sequence to the hasher, each limb as its
    /// little-endian bytes. Normalization is a precondition, so equal
    /// values always feed equal bytes.
    pub fn hash(&self, state: &mut DefaultHasher)
        requires
            spec_normalized(self@),
        ensures
            final(state)@ == old(state)@ + spec_hash_writes(self@.limbs),
    {
        let mut i: usize = 0;
        while i < self.data.len()
            invariant
                i <= self@.limbs.len(),
                state@ == old(state)@ + spec_hash_writes(self@.limbs.take(i as int)),
            decreases self@.limbs.len() - i,
        {
            let bytes = vstd::bytes::u64_to_le_bytes(self.data[i]);
            state.write(bytes.as_slice());
            proof {
                let l = self@.limbs;
                let ii = i as int;
                assert(l.take(ii + 1) =~= l.take(ii).push(l[ii]));
                assert(spec_hash_writes(l.take(ii + 1)) =~= spec_hash_writes(l.take(ii)).push(
                    vstd::bytes::spec_u64_to_le_bytes(l[ii]),
                ));
                assert(old(state)@ + spec_hash_writes(l.take(ii + 1)) =~= (old(state)@
                    + spec_hash_writes(l.take(ii))).push(
                    vstd::bytes::spec_u64_to_le_bytes(l[ii]),
                ));
            }
            i = i + 1;
        }
        proof {
            assert(self@.limbs.take(self@.limbs.len() as int) =~= self@.limbs);
        }
    }
}

impl Clone for ApUint {
    /// A deep copy: same limbs, same declared width, independent storage.
    fn clone(&self) -> (r: ApUint)
        ensures
            r@ == self@,
    {
        let data = self.data.clone();
        proof {
            assert forall|i: int| 0 <= i < self.data@.len() implies data@[i]
                == self.data@[i] by {
                assert(cloned::<u64>(self.data@[i], data@[i]));
            }
            assert(data@ =~= self.data@);
        }
        ApUint { data, bits: self.bits }
    }
}

impl PartialEq for ApUint {
    /// Value equality: element-wise equality of the limb sequences. The
    /// declared widths play no part.
    fn eq(&self, other: &ApUint) -> (r: bool) {
        let r = self.data == other.data;
        proof {
            if r {
                assert(self.data@ =~= other.data@);
            }
        }
        r
    }
}

impl vstd::std_specs::cmp::PartialEqSpecImpl for ApUint {
    open spec fn obeys_eq_spec() -> bool {
        true
    }

    open spec fn eq_spec(&self, other: &ApUint) -> bool {
        self@.limbs == other@.limbs
    }
}

impl Eq for ApUint {}

impl Default for ApUint {
    /// The canonical zero at declared width zero.
    fn default() -> (r: ApUint)
        ensures
            r@.bits == 0,
            r@.limbs == Seq::<u64>::empty(),
            spec_normalized(r@),
    {
        ApUint::zero(0)
    }
}

/// After truncation to the required limb count, the value is the original
/// reduced modulo the truncated capacity.
proof fn lemma_truncated_val(orig: Seq<u64>, cut: Seq<u64>, bits: nat)
    requires
        cut == if spec_limb_len(bits) <= orig.len() {
            orig.subrange(0, spec_limb_len(bits) as int)
        } else {
            orig
        },
    ensures
        limbs_val(cut) == limbs_val(orig) % pow2(64 * spec_limb_len(bits)),
        cut.len() <= spec_limb_len(bits),
{
    let k = spec_limb_len(bits);
    lemma_pow2_pos(64 * k);
    if k <= orig.len() {
        lemma_val_split(orig, k as int);
        assert(orig.take(k as int) == orig.subrange(0, k as int));
        assert(orig.skip(k as int) == orig.subrange(k as int, orig.len() as int));
        assert(orig.subrange(0, k as int).len() == k);
        lemma_val_bound(orig.subrange(0, k as int));
        assert(64 * orig.subrange(0, k as int).len() == 64 * k);
        let d = pow2(64 * k) as int;
        let q = limbs_val(orig.subrange(k as int, orig.len() as int)) as int;
        let r_ = limbs_val(orig.subrange(0, k as int)) as int;
        assert(limbs_val(orig) as int == r_ + d * q);
        assert(limbs_val(orig) as int == q * d + r_) by (nonlinear_arith)
            requires
                limbs_val(orig) as int == r_ + d * q,
        ;
        assert(0 <= r_ < d);
        lemma_fundamental_div_mod_converse(limbs_val(orig) as int, d, q, r_);
    } else {
        lemma_val_bound(orig);
        lemma_pow2_le(64 * orig.len(), 64 * k);
        assert(64 * orig.len() <= 64 * k) by (nonlinear_arith)
            requires
                orig.len() <= k,
        ;
        lemma_small_mod(limbs_val(orig), pow2(64 * k));
    }
}

/// Masking the top required limb reduces the truncated value modulo the
/// declared width.
proof fn lemma_masked_val(cut: Seq<u64>, masked: Seq<u64>, bits: nat)
    requires
        spec_tail_len(bits) != 0,
        cut.len() == spec_limb_len(bits),
        masked == cut.update(
            cut.len() - 1,
            (cut.last() as nat % pow2(spec_tail_len(bits))) as u64,
        ),
    ensures
        limbs_val(masked) == (limbs_val(cut) % pow2(64 * spec_limb_len(bits))) % pow2(bits),
        masked.len() == spec_limb_len(bits),
        masked.len() == spec_limb_len(bits) ==> (masked.last() as nat) < pow2(
            spec_tail_len(bits),
        ),
{
    let k = spec_limb_len(bits);
    let t = spec_tail_len(bits);
    let i = k - 1;
    assert(64 * i + t == bits);
    let lo = cut.subrange(0, i as int);
    let top = cut.last();
    let y = pow2(64 * i as nat);
    let z = pow2(t);
    lemma_pow2_pos(64 * i as nat);
    lemma_pow2_pos(t);
    lemma_pow2_adds(64 * i as nat, t);
    // Decompose the truncated value around the top limb.
    assert(cut.take(i + 1) =~= cut);
    lemma_val_take_snoc(cut, i as int);
    assert(cut.take(i as int) == lo);
    lemma_val_bound(lo);
    assert(limbs_val(cut) == limbs_val(lo) + top * y);
    lemma_fundamental_div_mod_converse(
        limbs_val(cut) as int,
        y as int,
        top as int,
        limbs_val(lo) as int,
    );
    // Reduce modulo the declared width.
    lemma_mod_breakdown(limbs_val(cut) as int, y as int, z as int);
    assert(limbs_val(cut) % pow2(bits) == y * ((top as nat) % z) + limbs_val(lo));
    // The masked sequence represents exactly that remainder.
    let m = (top as nat % z) as u64;
    lemma_u64_pow2_no_overflow(t);
    lemma_mod_bound(top as int, z as int);
    assert(m as nat == (top as nat) % z);
    assert(masked.take(i as int) =~= lo);
    assert(masked.take(i + 1) =~= masked);
    lemma_val_take_snoc(masked, i as int);
    assert(limbs_val(masked) == limbs_val(lo) + m * y);
    assert(limbs_val(lo) + m * y == y * ((top as nat) % z) + limbs_val(lo))
        by (nonlinear_arith)
        requires
            m as nat == (top as nat) % z,
    ;
    assert(limbs_val(masked) == limbs_val(cut) % pow2(bits));
    // The truncated value is already below the truncated capacity.
    lemma_val_bound(cut);
    assert(64 * cut.len() == 64 * k);
    lemma_pow2_pos(64 * k);
    lemma_small_mod(limbs_val(cut), pow2(64 * k));
}

/// When no masking applies, the truncated value is already reduced modulo
/// the declared width.
proof fn lemma_unmasked_val(cut: Seq<u64>, bits: nat)
    requires
        cut.len() <= spec_limb_len(bits),
        spec_tail_len(bits) == 0 || cut.len() < spec_limb_len(bits),
    ensures
        limbs_val(cut) == (limbs_val(cut) % pow2(64 * spec_limb_len(bits))) % pow2(bits),
{
    let k = spec_limb_len(bits);
    let t = spec_tail_len(bits);
    lemma_val_bound(cut);
    lemma_pow2_pos(bits);
    lemma_pow2_pos(64 * k);
    assert(64 * cut.len() <= bits) by {
        if t == 0 {
            assert(64 * k == bits);
            assert(64 * cut.len() <= 64 * k) by (nonlinear_arith)
                requires
                    cut.len() <= k,
            ;
        } else {
            assert(64 * (k - 1) + t == bits);
            assert(64 * cut.len() <= 64 * (k - 1)) by (nonlinear_arith)
                requires
                    cut.len() <= k - 1,
            ;
        }
    }
    lemma_pow2_le(64 * cut.len(), bits);
    assert(bits <= 64 * k) by {
        if t == 0 {
        } else {
            assert(64 * (k - 1) + t == bits);
        }
    }
    lemma_pow2_le(bits, 64 * k);
    lemma_small_mod(limbs_val(cut), pow2(64 * k));
    lemma_small_mod(limbs_val(cut), pow2(bits));
}

} // verus!
