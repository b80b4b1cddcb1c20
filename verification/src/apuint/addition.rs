//! Addition of bounded values: delegate the carry propagation to the limb
//! primitives, grow the declared width to the larger operand, and
//! re-normalize, so a sum that outgrows the declared width wraps.

use super::{max_bits, spec_normalized, ApUint, ApUintView};
use crate::biguint::vec_add;
use crate::limbs::limbs_val;
use vstd::arithmetic::power2::pow2;
use vstd::prelude::*;

verus! {

/// What it means for a view to be the sum of two others: the declared
/// width grows to the larger operand's, the result is normalized, and its
/// magnitude is the true sum reduced modulo two to that width.
pub open spec fn is_sum_of(r: ApUintView, a: ApUintView, b: ApUintView) -> bool {
    &&& r.bits == max_bits(a.bits, b.bits)
    &&& spec_normalized(r)
    &&& limbs_val(r.limbs) == (limbs_val(a.limbs) + limbs_val(b.limbs)) % pow2(
        max_bits(a.bits, b.bits),
    )
}

impl ApUint {
    /// The sum of two bounded values, at the larger of their declared
    /// widths; overflow past that width is truncated away, not reported.
    pub fn add(self, other: &ApUint) -> (r: ApUint)
        ensures
            is_sum_of(r@, self@, other@),
            r@.bits == max_bits(self@.bits, other@.bits),
            spec_normalized(r@),
            limbs_val(r@.limbs) == (limbs_val(self@.limbs) + limbs_val(other@.limbs)) % pow2(
                max_bits(self@.bits, other@.bits),
            ),
    {
        let mut s = self;
        s.add_assign(other);
        s
    }

    /// Accumulates `other` into `self`: grows `self`'s declared width to
    /// the larger of the two beforehand, then adds and re-normalizes, so
    /// overflow past that width wraps.
    pub fn add_assign(&mut self, other: &ApUint)
        ensures
            is_sum_of(final(self)@, old(self)@, other@),
            final(self)@.bits == max_bits(old(self)@.bits, other@.bits),
            spec_normalized(final(self)@),
            limbs_val(final(self)@.limbs) == (limbs_val(old(self)@.limbs) + limbs_val(
                other@.limbs,
            )) % pow2(max_bits(old(self)@.bits, other@.bits)),
    {
        if other.bits > self.bits {
            self.bits = other.bits;
        }
        vec_add(&mut self.data, &other.data);
        self.normalize();
    }
}

} // verus!
