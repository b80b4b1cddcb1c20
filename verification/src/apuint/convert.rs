//! Projection of a bounded value onto the unbounded representation, and the
//! radix string renderings built on it.

use super::ApUint;
use crate::biguint::{spec_to_str_radix, valid_radix, BigUint};
use crate::limbs::{lemma_val_snoc, limbs_val};
use vstd::prelude::*;

verus! {

impl ApUint {
    /// Renders the value in the requested radix with lowercase digits and
    /// no prefix, by projecting onto the unbounded representation.
    pub fn to_str_radix(&self, radix: u32) -> (r: String)
        requires
            valid_radix(radix as nat),
        ensures
            r@ == spec_to_str_radix(limbs_val(self@.limbs), radix as nat, false),
    {
        let v: BigUint = BigUint::from(self);
        v.to_str_radix(radix)
    }

    /// The plain decimal rendering.
    pub fn to_string(&self) -> (r: String)
        ensures
            r@ == spec_to_str_radix(limbs_val(self@.limbs), 10, false),
    {
        self.to_str_radix(10)
    }

    /// The `0x`-prefixed lowercase hexadecimal rendering.
    pub fn to_lower_hex(&self) -> (r: String)
        ensures
            r@ == "0x"@ + spec_to_str_radix(limbs_val(self@.limbs), 16, false),
    {
        let v: BigUint = BigUint::from(self);
        let digits = v.to_str_radix_with(16, false);
        let mut s = String::from_str("0x");
        s.append(digits.as_str());
        s
    }

    /// The `0x`-prefixed uppercase hexadecimal rendering.
    pub fn to_upper_hex(&self) -> (r: String)
        ensures
            r@ == "0x"@ + spec_to_str_radix(limbs_val(self@.limbs), 16, true),
    {
        let v: BigUint = BigUint::from(self);
        let digits = v.to_str_radix_with(16, true);
        let mut s = String::from_str("0x");
        s.append(digits.as_str());
        s
    }

    /// The `0b`-prefixed binary rendering.
    pub fn to_binary(&self) -> (r: String)
        ensures
            r@ == "0b"@ + spec_to_str_radix(limbs_val(self@.limbs), 2, false),
    {
        let v: BigUint = BigUint::from(self);
        let digits = v.to_str_radix_with(2, false);
        let mut s = String::from_str("0b");
        s.append(digits.as_str());
        s
    }

    /// The `0o`-prefixed octal rendering.
    pub fn to_octal(&self) -> (r: String)
        ensures
            r@ == "0o"@ + spec_to_str_radix(limbs_val(self@.limbs), 8, false),
    {
        let v: BigUint = BigUint::from(self);
        let digits = v.to_str_radix_with(8, false);
        let mut s = String::from_str("0o");
        s.append(digits.as_str());
        s
    }
}

impl BigUint {
    /// Projects a bounded value onto the unbounded representation: a fresh
    /// copy of the limbs with the bit-width ceiling discarded. The
    /// projection is lossless: it represents exactly the bounded value's
    /// magnitude.
    pub fn from(value: &ApUint) -> (r: BigUint)
        ensures
            r.wf(),
            limbs_val(r@) == limbs_val(value@.limbs),
    {
        let mut data: Vec<u64> = Vec::new();
        let mut i: usize = 0;
        while i < value.data.len()
            invariant
                i <= value@.limbs.len(),
                data@ == value@.limbs.take(i as int),
            decreases value@.limbs.len() - i,
        {
            proof {
                assert(value@.limbs.take(i + 1) =~= value@.limbs.take(i as int).push(
                    value@.limbs[i as int],
                ));
            }
            data.push(value.data[i]);
            i = i + 1;
        }
        proof {
            assert(value@.limbs.take(value@.limbs.len() as int) =~= value@.limbs);
        }
        let mut r = BigUint { data };
        // Stored values are normally trimmed already; make it unconditional
        // so the projection never exposes a most-significant zero limb.
        while r.data.len() > 0 && r.data[r.data.len() - 1] == 0
            invariant
                limbs_val(r@) == limbs_val(value@.limbs),
            decreases r@.len(),
        {
            proof {
                let s = r@;
                assert(s =~= s.take(s.len() - 1).push(s.last()));
                lemma_val_snoc(s.take(s.len() - 1), s.last());
            }
            r.data.pop();
        }
        r
    }
}

} // verus!
