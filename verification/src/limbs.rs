//! The mathematical model of limb sequences: the numeric value of a
//! little-endian sequence of 64-bit limbs, and the lemmas the rest of the
//! crate needs about it.

use vstd::arithmetic::div_mod::{lemma_fundamental_div_mod_converse, lemma_mod_mod};
use vstd::arithmetic::power2::{
    lemma2_to64, lemma_pow2_adds, lemma_pow2_pos, lemma_pow2_strictly_increases, pow2,
};
use vstd::prelude::*;

verus! {

/// Number of bits in one limb.
pub const BITS: usize = 64;

/// The magnitude represented by a little-endian limb sequence.
pub open spec fn limbs_val(s: Seq<u64>) -> nat
    decreases s.len(),
{
    if s.len() == 0 {
        0
    } else {
        (s[0] + pow2(64) * limbs_val(s.skip(1))) as nat
    }
}

/// A limb sequence with no most-significant zero limb stored.
pub open spec fn trimmed(s: Seq<u64>) -> bool {
    s.len() == 0 || s.last() != 0
}

/// Appending a most-significant limb adds its value at the next limb weight.
pub proof fn lemma_val_snoc(s: Seq<u64>, x: u64)
    ensures
        limbs_val(s.push(x)) == limbs_val(s) + x * pow2(64 * s.len()),
    decreases s.len(),
{
    if s.len() == 0 {
        let ps = s.push(x);
        assert(ps.skip(1) =~= Seq::<u64>::empty());
        assert(limbs_val(ps.skip(1)) == 0);
        assert(ps[0] == x);
        assert(limbs_val(ps) == (ps[0] + pow2(64) * limbs_val(ps.skip(1))) as nat);
        assert(limbs_val(ps) == x);
        assert(limbs_val(s) == 0);
        lemma2_to64();
        assert(x * pow2(0) == x * 1);
    } else {
        assert(s.push(x).skip(1) =~= s.skip(1).push(x));
        lemma_val_snoc(s.skip(1), x);
        lemma_pow2_adds(64, 64 * (s.len() - 1) as nat);
        assert(64 + 64 * (s.len() - 1) as nat == 64 * s.len());
        let v = limbs_val(s.skip(1));
        let p = pow2(64 * (s.len() - 1) as nat);
        assert(pow2(64) * ((v + x * p) as nat) == pow2(64) * v + x * (pow2(64) * p))
            by (nonlinear_arith);
    }
}

/// The value of a prefix grows by the next limb at its weight.
pub proof fn lemma_val_take_snoc(s: Seq<u64>, i: int)
    requires
        0 <= i < s.len(),
    ensures
        limbs_val(s.take(i + 1)) == limbs_val(s.take(i)) + s[i] * pow2(64 * i as nat),
{
    assert(s.take(i + 1) =~= s.take(i).push(s[i]));
    lemma_val_snoc(s.take(i), s[i]);
}

/// A limb sequence's value fits in its total bit capacity.
pub proof fn lemma_val_bound(s: Seq<u64>)
    ensures
        limbs_val(s) < pow2(64 * s.len()),
    decreases s.len(),
{
    if s.len() == 0 {
        lemma2_to64();
    } else {
        lemma_val_bound(s.skip(1));
        lemma_pow2_adds(64, 64 * (s.len() - 1) as nat);
        assert(64 + 64 * (s.len() - 1) as nat == 64 * s.len());
        let v = limbs_val(s.skip(1));
        let p = pow2(64 * (s.len() - 1) as nat);
        lemma2_to64();
        assert(v <= p - 1);
        assert(s[0] + pow2(64) * v <= pow2(64) - 1 + pow2(64) * (p - 1))
            by (nonlinear_arith)
            requires
                s[0] < pow2(64),
                v <= p - 1,
                0 < p,
        ;
        assert(pow2(64) - 1 + pow2(64) * (p - 1) == pow2(64) * p - 1) by (nonlinear_arith)
            requires
                0 < p,
        ;
    }
}

/// A trimmed, nonempty limb sequence reaches the weight of its top limb.
pub proof fn lemma_val_lower(s: Seq<u64>)
    requires
        s.len() > 0,
        s.last() != 0,
    ensures
        limbs_val(s) >= pow2(64 * (s.len() - 1) as nat),
    decreases s.len(),
{
    if s.len() == 1 {
        lemma2_to64();
    } else {
        lemma_val_lower(s.skip(1));
        lemma_pow2_adds(64, 64 * (s.len() - 2) as nat);
        assert(64 + 64 * (s.len() - 2) as nat == 64 * (s.len() - 1) as nat);
        let v = limbs_val(s.skip(1));
        let p = pow2(64 * (s.len() - 2) as nat);
        assert(pow2(64) * v >= pow2(64) * p) by (nonlinear_arith)
            requires
                v >= p,
        ;
    }
}

/// Splitting a limb sequence splits its value at the matching weight.
pub proof fn lemma_val_split(s: Seq<u64>, k: int)
    requires
        0 <= k <= s.len(),
    ensures
        limbs_val(s) == limbs_val(s.take(k)) + pow2(64 * k as nat) * limbs_val(s.skip(k)),
    decreases k,
{
    if k == 0 {
        assert(s.take(0) =~= Seq::<u64>::empty());
        assert(s.skip(0) =~= s);
        lemma2_to64();
    } else {
        assert(s.len() > 0);
        lemma_val_split(s.skip(1), k - 1);
        assert(s.take(k).skip(1) =~= s.skip(1).take(k - 1));
        assert(s.skip(k) =~= s.skip(1).skip(k - 1));
        lemma_pow2_adds(64, 64 * (k - 1) as nat);
        assert(64 + 64 * (k - 1) as nat == 64 * k as nat);
        let a = limbs_val(s.skip(1).take(k - 1));
        let b = limbs_val(s.skip(1).skip(k - 1));
        let p = pow2(64 * (k - 1) as nat);
        assert(limbs_val(s.take(k)) == (s[0] + pow2(64) * a) as nat);
        assert(pow2(64) * ((a + p * b) as nat) == pow2(64) * a + (pow2(64) * p) * b)
            by (nonlinear_arith);
    }
}

/// The least-significant limb is the value modulo one limb's range, and the
/// remaining limbs carry the quotient.
pub proof fn lemma_val_first(s: Seq<u64>)
    requires
        s.len() > 0,
    ensures
        limbs_val(s) % pow2(64) == s[0],
        limbs_val(s) / pow2(64) == limbs_val(s.skip(1)),
{
    lemma2_to64();
    lemma_pow2_pos(64);
    lemma_fundamental_div_mod_converse(
        limbs_val(s) as int,
        pow2(64) as int,
        limbs_val(s.skip(1)) as int,
        s[0] as int,
    );
}

/// Trimmed limb sequences are the unique representation of their value.
pub proof fn lemma_val_inj(s1: Seq<u64>, s2: Seq<u64>)
    requires
        trimmed(s1),
        trimmed(s2),
        limbs_val(s1) == limbs_val(s2),
    ensures
        s1 == s2,
    decreases s1.len(),
{
    if limbs_val(s1) == 0 {
        if s1.len() > 0 {
            lemma_val_lower(s1);
            lemma_pow2_pos(64 * (s1.len() - 1) as nat);
        }
        if s2.len() > 0 {
            lemma_val_lower(s2);
            lemma_pow2_pos(64 * (s2.len() - 1) as nat);
        }
        assert(s1 =~= s2);
    } else {
        if s1.len() == 0 {
            assert(limbs_val(s1) == 0);
        }
        if s2.len() == 0 {
            assert(limbs_val(s2) == 0);
        }
        lemma_val_first(s1);
        lemma_val_first(s2);
        assert(s1[0] == s2[0]);
        if s1.len() > 1 {
            assert(s1.skip(1).last() == s1.last());
        }
        if s2.len() > 1 {
            assert(s2.skip(1).last() == s2.last());
        }
        lemma_val_inj(s1.skip(1), s2.skip(1));
        assert(s1.skip(1).len() == s2.skip(1).len());
        assert forall|i: int| 0 <= i < s1.len() implies s1[i] == s2[i] by {
            if i > 0 {
                assert(s1.skip(1)[i - 1] == s2.skip(1)[i - 1]);
            }
        }
        assert(s1 =~= s2);
    }
}

/// A most-significant differing limb decides the order of equally long
/// sequences.
pub proof fn lemma_val_lt_at(a: Seq<u64>, b: Seq<u64>, i: int)
    requires
        a.len() == b.len(),
        0 <= i < a.len(),
        a[i] < b[i],
        forall|j: int| i < j < a.len() ==> a[j] == b[j],
    ensures
        limbs_val(a) < limbs_val(b),
{
    lemma_val_split(a, i + 1);
    lemma_val_split(b, i + 1);
    assert(a.skip(i + 1) =~= b.skip(i + 1));
    lemma_val_take_snoc(a, i);
    lemma_val_take_snoc(b, i);
    lemma_val_bound(a.take(i));
    lemma_pow2_pos(64 * i as nat);
    let p = pow2(64 * i as nat);
    assert(limbs_val(a.take(i)) + a[i] * p < (a[i] + 1) * p) by (nonlinear_arith)
        requires
            limbs_val(a.take(i)) < p,
    ;
    assert((a[i] + 1) * p <= b[i] * p) by (nonlinear_arith)
        requires
            a[i] < b[i],
            0 < p,
    ;
}

/// A shorter sequence holds a smaller value than a longer trimmed one.
pub proof fn lemma_val_len_lt(a: Seq<u64>, b: Seq<u64>)
    requires
        a.len() < b.len(),
        trimmed(b),
    ensures
        limbs_val(a) < limbs_val(b),
{
    lemma_val_bound(a);
    lemma_val_lower(b);
    assert(64 * a.len() <= 64 * (b.len() - 1)) by (nonlinear_arith)
        requires
            a.len() <= b.len() - 1,
    ;
    lemma_pow2_le(64 * a.len(), 64 * (b.len() - 1) as nat);
}

/// Powers of two are monotone.
pub proof fn lemma_pow2_le(e1: nat, e2: nat)
    requires
        e1 <= e2,
    ensures
        pow2(e1) <= pow2(e2),
{
    if e1 < e2 {
        lemma_pow2_strictly_increases(e1, e2);
    }
}

/// Reducing modulo a smaller power of two can be done after reducing modulo a
/// larger one.
pub proof fn lemma_pow2_mod_mod(x: nat, b: nat, e: nat)
    requires
        b <= e,
    ensures
        (x % pow2(e)) % pow2(b) == x % pow2(b),
{
    lemma_pow2_adds(b, (e - b) as nat);
    lemma_pow2_pos(b);
    lemma_pow2_pos((e - b) as nat);
    lemma_mod_mod(x as int, pow2(b) as int, pow2((e - b) as nat) as int);
}

/// A trimmed limb sequence is empty exactly when its value is zero.
pub proof fn lemma_val_zero(s: Seq<u64>)
    requires
        trimmed(s),
    ensures
        limbs_val(s) == 0 <==> s.len() == 0,
{
    if s.len() > 0 {
        lemma_val_lower(s);
        lemma_pow2_pos(64 * (s.len() - 1) as nat);
    }
}

} // verus!
