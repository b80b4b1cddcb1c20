//! The unbounded companion representation and the digit-level primitives:
//! carry-propagating addition, magnitude comparison, and division by a small
//! digit for radix rendering.

use crate::limbs::{
    lemma_val_len_lt, lemma_val_lt_at, lemma_val_snoc, lemma_val_take_snoc, lemma_val_zero,
    limbs_val, trimmed,
};
use core::cmp::Ordering;
use vstd::arithmetic::div_mod::{
    lemma_div_decreases, lemma_fundamental_div_mod, lemma_fundamental_div_mod_converse,
};
use vstd::arithmetic::power2::{lemma2_to64, lemma_pow2_adds, pow2};
use vstd::prelude::*;

verus! {

/// An unbounded non-negative integer: a trimmed little-endian limb sequence
/// with no bit-width ceiling. Used to render radix strings.
pub struct BigUint {
    pub(crate) data: Vec<u64>,
}

impl View for BigUint {
    type V = Seq<u64>;

    open(crate) spec fn view(&self) -> Seq<u64> {
        self.data@
    }
}

impl BigUint {
    /// Well-formedness: no most-significant zero limb is stored.
    pub open spec fn wf(&self) -> bool {
        trimmed(self@)
    }

    /// The stored limbs, least significant first.
    pub fn digits(&self) -> (r: &Vec<u64>)
        ensures
            r@ == self@,
    {
        &self.data
    }
}

/// The first `i` limbs of `s`, or all of them when fewer are stored.
pub open spec fn take_up_to(s: Seq<u64>, i: int) -> Seq<u64> {
    if i <= s.len() {
        s.take(i)
    } else {
        s
    }
}

/// Adds `src` into `dst` with carry propagation, growing `dst` by at most
/// one limb.
pub fn vec_add(dst: &mut Vec<u64>, src: &Vec<u64>)
    ensures
        limbs_val(final(dst)@) == limbs_val(old(dst)@) + limbs_val(src@),
{
    let ghost orig = old(dst)@;
    // Make room so every limb of src has a partner.
    while dst.len() < src.len()
        invariant
            limbs_val(dst@) == limbs_val(orig),
        decreases src@.len() - dst@.len(),
    {
        proof {
            lemma_val_snoc(dst@, 0u64);
        }
        dst.push(0);
    }
    let ghost padded = dst@;
    let mut i: usize = 0;
    let mut carry: u64 = 0;
    while i < dst.len()
        invariant
            i <= dst@.len(),
            src@.len() <= dst@.len(),
            dst@.len() == padded.len(),
            carry <= 1,
            dst@.skip(i as int) == padded.skip(i as int),
            limbs_val(dst@.take(i as int)) + carry * pow2(64 * i as nat) == limbs_val(
                padded.take(i as int),
            ) + limbs_val(take_up_to(src@, i as int)),
        decreases dst@.len() - i,
    {
        let s_limb: u64 = if i < src.len() {
            src[i]
        } else {
            0
        };
        let d_limb: u64 = dst[i];
        let t: u128 = d_limb as u128 + s_limb as u128 + carry as u128;
        let new_limb: u64 = (t % 0x1_0000_0000_0000_0000u128) as u64;
        let new_carry: u64 = (t / 0x1_0000_0000_0000_0000u128) as u64;
        let ghost before = dst@;
        dst[i] = new_limb;
        proof {
            let ii = i as int;
            let p = pow2(64 * i as nat);
            lemma2_to64();
            lemma_pow2_adds(64 * i as nat, 64);
            assert(64 * (i + 1) as nat == 64 * i as nat + 64);
            let b = pow2(64) as int;
            // The double-width sum splits into the stored limb and the carry.
            assert(t == d_limb + s_limb + carry);
            assert(new_limb == t as int % b && new_carry == t as int / b) by {
                assert(b == 0x1_0000_0000_0000_0000);
            }
            assert(t as int == b * (t as int / b) + t as int % b) by {
                vstd::arithmetic::div_mod::lemma_fundamental_div_mod(t as int, b);
            }
            // Old and new prefixes extend by one limb each.
            assert(dst@.take(ii) =~= before.take(ii));
            assert(dst@.take(ii + 1) =~= dst@.take(ii).push(new_limb));
            lemma_val_take_snoc(dst@, ii);
            lemma_val_take_snoc(padded, ii);
            assert(before[ii] == padded[ii]) by {
                assert(before.skip(ii)[0] == padded.skip(ii)[0]);
            }
            assert(d_limb == padded[ii]);
            if i < src.len() {
                lemma_val_take_snoc(src@, ii);
                assert(take_up_to(src@, ii) == src@.take(ii));
                assert(take_up_to(src@, ii + 1) == src@.take(ii + 1));
            } else {
                assert(take_up_to(src@, ii) == src@);
                assert(take_up_to(src@, ii + 1) == src@);
            }
            // Rebalance the carry at the next limb weight.
            assert(limbs_val(dst@.take(ii + 1)) + new_carry * (p * pow2(64)) == limbs_val(
                dst@.take(ii),
            ) + (d_limb + s_limb + carry) * p) by (nonlinear_arith)
                requires
                    limbs_val(dst@.take(ii + 1)) == limbs_val(dst@.take(ii)) + new_limb * p,
                    new_limb + pow2(64) * new_carry == d_limb + s_limb + carry,
            ;
            assert((d_limb + s_limb + carry) * p == d_limb * p + s_limb * p + carry * p)
                by (nonlinear_arith);
            assert(dst@.skip(ii + 1) =~= before.skip(ii + 1));
            assert(before.skip(ii + 1) =~= before.skip(ii).skip(1));
            assert(padded.skip(ii + 1) =~= padded.skip(ii).skip(1));
        }
        carry = new_carry;
        i = i + 1;
    }
    proof {
        assert(dst@.take(dst@.len() as int) =~= dst@);
        assert(padded.take(padded.len() as int) =~= padded);
        assert(take_up_to(src@, i as int) == src@);
    }
    if carry != 0 {
        proof {
            lemma_val_snoc(dst@, carry);
        }
        dst.push(carry);
    }
}

/// The radixes the rendering surface supports.
pub open spec fn valid_radix(r: nat) -> bool {
    r == 2 || r == 8 || r == 10 || r == 16
}

/// The base-`radix` digits of `n`, most significant first; empty for zero.
pub open spec fn spec_digits(n: nat, radix: nat) -> Seq<nat>
    decreases n,
    when radix >= 2
    via spec_digits_decreases
{
    if n == 0 {
        Seq::empty()
    } else {
        spec_digits(n / radix, radix).push(n % radix)
    }
}

#[via_fn]
proof fn spec_digits_decreases(n: nat, radix: nat) {
    if n != 0 {
        lemma_div_decreases(n as int, radix as int);
    }
}

/// The character a digit value renders as, in the requested case.
pub open spec fn spec_digit_char(d: nat, upper: bool) -> char {
    if d == 0 {
        '0'
    } else if d == 1 {
        '1'
    } else if d == 2 {
        '2'
    } else if d == 3 {
        '3'
    } else if d == 4 {
        '4'
    } else if d == 5 {
        '5'
    } else if d == 6 {
        '6'
    } else if d == 7 {
        '7'
    } else if d == 8 {
        '8'
    } else if d == 9 {
        '9'
    } else if d == 10 {
        if upper {
            'A'
        } else {
            'a'
        }
    } else if d == 11 {
        if upper {
            'B'
        } else {
            'b'
        }
    } else if d == 12 {
        if upper {
            'C'
        } else {
            'c'
        }
    } else if d == 13 {
        if upper {
            'D'
        } else {
            'd'
        }
    } else if d == 14 {
        if upper {
            'E'
        } else {
            'e'
        }
    } else if d == 15 {
        if upper {
            'F'
        } else {
            'f'
        }
    } else {
        '0'
    }
}

/// The base-`radix` rendering of `n`: its digits as characters, or `"0"`
/// for zero.
pub open spec fn spec_to_str_radix(n: nat, radix: nat, upper: bool) -> Seq<char> {
    if n == 0 {
        seq!['0']
    } else {
        spec_digits(n, radix).map_values(|d: nat| spec_digit_char(d, upper))
    }
}

/// The single-character rendering of one digit value.
fn digit_str(d: u64, upper: bool) -> (s: &'static str)
    requires
        d < 16,
    ensures
        s@.len() == 1,
        s@[0] == spec_digit_char(d as nat, upper),
{
    proof {
        reveal_strlit("0");
        reveal_strlit("1");
        reveal_strlit("2");
        reveal_strlit("3");
        reveal_strlit("4");
        reveal_strlit("5");
        reveal_strlit("6");
        reveal_strlit("7");
        reveal_strlit("8");
        reveal_strlit("9");
        reveal_strlit("a");
        reveal_strlit("b");
        reveal_strlit("c");
        reveal_strlit("d");
        reveal_strlit("e");
        reveal_strlit("f");
        reveal_strlit("A");
        reveal_strlit("B");
        reveal_strlit("C");
        reveal_strlit("D");
        reveal_strlit("E");
        reveal_strlit("F");
    }
    match d {
        0 => "0",
        1 => "1",
        2 => "2",
        3 => "3",
        4 => "4",
        5 => "5",
        6 => "6",
        7 => "7",
        8 => "8",
        9 => "9",
        10 => if upper {
            "A"
        } else {
            "a"
        },
        11 => if upper {
            "B"
        } else {
            "b"
        },
        12 => if upper {
            "C"
        } else {
            "c"
        },
        13 => if upper {
            "D"
        } else {
            "d"
        },
        14 => if upper {
            "E"
        } else {
            "e"
        },
        _ => if upper {
            "F"
        } else {
            "f"
        },
    }
}

/// Divides a limb sequence by a single digit, returning the trimmed
/// quotient and the remainder.
fn div_rem_digit(cur: &Vec<u64>, radix: u64) -> (res: (Vec<u64>, u64))
    requires
        2 <= radix,
    ensures
        trimmed(res.0@),
        res.1 < radix,
        limbs_val(res.0@) == limbs_val(cur@) / (radix as nat),
        res.1 as nat == limbs_val(cur@) % (radix as nat),
{
    let mut q: Vec<u64> = Vec::new();
    let mut idx: usize = 0;
    while idx < cur.len()
        invariant
            idx <= cur@.len(),
            q@ == cur@.take(idx as int),
        decreases cur@.len() - idx,
    {
        proof {
            assert(cur@.take(idx + 1) =~= cur@.take(idx as int).push(cur@[idx as int]));
        }
        q.push(cur[idx]);
        idx = idx + 1;
    }
    proof {
        assert(cur@.take(cur@.len() as int) =~= cur@);
    }
    let mut rem: u64 = 0;
    let mut i: usize = cur.len();
    proof {
        assert(cur@.skip(i as int) =~= Seq::<u64>::empty());
        assert(q@.skip(i as int) =~= Seq::<u64>::empty());
        assert(limbs_val(Seq::<u64>::empty()) == 0);
    }
    while i > 0
        invariant
            i <= cur@.len(),
            q@.len() == cur@.len(),
            rem < radix,
            2 <= radix,
            q@.take(i as int) == cur@.take(i as int),
            limbs_val(cur@.skip(i as int)) == limbs_val(q@.skip(i as int)) * radix + rem,
        decreases i,
    {
        i = i - 1;
        let cur_limb: u64 = cur[i];
        let w: u128 = (rem as u128) * 0x1_0000_0000_0000_0000u128 + cur_limb as u128;
        proof {
            lemma2_to64();
            assert(w < radix * 0x1_0000_0000_0000_0000u128) by (nonlinear_arith)
                requires
                    rem < radix,
                    w == rem * 0x1_0000_0000_0000_0000u128 + cur_limb,
                    cur_limb < 0x1_0000_0000_0000_0000u128,
            ;
            assert(w / (radix as u128) < 0x1_0000_0000_0000_0000u128) by (nonlinear_arith)
                requires
                    w < radix * 0x1_0000_0000_0000_0000u128,
                    2 <= radix,
            ;
        }
        let qd: u64 = (w / (radix as u128)) as u64;
        let rm: u64 = (w % (radix as u128)) as u64;
        let ghost q_before = q@;
        q[i] = qd;
        proof {
            let ii = i as int;
            lemma_fundamental_div_mod(w as int, radix as int);
            vstd::arithmetic::div_mod::lemma_mod_bound(w as int, radix as int);
            assert(qd == w as int / (radix as int));
            assert(rm == w as int % (radix as int));
            assert(w == qd * radix + rm) by (nonlinear_arith)
                requires
                    w as int == radix as int * (w as int / radix as int) + w as int % (
                    radix as int),
                    qd == w as int / (radix as int),
                    rm == w as int % (radix as int),
            ;
            // The processed suffixes extend downward by one limb each.
            assert(cur@.skip(ii)[0] == cur@[ii]);
            assert(cur@.skip(ii).skip(1) =~= cur@.skip(ii + 1));
            assert(limbs_val(cur@.skip(ii)) == (cur@[ii] + pow2(64) * limbs_val(
                cur@.skip(ii + 1),
            )) as nat);
            assert(q@.skip(ii)[0] == qd);
            assert(q@.skip(ii).skip(1) =~= q@.skip(ii + 1));
            assert(q@.skip(ii + 1) =~= q_before.skip(ii + 1));
            assert(limbs_val(q@.skip(ii)) == (qd + pow2(64) * limbs_val(q@.skip(ii + 1)))
                as nat);
            let vq1 = limbs_val(q@.skip(ii + 1));
            lemma2_to64();
            // Rebalance: the quotient digit absorbs the carried remainder.
            assert(cur_limb + pow2(64) * (vq1 * radix + rem) == (qd + pow2(64) * vq1) * radix
                + rm) by (nonlinear_arith)
                requires
                    rem * pow2(64) + cur_limb == qd * radix + rm,
            ;
            assert(q@.take(ii) =~= cur@.take(ii));
        }
        rem = rm;
    }
    proof {
        assert(cur@.skip(0) =~= cur@);
        assert(q@.skip(0) =~= q@);
        lemma_fundamental_div_mod_converse(
            limbs_val(cur@) as int,
            radix as int,
            limbs_val(q@) as int,
            rem as int,
        );
    }
    let ghost q_full = q@;
    while q.len() > 0 && q[q.len() - 1] == 0
        invariant
            limbs_val(q@) == limbs_val(q_full),
        decreases q@.len(),
    {
        proof {
            let s = q@;
            assert(s =~= s.take(s.len() - 1).push(s.last()));
            lemma_val_snoc(s.take(s.len() - 1), s.last());
        }
        q.pop();
    }
    (q, rem)
}

/// The base-`radix` digits of a trimmed limb sequence, least significant
/// first: the remainders of repeated division by the radix.
fn collect_digits(data: &Vec<u64>, radix: u64) -> (rems: Vec<u64>)
    requires
        trimmed(data@),
        2 <= radix,
    ensures
        spec_digits(limbs_val(data@), radix as nat) == rems@.map_values(
            |d: u64| d as nat,
        ).reverse(),
        forall|j: int| 0 <= j < rems@.len() ==> rems@[j] < radix,
{
    let mut cur: Vec<u64> = Vec::new();
    let mut idx: usize = 0;
    while idx < data.len()
        invariant
            idx <= data@.len(),
            cur@ == data@.take(idx as int),
        decreases data@.len() - idx,
    {
        proof {
            assert(data@.take(idx + 1) =~= data@.take(idx as int).push(data@[idx as int]));
        }
        cur.push(data[idx]);
        idx = idx + 1;
    }
    proof {
        assert(data@.take(data@.len() as int) =~= data@);
    }
    let ghost n = limbs_val(data@);
    let mut rems: Vec<u64> = Vec::new();
    proof {
        assert(rems@.map_values(|d: u64| d as nat).reverse() =~= Seq::<nat>::empty());
        assert(spec_digits(n, radix as nat) == spec_digits(n, radix as nat) + Seq::<
            nat,
        >::empty());
    }
    while cur.len() > 0
        invariant
            2 <= radix,
            trimmed(cur@),
            spec_digits(n, radix as nat) == spec_digits(limbs_val(cur@), radix as nat)
                + rems@.map_values(|d: u64| d as nat).reverse(),
            forall|j: int| 0 <= j < rems@.len() ==> rems@[j] < radix,
        decreases limbs_val(cur@),
    {
        proof {
            lemma_val_zero(cur@);
        }
        let qr = div_rem_digit(&cur, radix);
        let ghost vc = limbs_val(cur@);
        let ghost old_rems = rems@;
        let rm: u64 = qr.1;
        rems.push(rm);
        cur = qr.0;
        proof {
            // One division step peels the least-significant digit off.
            assert(spec_digits(vc, radix as nat) == spec_digits(limbs_val(cur@), radix as nat)
                .push(rm as nat));
            let f = |d: u64| d as nat;
            assert(rems@.map_values(f).reverse() =~= seq![rm as nat] + old_rems.map_values(
                f,
            ).reverse());
            assert(spec_digits(limbs_val(cur@), radix as nat).push(rm as nat) + old_rems
                .map_values(f).reverse() =~= spec_digits(limbs_val(cur@), radix as nat) + rems@
                .map_values(f).reverse());
            lemma_div_decreases(vc as int, radix as int);
        }
    }
    proof {
        assert(limbs_val(cur@) == 0);
        assert(spec_digits(0, radix as nat) == Seq::<nat>::empty());
        assert(Seq::<nat>::empty() + rems@.map_values(|d: u64| d as nat).reverse()
            =~= rems@.map_values(|d: u64| d as nat).reverse());
    }
    rems
}

impl BigUint {
    /// Renders the value in the requested radix with the requested digit
    /// case.
    pub(crate) fn to_str_radix_with(&self, radix: u32, upper: bool) -> (r: String)
        requires
            self.wf(),
            valid_radix(radix as nat),
        ensures
            r@ == spec_to_str_radix(limbs_val(self@), radix as nat, upper),
    {
        let ghost n = limbs_val(self@);
        if self.data.len() == 0 {
            proof {
                lemma_val_zero(self@);
                reveal_strlit("0");
                assert("0"@ =~= seq!['0']);
            }
            return String::from_str("0");
        }
        proof {
            lemma_val_zero(self@);
        }
        let rems = collect_digits(&self.data, radix as u64);
        let ghost dd = spec_digits(n, radix as nat);
        let ghost cs = spec_to_str_radix(n, radix as nat, upper);
        proof {
            assert(cs == dd.map_values(|d: nat| spec_digit_char(d, upper)));
            assert(dd.len() == rems@.len());
        }
        let mut s = String::from_str("");
        proof {
            reveal_strlit("");
            assert(s@ =~= cs.take(0));
        }
        let mut j: usize = rems.len();
        while j > 0
            invariant
                j <= rems@.len(),
                dd == rems@.map_values(|d: u64| d as nat).reverse(),
                dd.len() == rems@.len(),
                cs == dd.map_values(|d: nat| spec_digit_char(d, upper)),
                forall|jj: int| 0 <= jj < rems@.len() ==> rems@[jj] < radix,
                radix <= 16,
                s@ == cs.take(rems@.len() - j),
            decreases j,
        {
            j = j - 1;
            let ds = digit_str(rems[j], upper);
            s.append(ds);
            proof {
                let len = rems@.len() as int;
                let pos = len - 1 - j;
                assert(dd[pos] == rems@[j as int] as nat);
                assert(cs[pos] == spec_digit_char(rems@[j as int] as nat, upper));
                assert(s@ =~= cs.take(pos + 1));
            }
        }
        proof {
            assert(cs.take(rems@.len() as int) =~= cs);
        }
        s
    }

    /// Renders the value in the requested radix with lowercase digits.
    pub fn to_str_radix(&self, radix: u32) -> (r: String)
        requires
            self.wf(),
            valid_radix(radix as nat),
        ensures
            r@ == spec_to_str_radix(limbs_val(self@), radix as nat, false),
    {
        self.to_str_radix_with(radix, false)
    }
}

/// Three-way magnitude comparison of two trimmed limb sequences: compares
/// lengths first, then scans from the most-significant limb down.
pub fn cmp_slice(a: &Vec<u64>, b: &Vec<u64>) -> (r: Ordering)
    requires
        trimmed(a@),
        trimmed(b@),
    ensures
        r == Ordering::Equal <==> limbs_val(a@) == limbs_val(b@),
        r == Ordering::Less <==> limbs_val(a@) < limbs_val(b@),
        r == Ordering::Greater <==> limbs_val(a@) > limbs_val(b@),
{
    if a.len() < b.len() {
        proof {
            lemma_val_len_lt(a@, b@);
        }
        return Ordering::Less;
    }
    if a.len() > b.len() {
        proof {
            lemma_val_len_lt(b@, a@);
        }
        return Ordering::Greater;
    }
    let mut i: usize = a.len();
    while i > 0
        invariant
            i <= a@.len(),
            a@.len() == b@.len(),
            forall|j: int| i <= j < a@.len() ==> a@[j] == b@[j],
        decreases i,
    {
        i = i - 1;
        if a[i] < b[i] {
            proof {
                lemma_val_lt_at(a@, b@, i as int);
            }
            return Ordering::Less;
        }
        if a[i] > b[i] {
            proof {
                lemma_val_lt_at(b@, a@, i as int);
            }
            return Ordering::Greater;
        }
    }
    proof {
        assert(a@ =~= b@);
    }
    Ordering::Equal
}

} // verus!
