//! A minimal unsigned big integer: a little-endian vector of 64-bit limbs with
//! the handful of queries that Montgomery exponentiation needs. Its operators
//! are in [`crate::ops`].

use crate::limbs::{
    is_normalized, lemma_value_bound, lemma_value_pad, lemma_value_same_limbs,
    lemma_value_single, lemma_value_take_zeros, lemma_value_top_difference, limb_at,
    limbs_value, padded, radix, zeros,
};
use vstd::arithmetic::power2::{lemma2_to64, lemma_pow2_adds, lemma_pow2_pos, pow2};
use vstd::bits::lemma_u64_shr_is_div;
use vstd::prelude::*;
use vstd::std_specs::bits::{axiom_u64_leading_zeros, u64_leading_zeros};

verus! {

/// An unsigned integer held as 64-bit limbs, least significant first.
///
/// Any limb vector is accepted; the empty vector stands for zero. The
/// canonical form has no zero limb at the top, zero itself being `[0]`.
#[derive(Debug, PartialEq, Eq)]
pub struct BigUint {
    pub data: Vec<u64>,
}

impl View for BigUint {
    type V = Seq<u64>;

    open spec fn view(&self) -> Seq<u64> {
        self.data@
    }
}

impl Clone for BigUint {
    fn clone(&self) -> (r: Self)
        ensures
            r@ == self@,
    {
        BigUint { data: self.data.clone() }
    }
}

impl BigUint {
    /// The number this value stands for.
    pub open spec fn value(&self) -> nat {
        limbs_value(self@)
    }

    /// Whether this is the canonical vector of its value: at least one limb,
    /// and no zero limb at the top but for zero itself, which is `[0]`.
    pub open spec fn is_canonical(&self) -> bool {
        self@.len() >= 1 && is_normalized(self@)
    }

    /// The value 0, as the single limb `[0]`.
    pub fn zero() -> (r: Self)
        ensures
            r@ == seq![0u64],
            r.value() == 0,
            r.is_canonical(),
    {
        let r = BigUint { data: vec![0] };
        proof {
            assert(r@ =~= seq![0u64]);
            lemma_value_single(0);
        }
        r
    }

    /// The value 1, as the single limb `[1]`.
    pub fn one() -> (r: Self)
        ensures
            r@ == seq![1u64],
            r.value() == 1,
            r.is_canonical(),
    {
        let r = BigUint { data: vec![1] };
        proof {
            assert(r@ =~= seq![1u64]);
            lemma_value_single(1);
        }
        r
    }

    /// Strips zero limbs from the top, keeping at least one limb.
    pub fn normalize(&mut self)
        ensures
            final(self)@.len() <= old(self)@.len(),
            final(self)@ == old(self)@.take(final(self)@.len() as int),
            forall|j: int| final(self)@.len() <= j < old(self)@.len() ==> old(self)@[j] == 0,
            is_normalized(final(self)@),
            old(self)@.len() >= 1 ==> final(self).is_canonical(),
            final(self).value() == old(self).value(),
    {
        while self.data.len() > 1 && self.data[self.data.len() - 1] == 0
            invariant
                self@.len() <= old(self)@.len(),
                self@ == old(self)@.take(self@.len() as int),
                forall|j: int| self@.len() <= j < old(self)@.len() ==> old(self)@[j] == 0,
                old(self)@.len() >= 1 ==> self@.len() >= 1,
            decreases self@.len(),
        {
            self.data.pop();
            assert(self@ =~= old(self)@.take(self@.len() as int));
        }
        proof {
            lemma_value_take_zeros(old(self)@, self@.len() as int);
        }
    }

    /// The number of significant bits: the position of the highest set bit
    /// plus one, and zero for the value zero.
    pub fn bit_length(&self) -> (r: u64)
        requires
            64 * self@.len() <= u64::MAX,
        ensures
            self.value() < pow2(r as nat),
            r > 0 ==> pow2((r - 1) as nat) <= self.value(),
            r <= 64 * self@.len(),
    {
        let mut i: usize = self.data.len();
        while i > 0 && self.data[i - 1] == 0
            invariant
                i <= self@.len(),
                forall|j: int| i <= j < self@.len() ==> self@[j] == 0,
            decreases i,
        {
            i -= 1;
        }
        proof {
            lemma_value_take_zeros(self@, i as int);
            lemma2_to64();
        }
        if i == 0 {
            assert(self@.take(0) =~= Seq::<u64>::empty());
            return 0;
        }
        let top: u64 = self.data[i - 1];
        let lz: u32 = top.leading_zeros();
        let bits: u64 = 64 - lz as u64;
        proof {
            axiom_u64_leading_zeros(top);
            let low = self@.take(i as int);
            assert(low.drop_last() =~= self@.take(i - 1));
            lemma_value_bound(low.drop_last());
            let w = radix((i - 1) as nat);
            let rest = limbs_value(low.drop_last());
            lemma_limb_bits(top, bits);
            lemma_pow2_adds(bits as nat, (64 * (i - 1)) as nat);
            lemma_pow2_adds((bits - 1) as nat, (64 * (i - 1)) as nat);
            let hi = pow2(bits as nat);
            let lo = pow2((bits - 1) as nat);
            assert(rest + top * w < hi * w) by (nonlinear_arith)
                requires
                    rest < w,
                    top < hi,
            ;
            assert(lo * w <= top * w) by (nonlinear_arith)
                requires
                    lo <= top,
            ;
        }
        bits + 64 * ((i - 1) as u64)
    }

    /// Whether this value is at least `other`, whatever the lengths of the two vectors.
    pub fn ge(&self, other: &BigUint) -> (r: bool)
        ensures
            r == (self.value() >= other.value()),
    {
        let la: usize = self.data.len();
        let lb: usize = other.data.len();
        let mut i: usize = if la >= lb { la } else { lb };
        while i > 0
            invariant
                la == self@.len(),
                lb == other@.len(),
                forall|j: int| i <= j ==> limb_at(self@, j) == limb_at(other@, j),
            decreases i,
        {
            i -= 1;
            let a: u64 = if i < la { self.data[i] } else { 0 };
            let b: u64 = if i < lb { other.data[i] } else { 0 };
            if a != b {
                proof {
                    if a > b {
                        lemma_value_top_difference(self@, other@, i as int);
                    } else {
                        lemma_value_top_difference(other@, self@, i as int);
                    }
                }
                return a > b;
            }
        }
        proof {
            lemma_value_same_limbs(self@, other@);
        }
        true
    }
}

/// A nonzero limb with `64 - bits` leading zero bits lies in `[2^(bits-1), 2^bits)`.
proof fn lemma_limb_bits(top: u64, bits: u64)
    requires
        top != 0,
        bits == 64 - u64_leading_zeros(top),
    ensures
        1 <= bits <= 64,
        pow2((bits - 1) as nat) <= top < pow2(bits as nat),
{
    axiom_u64_leading_zeros(top);
    lemma2_to64();
    let lz = u64_leading_zeros(top) as u64;
    let s: u64 = (63 - lz) as u64;
    lemma_u64_shr_is_div(top, s);
    lemma_pow2_pos(s as nat);
    let p = pow2(s as nat);
    let q = top >> s;
    assert(q & 1 != 0 ==> q >= 1) by (bit_vector);
    assert(top >= p) by (nonlinear_arith)
        requires
            top as nat / p >= 1,
            p > 0,
    ;
    if bits < 64 {
        let up: u64 = (64 - lz) as u64;
        lemma_u64_shr_is_div(top, up);
        lemma_pow2_pos(up as nat);
        let above = pow2(up as nat);
        assert(top < above) by (nonlinear_arith)
            requires
                top as nat / above == 0,
                above > 0,
        ;
    }
}

/// A vector of `n` zero limbs.
pub fn zero_limbs(n: usize) -> (v: Vec<u64>)
    ensures
        v@ == zeros(n as nat),
{
    let v = vec![0u64; n];
    assert(v@ =~= zeros(n as nat));
    v
}

/// Appends zero limbs to `v` until it has `n` limbs; a vector that already
/// has `n` limbs or more is left as it is.
pub fn pad_limbs(v: &mut Vec<u64>, n: usize)
    ensures
        final(v)@ == padded(old(v)@, n as nat),
        limbs_value(final(v)@) == limbs_value(old(v)@),
{
    if v.len() < n {
        v.resize(n, 0);
        proof {
            assert(v@ =~= padded(old(v)@, n as nat));
            lemma_value_pad(old(v)@, (n - old(v)@.len()) as nat);
        }
    }
}

} // verus!
