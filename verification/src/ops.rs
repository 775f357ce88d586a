//! The operators of [`BigUint`]: shift left, subtraction, multiplication and
//! remainder.
//!
//! What each operator returns is stated in the `ensures` of its method. The
//! operator traits also ask for a spec-level result; a `BigUint` holds a
//! `Vec`, which spec code cannot build, so each impl declares that it does
//! not follow that spec function, and the `ensures` clauses are what callers
//! rely on.

use crate::biguint::{pad_limbs, zero_limbs, BigUint};
use crate::limbs::{
    lemma_radix_pos, lemma_radix_succ, lemma_radix_zero, lemma_value_bound,
    lemma_value_concat, lemma_value_low_limb, lemma_value_push, lemma_value_update,
    lemma_value_zeros, limbs_value, radix, zeros,
};
use crate::vector::{add_mul_vvw_seq, lemma_add_mul_whole, shl1_vw, sub_vv};
use core::ops::{Mul, Rem, Shl, Sub};
use vstd::arithmetic::div_mod::{
    lemma_div_denominator, lemma_fundamental_div_mod, lemma_fundamental_div_mod_converse_mod,
    lemma_mod_bound, lemma_small_mod,
};
use vstd::arithmetic::power2::{
    lemma2_to64, lemma_pow2_adds, lemma_pow2_pos, lemma_pow2_unfold, pow2,
};
use vstd::bits::{lemma_u64_pow2_no_overflow, lemma_u64_shl_is_mul, lemma_u64_shr_is_div};
use vstd::prelude::*;
use vstd::std_specs::ops::{MulSpecImpl, RemSpecImpl, ShlSpecImpl, SubSpecImpl};

verus! {

/// Whether shifting `s` left by `bits` (below 64) bits carries out of its top limb.
pub open spec fn shl_spills(s: Seq<u64>, bits: nat) -> bool {
    bits > 0 && s.len() > 0 && s.last() >= pow2((64 - bits) as nat)
}

/// One limb of a left shift by `bs` bits: the limb that is stored and the
/// bits carried into the next one.
proof fn lemma_shl_limb_bits(d: u64, c: u64, bs: u64, p: u64)
    by (bit_vector)
    requires
        0 < bs < 64,
        p == 1u64 << bs,
        c < p,
    ensures
        ((d << bs) | c) as u128 + ((d >> ((64 - bs) as u64)) as u128)
            * 0x1_0000_0000_0000_0000u128 == (d as u128) * (p as u128) + c as u128,
        (d >> ((64 - bs) as u64)) < p,
{
}

/// The same step as plain numbers, with `p = 2^bs`.
proof fn lemma_shl_limb(d: u64, c: u64, bs: u64)
    requires
        0 < bs < 64,
        c < pow2(bs as nat),
    ensures
        ((d << bs) | c) + (d >> ((64 - bs) as u64)) * 0x1_0000_0000_0000_0000 == d * pow2(
            bs as nat,
        ) + c,
        (d >> ((64 - bs) as u64)) < pow2(bs as nat),
        (d >> ((64 - bs) as u64)) == d as nat / pow2((64 - bs) as nat),
{
    lemma2_to64();
    lemma_pow2_pos(bs as nat);
    lemma_u64_pow2_no_overflow(bs as nat);
    lemma_u64_shl_is_mul(1, bs);
    let p: u64 = 1u64 << bs;
    assert(p == pow2(bs as nat));
    lemma_shl_limb_bits(d, c, bs, p);
    lemma_u64_shr_is_div(d, (64 - bs) as u64);
}

impl ShlSpecImpl<u64> for BigUint {
    open spec fn obeys_shl_spec() -> bool {
        false
    }

    open spec fn shl_req(self, shift: u64) -> bool {
        self@.len() + shift / 64 + 1 <= usize::MAX
    }

    open spec fn shl_spec(self, shift: u64) -> BigUint {
        arbitrary()
    }
}

impl Shl<u64> for BigUint {
    type Output = BigUint;

    /// Multiplies by `2^shift`: whole limbs of zeros come in at the bottom,
    /// and one more limb is appended at the top only where bits carry out.
    fn shl(self, shift: u64) -> (r: BigUint)
        ensures
            r.value() == self.value() * pow2(shift as nat),
            r@.len() == self@.len() + shift / 64 + (if shl_spills(self@, (shift % 64) as nat) {
                1int
            } else {
                0int
            }),
    {
        let limb_bits: u64 = 64;
        let limb_shift: usize = (shift / limb_bits) as usize;
        let bit_shift: u64 = shift % limb_bits;
        let n: usize = self.data.len();
        let mut result: Vec<u64> = Vec::with_capacity(n + limb_shift + 1);
        let mut k: usize = 0;
        while k < limb_shift
            invariant
                k <= limb_shift,
                result@ == zeros(k as nat),
            decreases limb_shift - k,
        {
            result.push(0);
            k += 1;
            assert(result@ =~= zeros(k as nat));
        }
        let ghost p = pow2(bit_shift as nat);
        let ghost mut out: Seq<u64> = Seq::empty();
        let mut carry: u64 = 0;
        let mut j: usize = 0;
        proof {
            lemma2_to64();
            lemma_radix_zero();
            lemma_pow2_pos(bit_shift as nat);
            assert(self@.take(0) =~= Seq::<u64>::empty());
            assert(limbs_value(Seq::<u64>::empty()) == 0);
            assert(result@ =~= zeros(limb_shift as nat) + out);
            assert(0 * p == 0);
        }
        while j < n
            invariant
                j <= n,
                n == self@.len(),
                bit_shift < 64,
                limb_bits == 64,
                p == pow2(bit_shift as nat),
                p > 0,
                out.len() == j,
                result@ == zeros(limb_shift as nat) + out,
                carry < p,
                bit_shift == 0 || j == 0 ==> carry == 0,
                bit_shift > 0 && j > 0 ==> carry == self@[j - 1] as nat / pow2(
                    (64 - bit_shift) as nat,
                ),
                limbs_value(out) + carry * radix(j as nat) == limbs_value(self@.take(j as int))
                    * p,
            decreases n - j,
        {
            let d: u64 = self.data[j];
            let new_d: u64 = (d << bit_shift) | carry;
            let next: u64 = if bit_shift == 0 {
                0
            } else {
                d >> (limb_bits - bit_shift)
            };
            proof {
                if bit_shift == 0 {
                    assert(d << 0 == d) by (bit_vector);
                    assert(d | 0 == d) by (bit_vector);
                    lemma2_to64();
                    assert(p == 1);
                } else {
                    lemma_shl_limb(d, carry, bit_shift);
                }
                assert(new_d + next * 0x1_0000_0000_0000_0000 == d * p + carry);
                let prev = self@.take(j as int);
                assert(self@.take(j + 1) =~= prev.push(d));
                lemma_value_push(prev, d);
                lemma_value_push(out, new_d);
                lemma_radix_succ(j as nat);
                let rj = radix(j as nat);
                let vo = limbs_value(out);
                let vp = limbs_value(prev);
                assert((vo + new_d * rj) + next * (rj * 0x1_0000_0000_0000_0000) == (vp + d
                    * rj) * p) by (nonlinear_arith)
                    requires
                        vo + carry * rj == vp * p,
                        new_d + next * 0x1_0000_0000_0000_0000 == d * p + carry,
                ;
                out = out.push(new_d);
            }
            result.push(new_d);
            carry = next;
            j += 1;
            assert(result@ =~= zeros(limb_shift as nat) + out);
        }
        if carry != 0 {
            result.push(carry);
            proof {
                lemma_value_push(out, carry);
                out = out.push(carry);
                assert(result@ =~= zeros(limb_shift as nat) + out);
            }
        }
        proof {
            assert(self@.take(n as int) =~= self@);
            assert(0 * radix(n as nat) == 0);
            lemma_value_concat(zeros(limb_shift as nat), out);
            lemma_value_zeros(limb_shift as nat);
            lemma_pow2_adds((64 * limb_shift) as nat, bit_shift as nat);
            assert(shift == 64 * limb_shift + bit_shift);
            let v = limbs_value(self@);
            let rl = radix(limb_shift as nat);
            assert(rl * (v * p) == v * (rl * p)) by (nonlinear_arith);
            if bit_shift > 0 && n > 0 {
                let hp = pow2((64 - bit_shift) as nat);
                lemma_pow2_pos((64 - bit_shift) as nat);
                let top = self@.last() as nat;
                assert((top / hp != 0) == (top >= hp)) by (nonlinear_arith)
                    requires
                        hp > 0,
                ;
            }
        }
        BigUint { data: result }
    }
}

impl<'a> SubSpecImpl<&'a BigUint> for BigUint {
    open spec fn obeys_sub_spec() -> bool {
        false
    }

    open spec fn sub_req(self, rhs: &'a BigUint) -> bool {
        self.value() >= rhs.value()
    }

    open spec fn sub_spec(self, rhs: &'a BigUint) -> BigUint {
        arbitrary()
    }
}

impl<'a> Sub<&'a BigUint> for BigUint {
    type Output = BigUint;

    /// The difference of two values, the first being at least the second, in
    /// normalized form.
    fn sub(self, rhs: &'a BigUint) -> (r: BigUint)
        ensures
            r.value() == self.value() - rhs.value(),
            r.is_canonical(),
    {
        let la: usize = self.data.len();
        let lb: usize = rhs.data.len();
        let n: usize = if la >= lb { la } else { lb };
        if n == 0 {
            assert(limbs_value(self@) == 0);
            assert(limbs_value(rhs@) == 0);
            return BigUint::zero();
        }
        let mut a: Vec<u64> = self.data;
        pad_limbs(&mut a, n);
        let mut b: Vec<u64> = rhs.data.clone();
        pad_limbs(&mut b, n);
        let mut r = BigUint { data: zero_limbs(n) };
        let borrow: u64 = sub_vv(&mut r.data, a.as_slice(), b.as_slice());
        proof {
            assert(r@.take(n as int) =~= r@);
            assert(a@.take(n as int) =~= a@);
            assert(b@.take(n as int) =~= b@);
            lemma_value_bound(r@);
            lemma_radix_pos(n as nat);
            assert(1 * radix(n as nat) == radix(n as nat));
            assert(0 * radix(n as nat) == 0);
        }
        r.normalize();
        r
    }
}

impl SubSpecImpl<BigUint> for BigUint {
    open spec fn obeys_sub_spec() -> bool {
        false
    }

    open spec fn sub_req(self, rhs: BigUint) -> bool {
        self.value() >= rhs.value()
    }

    open spec fn sub_spec(self, rhs: BigUint) -> BigUint {
        arbitrary()
    }
}

impl Sub<BigUint> for BigUint {
    type Output = BigUint;

    /// The difference of two values, the first being at least the second, in
    /// normalized form.
    fn sub(self, rhs: BigUint) -> (r: BigUint)
        ensures
            r.value() == self.value() - rhs.value(),
            r.is_canonical(),
    {
        self.sub(&rhs)
    }
}

impl MulSpecImpl<BigUint> for BigUint {
    open spec fn obeys_mul_spec() -> bool {
        false
    }

    open spec fn mul_req(self, rhs: BigUint) -> bool {
        self@.len() + rhs@.len() <= usize::MAX
    }

    open spec fn mul_spec(self, rhs: BigUint) -> BigUint {
        arbitrary()
    }
}

impl Mul<BigUint> for BigUint {
    type Output = BigUint;

    /// The product of two values, in normalized form, by one
    /// multiply-accumulate sweep for each limb of the second factor.
    fn mul(self, rhs: BigUint) -> (r: BigUint)
        ensures
            r.value() == self.value() * rhs.value(),
            r.is_canonical(),
    {
        let la: usize = self.data.len();
        let lb: usize = rhs.data.len();
        if la + lb == 0 {
            proof {
                assert(limbs_value(self@) == 0);
                assert(0 * rhs.value() == 0);
            }
            return BigUint::zero();
        }
        let mut r = BigUint { data: zero_limbs(la + lb) };
        let mut i: usize = 0;
        proof {
            lemma_value_zeros((la + lb) as nat);
            assert(rhs@.take(0) =~= Seq::<u64>::empty());
            assert(limbs_value(Seq::<u64>::empty()) == 0);
            assert(self.value() * 0 == 0);
        }
        while i < lb
            invariant
                i <= lb,
                la == self@.len(),
                lb == rhs@.len(),
                la + lb <= usize::MAX,
                r@.len() == la + lb,
                forall|p: int| i + la <= p < la + lb ==> r@[p] == 0,
                r.value() == self.value() * limbs_value(rhs@.take(i as int)),
            decreases lb - i,
        {
            let ghost r0 = r@;
            let d: u64 = rhs.data[i];
            let c: u64 = add_mul_vvw_seq(&mut r.data, i, self.data.as_slice(), d);
            let ghost r1 = r@;
            r.data[i + la] = c;
            proof {
                lemma_add_mul_whole(r0, i as int, self@, d, r1, c);
                lemma_value_update(r1, i + la, c);
                assert(r1[i + la] == 0);
                let prev = rhs@.take(i as int);
                assert(rhs@.take(i + 1) =~= prev.push(d));
                lemma_value_push(prev, d);
                let a = self.value();
                let vp = limbs_value(prev);
                let ri = radix(i as nat);
                let w = radix((i + la) as nat);
                let old_limb = r1[i + la] as nat;
                assert(old_limb * w == 0) by (nonlinear_arith)
                    requires
                        old_limb == 0,
                ;
                assert(a * (vp + d * ri) == a * vp + ri * (a * d)) by (nonlinear_arith);
            }
            i += 1;
        }
        proof {
            assert(rhs@.take(lb as int) =~= rhs@);
        }
        r.normalize();
        r
    }
}

/// One bit of a long division: from `r = p mod m` to `(2 p + bit) mod m`.
proof fn lemma_rem_step(p: nat, m: nat, r: nat, bit: nat, r2: nat, k: nat)
    requires
        m > 0,
        r == p % m,
        r2 + k * m == 2 * r + bit,
        r2 < m,
    ensures
        r2 == (2 * p + bit) % m,
{
    let q = (p as int) / (m as int);
    lemma_fundamental_div_mod(p as int, m as int);
    let q2 = 2 * q + k;
    assert((2 * p + bit) as int == q2 * m + r2) by (nonlinear_arith)
        requires
            p == m * q + r,
            r2 + k * m == 2 * r + bit,
            q2 == 2 * q + k,
    ;
    lemma_fundamental_div_mod_converse_mod((2 * p + bit) as int, m as int, q2, r2 as int);
}

/// Bit `c` of a limb splits the limb's upper part: `limb / 2^c` is twice
/// `limb / 2^(c+1)` plus that bit.
proof fn lemma_limb_bit(limb: u64, c: u64)
    requires
        c < 64,
    ensures
        (limb >> c) & 1 <= 1,
        limb as nat / pow2(c as nat) == 2 * (limb as nat / pow2((c + 1) as nat)) + ((limb >> c)
            & 1),
{
    let x = limb >> c;
    lemma_u64_shr_is_div(limb, c);
    assert(x & 1 == x % 2) by (bit_vector);
    lemma_pow2_pos(c as nat);
    lemma_pow2_unfold((c + 1) as nat);
    lemma_div_denominator(limb as int, pow2(c as nat) as int, 2);
    assert(pow2(c as nat) * 2 == pow2((c + 1) as nat));
}

/// The dividend read down to bit `c` of the limb below its upper part `vh`:
/// taking in bit `c` doubles what was read and adds that bit.
proof fn lemma_rem_prefix(vh: nat, limb: u64, c: u64)
    requires
        c < 64,
    ensures
        (limb >> c) & 1 <= 1,
        vh * pow2((64 - c) as nat) + limb as nat / pow2(c as nat) == 2 * (vh * pow2(
            (63 - c) as nat,
        ) + limb as nat / pow2((c + 1) as nat)) + ((limb >> c) & 1),
{
    lemma_limb_bit(limb, c);
    lemma_pow2_unfold((64 - c) as nat);
    let e = pow2((63 - c) as nat);
    let pw = pow2((64 - c) as nat);
    assert(vh * pw == 2 * (vh * e)) by (nonlinear_arith)
        requires
            pw == 2 * e,
    ;
    let a = vh * pw;
    let b = vh * e;
    let lo = limb as nat / pow2(c as nat);
    let lo1 = limb as nat / pow2((c + 1) as nat);
    let bit = (limb >> c) & 1;
    assert(a + lo == 2 * (b + lo1) + bit) by (nonlinear_arith)
        requires
            a == 2 * b,
            lo == 2 * lo1 + bit,
    ;
}

/// Before any bit of the limb is read the prefix is `vh`; after all 64 it
/// is `vh * 2^64 + limb`.
proof fn lemma_rem_prefix_ends(vh: nat, limb: u64)
    ensures
        vh * pow2(0) + limb as nat / pow2(64) == vh,
        vh * pow2(64) + limb as nat / pow2(0) == limb + 0x1_0000_0000_0000_0000 * vh,
{
    lemma2_to64();
    let p0 = pow2(0);
    let p64 = pow2(64);
    assert(vh * p0 == vh && vh * p64 == 0x1_0000_0000_0000_0000 * vh) by (nonlinear_arith)
        requires
            p0 == 1,
            p64 == 0x1_0000_0000_0000_0000,
    ;
    assert(limb as nat / p64 == 0);
    assert(limb as nat / p0 == limb as nat);
}

impl<'a> RemSpecImpl<&'a BigUint> for BigUint {
    open spec fn obeys_rem_spec() -> bool {
        false
    }

    open spec fn rem_req(self, modulus: &'a BigUint) -> bool {
        modulus.value() > 0
    }

    open spec fn rem_spec(self, modulus: &'a BigUint) -> BigUint {
        arbitrary()
    }
}

impl<'a> Rem<&'a BigUint> for BigUint {
    type Output = BigUint;

    /// The remainder of this value modulo a nonzero modulus, in normalized
    /// form, by binary long division from the top bit down.
    fn rem(self, modulus: &'a BigUint) -> (r: BigUint)
        ensures
            r.value() == self.value() % modulus.value(),
            r.is_canonical(),
    {
        let n: usize = modulus.data.len();
        let mut r = BigUint { data: zero_limbs(n) };
        let mut scratch = BigUint { data: zero_limbs(n) };
        let mut i: usize = self.data.len();
        let ghost m = modulus.value();
        proof {
            lemma_value_zeros(n as nat);
            assert(self@.skip(i as int) =~= Seq::<u64>::empty());
            assert(limbs_value(Seq::<u64>::empty()) == 0);
            lemma_small_mod(0, m);
            assert(n >= 1) by {
                if n == 0 {
                    assert(modulus@ =~= Seq::<u64>::empty());
                }
            }
        }
        while i > 0
            invariant
                i <= self@.len(),
                n == modulus@.len(),
                n >= 1,
                m == modulus.value(),
                m > 0,
                r@.len() == n,
                scratch@.len() == n,
                r.value() == limbs_value(self@.skip(i as int)) % m,
            decreases i,
        {
            i -= 1;
            let limb: u64 = self.data[i];
            let ghost vh = limbs_value(self@.skip(i + 1));
            let mut c: u64 = 64;
            proof {
                lemma_rem_prefix_ends(vh, limb);
            }
            while c > 0
                invariant
                    c <= 64,
                    n == modulus@.len(),
                    n >= 1,
                    m == modulus.value(),
                    m > 0,
                    r@.len() == n,
                    scratch@.len() == n,
                    r.value() == (vh * pow2((64 - c) as nat) + limb as nat / pow2(c as nat)) % m,
                decreases c,
            {
                let ghost p = vh * pow2((64 - c) as nat) + limb as nat / pow2(c as nat);
                let ghost r0 = r.value();
                c -= 1;
                let bit: u64 = (limb >> c) & 1;
                proof {
                    lemma_rem_prefix(vh, limb, c);
                    lemma_mod_bound(p as int, m as int);
                }
                let carry: bool = shl1_vw(&mut r.data, bit != 0);
                proof {
                    lemma_value_bound(r@);
                    lemma_value_bound(modulus@);
                    assert(1 * radix(n as nat) == radix(n as nat));
                    assert(0 * radix(n as nat) == 0);
                }
                if carry || r.ge(modulus) {
                    let borrow: u64 = sub_vv(
                        &mut scratch.data,
                        r.data.as_slice(),
                        modulus.data.as_slice(),
                    );
                    proof {
                        assert(scratch@.take(n as int) =~= scratch@);
                        assert(r@.take(n as int) =~= r@);
                        assert(modulus@.take(n as int) =~= modulus@);
                        lemma_value_bound(scratch@);
                    }
                    core::mem::swap(&mut r, &mut scratch);
                    proof {
                        lemma_rem_step(p, m, r0, bit as nat, r.value(), 1);
                    }
                } else {
                    proof {
                        lemma_rem_step(p, m, r0, bit as nat, r.value(), 0);
                    }
                }
            }
            proof {
                let s = self@.skip(i as int);
                lemma_value_low_limb(s);
                assert(s.skip(1) =~= self@.skip(i + 1));
                lemma_rem_prefix_ends(vh, limb);
            }
        }
        proof {
            assert(self@.skip(0) =~= self@);
        }
        r.normalize();
        r
    }
}

} // verus!
