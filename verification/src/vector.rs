//! Limb-vector kernels: multiply-accumulate of a vector by a limb into a window
//! of a buffer, subtraction of one vector from another, and doubling in place.

use crate::big_digit::BigDigit;
use crate::limbs::{
    lemma_radix_adds, lemma_radix_succ, lemma_radix_zero, lemma_value_push, lemma_value_window,
    limbs_value, radix,
};
use crate::word::{add_ww, mul_add_www, sub_ww};
use vstd::prelude::*;

verus! {

/// What a multiply-accumulate leaves behind: `after` is `before` with the window
/// of `x.len()` limbs at `offset` replaced so that, read as numbers,
/// `window_after + carry * 2^(64 len) == window_before + x * y`.
/// Limbs outside the window are untouched.
pub open spec fn add_mul_post(
    before: Seq<u64>,
    offset: int,
    x: Seq<u64>,
    y: u64,
    after: Seq<u64>,
    carry: u64,
) -> bool {
    &&& after.len() == before.len()
    &&& forall|i: int|
        0 <= i < before.len() && !(offset <= i < offset + x.len()) ==> after[i] == before[i]
    &&& limbs_value(after.subrange(offset, offset + x.len())) + carry * radix(x.len())
        == limbs_value(before.subrange(offset, offset + x.len())) + limbs_value(x) * y
}

/// One limb of a multiply-accumulate sweep, as plain numbers.
pub proof fn lemma_mac_step(
    vz: nat,
    c: nat,
    rj: nat,
    vz0: nat,
    vx: nat,
    y: nat,
    xj: nat,
    zj: nat,
    lo: nat,
    cn: nat,
)
    requires
        vz + c * rj == vz0 + vx * y,
        cn * 0x1_0000_0000_0000_0000 + lo == xj * y + zj + c,
    ensures
        (vz + lo * rj) + cn * (rj * 0x1_0000_0000_0000_0000) == (vz0 + zj * rj) + (vx + xj * rj)
            * y,
{
    assert((cn * 0x1_0000_0000_0000_0000 + lo) * rj == (xj * y + zj + c) * rj);
    assert((cn * 0x1_0000_0000_0000_0000 + lo) * rj == cn * (rj * 0x1_0000_0000_0000_0000) + lo
        * rj) by (nonlinear_arith);
    assert((xj * y + zj + c) * rj == (xj * rj) * y + zj * rj + c * rj) by (nonlinear_arith);
    assert((vx + xj * rj) * y == vx * y + (xj * rj) * y) by (nonlinear_arith);
}

/// Adds `x * y` into the window of `z` that starts at `offset`, one limb after
/// another, and returns the carry out of the window.
pub fn add_mul_vvw_seq(z: &mut Vec<BigDigit>, offset: usize, x: &[BigDigit], y: BigDigit) -> (carry:
    BigDigit)
    requires
        offset + x.len() <= old(z).len(),
    ensures
        add_mul_post(old(z)@, offset as int, x@, y, final(z)@, carry),
{
    let n: usize = x.len();
    let mut c: BigDigit = 0;
    let mut j: usize = 0;
    proof {
        lemma_radix_zero();
        assert(z@.subrange(offset as int, offset as int) =~= Seq::<u64>::empty());
        assert(x@.take(0) =~= Seq::<u64>::empty());
        assert(limbs_value(Seq::<u64>::empty()) == 0);
        assert(0 * (y as int) == 0);
    }
    while j < n
        invariant
            j <= n,
            n == x.len(),
            offset + n <= z.len(),
            z.len() == old(z).len(),
            forall|i: int|
                0 <= i < z.len() && !(offset <= i < offset + j) ==> z@[i] == old(z)@[i],
            limbs_value(z@.subrange(offset as int, offset + j)) + c * radix(j as nat)
                == limbs_value(old(z)@.subrange(offset as int, offset + j)) + limbs_value(
                x@.take(j as int),
            ) * y,
        decreases n - j,
    {
        let ghost zb = z@;
        let zj: BigDigit = z[offset + j];
        let xj: BigDigit = x[j];
        let (z1, z0) = mul_add_www(xj, y, zj);
        let (c1, lo) = add_ww(z0, c, 0);
        assert(xj * y <= 0xffff_ffff_ffff_ffff * 0xffff_ffff_ffff_ffff) by (nonlinear_arith)
            requires
                xj <= 0xffff_ffff_ffff_ffff,
                y <= 0xffff_ffff_ffff_ffff,
        ;
        z[offset + j] = lo;
        let cn: BigDigit = c1 + z1;
        proof {
            let w0 = old(z)@.subrange(offset as int, offset + j);
            let w0n = old(z)@.subrange(offset as int, offset + j + 1);
            let wb = zb.subrange(offset as int, offset + j);
            let wn = z@.subrange(offset as int, offset + j + 1);
            assert(wn =~= wb.push(lo));
            assert(w0n =~= w0.push(zj));
            assert(x@.take(j + 1) =~= x@.take(j as int).push(xj));
            lemma_value_push(wb, lo);
            lemma_value_push(w0, zj);
            lemma_value_push(x@.take(j as int), xj);
            lemma_radix_succ(j as nat);
            lemma_mac_step(
                limbs_value(wb),
                c as nat,
                radix(j as nat),
                limbs_value(w0),
                limbs_value(x@.take(j as int)),
                y as nat,
                xj as nat,
                zj as nat,
                lo as nat,
                cn as nat,
            );
        }
        c = cn;
        j += 1;
    }
    proof {
        assert(x@.take(n as int) =~= x@);
    }
    c
}

/// The effect of a multiply-accumulate on the value of the whole buffer.
pub proof fn lemma_add_mul_whole(
    before: Seq<u64>,
    offset: int,
    x: Seq<u64>,
    y: u64,
    after: Seq<u64>,
    carry: u64,
)
    requires
        0 <= offset,
        offset + x.len() <= before.len(),
        add_mul_post(before, offset, x, y, after, carry),
    ensures
        limbs_value(after) + carry * radix((offset + x.len()) as nat) == limbs_value(before)
            + radix(offset as nat) * (limbs_value(x) * y),
{
    let e = offset + x.len();
    lemma_value_window(before, offset, e);
    lemma_value_window(after, offset, e);
    assert(after.take(offset) =~= before.take(offset));
    assert(after.skip(e) =~= before.skip(e));
    lemma_radix_adds(offset as nat, x.len());
    let ro = radix(offset as nat);
    let rn = radix(x.len());
    let wa = limbs_value(after.subrange(offset, e));
    let wb = limbs_value(before.subrange(offset, e));
    let p = limbs_value(x) * y;
    assert(ro * wa + carry * (ro * rn) == ro * wb + ro * p) by (nonlinear_arith)
        requires
            wa + carry * rn == wb + p,
    ;
}

/// One limb of a subtraction sweep, as plain numbers.
proof fn lemma_sub_step(
    vz: int,
    vx: int,
    vy: int,
    b: int,
    rj: int,
    zj: int,
    xj: int,
    yj: int,
    bn: int,
)
    requires
        vz == vx - vy + b * rj,
        zj - bn * 0x1_0000_0000_0000_0000 == xj - yj - b,
    ensures
        vz + zj * rj == (vx + xj * rj) - (vy + yj * rj) + bn * (rj * 0x1_0000_0000_0000_0000),
{
    assert((zj - bn * 0x1_0000_0000_0000_0000) * rj == (xj - yj - b) * rj);
    assert((zj - bn * 0x1_0000_0000_0000_0000) * rj == zj * rj - bn * (rj
        * 0x1_0000_0000_0000_0000)) by (nonlinear_arith);
    assert((xj - yj - b) * rj == xj * rj - yj * rj - b * rj) by (nonlinear_arith);
}

/// Writes `x - y` into `z`, limb by limb with borrow, over as many limbs as all
/// three vectors have, and returns the borrow out of the top limb.
pub fn sub_vv(z: &mut Vec<BigDigit>, x: &[BigDigit], y: &[BigDigit]) -> (borrow: BigDigit)
    ensures
        final(z)@.len() == old(z)@.len(),
        borrow <= 1,
        ({
            let k = vstd::math::min(
                old(z)@.len() as int,
                vstd::math::min(x@.len() as int, y@.len() as int),
            );
            &&& forall|i: int| k <= i < old(z)@.len() ==> final(z)@[i] == old(z)@[i]
            &&& limbs_value(final(z)@.take(k)) == limbs_value(x@.take(k)) - limbs_value(
                y@.take(k),
            ) + borrow * radix(k as nat)
        }),
{
    let mut k: usize = x.len();
    if y.len() < k {
        k = y.len();
    }
    if z.len() < k {
        k = z.len();
    }
    let mut b: BigDigit = 0;
    let mut j: usize = 0;
    proof {
        lemma_radix_zero();
        assert(z@.take(0) =~= Seq::<u64>::empty());
        assert(x@.take(0) =~= Seq::<u64>::empty());
        assert(y@.take(0) =~= Seq::<u64>::empty());
    }
    while j < k
        invariant
            j <= k,
            k <= x.len(),
            k <= y.len(),
            k <= z.len(),
            z.len() == old(z).len(),
            b <= 1,
            forall|i: int| j <= i < z.len() ==> z@[i] == old(z)@[i],
            limbs_value(z@.take(j as int)) == limbs_value(x@.take(j as int)) - limbs_value(
                y@.take(j as int),
            ) + b * radix(j as nat),
        decreases k - j,
    {
        let ghost zb = z@;
        let xj: BigDigit = x[j];
        let yj: BigDigit = y[j];
        let (bn, zj) = sub_ww(xj, yj, b);
        z[j] = zj;
        proof {
            assert(z@.take(j + 1) =~= zb.take(j as int).push(zj));
            assert(x@.take(j + 1) =~= x@.take(j as int).push(xj));
            assert(y@.take(j + 1) =~= y@.take(j as int).push(yj));
            lemma_value_push(zb.take(j as int), zj);
            lemma_value_push(x@.take(j as int), xj);
            lemma_value_push(y@.take(j as int), yj);
            lemma_radix_succ(j as nat);
            lemma_sub_step(
                limbs_value(zb.take(j as int)) as int,
                limbs_value(x@.take(j as int)) as int,
                limbs_value(y@.take(j as int)) as int,
                b as int,
                radix(j as nat) as int,
                zj as int,
                xj as int,
                yj as int,
                bn as int,
            );
        }
        b = bn;
        j += 1;
    }
    b
}

/// One limb of a doubling sweep: the limb that is stored and the bit carried on.
proof fn lemma_double_limb(d: u64, c: u64)
    by (bit_vector)
    requires
        c <= 1,
    ensures
        ((d << 1) | c) as u128 + ((d >> 63) as u128) * 0x1_0000_0000_0000_0000u128 == 2 * (
        d as u128) + c as u128,
        (d >> 63) <= 1,
{
}

/// Doubles `z` in place and brings `bit` in at the bottom; returns the bit
/// that leaves at the top.
pub fn shl1_vw(z: &mut Vec<BigDigit>, bit: bool) -> (carry: bool)
    ensures
        final(z)@.len() == old(z)@.len(),
        limbs_value(final(z)@) + (if carry {
            radix(old(z)@.len())
        } else {
            0
        }) == 2 * limbs_value(old(z)@) + (if bit {
            1nat
        } else {
            0nat
        }),
{
    let ghost b: nat = if bit { 1 } else { 0 };
    let n: usize = z.len();
    let mut c: BigDigit = if bit { 1 } else { 0 };
    let mut j: usize = 0;
    proof {
        lemma_radix_zero();
        assert(z@.take(0) =~= Seq::<u64>::empty());
        assert(limbs_value(Seq::<u64>::empty()) == 0);
    }
    while j < n
        invariant
            j <= n,
            n == z.len(),
            z.len() == old(z).len(),
            c <= 1,
            forall|i: int| j <= i < n ==> z@[i] == old(z)@[i],
            limbs_value(z@.take(j as int)) + c * radix(j as nat) == 2 * limbs_value(
                old(z)@.take(j as int),
            ) + b,
        decreases n - j,
    {
        let ghost zb = z@;
        let d: BigDigit = z[j];
        let nd: BigDigit = (d << 1) | c;
        let cn: BigDigit = d >> 63;
        z[j] = nd;
        proof {
            lemma_double_limb(d, c);
            assert(z@.take(j + 1) =~= zb.take(j as int).push(nd));
            assert(old(z)@.take(j + 1) =~= old(z)@.take(j as int).push(d));
            lemma_value_push(zb.take(j as int), nd);
            lemma_value_push(old(z)@.take(j as int), d);
            lemma_radix_succ(j as nat);
            let rj = radix(j as nat);
            let vz = limbs_value(zb.take(j as int));
            let v0 = limbs_value(old(z)@.take(j as int));
            assert((vz + nd * rj) + cn * (rj * 0x1_0000_0000_0000_0000) == 2 * (v0 + d * rj)
                + b) by (nonlinear_arith)
                requires
                    vz + c * rj == 2 * v0 + b,
                    nd + cn * 0x1_0000_0000_0000_0000 == 2 * d + c,
            ;
        }
        c = cn;
        j += 1;
    }
    proof {
        assert(z@.take(n as int) =~= z@);
        assert(old(z)@.take(n as int) =~= old(z)@);
        assert(1 * radix(n as nat) == radix(n as nat));
        assert(0 * radix(n as nat) == 0);
    }
    c != 0
}

} // verus!
