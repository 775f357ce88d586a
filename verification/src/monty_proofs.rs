//! The arithmetic behind the Montgomery routines: the doubling step of the
//! inverse, and what one round and the closing step of a Montgomery
//! multiplication do to the numbers involved.

use crate::limbs::{
    lemma_radix_succ, lemma_value_low_limb, lemma_value_update, limbs_value, radix,
};
use crate::monty::{is_monty_constant, reduces_with};
use crate::vector::{add_mul_post, lemma_add_mul_whole};
use vstd::arithmetic::div_mod::{
    lemma_fundamental_div_mod, lemma_fundamental_div_mod_converse, lemma_mod_multiples_vanish,
};
use vstd::arithmetic::power2::{lemma2_to64, lemma_pow2_adds, lemma_pow2_pos, pow2};
use vstd::prelude::*;

verus! {

/// One doubling step of the inverse: from `k * b ≡ 1 - t^2` to the same
/// relation for `t' = t^2` and `k' = k * (t' + 1)`, all modulo `2^64`.
pub proof fn lemma_inverse_step(k: nat, b: nat, t: nat, t2: nat, s: nat, k2: nat)
    requires
        (k * b + t * t) % 0x1_0000_0000_0000_0000 == 1,
        t2 == (t * t) % 0x1_0000_0000_0000_0000,
        s == (t2 + 1) % 0x1_0000_0000_0000_0000,
        k2 == (k * s) % 0x1_0000_0000_0000_0000,
    ensures
        (k2 * b + t2 * t2) % 0x1_0000_0000_0000_0000 == 1,
{
    let m: int = 0x1_0000_0000_0000_0000;
    let x = (k * b) as int;
    let tt = (t * t) as int;
    let q = (x + tt) / m;
    let q1 = tt / m;
    let e = ((t2 + 1) as int) / m;
    let q2 = ((k * s) as int) / m;
    lemma_fundamental_div_mod(x + tt, m);
    lemma_fundamental_div_mod(tt, m);
    lemma_fundamental_div_mod((t2 + 1) as int, m);
    lemma_fundamental_div_mod((k * s) as int, m);
    let ks = (k * s) as int;
    let qt = q * t2;
    let q1t = q1 * t2;
    let xe = x * e;
    let q2b = q2 * b;
    assert(ks * b == x * s) by (nonlinear_arith)
        requires
            ks == k * s,
            x == k * b,
    ;
    assert(k2 * b == ks * b - m * q2b) by (nonlinear_arith)
        requires
            ks == m * q2 + k2,
            q2b == q2 * b,
    ;
    assert(x * s == x * t2 + x - m * xe) by (nonlinear_arith)
        requires
            s == t2 + 1 - m * e,
            xe == x * e,
    ;
    assert(x * t2 == t2 + m * qt - t2 * t2 - m * q1t) by (nonlinear_arith)
        requires
            x == 1 + m * q - t2 - m * q1,
            qt == q * t2,
            q1t == q1 * t2,
    ;
    let j = qt - q1t + q - q1 - xe - q2b;
    assert(k2 * b + t2 * t2 == m * j + 1);
    lemma_mod_multiples_vanish(j, 1, m);
}

/// Squaring modulo `2^64` doubles the number of zero bits at the bottom, up to 64.
pub proof fn lemma_square_low_zeros(t: nat, t2: nat, i: nat)
    requires
        2 * i <= 64,
        t % pow2(i) == 0,
        t2 == (t * t) % 0x1_0000_0000_0000_0000,
    ensures
        t2 % pow2(2 * i) == 0,
{
    let m: int = 0x1_0000_0000_0000_0000;
    let d = pow2(i) as int;
    let dd = pow2(2 * i) as int;
    let h = pow2((64 - 2 * i) as nat) as int;
    lemma_pow2_pos(i);
    lemma_pow2_pos(2 * i);
    lemma_pow2_adds(i, i);
    lemma_pow2_adds(2 * i, (64 - 2 * i) as nat);
    lemma2_to64();
    assert(dd * h == m);
    let a = (t as int) / d;
    lemma_fundamental_div_mod(t as int, d);
    let q = ((t * t) as int) / m;
    lemma_fundamental_div_mod((t * t) as int, m);
    let aa = a * a;
    let qh = q * h;
    assert(t * t == dd * aa) by (nonlinear_arith)
        requires
            t == d * a,
            dd == d * d,
            aa == a * a,
    ;
    assert(m * q == dd * qh) by (nonlinear_arith)
        requires
            dd * h == m,
            qh == q * h,
    ;
    assert(t2 == dd * (aa - qh)) by (nonlinear_arith)
        requires
            t * t == dd * aa,
            m * q == dd * qh,
            t * t == m * q + t2,
    ;
    lemma_mod_multiples_vanish(aa - qh, 0, dd);
    assert(0int % dd == 0);
}

/// With `t = w * k mod 2^64`, the limb `w + m0 * t` is a multiple of `2^64`.
pub proof fn lemma_low_limb_cancels(w: nat, m0: nat, k: nat, t: nat)
    requires
        (k * m0) % 0x1_0000_0000_0000_0000 == 0xffff_ffff_ffff_ffff,
        t == (w * k) % 0x1_0000_0000_0000_0000,
    ensures
        (w + m0 * t) % 0x1_0000_0000_0000_0000 == 0,
{
    let b: int = 0x1_0000_0000_0000_0000;
    let q = ((k * m0) as int) / b;
    let q2 = ((w * k) as int) / b;
    lemma_fundamental_div_mod((k * m0) as int, b);
    lemma_fundamental_div_mod((w * k) as int, b);
    let p = (k * m0) as int;
    let r = (w * k) as int;
    let wq = w * q;
    let mq = m0 * q2;
    let j = wq + w - mq;
    assert(w * p == m0 * r) by (nonlinear_arith)
        requires
            p == k * m0,
            r == w * k,
    ;
    assert(w * p == b * wq + b * w - w) by (nonlinear_arith)
        requires
            p == b * q + (b - 1),
            wq == w * q,
    ;
    assert(m0 * r == b * mq + m0 * t) by (nonlinear_arith)
        requires
            r == b * q2 + t,
            mq == m0 * q2,
    ;
    assert(w + m0 * t == b * j);
    lemma_mod_multiples_vanish(j, 0, b);
}

/// After both sweeps of a round the lowest limb of the window is zero.
pub proof fn lemma_window_low_zero(
    a2: nat,
    r2: nat,
    c3: nat,
    rn1: nat,
    a1: nat,
    r1: nat,
    m0: nat,
    rm: nat,
    t: nat,
)
    requires
        a2 < 0x1_0000_0000_0000_0000,
        (a2 + 0x1_0000_0000_0000_0000 * r2) + c3 * (rn1 * 0x1_0000_0000_0000_0000) == (a1
            + 0x1_0000_0000_0000_0000 * r1) + (m0 + 0x1_0000_0000_0000_0000 * rm) * t,
        (a1 + m0 * t) % 0x1_0000_0000_0000_0000 == 0,
    ensures
        a2 == 0,
{
    let b: int = 0x1_0000_0000_0000_0000;
    let j = r1 + rm * t - r2 - c3 * rn1;
    assert(a2 == b * j + (a1 + m0 * t)) by (nonlinear_arith)
        requires
            (a2 + b * r2) + c3 * (rn1 * b) == (a1 + b * r1) + (m0 + b * rm) * t,
            j == r1 + rm * t - r2 - c3 * rn1,
    ;
    lemma_mod_multiples_vanish(j, (a1 + m0 * t) as int, b);
}

/// One round of the Montgomery sweep keeps the running equation
/// `z + c * 2^(64 (n + i)) == x * y[..i] + t * m` and zeroes limb `i`.
pub proof fn lemma_monty_round(
    z0: Seq<u64>,
    z1: Seq<u64>,
    z2: Seq<u64>,
    z3: Seq<u64>,
    x: Seq<u64>,
    m: Seq<u64>,
    yi: u64,
    k: u64,
    ti: u64,
    c: u64,
    c2: u64,
    c3: u64,
    cy: u64,
    cn: u64,
    i: int,
    n: int,
    vy: nat,
    t: nat,
)
    requires
        n >= 1,
        0 <= i < n,
        z0.len() == 2 * n,
        x.len() == n,
        m.len() == n,
        is_monty_constant(k, m[0]),
        forall|p: int| 0 <= p < i ==> z0[p] == 0,
        forall|p: int| n + i <= p < 2 * n ==> z0[p] == 0,
        limbs_value(z0) + c * radix((n + i) as nat) == limbs_value(x) * vy + t * limbs_value(m),
        add_mul_post(z0, i, x, yi, z1, c2),
        ti as nat == (z1[i] as nat * k as nat) % 0x1_0000_0000_0000_0000,
        add_mul_post(z1, i, m, ti, z2, c3),
        c + c2 + c3 == cn * 0x1_0000_0000_0000_0000 + cy,
        z3 == z2.update(n + i, cy),
    ensures
        forall|p: int| 0 <= p < i + 1 ==> z3[p] == 0,
        forall|p: int| n + i + 1 <= p < 2 * n ==> z3[p] == 0,
        limbs_value(z3) + cn * radix((n + i + 1) as nat) == limbs_value(x) * (vy + yi * radix(
            i as nat,
        )) + (t + ti * radix(i as nat)) * limbs_value(m),
{
    let b: nat = 0x1_0000_0000_0000_0000;
    let w1 = z1.subrange(i, i + n);
    let w2 = z2.subrange(i, i + n);
    // Limb i is zero after the second sweep.
    lemma_value_low_limb(w1);
    lemma_value_low_limb(w2);
    lemma_value_low_limb(m);
    lemma_radix_succ((n - 1) as nat);
    lemma_low_limb_cancels(z1[i] as nat, m[0] as nat, k as nat, ti as nat);
    assert(w1[0] == z1[i]);
    assert(w2[0] == z2[i]);
    lemma_window_low_zero(
        z2[i] as nat,
        limbs_value(w2.skip(1)),
        c3 as nat,
        radix((n - 1) as nat),
        z1[i] as nat,
        limbs_value(w1.skip(1)),
        m[0] as nat,
        limbs_value(m.skip(1)),
        ti as nat,
    );
    assert(z2[i] == 0);
    // The value of the whole buffer after each step.
    lemma_add_mul_whole(z0, i, x, yi, z1, c2);
    lemma_add_mul_whole(z1, i, m, ti, z2, c3);
    assert(z2[n + i] == 0);
    lemma_value_update(z2, n + i, cy);
    lemma_radix_succ((n + i) as nat);
    let rni = radix((n + i) as nat);
    let ri = radix(i as nat);
    let vx = limbs_value(x);
    let vm = limbs_value(m);
    let v0 = limbs_value(z0);
    let v1 = limbs_value(z1);
    let v2 = limbs_value(z2);
    let v3 = limbs_value(z3);
    assert(0 * rni == 0);
    assert(v3 == v2 + cy * rni);
    assert(c * rni + c2 * rni + c3 * rni == cn * (rni * b) + cy * rni) by (nonlinear_arith)
        requires
            c + c2 + c3 == cn * b + cy,
    ;
    assert(ri * (vx * yi) == vx * (yi * ri)) by (nonlinear_arith);
    assert(ri * (vm * ti) == (ti * ri) * vm) by (nonlinear_arith);
    assert(vx * (vy + yi * ri) == vx * vy + vx * (yi * ri)) by (nonlinear_arith);
    assert((t + ti * ri) * vm == t * vm + (ti * ri) * vm) by (nonlinear_arith);
}

/// The closing step of a Montgomery multiplication: with or without the
/// conditional subtraction, the result is congruent to `x * y / R` and lies
/// below `x * y / R + m`.
pub proof fn lemma_monty_finish(
    u: nat,
    c: nat,
    r: nat,
    x: nat,
    y: nat,
    t: nat,
    m: nat,
    res: int,
    bw: nat,
)
    requires
        r * u + c * (r * r) == x * y + t * m,
        x < r,
        y < r,
        t < r,
        u < r,
        m > 0,
        c <= 1,
        bw <= 1,
        c == 0 ==> res == u,
        c == 1 ==> res == u - m + bw * r,
        0 <= res,
    ensures
        (res * r) % (m as int) == ((x * y) as int) % (m as int),
        res * r < x * y + r * m,
        reduces_with(x, y, m, r, t, res as nat),
{
    let q = u + c * r;
    assert((x * y + t * m) as int == q * r + 0) by (nonlinear_arith)
        requires
            r * u + c * (r * r) == x * y + t * m,
            q == u + c * r,
    ;
    lemma_fundamental_div_mod_converse(
        (x * y + t * m) as int,
        r as int,
        q as int,
        0,
    );
    if c == 0 {
        assert(0 * (r * r) == 0);
        assert(res * r == m * t + x * y) by (nonlinear_arith)
            requires
                r * u == x * y + t * m,
                res == u,
        ;
        lemma_mod_multiples_vanish(t as int, (x * y) as int, m as int);
        assert(t * m < r * m) by (nonlinear_arith)
            requires
                t < r,
                m > 0,
        ;
    } else {
        assert(x * y < r * r) by (nonlinear_arith)
            requires
                x < r,
                y < r,
        ;
        assert(t * m < r * m) by (nonlinear_arith)
            requires
                t < r,
                m > 0,
        ;
        assert(u < m) by (nonlinear_arith)
            requires
                r * u + 1 * (r * r) == x * y + t * m,
                x * y < r * r,
                t * m < r * m,
                r > 0,
        ;
        assert(bw == 1) by (nonlinear_arith)
            requires
                0 <= u - m + bw * r,
                u < m,
                bw <= 1,
                r > 0,
        ;
        assert(res * r == m * (t - r) + x * y) by (nonlinear_arith)
            requires
                r * u + 1 * (r * r) == x * y + t * m,
                res == u - m + r,
        ;
        lemma_mod_multiples_vanish(t - r, (x * y) as int, m as int);
        assert(m * (t - r) < 0) by (nonlinear_arith)
            requires
                t < r,
                m > 0,
        ;
        assert(r * m >= 0) by (nonlinear_arith);
    }
}

} // verus!
