//! Congruences modulo an odd number, Montgomery form, and the way an exponent
//! falls apart into four-bit windows.

use crate::limbs::{
    lemma_radix_pos, lemma_value_bound, lemma_value_low_limb, lemma_value_split, limbs_value,
    radix,
};
use vstd::arithmetic::div_mod::{
    lemma_div_denominator, lemma_fundamental_div_mod, lemma_fundamental_div_mod_converse,
    lemma_hoist_over_denominator, lemma_mod_equivalence, lemma_mod_multiples_vanish,
    lemma_mul_mod_noop_general, lemma_small_mod,
};
use vstd::arithmetic::power::{lemma_pow0, lemma_pow_mod_noop, pow};
use vstd::arithmetic::power2::{
    lemma2_to64, lemma_pow2_adds, lemma_pow2_pos, lemma_pow2_unfold, pow2,
};
use vstd::bits::lemma_u64_shr_is_div;
use vstd::prelude::*;

verus! {

/// `base` to the power `exponent`, reduced modulo `modulus`.
pub open spec fn modpow(base: nat, exponent: nat, modulus: nat) -> nat {
    (pow(base as int, exponent) % (modulus as int)) as nat
}

/// `z` is the Montgomery form of `v` for the radix `r` and the modulus `m`:
/// `z ≡ v * r (mod m)`.
pub open spec fn is_monty_form(z: nat, v: int, r: nat, m: nat) -> bool {
    (z as int) % (m as int) == (v * r) % (m as int)
}

/// The exponent `e` with its lowest `w` four-bit windows dropped.
pub open spec fn window_prefix(e: nat, w: nat) -> nat {
    e / pow2(4 * w)
}

/// Modulo an odd number a factor of two can be cancelled.
pub proof fn lemma_odd_cancels_two(a: int, b: int, m: int)
    requires
        m > 0,
        m % 2 == 1,
        (2 * a) % m == (2 * b) % m,
    ensures
        a % m == b % m,
{
    let d = a - b;
    lemma_mod_equivalence(2 * a, 2 * b, m);
    let q = (2 * d) / m;
    lemma_fundamental_div_mod(2 * d, m);
    let h = m / 2;
    let j = d - h * q;
    assert(d == m * j) by (nonlinear_arith)
        requires
            2 * d == m * q,
            m == 2 * h + 1,
            j == d - h * q,
    ;
    lemma_mod_multiples_vanish(j, 0, m);
    lemma_mod_equivalence(a, b, m);
}

/// Modulo an odd number a power of two can be cancelled.
pub proof fn lemma_odd_cancels_pow2(a: int, b: int, e: nat, m: int)
    requires
        m > 0,
        m % 2 == 1,
        (a * pow2(e)) % m == (b * pow2(e)) % m,
    ensures
        a % m == b % m,
    decreases e,
{
    if e == 0 {
        lemma2_to64();
        let p0 = pow2(0);
        assert(p0 == 1);
        assert(a * p0 == a && b * p0 == b) by (nonlinear_arith)
            requires
                p0 == 1,
        ;
    } else {
        lemma_pow2_unfold(e);
        let p = pow2((e - 1) as nat);
        assert(a * (2 * p) == 2 * (a * p)) by (nonlinear_arith);
        assert(b * (2 * p) == 2 * (b * p)) by (nonlinear_arith);
        lemma_odd_cancels_two(a * p, b * p, m);
        lemma_odd_cancels_pow2(a, b, (e - 1) as nat, m);
    }
}

/// An odd number is a unit modulo a power of two: where `m * d` is a
/// multiple of `2^k`, so is `d`.
pub proof fn lemma_odd_unit_mod_pow2(m: int, d: int, k: nat)
    requires
        m % 2 == 1,
        (m * d) % (pow2(k) as int) == 0,
    ensures
        d % (pow2(k) as int) == 0,
    decreases k,
{
    lemma2_to64();
    if k == 0 {
        assert(pow2(0) == 1);
    } else {
        lemma_pow2_unfold(k);
        lemma_pow2_pos((k - 1) as nat);
        let p = pow2((k - 1) as nat) as int;
        let q = (m * d) / (2 * p);
        lemma_fundamental_div_mod(m * d, 2 * p);
        let h = m / 2;
        let hd = h * d;
        let pq = p * q;
        let half = pq - hd;
        assert(d == 2 * half) by (nonlinear_arith)
            requires
                m * d == (2 * p) * q,
                m == 2 * h + 1,
                hd == h * d,
                pq == p * q,
                half == pq - hd,
        ;
        assert(m * half == p * q) by (nonlinear_arith)
            requires
                m * d == (2 * p) * q,
                d == 2 * half,
        ;
        lemma_mod_multiples_vanish(q, 0, p);
        lemma_odd_unit_mod_pow2(m, half, (k - 1) as nat);
        let j = half / p;
        lemma_fundamental_div_mod(half, p);
        assert(d == (2 * p) * j) by (nonlinear_arith)
            requires
                d == 2 * half,
                half == p * j,
        ;
        lemma_mod_multiples_vanish(j, 0, 2 * p);
    }
}

/// A number whose lowest limb is odd is odd.
pub proof fn lemma_odd_low_limb(s: Seq<u64>)
    requires
        s.len() >= 1,
        s[0] % 2 == 1,
    ensures
        limbs_value(s) % 2 == 1,
        limbs_value(s) > 0,
{
    lemma_value_low_limb(s);
}

/// What a Montgomery multiplication does to Montgomery forms: from
/// `z * r ≡ za * zb` with `za`, `zb` the forms of `a`, `b`, the result `z`
/// is the form of `a * b`.
pub proof fn lemma_monty_product(z: nat, za: nat, zb: nat, a: int, b: int, n: nat, m: nat)
    requires
        m % 2 == 1,
        (z * radix(n)) % m == (za * zb) % m,
        is_monty_form(za, a, radix(n), m),
        is_monty_form(zb, b, radix(n), m),
    ensures
        is_monty_form(z, a * b, radix(n), m),
{
    let r = radix(n) as int;
    let mi = m as int;
    lemma_mul_mod_noop_general(za as int, zb as int, mi);
    lemma_mul_mod_noop_general(a * r, b * r, mi);
    assert((a * r) * (b * r) == ((a * b) * r) * r) by (nonlinear_arith);
    assert(((z as int) * r) % mi == (((a * b) * r) * r) % mi);
    lemma_odd_cancels_pow2(z as int, (a * b) * r, 64 * n, mi);
    lemma_small_mod(0, m);
}

/// Leaving Montgomery form: from `z * r ≡ za * 1` with `za` the form of `a`,
/// the result `z` is congruent to `a` itself.
pub proof fn lemma_monty_leave(z: nat, za: nat, a: int, n: nat, m: nat)
    requires
        m % 2 == 1,
        (z * radix(n)) % m == (za * 1) % m,
        is_monty_form(za, a, radix(n), m),
    ensures
        (z as int) % (m as int) == a % (m as int),
{
    let r = radix(n) as int;
    let mi = m as int;
    assert(za * 1 == za);
    lemma_odd_cancels_pow2(z as int, a, 64 * n, mi);
}

/// Entering Montgomery form: from `z * r ≡ v * rr` with `rr ≡ r * r`, the
/// result `z` is the form of `v`.
pub proof fn lemma_monty_enter(z: nat, v: nat, rr: nat, n: nat, m: nat)
    requires
        m % 2 == 1,
        (z * radix(n)) % m == (v * rr) % m,
        rr % m == (radix(n) * radix(n)) % m,
    ensures
        is_monty_form(z, v as int, radix(n), m),
{
    let r = radix(n) as int;
    let mi = m as int;
    lemma_mul_mod_noop_general(v as int, rr as int, mi);
    lemma_mul_mod_noop_general(v as int, r * r, mi);
    assert(v * (r * r) == (v * r) * r) by (nonlinear_arith);
    lemma_odd_cancels_pow2(z as int, v * r, 64 * n, mi);
}

/// Reading window `w` of the exponent held in `s`: the exponent with `w`
/// windows dropped is sixteen times the exponent with `w + 1` windows
/// dropped, plus the four bits at bit `4 (w mod 16)` of limb `w / 16`.
pub proof fn lemma_window_step(s: Seq<u64>, w: nat)
    requires
        w / 16 < s.len(),
    ensures
        ((s[(w / 16) as int] >> ((4 * (w % 16)) as u64)) & 15) < 16,
        window_prefix(limbs_value(s), w) == 16 * window_prefix(limbs_value(s), w + 1) + ((s[(w
            / 16) as int] >> ((4 * (w % 16)) as u64)) & 15),
{
    let q = w / 16;
    let sh: u64 = (4 * (w % 16)) as u64;
    let y = limbs_value(s);
    let limb = s[q as int];
    let rq = radix(q);
    let low = limbs_value(s.take(q as int));
    let up = s.skip(q as int);
    let hi = limbs_value(up.skip(1));
    lemma2_to64();
    lemma_value_split(s, q as int);
    lemma_value_bound(s.take(q as int));
    lemma_value_low_limb(up);
    lemma_radix_pos(q);
    let u = limb as nat + 0x1_0000_0000_0000_0000 * hi;
    assert(y == u * rq + low) by (nonlinear_arith)
        requires
            y == low + rq * u,
    ;
    lemma_fundamental_div_mod_converse(y as int, rq as int, u as int, low as int);
    let ps = pow2(sh as nat);
    lemma_pow2_pos(sh as nat);
    lemma_pow2_adds(64 * q, sh as nat);
    assert(4 * w == 64 * q + sh);
    lemma_div_denominator(y as int, rq as int, ps as int);
    assert(window_prefix(y, w) == u / ps);
    // u = limb + 2^sh * (16 * k)
    let rest = (60 - sh) as nat;
    lemma_pow2_adds(sh as nat, 4);
    lemma_pow2_adds((sh + 4) as nat, rest);
    let k = pow2(rest) * hi;
    assert(0x1_0000_0000_0000_0000 * hi == (16 * k) * ps) by (nonlinear_arith)
        requires
            0x1_0000_0000_0000_0000 == (ps * 16) * pow2(rest),
            k == pow2(rest) * hi,
    ;
    lemma_hoist_over_denominator(limb as int, (16 * k) as int, ps);
    let t = limb as nat / ps;
    assert(u / ps == t + 16 * k);
    lemma_mod_multiples_vanish(k as int, t as int, 16);
    lemma_u64_shr_is_div(limb, sh);
    let x = limb >> sh;
    assert(x & 15 == x % 16) by (bit_vector);
    // the prefix one window further up
    lemma_pow2_pos(4 * w);
    lemma_pow2_adds(4 * w, 4);
    lemma_div_denominator(y as int, pow2(4 * w) as int, 16);
    assert(4 * (w + 1) == 4 * w + 4);
    lemma_fundamental_div_mod(window_prefix(y, w) as int, 16);
}

/// Below `2^(4 w)` no window is left above window `w`.
pub proof fn lemma_window_prefix_zero(e: nat, bits: nat, w: nat)
    requires
        e < pow2(bits),
        bits <= 4 * w,
    ensures
        window_prefix(e, w) == 0,
{
    if bits < 4 * w {
        vstd::arithmetic::power2::lemma_pow2_strictly_increases(bits, 4 * w);
    }
    vstd::arithmetic::div_mod::lemma_basic_div(e as int, pow2(4 * w) as int);
}

/// Nothing is dropped by dropping no window.
pub proof fn lemma_window_prefix_all(e: nat)
    ensures
        window_prefix(e, 0) == e,
{
    lemma2_to64();
    assert(pow2(0) == 1);
    assert(4 * 0nat == 0);
    assert(e / 1 == e);
}

/// A base may be replaced by its residue: `(b mod m)^e ≡ b^e (mod m)`.
pub proof fn lemma_modpow_base_residue(b: nat, e: nat, m: nat)
    requires
        m > 0,
    ensures
        modpow(b % m, e, m) == modpow(b, e, m),
{
    lemma_pow_mod_noop(b as int, e, m as int);
}

/// The power with exponent zero is `1 mod m`: 1 for a modulus above 1, and 0
/// for the modulus 1.
pub proof fn lemma_modpow_zero_exponent(b: nat, m: nat)
    requires
        m > 0,
    ensures
        modpow(b, 0, m) == 1nat % m,
        m == 1 ==> modpow(b, 0, m) == 0,
        m > 1 ==> modpow(b, 0, m) == 1,
{
    lemma_pow0(b as int);
    if m > 1 {
        lemma_small_mod(1, m);
    }
}

} // verus!
