//! Montgomery multiplication and fixed-window modular exponentiation.

use crate::big_digit::{BigDigit, BITS};
use crate::biguint::{pad_limbs, zero_limbs, BigUint};
use crate::limbs::{
    lemma_normalized_len, lemma_radix_adds, lemma_radix_pos, lemma_radix_succ, lemma_radix_zero,
    lemma_value_all_zero, lemma_value_bound, lemma_value_low_limb, lemma_value_push,
    lemma_value_split, limbs_value, radix,
};
use crate::modular::{
    is_monty_form, lemma_monty_enter, lemma_monty_leave, lemma_monty_product,
    lemma_odd_low_limb, lemma_odd_unit_mod_pow2, lemma_window_prefix_all,
    lemma_window_prefix_zero, lemma_window_step, modpow, window_prefix,
};
use crate::monty_proofs::{
    lemma_inverse_step, lemma_monty_finish, lemma_monty_round, lemma_square_low_zeros,
};
use crate::parallel::{add_mul_vvw, Strategy};
use crate::vector::sub_vv;
use core::ops::{Rem, Shl, Sub};
use vstd::arithmetic::div_mod::{
    lemma_fundamental_div_mod, lemma_mod_bound, lemma_mod_equivalence,
    lemma_mod_multiples_vanish, lemma_mod_sub_multiples_vanish, lemma_mod_twice,
    lemma_small_mod,
};
use vstd::arithmetic::power::{
    lemma_pow0, lemma_pow1, lemma_pow_adds, lemma_pow_mod_noop, pow,
};
use vstd::arithmetic::power2::{lemma2_to64, lemma_pow2_unfold, pow2};
use vstd::prelude::*;

verus! {

/// `k` is the Montgomery constant of a modulus whose lowest limb is `m0`:
/// `k * m0 ≡ -1 (mod 2^64)`.
pub open spec fn is_monty_constant(k: u64, m0: u64) -> bool {
    (k as nat * m0 as nat) % 0x1_0000_0000_0000_0000 == 0xffff_ffff_ffff_ffff
}

/// Montgomery reduction parameters of one modulus: `n0inv` is the negated
/// inverse of the modulus's lowest limb modulo `2^64`.
pub struct MontyReducer {
    pub n0inv: BigDigit,
}

/// The Montgomery constant of an odd limb `b`: the `k0` with
/// `k0 * b ≡ -1 (mod 2^64)`, found by six doublings of a two-bit seed.
pub fn inv_mod_alt(b: BigDigit) -> (k0: BigDigit)
    requires
        b % 2 == 1,
    ensures
        is_monty_constant(k0, b),
{
    let mut k0: BigDigit = (2 as BigDigit).wrapping_sub(b);
    let mut t: BigDigit = b - 1;
    let mut i: u64 = 1;
    let ghost mut e: nat = 0;
    proof {
        lemma2_to64();
        let m: int = 0x1_0000_0000_0000_0000;
        // k0 * b + t * t is 1 or 2^64 * b + 1.
        if b <= 2 {
            assert(b == 1);
            assert(k0 == 1 && t == 0);
            assert(k0 as nat * b as nat + t as nat * t as nat == 1) by (nonlinear_arith)
                requires
                    k0 == 1,
                    b == 1,
                    t == 0,
            ;
        } else {
            assert(k0 as nat * b as nat + t as nat * t as nat == m * b + 1) by (nonlinear_arith)
                requires
                    k0 == m + 2 - b,
                    t == b - 1,
                    b > 2,
                    m > 0,
            ;
            lemma_mod_multiples_vanish(b as int, 1, m);
        }
        assert(t as nat % 2 == 0);
        assert(pow2(1) == 2);
        assert(pow2(0) == 1);
    }
    while i < BITS
        invariant
            b % 2 == 1,
            i == pow2(e),
            e <= 6,
            i <= 64,
            t as nat % pow2(i as nat) == 0,
            (k0 as nat * b as nat + t as nat * t as nat) % 0x1_0000_0000_0000_0000 == 1,
        decreases 6 - e,
    {
        proof {
            lemma2_to64();
            if e >= 6 {
                assert(pow2(e) == 64);
            }
            lemma_pow2_unfold(e + 1);
            assert(i <= 32);
        }
        let t2: BigDigit = t.wrapping_mul(t);
        let s: BigDigit = t2.wrapping_add(1);
        let k2: BigDigit = k0.wrapping_mul(s);
        proof {
            lemma_inverse_step(k0 as nat, b as nat, t as nat, t2 as nat, s as nat, k2 as nat);
            lemma_square_low_zeros(t as nat, t2 as nat, i as nat);
            assert(i << 1 == 2 * i) by (bit_vector)
                requires
                    i <= 32,
            ;
            e = e + 1;
        }
        t = t2;
        k0 = k2;
        i <<= 1;
    }
    let r: BigDigit = (0 as BigDigit).wrapping_sub(k0);
    proof {
        lemma2_to64();
        let m: int = 0x1_0000_0000_0000_0000;
        assert(i == 64);
        assert(pow2(64) == 0x1_0000_0000_0000_0000);
        assert(t as nat % pow2(64) == 0);
        assert(t == 0);
        assert(t as nat * t as nat == 0);
        let x = (k0 as nat * b as nat) as int;
        let q = x / m;
        lemma_fundamental_div_mod(x, m);
        assert(k0 != 0) by (nonlinear_arith)
            requires
                (k0 as nat * b as nat) % 0x1_0000_0000_0000_0000 == 1,
        ;
        assert(r as nat * b as nat == m * (b - q - 1) + (m - 1)) by (nonlinear_arith)
            requires
                r == m - k0,
                x == k0 as nat * b as nat,
                x == m * q + 1,
        ;
        lemma_mod_multiples_vanish(b - q - 1, m - 1, m);
    }
    r
}

impl MontyReducer {
    /// Derives the reduction parameters from a modulus with an odd lowest limb.
    pub fn new(n: &BigUint) -> (r: Self)
        requires
            n@.len() >= 1,
            n@[0] % 2 == 1,
        ensures
            is_monty_constant(r.n0inv, n@[0]),
    {
        let n0inv: BigDigit = inv_mod_alt(n.data[0]);
        MontyReducer { n0inv }
    }
}

/// `z` is what Montgomery reduction of `x * y` yields with the multiplier
/// `t`: `x * y + t * m` is a multiple of `r`, and `z` is the quotient `u`,
/// less `m` where `u` does not fit below `r`.
pub open spec fn reduces_with(x: nat, y: nat, m: nat, r: nat, t: nat, z: nat) -> bool {
    let s = x * y + t * m;
    let u = s / r;
    &&& t < r
    &&& s % r == 0
    &&& z == if u < r {
        u as int
    } else {
        u - m
    }
}

/// `z` is the almost-Montgomery product of `x` and `y` modulo `m` for the
/// radix `2^(64 n)`: the outcome of Montgomery reduction with some multiplier.
pub open spec fn is_montgomery_of(x: nat, y: nat, m: nat, n: nat, z: nat) -> bool {
    exists|t: nat| #[trigger] reduces_with(x, y, m, radix(n), t, z)
}

/// Montgomery reduction has one outcome: modulo an odd `m` and for the radix
/// `2^(64 n)`, the multiplier that makes `x * y + t * m` a multiple of the
/// radix is unique, and with it the result. Any two results that meet the
/// contract of [`montgomery`] on the same operands are therefore equal,
/// whichever strategy produced them.
pub proof fn lemma_montgomery_unique(x: nat, y: nat, m: nat, n: nat, z1: nat, z2: nat)
    requires
        m % 2 == 1,
        is_montgomery_of(x, y, m, n, z1),
        is_montgomery_of(x, y, m, n, z2),
    ensures
        z1 == z2,
{
    let t1 = choose|t: nat| #[trigger] reduces_with(x, y, m, radix(n), t, z1);
    let t2 = choose|t: nat| #[trigger] reduces_with(x, y, m, radix(n), t, z2);
    let r = radix(n) as int;
    lemma_radix_pos(n);
    let s1 = (x * y + t1 * m) as int;
    let s2 = (x * y + t2 * m) as int;
    lemma_mod_equivalence(s1, s2, r);
    let d = t1 as int - t2 as int;
    assert(s1 - s2 == (m as int) * d) by (nonlinear_arith)
        requires
            s1 == x * y + t1 * m,
            s2 == x * y + t2 * m,
            d == t1 - t2,
    ;
    lemma_odd_unit_mod_pow2(m as int, d, 64 * n);
    if d != 0 {
        if d > 0 {
            lemma_small_mod(d as nat, r as nat);
        } else {
            lemma_mod_multiples_vanish(1, d, r);
            lemma_small_mod((r + d) as nat, r as nat);
        }
    }
}

/// Almost-Montgomery multiplication of two `n`-limb operands modulo the odd
/// `n`-limb modulus `m`, with `k` the Montgomery constant of `m`.
///
/// With `R = 2^(64 n)`, the result `z` has `n` limbs, satisfies
/// `z * R ≡ x * y (mod m)` (that is, `z ≡ x * y * R^(-1)`), and lies below
/// `x * y / R + m`; it need not be below `m`. It is the quotient
/// `(x * y + t * m) / R` for the one multiplier `t` that makes the sum a
/// multiple of `R`, less `m` where that quotient reaches `R`.
pub fn montgomery(x: &BigUint, y: &BigUint, m: &BigUint, k: BigDigit, n: usize) -> (z: BigUint)
    requires
        n >= 1,
        x@.len() == n,
        y@.len() == n,
        m@.len() == n,
        2 * n <= usize::MAX,
        is_monty_constant(k, m@[0]),
    ensures
        z@.len() == n,
        z.value() < radix(n as nat),
        (z.value() * radix(n as nat)) % m.value() == (x.value() * y.value()) % m.value(),
        z.value() * radix(n as nat) < x.value() * y.value() + radix(n as nat) * m.value(),
        is_montgomery_of(x.value(), y.value(), m.value(), n as nat, z.value()),
{
    montgomery_with(x, y, m, k, n, Strategy::Sequential)
}

/// Almost-Montgomery multiplication as [`montgomery`] does it, with the
/// multiply-accumulate strategy named by the caller. The result does not
/// depend on the strategy.
pub fn montgomery_with(
    x: &BigUint,
    y: &BigUint,
    m: &BigUint,
    k: BigDigit,
    n: usize,
    strategy: Strategy,
) -> (z: BigUint)
    requires
        n >= 1,
        x@.len() == n,
        y@.len() == n,
        m@.len() == n,
        2 * n <= usize::MAX,
        is_monty_constant(k, m@[0]),
    ensures
        z@.len() == n,
        z.value() < radix(n as nat),
        (z.value() * radix(n as nat)) % m.value() == (x.value() * y.value()) % m.value(),
        z.value() * radix(n as nat) < x.value() * y.value() + radix(n as nat) * m.value(),
        is_montgomery_of(x.value(), y.value(), m.value(), n as nat, z.value()),
{
    let mut z = BigUint { data: zero_limbs(n * 2) };
    let mut c: BigDigit = 0;
    let ghost mut t: nat = 0;
    let mut i: usize = 0;
    proof {
        lemma_value_all_zero(z.data@);
        lemma_radix_zero();
        assert(y@.take(0) =~= Seq::<u64>::empty());
        assert(limbs_value(Seq::<u64>::empty()) == 0);
        assert(limbs_value(x@) * 0 == 0) by (nonlinear_arith);
        assert(0 * limbs_value(m@) == 0);
        assert(0 * radix(n as nat) == 0);
    }
    while i < n
        invariant
            n >= 1,
            i <= n,
            x@.len() == n,
            y@.len() == n,
            m@.len() == n,
            2 * n <= usize::MAX,
            z.data@.len() == 2 * n,
            is_monty_constant(k, m@[0]),
            c <= 1,
            t < radix(i as nat),
            forall|p: int| 0 <= p < i ==> z.data@[p] == 0,
            forall|p: int| n + i <= p < 2 * n ==> z.data@[p] == 0,
            limbs_value(z.data@) + c * radix((n + i) as nat) == limbs_value(x@) * limbs_value(
                y@.take(i as int),
            ) + t * limbs_value(m@),
        decreases n - i,
    {
        let ghost z0 = z.data@;
        let yi: BigDigit = y.data[i];
        let c2: BigDigit = add_mul_vvw(&mut z.data, i, x.data.as_slice(), yi, strategy);
        let ghost z1 = z.data@;
        let ti: BigDigit = z.data[i].wrapping_mul(k);
        let c3: BigDigit = add_mul_vvw(&mut z.data, i, m.data.as_slice(), ti, strategy);
        let ghost z2 = z.data@;
        let cx: BigDigit = c.wrapping_add(c2);
        let cy: BigDigit = cx.wrapping_add(c3);
        z.data[n + i] = cy;
        let cn: BigDigit = if cx < c2 || cy < c3 { 1 } else { 0 };
        proof {
            lemma_monty_round(
                z0, z1, z2, z.data@, x@, m@, yi, k, ti, c, c2, c3, cy, cn, i as int, n as int,
                limbs_value(y@.take(i as int)), t,
            );
            assert(y@.take(i + 1) =~= y@.take(i as int).push(yi));
            lemma_value_push(y@.take(i as int), yi);
            lemma_radix_succ(i as nat);
            let ri = radix(i as nat);
            assert(t + ti * ri < ri * 0x1_0000_0000_0000_0000) by (nonlinear_arith)
                requires
                    t < ri,
                    ti < 0x1_0000_0000_0000_0000,
            ;
            t = t + ti as nat * ri;
        }
        c = cn;
        i += 1;
    }
    let ghost full = z.data@;
    let upper = z.data.split_off(n);
    let mut borrow: BigDigit = 0;
    if c != 0 {
        borrow = sub_vv(&mut z.data, upper.as_slice(), m.data.as_slice());
    } else {
        z.data = upper;
    }
    proof {
        let rn = radix(n as nat);
        assert(y@.take(n as int) =~= y@);
        assert(upper@ =~= full.skip(n as int));
        assert(upper@.take(n as int) =~= upper@);
        assert(m@.take(n as int) =~= m@);
        assert(z.data@.take(n as int) =~= z.data@);
        lemma_value_split(full, n as int);
        lemma_value_all_zero(full.take(n as int));
        lemma_radix_adds(n as nat, n as nat);
        lemma_radix_pos(n as nat);
        lemma_value_bound(x@);
        lemma_value_bound(y@);
        lemma_value_bound(upper@);
        lemma_value_low_limb(m@);
        assert(m@[0] != 0) by (nonlinear_arith)
            requires
                (k as nat * m@[0] as nat) % 0x1_0000_0000_0000_0000 == 0xffff_ffff_ffff_ffff,
        ;
        assert(0x1_0000_0000_0000_0000 * limbs_value(m@.skip(1)) >= 0);
        lemma_monty_finish(
            limbs_value(upper@),
            c as nat,
            rn,
            limbs_value(x@),
            limbs_value(y@),
            t,
            limbs_value(m@),
            limbs_value(z.data@) as int,
            borrow as nat,
        );
        lemma_value_bound(z.data@);
    }
    z
}

/// The Montgomery form of every table entry: entry `t` is the form of `b^t`.
pub open spec fn is_power_table(powers: Seq<BigUint>, b: nat, n: nat, m: nat) -> bool {
    forall|t: int|
        0 <= t < powers.len() ==> (#[trigger] powers[t])@.len() == n && is_monty_form(
            powers[t].value(),
            pow(b as int, t as nat),
            radix(n),
            m,
        )
}

/// How the table is made: its first two entries are the products of `one`
/// and of `x` with `rr`, and every further entry is the product of its
/// predecessor with the second entry.
pub open spec fn is_product_chain(
    powers: Seq<BigUint>,
    one: nat,
    x: nat,
    rr: nat,
    n: nat,
    m: nat,
) -> bool {
    &&& powers.len() >= 2
    &&& is_montgomery_of(one, rr, m, n, powers[0].value())
    &&& is_montgomery_of(x, rr, m, n, powers[1].value())
    &&& forall|t: int|
        2 <= t < powers.len() ==> is_montgomery_of(
            powers[t - 1].value(),
            powers[1].value(),
            m,
            n,
            (#[trigger] powers[t]).value(),
        )
}

/// `x^y mod m` for an odd modulus `m`, by Montgomery multiplication with a
/// fixed four-bit window, the multiply-accumulate strategy being the
/// sequential one. The result is in normalized form.
pub fn monty_modpow(x: &BigUint, y: &BigUint, m: &BigUint) -> (r: BigUint)
    requires
        m@.len() >= 1,
        m@[0] % 2 == 1,
        128 * m@.len() + 2 <= usize::MAX,
        64 * y@.len() <= u64::MAX,
    ensures
        r.value() == modpow(x.value(), y.value(), m.value()),
        r.is_canonical(),
{
    monty_modpow_with(x, y, m, Strategy::Sequential)
}

/// The base of an exponentiation modulo `m`, at the modulus's length: `x`
/// itself with zero limbs appended, or `x mod m` where `x` has more limbs
/// than the modulus.
pub fn reduce_base(x: &BigUint, m: &BigUint) -> (r: BigUint)
    requires
        m.value() > 0,
    ensures
        r@.len() == m@.len(),
        r.value() == (if x@.len() > m@.len() {
            x.value() % m.value()
        } else {
            x.value()
        }),
        r.value() % m.value() == x.value() % m.value(),
{
    let num_words: usize = m.data.len();
    let mut r = x.clone();
    if r.data.len() > num_words {
        r = r.rem(m);
        proof {
            lemma_value_bound(m@);
            lemma_mod_bound(x.value() as int, m.value() as int);
            lemma_mod_twice(x.value() as int, m.value() as int);
            assert(num_words >= 1) by {
                if num_words == 0 {
                    assert(m@ =~= Seq::<u64>::empty());
                }
            }
            lemma_normalized_len(r@, num_words as nat);
        }
    }
    pad_limbs(&mut r.data, num_words);
    r
}

/// `R^2 mod m` for the radix `R = 2^(64 n)` of an `n`-limb modulus, at the
/// modulus's length: the value that takes a number into Montgomery form.
pub fn radix_squared(m: &BigUint) -> (rr: BigUint)
    requires
        m.value() > 0,
        128 * m@.len() + 2 <= usize::MAX,
    ensures
        rr@.len() == m@.len(),
        rr.value() == (radix(m@.len()) * radix(m@.len())) % m.value(),
{
    let num_words: usize = m.data.len();
    let shift: u64 = 2 * num_words as u64 * BITS;
    let mut rr = BigUint::one();
    rr = rr.shl(shift).rem(m);
    proof {
        let rad = radix(num_words as nat);
        lemma_radix_adds(num_words as nat, num_words as nat);
        assert(shift as nat == 64 * (num_words as nat + num_words as nat));
        assert(1 * pow2(shift as nat) == rad * rad);
        lemma_value_bound(m@);
        lemma_mod_bound((rad * rad) as int, m.value() as int);
        assert(num_words >= 1) by {
            if num_words == 0 {
                assert(m@ =~= Seq::<u64>::empty());
            }
        }
        lemma_normalized_len(rr@, num_words as nat);
    }
    pad_limbs(&mut rr.data, num_words);
    rr
}

/// The table of the sixteen powers `x^0 .. x^15` in Montgomery form, built
/// from `one = 1` and `rr = R^2 mod m`: the first two entries by
/// multiplication with `rr`, each further one from its predecessor.
pub fn power_table(
    x: &BigUint,
    rr: &BigUint,
    one: &BigUint,
    m: &BigUint,
    k: BigDigit,
    strategy: Strategy,
) -> (powers: Vec<BigUint>)
    requires
        m@.len() >= 1,
        2 * m@.len() <= usize::MAX,
        x@.len() == m@.len(),
        rr@.len() == m@.len(),
        one@.len() == m@.len(),
        is_monty_constant(k, m@[0]),
        one.value() == 1,
        rr.value() % m.value() == (radix(m@.len()) * radix(m@.len())) % m.value(),
    ensures
        powers@.len() == 16,
        is_power_table(powers@, x.value(), m@.len(), m.value()),
        is_product_chain(powers@, one.value(), x.value(), rr.value(), m@.len(), m.value()),
{
    let num_words: usize = m.data.len();
    let ghost mv = m.value();
    let ghost xv = x.value();
    let mut powers: Vec<BigUint> = Vec::with_capacity(16);
    let first = montgomery_with(one, rr, m, k, num_words, strategy);
    let second = montgomery_with(x, rr, m, k, num_words, strategy);
    proof {
        lemma_odd_constant(k, m@);
        lemma_monty_enter(first.value(), 1, rr.value(), num_words as nat, mv);
        lemma_monty_enter(second.value(), xv, rr.value(), num_words as nat, mv);
        lemma_pow0(xv as int);
        lemma_pow1(xv as int);
    }
    powers.push(first);
    powers.push(second);
    let mut i: usize = 2;
    while i < 16
        invariant
            2 <= i <= 16,
            powers@.len() == i,
            num_words == m@.len(),
            num_words >= 1,
            2 * num_words <= usize::MAX,
            mv == m.value(),
            mv % 2 == 1,
            xv == x.value(),
            is_monty_constant(k, m@[0]),
            is_power_table(powers@, xv, num_words as nat, mv),
            is_product_chain(powers@, one.value(), xv, rr.value(), num_words as nat, mv),
        decreases 16 - i,
    {
        let r = montgomery_with(&powers[i - 1], &powers[1], m, k, num_words, strategy);
        proof {
            lemma_monty_product(
                r.value(),
                powers@[i - 1].value(),
                powers@[1].value(),
                pow(xv as int, (i - 1) as nat),
                pow(xv as int, 1),
                num_words as nat,
                mv,
            );
            lemma_pow_adds(xv as int, (i - 1) as nat, 1);
        }
        let ghost before = powers@;
        powers.push(r);
        proof {
            assert forall|t: int| 0 <= t < powers@.len() implies (#[trigger] powers@[t])@.len()
                == num_words && is_monty_form(
                powers@[t].value(),
                pow(xv as int, t as nat),
                radix(num_words as nat),
                mv,
            ) by {
                if t < i {
                    assert(powers@[t] == before[t]);
                }
            }
            assert forall|t: int| 2 <= t < powers@.len() implies is_montgomery_of(
                powers@[t - 1].value(),
                powers@[1].value(),
                mv,
                num_words as nat,
                (#[trigger] powers@[t]).value(),
            ) by {
                assert(powers@[t - 1] == before[t - 1]);
                assert(powers@[1] == before[1]);
                if t < i {
                    assert(powers@[t] == before[t]);
                }
            }
            assert(powers@[0] == before[0]);
        }
        i += 1;
    }
    powers
}

/// The number of four-bit windows that cover `bits` bits.
pub fn window_count(bits: u64) -> (windows: u64)
    ensures
        bits <= 4 * windows < bits + 4,
{
    bits / 4 + (if bits % 4 != 0 { 1u64 } else { 0u64 })
}

/// Window `w` of the exponent `y`: bits `4 w .. 4 w + 3`, read from limb `w / 16`.
pub fn window_digit(y: &BigUint, w: u64) -> (digit: usize)
    requires
        w / 16 < y@.len(),
    ensures
        digit < 16,
        window_prefix(y.value(), w as nat) == 16 * window_prefix(y.value(), (w + 1) as nat)
            + digit,
{
    let limbs: usize = y.data.len();
    let limb: u64 = y.data[(w / 16) as usize];
    let shift: u64 = 4 * (w % 16);
    let digit: u64 = (limb >> shift) & 0xf;
    proof {
        lemma_window_step(y@, w as nat);
        assert(limb == y@[(w as nat / 16) as int]);
        assert(shift == (4 * (w as nat % 16)) as u64);
    }
    digit as usize
}

/// The sweep over the exponent `y`, four bits at a time from the top: four
/// squarings for every window but the first, then one multiplication by the
/// table entry that the window names. Given the table of the powers of
/// `base`, the result is the Montgomery form of `base^y`.
fn window_sweep(
    powers: &Vec<BigUint>,
    y: &BigUint,
    m: &BigUint,
    k: BigDigit,
    strategy: Strategy,
    Ghost(base): Ghost<nat>,
) -> (z: BigUint)
    requires
        m@.len() >= 1,
        2 * m@.len() <= usize::MAX,
        64 * y@.len() <= u64::MAX,
        is_monty_constant(k, m@[0]),
        powers@.len() == 16,
        is_power_table(powers@, base, m@.len(), m.value()),
    ensures
        z@.len() == m@.len(),
        is_monty_form(z.value(), pow(base as int, y.value()), radix(m@.len()), m.value()),
{
    let num_words: usize = m.data.len();
    let ghost mv = m.value();
    let ghost yv = y.value();
    let ghost b = base as int;
    let total_bits: u64 = y.bit_length();
    let windows: u64 = window_count(total_bits);
    let limbs: usize = y.data.len();
    let mut z = powers[0].clone();
    let mut w: u64 = windows;
    proof {
        lemma_odd_constant(k, m@);
        lemma_window_prefix_zero(yv, total_bits as nat, windows as nat);
    }
    while w > 0
        invariant
            w <= windows,
            limbs == y@.len(),
            windows <= 16 * limbs,
            yv == y.value(),
            b == base as int,
            total_bits <= 4 * windows,
            yv < pow2(total_bits as nat),
            powers@.len() == 16,
            num_words == m@.len(),
            num_words >= 1,
            2 * num_words <= usize::MAX,
            mv == m.value(),
            mv % 2 == 1,
            is_monty_constant(k, m@[0]),
            is_power_table(powers@, base, num_words as nat, mv),
            z@.len() == num_words,
            is_monty_form(
                z.value(),
                pow(b, window_prefix(yv, w as nat)),
                radix(num_words as nat),
                mv,
            ),
        decreases w,
    {
        let ghost e = window_prefix(yv, w as nat);
        if w != windows {
            let z2 = montgomery_with(&z, &z, m, k, num_words, strategy);
            let z4 = montgomery_with(&z2, &z2, m, k, num_words, strategy);
            let z8 = montgomery_with(&z4, &z4, m, k, num_words, strategy);
            let z16 = montgomery_with(&z8, &z8, m, k, num_words, strategy);
            proof {
                let n = num_words as nat;
                lemma_monty_product(z2.value(), z.value(), z.value(), pow(b, e), pow(b, e), n, mv);
                lemma_pow_adds(b, e, e);
                lemma_monty_product(
                    z4.value(), z2.value(), z2.value(), pow(b, 2 * e), pow(b, 2 * e), n, mv,
                );
                lemma_pow_adds(b, 2 * e, 2 * e);
                lemma_monty_product(
                    z8.value(), z4.value(), z4.value(), pow(b, 4 * e), pow(b, 4 * e), n, mv,
                );
                lemma_pow_adds(b, 4 * e, 4 * e);
                lemma_monty_product(
                    z16.value(), z8.value(), z8.value(), pow(b, 8 * e), pow(b, 8 * e), n, mv,
                );
                lemma_pow_adds(b, 8 * e, 8 * e);
            }
            z = z16;
        } else {
            proof {
                // Nothing lies above the first window: the accumulator is the form of 1.
                lemma_window_prefix_zero(yv, total_bits as nat, windows as nat);
                assert(16 * e == e);
            }
        }
        w -= 1;
        assert(w / 16 < limbs);
        let idx: usize = window_digit(y, w);
        let zn = montgomery_with(&z, &powers[idx], m, k, num_words, strategy);
        proof {
            lemma_monty_product(
                zn.value(),
                z.value(),
                powers@[idx as int].value(),
                pow(b, 16 * e),
                pow(b, idx as nat),
                num_words as nat,
                mv,
            );
            lemma_pow_adds(b, 16 * e, idx as nat);
        }
        z = zn;
    }
    proof {
        lemma_window_prefix_all(yv);
    }
    z
}

/// `x^y mod m` as [`monty_modpow`] computes it, with the multiply-accumulate
/// strategy named by the caller. The result does not depend on the strategy.
pub fn monty_modpow_with(x: &BigUint, y: &BigUint, m: &BigUint, strategy: Strategy) -> (r: BigUint)
    requires
        m@.len() >= 1,
        m@[0] % 2 == 1,
        128 * m@.len() + 2 <= usize::MAX,
        64 * y@.len() <= u64::MAX,
    ensures
        r.value() == modpow(x.value(), y.value(), m.value()),
        r.is_canonical(),
{
    let mr = MontyReducer::new(m);
    let num_words: usize = m.data.len();
    let ghost mv = m.value();
    proof {
        lemma_odd_low_limb(m@);
    }
    // Setup: the base, R^2 mod m and 1, all at the modulus's length.
    let base = reduce_base(x, m);
    let rr = radix_squared(m);
    let mut one = BigUint::one();
    pad_limbs(&mut one.data, num_words);
    proof {
        lemma_mod_twice((radix(num_words as nat) * radix(num_words as nat)) as int, mv as int);
        lemma_pow_mod_noop(base.value() as int, y.value(), mv as int);
        lemma_pow_mod_noop(x.value() as int, y.value(), mv as int);
    }
    // Table, then the sweep over the exponent.
    let powers = power_table(&base, &rr, &one, m, mr.n0inv, strategy);
    let z = window_sweep(&powers, y, m, mr.n0inv, strategy, Ghost(base.value()));
    // Finalize: leave Montgomery form and reduce below the modulus.
    let mut zz = montgomery_with(&z, &one, m, mr.n0inv, num_words, strategy);
    proof {
        lemma_monty_leave(
            zz.value(),
            z.value(),
            pow(base.value() as int, y.value()),
            num_words as nat,
            mv,
        );
    }
    zz.normalize();
    let ghost v0 = zz.value();
    if zz.ge(m) {
        zz = zz.sub(m);
        proof {
            lemma_mod_sub_multiples_vanish(v0 as int, mv as int);
        }
        if zz.ge(m) {
            zz = zz.rem(m);
            proof {
                lemma_mod_twice(v0 as int - mv as int, mv as int);
            }
        }
    }
    proof {
        lemma_small_mod(zz.value(), mv);
    }
    zz.normalize();
    zz
}

/// A modulus that has a Montgomery constant is odd.
proof fn lemma_odd_constant(k: u64, m: Seq<u64>)
    requires
        m.len() >= 1,
        is_monty_constant(k, m[0]),
    ensures
        limbs_value(m) % 2 == 1,
        limbs_value(m) > 0,
{
    let m0 = m[0] as nat;
    let p = (k as nat * m0) as int;
    let q = p / 0x1_0000_0000_0000_0000;
    lemma_fundamental_div_mod(p, 0x1_0000_0000_0000_0000);
    if m0 % 2 == 0 {
        let h = m0 / 2;
        let kh = k as nat * h;
        assert(p == 2 * kh) by (nonlinear_arith)
            requires
                p == k as nat * m0,
                m0 == 2 * h,
                kh == k as nat * h,
        ;
    }
    lemma_odd_low_limb(m);
}

} // verus!
