//! Single-limb building blocks: add with carry, subtract with borrow, and
//! multiply-add into a double-width result.

use crate::big_digit::{BigDigit, DoubleBigDigit, BITS};
use vstd::prelude::*;

verus! {

/// The limb base `2^64`.
pub open spec fn base() -> int {
    0x1_0000_0000_0000_0000
}

/// Adds two limbs and a carry-in. Returns `(carry, sum)`: `sum` is the total
/// modulo `2^64`, and `carry` is 1 exactly when the total does not fit in a limb.
pub fn add_ww(x: BigDigit, y: BigDigit, c: BigDigit) -> (r: (BigDigit, BigDigit))
    ensures
        r.1 == (x + y + c) % base(),
        r.0 == (if x + y + c >= base() { 1u64 } else { 0u64 }),
        c <= 1 ==> r.0 * base() + r.1 == x + y + c,
{
    let yc: BigDigit = y.wrapping_add(c);
    let z0: BigDigit = x.wrapping_add(yc);
    let z1: BigDigit = if z0 < x || yc < y { 1 } else { 0 };
    (z1, z0)
}

/// Subtracts `y` and a borrow-in from `x`. Returns `(borrow, difference)`:
/// the difference is taken modulo `2^64`, and for a borrow-in of 0 or 1 the
/// borrow-out is 1 exactly when `x < y + b`.
pub fn sub_ww(x: BigDigit, y: BigDigit, b: BigDigit) -> (r: (BigDigit, BigDigit))
    ensures
        r.1 == (x - y - b) % base(),
        r.0 <= 1,
        b <= 1 ==> r.0 == (if x < y + b { 1u64 } else { 0u64 }),
        b <= 1 ==> r.1 - r.0 * base() == x - y - b,
{
    let z: BigDigit = x.wrapping_sub(y).wrapping_sub(b);
    let out: BigDigit = ((y & !x) | ((y | !x) & z)) >> (BITS - 1);
    assert(out <= 1) by (bit_vector)
        requires
            out == ((y & !x) | ((y | !x) & z)) >> 63,
    ;
    assert(b <= 1 ==> out == (if x < y + b { 1u64 } else { 0u64 })) by (bit_vector)
        requires
            z == x.wrapping_sub(y).wrapping_sub(b),
            out == ((y & !x) | ((y | !x) & z)) >> 63,
    ;
    (out, z)
}

/// Computes `x * y + c` in double width. Returns `(high, low)` limbs of the result.
pub fn mul_add_www(x: BigDigit, y: BigDigit, c: BigDigit) -> (r: (BigDigit, BigDigit))
    ensures
        r.0 * base() + r.1 == x * y + c,
{
    assert(x * y <= 0xffff_ffff_ffff_ffff * 0xffff_ffff_ffff_ffff) by (nonlinear_arith)
        requires
            x <= 0xffff_ffff_ffff_ffff,
            y <= 0xffff_ffff_ffff_ffff,
    ;
    let z: DoubleBigDigit = x as DoubleBigDigit * y as DoubleBigDigit + c as DoubleBigDigit;
    let hi: BigDigit = (z >> BITS) as BigDigit;
    let lo: BigDigit = #[verifier::truncate] (z as BigDigit);
    assert(hi == z / 0x1_0000_0000_0000_0000 && lo == z % 0x1_0000_0000_0000_0000)
        by (bit_vector)
        requires
            z <= 0xffff_ffff_ffff_ffff_0000_0000_0000_0000,
            hi == (z >> 64) as u64,
            lo == z as u64,
    ;
    (hi, lo)
}

} // verus!
