//! The limb type and its width.

use vstd::prelude::*;

verus! {

/// One limb of a multi-precision integer.
pub type BigDigit = u64;

/// A value wide enough for the product of two limbs plus two more limbs.
pub type DoubleBigDigit = u128;

/// Number of bits in a limb.
pub const BITS: u64 = 64;

} // verus!
