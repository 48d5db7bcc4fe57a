//! Shifts that yield zero, instead of wrapping, once the shift amount
//! reaches the width of the operand.

use vstd::prelude::*;
use vstd::arithmetic::power2::pow2;
use vstd::bits::{lemma_u32_shl_is_mul, lemma_u32_shr_is_div, lemma_u64_shr_is_div, lemma_u128_shr_is_div};

verus! {

/// Shift left that saturates to zero when `rhs` is at least the width of `Self`.
pub trait SaturatingShl<RHS> {
    type Output;

    /// The value the shift produces.
    spec fn saturating_shl_spec(self, rhs: RHS) -> Self::Output;

    fn saturating_shl(self, rhs: RHS) -> (r: Self::Output)
        ensures
            r == self.saturating_shl_spec(rhs),
    ;
}

/// Shift right that saturates to zero when `rhs` is at least the width of `Self`.
pub trait SaturatingShr<RHS> {
    type Output;

    /// The value the shift produces.
    spec fn saturating_shr_spec(self, rhs: RHS) -> Self::Output;

    fn saturating_shr(self, rhs: RHS) -> (r: Self::Output)
        ensures
            r == self.saturating_shr_spec(rhs),
    ;
}

impl SaturatingShl<u8> for u32 {
    type Output = u32;

    open spec fn saturating_shl_spec(self, rhs: u8) -> u32 {
        if rhs < 32 { self << rhs } else { 0 }
    }

    fn saturating_shl(self, rhs: u8) -> (r: u32) {
        if rhs < 32 { self << rhs } else { 0 }
    }
}

impl SaturatingShr<u8> for u32 {
    type Output = u32;

    open spec fn saturating_shr_spec(self, rhs: u8) -> u32 {
        if rhs < 32 { (self as nat / pow2(rhs as nat)) as u32 } else { 0 }
    }

    fn saturating_shr(self, rhs: u8) -> (r: u32) {
        if rhs < 32 {
            proof { lemma_u32_shr_is_div(self, rhs as u32); }
            self >> rhs
        } else {
            0
        }
    }
}

impl SaturatingShl<u32> for u32 {
    type Output = u32;

    open spec fn saturating_shl_spec(self, rhs: u32) -> u32 {
        if rhs < 32 { self << rhs } else { 0 }
    }

    fn saturating_shl(self, rhs: u32) -> (r: u32) {
        if rhs < 32 { self << rhs } else { 0 }
    }
}

impl SaturatingShr<u32> for u32 {
    type Output = u32;

    open spec fn saturating_shr_spec(self, rhs: u32) -> u32 {
        if rhs < 32 { (self as nat / pow2(rhs as nat)) as u32 } else { 0 }
    }

    fn saturating_shr(self, rhs: u32) -> (r: u32) {
        if rhs < 32 {
            proof { lemma_u32_shr_is_div(self, rhs as u32); }
            self >> rhs
        } else {
            0
        }
    }
}

impl SaturatingShl<u8> for u64 {
    type Output = u64;

    open spec fn saturating_shl_spec(self, rhs: u8) -> u64 {
        if rhs < 64 { self << rhs } else { 0 }
    }

    fn saturating_shl(self, rhs: u8) -> (r: u64) {
        if rhs < 64 { self << rhs } else { 0 }
    }
}

impl SaturatingShr<u8> for u64 {
    type Output = u64;

    open spec fn saturating_shr_spec(self, rhs: u8) -> u64 {
        if rhs < 64 { (self as nat / pow2(rhs as nat)) as u64 } else { 0 }
    }

    fn saturating_shr(self, rhs: u8) -> (r: u64) {
        if rhs < 64 {
            proof { lemma_u64_shr_is_div(self, rhs as u64); }
            self >> rhs
        } else {
            0
        }
    }
}

impl SaturatingShl<u32> for u64 {
    type Output = u64;

    open spec fn saturating_shl_spec(self, rhs: u32) -> u64 {
        if rhs < 64 { self << rhs } else { 0 }
    }

    fn saturating_shl(self, rhs: u32) -> (r: u64) {
        if rhs < 64 { self << rhs } else { 0 }
    }
}

impl SaturatingShr<u32> for u64 {
    type Output = u64;

    open spec fn saturating_shr_spec(self, rhs: u32) -> u64 {
        if rhs < 64 { (self as nat / pow2(rhs as nat)) as u64 } else { 0 }
    }

    fn saturating_shr(self, rhs: u32) -> (r: u64) {
        if rhs < 64 {
            proof { lemma_u64_shr_is_div(self, rhs as u64); }
            self >> rhs
        } else {
            0
        }
    }
}

impl SaturatingShl<u8> for u128 {
    type Output = u128;

    open spec fn saturating_shl_spec(self, rhs: u8) -> u128 {
        if rhs < 128 { self << rhs } else { 0 }
    }

    fn saturating_shl(self, rhs: u8) -> (r: u128) {
        if rhs < 128 { self << rhs } else { 0 }
    }
}

impl SaturatingShr<u8> for u128 {
    type Output = u128;

    open spec fn saturating_shr_spec(self, rhs: u8) -> u128 {
        if rhs < 128 { (self as nat / pow2(rhs as nat)) as u128 } else { 0 }
    }

    fn saturating_shr(self, rhs: u8) -> (r: u128) {
        if rhs < 128 {
            proof { lemma_u128_shr_is_div(self, rhs as u128); }
            self >> rhs
        } else {
            0
        }
    }
}

impl SaturatingShl<u32> for u128 {
    type Output = u128;

    open spec fn saturating_shl_spec(self, rhs: u32) -> u128 {
        if rhs < 128 { self << rhs } else { 0 }
    }

    fn saturating_shl(self, rhs: u32) -> (r: u128) {
        if rhs < 128 { self << rhs } else { 0 }
    }
}

impl SaturatingShr<u32> for u128 {
    type Output = u128;

    open spec fn saturating_shr_spec(self, rhs: u32) -> u128 {
        if rhs < 128 { (self as nat / pow2(rhs as nat)) as u128 } else { 0 }
    }

    fn saturating_shr(self, rhs: u32) -> (r: u128) {
        if rhs < 128 {
            proof { lemma_u128_shr_is_div(self, rhs as u128); }
            self >> rhs
        } else {
            0
        }
    }
}

/// Shifts `x` left by `y` bits; a shift of 32 or more gives zero.
pub fn saturating_shl(x: u32, y: u32) -> (r: u32)
    ensures
        r == x.saturating_shl_spec(y),
        y < 32 && x * pow2(y as nat) <= u32::MAX ==> r == x * pow2(y as nat),
{
    if y < 32 {
        proof {
            if x * pow2(y as nat) <= u32::MAX {
                lemma_u32_shl_is_mul(x, y);
            }
        }
        x << y
    } else {
        0
    }
}

/// Shifts `x` right by `y` bits; a shift of 32 or more gives zero.
pub fn saturating_shr(x: u32, y: u32) -> (r: u32)
    ensures
        r == x.saturating_shr_spec(y),
        y < 32 ==> r == x as nat / pow2(y as nat),
        y >= 32 ==> r == 0,
{
    if y < 32 {
        proof { lemma_u32_shr_is_div(x, y); }
        x >> y
    } else {
        0
    }
}

} // verus!
