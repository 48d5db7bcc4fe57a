//! Address arithmetic: a 129-bit bound type that holds one past the largest
//! 128-bit address, and powers of two.

use vstd::prelude::*;
use vstd::arithmetic::power2::{pow2, lemma_pow2_unfold, lemma2_to64, lemma2_to64_rest};
use crate::interval::IntervalKey;

verus! {

/// `2^128`, one past the largest IPv6 address.
pub open spec fn two_pow_128() -> int {
    pow2(128) as int
}

/// An unsigned 129-bit value: `carry * 2^128 + low`. It holds every address
/// and the bound one past the last address of either family.
#[derive(Debug, Clone, Copy, PartialEq, Eq, Structural)]
pub struct U129 {
    pub carry: bool,
    pub low: u128,
}

impl U129 {
    /// The value `x`, for `0 <= x < 2^129`.
    pub open spec fn of(x: int) -> U129 {
        if x >= two_pow_128() {
            U129 { carry: true, low: (x - two_pow_128()) as u128 }
        } else {
            U129 { carry: false, low: x as u128 }
        }
    }

    pub fn from_u128(x: u128) -> (r: U129)
        ensures
            r.rank() == x,
            r == U129::of(x as int),
    {
        proof { lemma_pow2_128(); }
        U129 { carry: false, low: x }
    }

    /// `x + size`, which may reach `2^128`.
    pub fn add_u128(x: u128, size: u128) -> (r: U129)
        ensures
            r.rank() == x + size,
            r == U129::of(x + size),
    {
        proof { lemma_pow2_128(); }
        if x <= u128::MAX - size {
            U129 { carry: false, low: x + size }
        } else {
            U129 { carry: true, low: x - (u128::MAX - size) - 1 }
        }
    }
}

pub proof fn lemma_pow2_128()
    ensures
        two_pow_128() == u128::MAX + 1,
{
    lemma2_to64();
    lemma2_to64_rest();
    vstd::arithmetic::power2::lemma_pow2_adds(64, 64);
}

impl IntervalKey for U129 {
    open spec fn rank(self) -> int {
        if self.carry { two_pow_128() + self.low } else { self.low as int }
    }

    proof fn lemma_rank_injective(a: Self, b: Self) {
        lemma_pow2_128();
    }

    fn le(&self, other: &Self) -> (r: bool) {
        proof { lemma_pow2_128(); }
        if self.carry != other.carry {
            other.carry
        } else {
            self.low <= other.low
        }
    }
}

/// `2^n` for `n < 128`.
pub fn pow2_u128(n: u32) -> (r: u128)
    requires
        n < 128,
    ensures
        r == pow2(n as nat),
{
    let mut r: u128 = 1;
    let mut i: u32 = 0;
    proof {
        lemma2_to64();
        lemma_pow2_128();
    }
    while i < n
        invariant
            i <= n < 128,
            r == pow2(i as nat),
            two_pow_128() == u128::MAX + 1,
        decreases n - i,
    {
        proof {
            lemma_pow2_unfold((i + 1) as nat);
            vstd::arithmetic::power2::lemma_pow2_strictly_increases((i + 1) as nat, 128);
        }
        r = r * 2;
        i = i + 1;
    }
    r
}

} // verus!
