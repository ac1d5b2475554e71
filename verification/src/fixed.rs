//! Fixed-point core: the 24-bit sign convention, the masked negate
//! used everywhere, and executable powers of two for the variable
//! shift amounts of the codecs.
use vstd::prelude::*;

verus! {

use vstd::arithmetic::power2::{
    pow2, lemma_pow2_adds, lemma_pow2_pos, lemma_pow2_strictly_increases, lemma2_to64,
    lemma2_to64_rest,
};

/// Sign test of the 24-bit convention: values past half the range are
/// negative.
pub open spec fn fp_is_neg(v: u32) -> bool {
    v > 0x7FFFFF
}

/// Two's-complement negate of a 24-bit value, masked back to 24 bits.
pub open spec fn neg24(v: u32) -> u32
    recommends
        v < 0x1000000,
{
    ((0x2000000 - v as int) % 0x1000000) as u32
}

/// Two's-complement negate of a 24-bit value, masked to 23 bits: the
/// magnitude-extraction step of the sign convention.
pub open spec fn neg_half(v: u32) -> u32
    recommends
        v < 0x1000000,
{
    ((0x1000000 - v as int) % 0x800000) as u32
}

/// Wrapped 24-bit addition.
pub open spec fn add24(a: u32, b: u32) -> u32 {
    ((a + b) % 0x1000000) as u32
}

pub fn exec_neg24(v: u32) -> (r: u32)
    requires
        v < 0x1000000,
    ensures
        r == neg24(v),
        r < 0x1000000,
{
    if v == 0 {
        0
    } else {
        0x1000000 - v
    }
}

pub fn exec_neg_half(v: u32) -> (r: u32)
    requires
        v < 0x1000000,
    ensures
        r == neg_half(v),
        r < 0x800000,
{
    if v == 0 {
        0
    } else if v > 0x800000 {
        0x1000000 - v
    } else if v == 0x800000 {
        0
    } else {
        assert(0x1000000 - v < 0x1000000 && 0x1000000 - v > 0x800000);
        (0x1000000 - v) - 0x800000
    }
}

pub fn exec_add24(a: u32, b: u32) -> (r: u32)
    ensures
        r == add24(a, b),
        r < 0x1000000,
{
    (((a as u64 + b as u64) % 0x1000000) as u32)
}

/// Executable power of two over `u64`.
pub fn pow2_u64(e: u64) -> (r: u64)
    requires
        e < 64,
    ensures
        r == pow2(e as nat),
{
    let mut r: u64 = 1;
    let mut i: u64 = 0;
    proof {
        lemma2_to64();
        lemma2_to64_rest();
    }
    while i < e
        invariant
            i <= e,
            e < 64,
            r == pow2(i as nat),
            pow2(63) == 0x8000000000000000,
        decreases e - i,
    {
        proof {
            lemma_pow2_adds(i as nat, 1);
            lemma2_to64();
            if i as nat + 1 < 63 {
                lemma_pow2_strictly_increases(i as nat + 1, 63);
            }
        }
        r = r * 2;
        i = i + 1;
    }
    r
}

/// Executable power of two over `u128`.
pub fn pow2_u128(e: u32) -> (r: u128)
    requires
        e < 128,
    ensures
        r == pow2(e as nat),
{
    let mut r: u128 = 1;
    let mut i: u32 = 0;
    proof {
        lemma_pow2_127_bound();
        lemma2_to64();
    }
    while i < e
        invariant
            i <= e,
            e < 128,
            r == pow2(i as nat),
            pow2(127) == 0x80000000000000000000000000000000,
        decreases e - i,
    {
        proof {
            lemma_pow2_adds(i as nat, 1);
            lemma2_to64();
            if i as nat + 1 < 127 {
                lemma_pow2_strictly_increases(i as nat + 1, 127);
            }
        }
        r = r * 2;
        i = i + 1;
    }
    r
}

pub proof fn lemma_pow2_127_bound()
    ensures
        pow2(127) == 0x80000000000000000000000000000000,
{
    lemma2_to64();
    lemma2_to64_rest();
    lemma_pow2_adds(63, 64);
}

} // verus!
