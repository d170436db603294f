//! The 16-bit fixed-point operations that the transform is made of.
//!
//! The format is defined through these: rounding, saturation and 16-bit
//! wrap-around all affect the output, so each operation states exactly which
//! integer it gives.

use super::bits::wrap16;
use vstd::prelude::*;

verus! {

/// `x` held to the range of a 16-bit word.
pub open spec fn sat16(x: int) -> int {
    if x < -32768 {
        -32768
    } else if x > 32767 {
        32767
    } else {
        x
    }
}

/// `x` reduced to the range of a 32-bit word.
pub open spec fn wrap32(x: int) -> int {
    (x + 0x8000_0000) % 0x1_0000_0000 - 0x8000_0000
}

/// Saturating sum.
#[verifier::opaque]
pub open spec fn sum16(a: int, b: int) -> int {
    sat16(a + b)
}

/// Saturating difference.
#[verifier::opaque]
pub open spec fn diff16(a: int, b: int) -> int {
    sat16(a - b)
}

/// High half of the product.
#[verifier::opaque]
pub open spec fn high16(a: int, b: int) -> int {
    (a * b) / 65536
}

/// The product cut to 16 bits.
#[verifier::opaque]
pub open spec fn low16(a: int, b: int) -> int {
    wrap16(a * b)
}

/// `x` with its lowest bit set.
#[verifier::opaque]
pub open spec fn odd16(x: int) -> int {
    x + 1 - x % 2
}

/// `x / 2^n`, rounded down.
#[verifier::opaque]
pub open spec fn down16(x: int, n: nat) -> int {
    x / vstd::arithmetic::power2::pow2(n) as int
}

proof fn lemma_cut32(x: i32)
    by (bit_vector)
    ensures
        (x as i16) as int == (x + 32768) % 65536 - 32768,
{
}

proof fn lemma_cut_unsigned(x: u32)
    by (bit_vector)
    ensures
        (x as i16) as int == (x + 32768) % 65536 - 32768,
{
}

proof fn lemma_shift16(x: i32)
    by (bit_vector)
    ensures
        x >> 16i32 == x / 65536,
        x >> 11i32 == x / 2048,
        x >> 12i32 == x / 4096,
{
}

proof fn lemma_shift_small(x: i16)
    by (bit_vector)
    ensures
        x >> 0i16 == x,
        x >> 1i16 == x / 2,
        x >> 2i16 == x / 4,
        x >> 3i16 == x / 8,
        x >> 4i16 == x / 16,
        x >> 5i16 == x / 32,
        x >> 6i16 == x / 64,
        x >> 7i16 == x / 128,
        x >> 8i16 == x / 256,
        x >> 9i16 == x / 512,
        x >> 10i16 == x / 1024,
        x >> 11i16 == x / 2048,
        x >> 12i16 == x / 4096,
        x >> 13i16 == x / 8192,
        x >> 14i16 == x / 16384,
        x < 0 ==> x >> 15i16 == -1i16,
        x >= 0 ==> x >> 15i16 == 0i16,
{
}

proof fn lemma_odd(x: i16)
    by (bit_vector)
    ensures
        (x | 1i16) == x + 1 - x % 2,
{
}

/// Product of two 16-bit words fits in 31 bits.
proof fn lemma_product(a: int, b: int)
    by (nonlinear_arith)
    requires
        -32768 <= a <= 32767,
        -32768 <= b <= 32767,
    ensures
        -0x4000_0000 <= a * b <= 0x4000_0000,
{
}

/// Cuts a 32-bit word to 16 bits.
pub fn cut(x: i32) -> (r: i16)
    ensures
        r == wrap16(x as int),
{
    proof {
        lemma_cut32(x);
    }
    x as i16
}

/// Cuts an unsigned 32-bit word to 16 signed bits.
pub fn cut_unsigned(x: u32) -> (r: i16)
    ensures
        r == wrap16(x as int),
{
    proof {
        lemma_cut_unsigned(x);
    }
    x as i16
}

/// Holds a 32-bit word to 16 bits.
pub fn clamp(x: i32) -> (r: i16)
    ensures
        r == sat16(x as int),
{
    if x < -32768 {
        -32768
    } else if x > 32767 {
        32767
    } else {
        x as i16
    }
}

/// Saturating sum.
pub fn adds(a: i16, b: i16) -> (r: i16)
    ensures
        r == sum16(a as int, b as int),
{
    proof {
        reveal(sum16);
    }
    clamp(a as i32 + b as i32)
}

/// Saturating difference.
pub fn subs(a: i16, b: i16) -> (r: i16)
    ensures
        r == diff16(a as int, b as int),
{
    proof {
        reveal(diff16);
    }
    clamp(a as i32 - b as i32)
}

/// High half of the product.
pub fn mulhi(a: i16, b: i16) -> (r: i16)
    ensures
        r == high16(a as int, b as int),
{
    proof {
        reveal(high16);
        lemma_product(a as int, b as int);
    }
    let p: i32 = a as i32 * b as i32;
    proof {
        lemma_shift16(p);
    }
    (p >> 16i32) as i16
}

/// The product cut to 16 bits.
pub fn mullo(a: i16, b: i16) -> (r: i16)
    ensures
        r == low16(a as int, b as int),
{
    proof {
        reveal(low16);
        lemma_product(a as int, b as int);
    }
    cut(a as i32 * b as i32)
}

/// The word with its lowest bit set.
pub fn or1(x: i16) -> (r: i16)
    ensures
        r == odd16(x as int),
{
    proof {
        reveal(odd16);
        lemma_odd(x);
    }
    x | 1i16
}

/// Arithmetic shift right.
pub fn srai16(x: i16, n: u32) -> (r: i16)
    requires
        n <= 15,
    ensures
        r == down16(x as int, n as nat),
{
    proof {
        reveal(down16);
        lemma_shift_small(x);
        vstd::arithmetic::power2::lemma2_to64();
        assert(n == 0 || n == 1 || n == 2 || n == 3 || n == 4 || n == 5 || n == 6 || n == 7 || n
            == 8 || n == 9 || n == 10 || n == 11 || n == 12 || n == 13 || n == 14 || n == 15);
    }
    x >> (n as i16)
}

/// Arithmetic shift right of a 32-bit word, then saturation to 16 bits.
pub fn pack_shifted(x: i32, n: u32) -> (r: i16)
    requires
        n == 11 || n == 12 || n == 16,
    ensures
        r == sat16(x as int / vstd::arithmetic::power2::pow2(n as nat) as int),
{
    proof {
        lemma_shift16(x);
        vstd::arithmetic::power2::lemma2_to64();
    }
    clamp(x >> (n as i32))
}

} // verus!
