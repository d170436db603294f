//! Binary floating point with round-to-nearest, in integers.
//!
//! A positive number is held as `m * 2^e` with `m` of at most `p` bits: 53 for
//! an IEEE double, 24 for a single. The numbers here are far from the ends of
//! the exponent range.

use vstd::arithmetic::power2::{lemma2_to64, lemma2_to64_rest, lemma_pow2_pos, pow2};
use vstd::prelude::*;

verus! {

/// `num / den` to the nearest integer, ties to even.
pub open spec fn nearest_even(num: int, den: int) -> int {
    let q = num / den;
    let r = num % den;
    if 2 * r > den || 2 * r == den && q % 2 == 1 {
        q + 1
    } else {
        q
    }
}

/// Doubles `den` until `num / den` is below `2^p`: the new `den` and how often.
pub open spec fn shrink(p: nat, num: nat, den: nat) -> (nat, nat)
    decreases num - den,
{
    if den > 0 && num >= 2 * den && num >= pow2(p) * den {
        let (d, k) = shrink(p, num, 2 * den);
        (d, k + 1)
    } else {
        (den, 0)
    }
}

/// Doubles `num` until `num / den` is at least `2^(p - 1)`: the new `num` and
/// how often.
pub open spec fn grow(p: nat, num: nat, den: nat) -> (nat, nat)
    decreases
            if num < pow2((p - 1) as nat) * den {
                pow2((p - 1) as nat) * den - num
            } else {
                0
            },
{
    if num > 0 && num < pow2((p - 1) as nat) * den {
        let (n, k) = grow(p, 2 * num, den);
        (n, k + 1)
    } else {
        (num, 0)
    }
}

/// `num / den` rounded to `p` bits: mantissa and exponent.
pub open spec fn rounded(p: nat, num: nat, den: nat) -> (int, int) {
    let (d, k) = shrink(p, num, den);
    let (n, j) = grow(p, num, d);
    (nearest_even(n as int, d as int), k - j)
}

/// Rounds `num / den` to `p` bits.
pub fn round_to(p: u32, num: u128, den: u128) -> (r: (u128, i32))
    requires
        p == 24 || p == 53,
        0 < num < 0x4000_0000_0000_0000,
        0 < den < 0x1_0000_0000,
    ensures
        (r.0 as int, r.1 as int) == rounded(p as nat, num as nat, den as nat),
        r.0 <= pow2(p as nat),
        r.0 >= pow2((p - 1) as nat),
        -90 <= r.1 <= 62,
        r.1 >= 0 ==> num < pow2(p as nat) * (den * pow2(r.1 as nat)),
        r.1 > 0 ==> pow2((p - 1) as nat) * (den * pow2(r.1 as nat)) <= num,
        r.1 < 0 ==> pow2((-r.1 - 1) as nat) * num < pow2((p - 1) as nat) * den,
{
    proof {
        lemma2_to64();
        lemma2_to64_rest();
    }
    let top: u128 = if p == 24 {
        0x100_0000
    } else {
        0x20_0000_0000_0000
    };
    let mut d: u128 = den;
    let mut k: i32 = 0;
    let ghost mut span: int = 1;
    while num >= top * d
        invariant
            p == 24 || p == 53,
            top == pow2(p as nat),
            top == 0x100_0000 || top == 0x20_0000_0000_0000,
            0 < num < 0x4000_0000_0000_0000,
            0 < den <= d < 0x4000_0000_0000_0000,
            0 <= k <= 62,
            d == den * span,
            d >= span >= 1,
            span == pow2(k as nat),
            shrink(p as nat, num as nat, den as nat) == (
                shrink(p as nat, num as nat, d as nat).0,
                (shrink(p as nat, num as nat, d as nat).1 + k) as nat,
            ),
            k > 0 ==> num * 2 >= top * d,
        decreases num - d,
    {
        proof {
            assert(d < num && d < 0x40_0000_0000) by (nonlinear_arith)
                requires
                    num >= top * d,
                    top >= 0x100_0000,
                    0 < d,
                    num < 0x4000_0000_0000_0000,
            ;
            assert(top * (2 * d) == 2 * (top * d)) by (nonlinear_arith);
            vstd::arithmetic::power2::lemma_pow2_unfold((k + 1) as nat);
            lemma2_to64_rest();
        }
        assert(den * (2 * span) == 2 * (den * span)) by (nonlinear_arith);
        d = 2 * d;
        k = k + 1;
        proof {
            span = 2 * span;
        }
    }
    let half: u128 = top / 2;
    let mut n: u128 = num;
    let mut j: i32 = 0;
    let ghost mut grown: int = 1;
    assert(half == pow2((p - 1) as nat));
    assert(top * d < 0x8_0000_0000_0000_0000_0000_0000_0000) by (nonlinear_arith)
        requires
            0 < d < 0x4000_0000_0000_0000,
            0 < top <= 0x20_0000_0000_0000,
    ;
    assert(top * d == 2 * (half * d)) by (nonlinear_arith)
        requires
            top == 2 * half,
    ;
    assert(half * d >= 0) by (nonlinear_arith);
    while n < half * d
        invariant
            p == 24 || p == 53,
            top == pow2(p as nat),
            half == pow2((p - 1) as nat),
            top == 2 * half,
            0x80_0000 <= half <= 0x10_0000_0000_0000,
            0 < num <= n,
            0 < d < 0x4000_0000_0000_0000,
            k > 0 ==> num >= half * d,
            den <= d,
            k == 0 ==> d == den,
            den < 0x1_0000_0000,
            0 <= j <= 90,
            0 <= k,
            n == num * grown,
            grown == pow2(j as nat),
            j > 0 ==> k == 0 && pow2((j - 1) as nat) * num < half * den,
            d == den * pow2(k as nat),
            n < top * d,
            half * d < 0x8_0000_0000_0000_0000_0000_0000_0000,
            top * d < 0x8_0000_0000_0000_0000_0000_0000_0000,
            grow(p as nat, num as nat, d as nat) == (
                grow(p as nat, n as nat, d as nat).0,
                (grow(p as nat, n as nat, d as nat).1 + j) as nat,
            ),
        decreases 100 - j,
    {
        proof {
            assert(top * d == 2 * (half * d)) by (nonlinear_arith)
                requires
                    top == 2 * half,
            ;
            assert(num * (2 * grown) == 2 * (num * grown)) by (nonlinear_arith);
            vstd::arithmetic::power2::lemma_pow2_unfold((j + 1) as nat);
            lemma_pow2_pos(j as nat);
            lemma2_to64_rest();
            lemma2_to64();
            // j stays below 85: num * 2^j < 2^52 * 2^32.
            assert(num * grown >= num) by (nonlinear_arith)
                requires
                    num > 0,
                    grown >= 1,
            ;
            assert(k == 0);
            assert(half * d < 0x10_0000_0000_0000 * 0x1_0000_0000) by (nonlinear_arith)
                requires
                    half <= 0x10_0000_0000_0000,
                    0 < d < 0x1_0000_0000,
            ;
            assert(grown <= n) by (nonlinear_arith)
                requires
                    n == num * grown,
                    num >= 1,
                    grown >= 1,
            ;
            if j >= 85 {
                if j > 85 {
                    vstd::arithmetic::power2::lemma_pow2_strictly_increases(85, j as nat);
                }
                vstd::arithmetic::power2::lemma_pow2_adds(53, 32);
                assert(0x10_0000_0000_0000 * 0x1_0000_0000 == 0x10_0000_0000_0000_0000_0000);
                assert(pow2(85) == 0x20_0000_0000_0000 * 0x1_0000_0000);
            }
        }
        proof {
            assert(pow2(j as nat) * num == num * grown) by (nonlinear_arith)
                requires
                    grown == pow2(j as nat),
            ;
            assert(d == den) by (nonlinear_arith)
                requires
                    d == den * pow2(0),
                    pow2(0) == 1,
            ;
        }
        n = 2 * n;
        j = j + 1;
        proof {
            grown = 2 * grown;
        }
    }
    let q: u128 = n / d;
    let r: u128 = n % d;
    proof {
        vstd::arithmetic::div_mod::lemma_fundamental_div_mod(n as int, d as int);
        assert(d > 0);
        assert(half <= q < top) by (nonlinear_arith)
            requires
                n == d * q + r,
                0 <= r < d,
                half * d <= n < top * d,
        ;
    }
    let m: u128 = if 2 * r > d || 2 * r == d && q % 2 == 1 {
        q + 1
    } else {
        q
    };
    proof {
        if k > 0 {
            assert(j == 0);
        }
        if j == 0 {
            assert(n == num) by (nonlinear_arith)
                requires
                    n == num * grown,
                    grown == 1,
            ;
        }
    }
    (m, k - j)
}

/// How far two numbers are apart.
pub open spec fn gap(a: int, b: int) -> int {
    if a < b {
        b - a
    } else {
        a - b
    }
}

proof fn lemma_shrink(p: nat, num: nat, den: nat)
    requires
        1 <= p,
        0 < den,
    ensures
        ({
            let (d, k) = shrink(p, num, den);
            &&& d == den * pow2(k)
            &&& num < pow2(p) * d
        }),
    decreases num - den,
{
    let t = pow2(p) as int;
    lemma2_to64();
    if p > 1 {
        vstd::arithmetic::power2::lemma_pow2_strictly_increases(1, p);
    }
    if num >= 2 * den && num >= t * den {
        lemma_shrink(p, num, 2 * den);
        let (d, k) = shrink(p, num, 2 * den);
        vstd::arithmetic::power2::lemma_pow2_unfold(k + 1);
        assert(2 * den * pow2(k) == den * (2 * pow2(k))) by (nonlinear_arith);
    } else {
        assert(t * den >= 2 * den) by (nonlinear_arith)
            requires
                t >= 2,
                den > 0,
        ;
        assert(den * 1 == den);
    }
}

proof fn lemma_grow(p: nat, num: nat, den: nat)
    requires
        1 <= p,
        0 < num,
        0 < den,
    ensures
        ({
            let (n, j) = grow(p, num, den);
            &&& n == num * pow2(j)
            &&& pow2((p - 1) as nat) * den <= n
        }),
    decreases
            if num < pow2((p - 1) as nat) * den {
                pow2((p - 1) as nat) * den - num
            } else {
                0
            },
{
    lemma2_to64();
    if num < pow2((p - 1) as nat) * den {
        lemma_grow(p, 2 * num, den);
        let (n, j) = grow(p, 2 * num, den);
        vstd::arithmetic::power2::lemma_pow2_unfold(j + 1);
        assert(2 * num * pow2(j) == num * (2 * pow2(j))) by (nonlinear_arith);
    } else {
        assert(num * 1 == num);
    }
}

/// Rounding to `p` bits changes a number by no more than `2^-p` of it. The
/// exponent is the difference of the two powers that are returned.
pub proof fn lemma_rounded(p: nat, num: nat, den: nat) -> (r: (nat, nat))
    requires
        1 <= p,
        0 < num,
        0 < den,
    ensures
        rounded(p, num, den).1 == r.0 - r.1,
        0 < rounded(p, num, den).0,
        num < pow2(p) * den ==> r.0 == 0,
        pow2(p) * gap(rounded(p, num, den).0 * (den * pow2(r.0)), num * pow2(r.1) as int) <= num * pow2(r.1),
{
    let (d, k) = shrink(p, num, den);
    let (n, j) = grow(p, num, d);
    lemma_shrink(p, num, den);
    lemma_pow2_pos(k);
    lemma_pow2_pos((p - 1) as nat);
    assert(d > 0) by (nonlinear_arith)
        requires
            d == den * pow2(k),
            den > 0,
            pow2(k) > 0,
    ;
    lemma_grow(p, num, d);
    let half = pow2((p - 1) as nat) as int;
    vstd::arithmetic::power2::lemma_pow2_unfold(p);
    let (q, rest) = (n as int / d as int, n as int % d as int);
    vstd::arithmetic::div_mod::lemma_fundamental_div_mod(n as int, d as int);
    let m = nearest_even(n as int, d as int);
    assert(m * d == d * q + (if m == q {
        0
    } else {
        d as int
    })) by (nonlinear_arith)
        requires
            m == q || m == q + 1,
    ;
    let g = gap(m * d, n as int);
    assert(2 * g <= d);
    assert(2 * half * g <= n) by (nonlinear_arith)
        requires
            2 * g <= d,
            half * d <= n,
            half > 0,
    ;
    assert(m > 0) by (nonlinear_arith)
        requires
            2 * (m * d - n) <= d,
            2 * (n - m * d) <= d,
            n >= half * d,
            half >= 1,
            d > 0,
    ;
    (k, j)
}

} // verus!
