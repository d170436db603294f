//! Quantisation divides and rounds to the nearest integer.

use super::bits::{bit_len, lemma_bit_len_pow};
use super::dct::{quantise, reciprocal_of};
use vstd::arithmetic::div_mod::{lemma_div_denominator, lemma_fundamental_div_mod};
use vstd::arithmetic::power2::{
    lemma2_to64, lemma_pow2_adds, lemma_pow2_pos, lemma_pow2_strictly_increases, lemma_pow2_unfold, pow2,
};
use vstd::prelude::*;

verus! {

/// An odd factor of a power of two is 1.
proof fn lemma_odd_factor(d: int, k: int, m: nat)
    requires
        0 < d,
        0 < k,
        k % 2 == 1,
        d * k == pow2(m),
    ensures
        k == 1,
    decreases m,
{
    if m == 0 {
        lemma2_to64();
        assert(k == 1) by (nonlinear_arith)
            requires
                0 < d,
                0 < k,
                d * k == 1,
        ;
    } else {
        lemma_pow2_unfold(m);
        let j = k / 2;
        let h = d / 2;
        let p = pow2((m - 1) as nat) as int;
        assert(k == 2 * j + 1);
        assert(d * k == 2 * (d * j) + d) by (nonlinear_arith)
            requires
                k == 2 * j + 1,
        ;
        assert(d % 2 == 0);
        assert(h * k == p) by (nonlinear_arith)
            requires
                d == 2 * h,
                d * k == 2 * p,
        ;
        lemma_odd_factor(h, k, (m - 1) as nat);
    }
}

/// `x / n == q` from the bounds.
proof fn lemma_quotient(x: int, n: int, q: int)
    requires
        n > 0,
        q * n <= x < (q + 1) * n,
    ensures
        x / n == q,
{
    assert((q + 1) * n == q * n + n) by (nonlinear_arith);
    vstd::arithmetic::div_mod::lemma_fundamental_div_mod_converse(x, n, q, x - q * n);
}

/// Two high multiplies, the second one by a power of two, are one division.
proof fn lemma_two_multiplies(t: int, f: int, u: nat, v: nat)
    requires
        0 <= t,
        0 <= f,
        u + v == 16,
    ensures
        t * f / 65536 * pow2(u) as int / 65536 == t * f / (65536 * pow2(v) as int),
{
    lemma2_to64();
    lemma_pow2_adds(u, v);
    lemma_pow2_pos(u);
    lemma_pow2_pos(v);
    let (pu, pv) = (pow2(u) as int, pow2(v) as int);
    let x = t * f;
    assert(0 <= x) by (nonlinear_arith)
        requires
            0 <= t,
            0 <= f,
            x == t * f,
    ;
    let y = x / 65536;
    assert(pu * pv == 65536);
    assert(y * pu / 65536 == y / pv) by {
        lemma_div_denominator(y * pu, pu, pv);
        vstd::arithmetic::div_mod::lemma_div_multiples_vanish(y, pu);
        assert(y * pu == pu * y) by (nonlinear_arith);
    }
    lemma_div_denominator(x, 65536, pv);
}

/// The two multiplies divide by `d` and round to nearest.
proof fn lemma_reciprocal_divides(a: int, d: int)
    requires
        3 <= d <= 65535,
        0 <= a,
        a + d / 2 + 1 <= 65535,
    ensures
        ({
            let (c, f, s) = reciprocal_of(d);
            &&& 0 <= c
            &&& a + c <= 65535
            &&& (a + c) * f / 65536 * s / 65536 == (a + d / 2) / d
        }),
{
    reveal(reciprocal_of);
    lemma2_to64();
    lemma_bit_len_pow(d as u64, 16);
    lemma_bit_len_pow(d as u64, 1);
    let len = bit_len(d as u64);
    let b = (len - 1) as nat;
    lemma_bit_len_pow(d as u64, b);
    lemma_bit_len_pow(d as u64, len);
    lemma_pow2_unfold(len);
    let pb = pow2(b) as int;
    assert(pb <= d < 2 * pb);
    lemma_pow2_adds(16, b);
    let n = pow2(16 + b) as int;
    assert(n == 65536 * pb);
    let s = pow2((16 - b) as nat) as int;
    if b < 15 {
        lemma_pow2_strictly_increases(b, 15);
    }
    lemma_pow2_strictly_increases((16 - b) as nat, 16);
    lemma_pow2_pos((16 - b) as nat);
    let k = n / d;
    let fr = n % d;
    lemma_fundamental_div_mod(n, d);
    let m = a + d / 2;
    let q = m / d;
    let e = m % d;
    lemma_fundamental_div_mod(m, d);
    assert(q >= 0);
    if fr == 0 {
        assert(d * k == n);
        assert(k > 32768) by (nonlinear_arith)
            requires
                d * k == 65536 * pb,
                d < 2 * pb,
                0 < pb,
                0 < d,
        ;
        assert(k <= 65536) by (nonlinear_arith)
            requires
                d * k == 65536 * pb,
                pb <= d,
                0 < pb,
        ;
        if k % 2 == 1 {
            lemma_odd_factor(d, k, 16 + b);
        }
        let j = k / 2;
        if b == 1 {
            assert(pb == 2);
            assert(d == 3);
            assert(n == 131072);
            assert(false);
        }
        assert(pow2((17 - b) as nat) == 2 * s) by {
            lemma_pow2_unfold((17 - b) as nat);
        }
        lemma_pow2_strictly_increases((17 - b) as nat, 16);
        lemma_two_multiplies(m, j, (17 - b) as nat, (b - 1) as nat);
        lemma_pow2_unfold(b);
        let h = 65536 * pow2((b - 1) as nat) as int;
        assert(2 * h == n);
        // m * j / h == m / d, for d * (2 * j) == 2 * h.
        assert(d * j == h) by (nonlinear_arith)
            requires
                d * k == n,
                k == 2 * j,
                2 * h == n,
        ;
        assert(q * h <= m * j < (q + 1) * h) by (nonlinear_arith)
            requires
                m == d * q + e,
                0 <= e < d,
                d * j == h,
                0 < j,
        ;
        lemma_quotient(m * j, h, q);
    } else {
        assert(d != pb) by {
            if d == pb {
                assert(fr == 0) by {
                    assert(n == 65536 * d);
                    vstd::arithmetic::div_mod::lemma_mod_multiples_basic(65536, d);
                }
            }
        }
        assert(k < 65535) by (nonlinear_arith)
            requires
                d * k + fr == 65536 * pb,
                0 <= fr,
                pb + 1 <= d,
                0 < pb <= 32768,
        ;
        assert(k >= 0) by (nonlinear_arith)
            requires
                d * k + fr == n,
                n > 0,
                0 <= fr < d,
                d > 0,
        ;
        if fr <= d / 2 {
            let t = m + 1;
            lemma_two_multiplies(t, k, (16 - b) as nat, b);
            assert(t * fr <= 65536 * pb) by (nonlinear_arith)
                requires
                    0 <= t <= 65536,
                    0 <= fr <= pb,
            ;
            assert(t * fr > 0) by (nonlinear_arith)
                requires
                    0 < t,
                    0 < fr,
            ;
            assert(q * n <= t * k < (q + 1) * n) by (nonlinear_arith)
                requires
                    t == d * q + e + 1,
                    0 <= e < d,
                    d * k == n - fr,
                    0 < t * fr <= n,
                    0 < d,
                    0 < n,
                    0 <= q,
            {
                assert(d * (t * k) == t * n - t * fr) by (nonlinear_arith)
                    requires
                        d * k == n - fr,
                ;
                assert(t * n == d * (q * n) + e * n + n) by (nonlinear_arith)
                    requires
                        t == d * q + e + 1,
                ;
                assert(0 <= e * n) by (nonlinear_arith)
                    requires
                        0 <= e,
                        0 < n,
                ;
                assert(e * n + n <= d * n) by (nonlinear_arith)
                    requires
                        e + 1 <= d,
                        0 < n,
                ;
                assert(d * (t * k) >= d * (q * n));
                assert(d * ((q + 1) * n) == d * (q * n) + d * n) by (nonlinear_arith);
                assert(d * (t * k) < d * ((q + 1) * n));
            }
            lemma_quotient(t * k, n, q);
        } else {
            let f = k + 1;
            let g = d - fr;
            lemma_two_multiplies(m, f, (16 - b) as nat, b);
            assert(g <= d / 2);
            assert(d / 2 < pb);
            assert(m * g < 65536 * pb) by (nonlinear_arith)
                requires
                    0 <= m <= 65535,
                    0 <= g < pb,
                    0 < pb,
            ;
            assert(0 <= m * g) by (nonlinear_arith)
                requires
                    0 <= m,
                    0 <= g,
            ;
            assert(d * f == n + g) by (nonlinear_arith)
                requires
                    d * k == n - fr,
                    f == k + 1,
                    g == d - fr,
            ;
            assert(q * n <= m * f < (q + 1) * n) by (nonlinear_arith)
                requires
                    m == d * q + e,
                    0 <= e < d,
                    d * f == n + g,
                    0 <= m * g < n,
                    0 < d,
                    0 < n,
                    0 <= q,
            {
                assert(d * (m * f) == m * n + m * g) by (nonlinear_arith)
                    requires
                        d * f == n + g,
                ;
                assert(m * n == d * (q * n) + e * n) by (nonlinear_arith)
                    requires
                        m == d * q + e,
                ;
                assert(0 <= e * n) by (nonlinear_arith)
                    requires
                        0 <= e,
                        0 < n,
                ;
                assert(e * n + n <= d * n) by (nonlinear_arith)
                    requires
                        e + 1 <= d,
                        0 < n,
                ;
                assert(d * (m * f) >= d * (q * n));
                assert(d * ((q + 1) * n) == d * (q * n) + d * n) by (nonlinear_arith);
                assert(d * (m * f) < d * ((q + 1) * n));
            }
            lemma_quotient(m * f, n, q);
        }
    }
}

/// Quantising a coefficient divides it by its quantiser and rounds to the
/// nearest integer, halves away from zero.
pub proof fn law_quantise_rounds(x: int, d: int)
    requires
        -32768 <= x <= 32767,
        3 <= d <= 32767,
    ensures
        ({
            let (c, f, s) = reciprocal_of(d);
            quantise(x, c, f, s) == (if x < 0 {
                -((-x + d / 2) / d)
            } else {
                (x + d / 2) / d
            })
        }),
{
    let a = if x < 0 {
        -x
    } else {
        x
    };
    lemma_reciprocal_divides(a, d);
    let q = (a + d / 2) / d;
    lemma_fundamental_div_mod(a + d / 2, d);
    assert(0 <= q <= 32767) by (nonlinear_arith)
        requires
            a + d / 2 == d * q + (a + d / 2) % d,
            0 <= (a + d / 2) % d < d,
            0 <= a <= 32768,
            3 <= d <= 32767,
    ;
    if x == 0 {
        assert(q == 0) by (nonlinear_arith)
            requires
                a + d / 2 == d * q + (a + d / 2) % d,
                0 <= (a + d / 2) % d < d,
                a == 0,
                3 <= d,
                0 <= q,
        ;
    }
}

} // verus!
