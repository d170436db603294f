//! How long a frame lasts: what the rounding of rates and ticks comes to.

use crate::clock::{audio_interval_of, centi_rate, interval_of, nearest_whole, ticks_at, whole};
use crate::float::{gap, lemma_rounded, rounded};
use vstd::arithmetic::power2::{lemma2_to64, lemma2_to64_rest, lemma_pow2_adds, lemma_pow2_pos, pow2};
use vstd::prelude::*;

verus! {

/// `2^a == 2^b * 2^(a - b)`.
proof fn lemma_split(a: nat, b: nat)
    requires
        b <= a,
    ensures
        pow2(a) == pow2(b) * pow2((a - b) as nat),
        pow2(a) > 0,
        pow2(b) > 0,
        pow2((a - b) as nat) > 0,
{
    lemma_pow2_adds(b, (a - b) as nat);
    lemma_pow2_pos(a);
    lemma_pow2_pos(b);
    lemma_pow2_pos((a - b) as nat);
}

/// Rounding `m * 2^k / 2^j` to an integer moves it by at most a half.
proof fn lemma_nearest_whole(m: int, k: nat, j: nat)
    requires
        m >= 0,
    ensures
        2 * gap(nearest_whole(m, k - j) * pow2(j), m * pow2(k)) <= pow2(j),
        nearest_whole(m, k - j) >= 0,
{
    let c = nearest_whole(m, k - j);
    if k >= j {
        lemma_split(k, j);
        let (a, b, u) = (pow2(k) as int, pow2(j) as int, pow2((k - j) as nat) as int);
        assert(m * u * b == m * (b * u)) by (nonlinear_arith);
        assert(m * u >= 0) by (nonlinear_arith)
            requires
                m >= 0,
                u > 0,
        ;
    } else {
        lemma_split(j, k);
        let (a, b, u) = (pow2(k) as int, pow2(j) as int, pow2((j - k) as nat) as int);
        let x = 2 * m + u;
        let w = 2 * u;
        vstd::arithmetic::div_mod::lemma_fundamental_div_mod(x, w);
        assert(0 <= x % w < w) by (nonlinear_arith)
            requires
                w > 0,
        ;
        assert(c == x / w);
        assert(w * c == 2 * (c * u)) by (nonlinear_arith)
            requires
                w == 2 * u,
        ;
        assert(2 * gap(c * u, m) <= u);
        assert(c * b == c * u * a) by (nonlinear_arith)
            requires
                b == a * u,
        ;
        assert(gap(c * u * a, m * a) == gap(c * u, m) * a) by (nonlinear_arith)
            requires
                a > 0,
                gap(c * u, m) == c * u - m || gap(c * u, m) == m - c * u,
                gap(c * u * a, m * a) == c * u * a - m * a || gap(c * u * a, m * a) == m * a - c * u * a,
                gap(c * u, m) >= 0,
                gap(c * u * a, m * a) >= 0,
        ;
        assert(2 * (gap(c * u, m) * a) <= a * u) by (nonlinear_arith)
            requires
                2 * gap(c * u, m) <= u,
                a > 0,
        ;
        assert(c >= 0) by (nonlinear_arith)
            requires
                x == w * c + x % w,
                x >= 0,
                x % w < w,
                w > 0,
        ;
    }
}

/// Scaling both numbers scales their distance.
proof fn lemma_gap_scaled(a: int, b: int, f: int)
    requires
        f >= 0,
    ensures
        gap(a * f, b * f) == gap(a, b) * f,
{
    assert((b - a) * f == b * f - a * f) by (nonlinear_arith);
    assert((a - b) * f == a * f - b * f) by (nonlinear_arith);
    assert(a < b ==> a * f <= b * f) by (nonlinear_arith)
        requires
            f >= 0,
    ;
    assert(a >= b ==> a * f >= b * f) by (nonlinear_arith)
        requires
            f >= 0,
    ;
}

/// The distances behind a hundred times the rate: `c` is the rounded result,
/// `m` the rate and `h` a hundred times it, in doubles, `j` and `i` the scales.
proof fn lemma_centi_error(n: int, d: int, c: int, m: int, h: int, j: int, i: int, t: int)
    requires
        0 < n,
        0 < d,
        0 < j,
        0 < i,
        0 <= m,
        600 * n < t,
        t * gap(m * d, n * j) <= n * j,
        t * gap(h, 100 * m * i) <= 100 * m * i,
        2 * gap(c * (i * j), h) <= i * j,
    ensures
        2 * gap(c * d, 100 * n) <= d,
{
    // All three distances at the common scale d * i * j.
    let s = i * j;
    assert(s > 0) by (nonlinear_arith)
        requires
            i > 0,
            j > 0,
            s == i * j,
    ;
    let g1 = gap(m * d, n * j);
    let g2 = gap(h, 100 * m * i);
    let g3 = gap(c * s, h);
    let g = gap(c * d, 100 * n);
    lemma_gap_scaled(c * d, 100 * n, s);
    lemma_gap_scaled(c * s, h, d);
    lemma_gap_scaled(h, 100 * m * i, d);
    lemma_gap_scaled(m * d, n * j, 100 * i);
    assert(c * d * s == c * s * d) by (nonlinear_arith);
    assert(100 * m * i * d == m * d * (100 * i)) by (nonlinear_arith);
    assert(n * j * (100 * i) == 100 * n * s) by (nonlinear_arith)
        requires
            s == i * j,
    ;
    assert(g * s <= g3 * d + g2 * d + g1 * (100 * i));
    let nj = n * j;
    let md = m * d;
    assert(nj > 0) by (nonlinear_arith)
        requires
            nj == n * j,
            n > 0,
            j > 0,
    ;
    assert(g1 <= nj) by (nonlinear_arith)
        requires
            t * g1 <= nj,
            t >= 1,
            g1 >= 0,
    ;
    assert(md <= 2 * nj);
    assert(t * (g2 * d) <= 200 * (nj * i)) by (nonlinear_arith)
        requires
            t * g2 <= 100 * m * i,
            md == m * d,
            md <= 2 * nj,
            d > 0,
            i > 0,
    {
        assert(t * g2 * d <= 100 * m * i * d);
        assert(100 * m * i * d == 100 * i * md);
        assert(100 * i * md <= 100 * i * (2 * nj));
    }
    assert(t * (g1 * (100 * i)) <= 100 * (nj * i)) by (nonlinear_arith)
        requires
            t * g1 <= nj,
            i > 0,
    {
        assert(t * g1 * (100 * i) <= nj * (100 * i));
    }
    assert(nj * i == n * s) by (nonlinear_arith)
        requires
            nj == n * j,
            s == i * j,
    ;
    assert(2 * (g3 * d) <= s * d) by (nonlinear_arith)
        requires
            2 * g3 <= s,
            d > 0,
    ;
    assert(2 * (t * (g * s)) <= t * (s * d) + 600 * (n * s)) by (nonlinear_arith)
        requires
            g * s <= g3 * d + g2 * d + g1 * (100 * i),
            2 * (g3 * d) <= s * d,
            t * (g2 * d) <= 200 * (n * s),
            t * (g1 * (100 * i)) <= 100 * (n * s),
            t > 0,
    {
        assert(t * (g * s) <= t * (g3 * d) + t * (g2 * d) + t * (g1 * (100 * i)));
        assert(t * (2 * (g3 * d)) <= t * (s * d));
    }
    assert(2 * g * t <= t * d + 600 * n) by (nonlinear_arith)
        requires
            2 * (t * (g * s)) <= t * (s * d) + 600 * (n * s),
            s > 0,
    {
        assert(2 * (t * (g * s)) == (2 * g * t) * s);
        assert(t * (s * d) + 600 * (n * s) == (t * d + 600 * n) * s);
    }
    if 2 * g > d {
        assert(2 * g * t >= (d + 1) * t && (d + 1) * t == t * d + t) by (nonlinear_arith)
            requires
                2 * g >= d + 1,
                t > 0,
        ;
    }
}

/// The rate is rounded to two decimals: a hundred times it is an integer that
/// is at most a half from the true one.
pub proof fn law_rate_in_hundredths(n: int, d: int)
    requires
        0 < n <= 0x8000_0000,
        0 < d <= 0x8000_0000,
    ensures
        2 * gap(centi_rate(n as nat, d as nat) * d, 100 * n) <= d,
        centi_rate(n as nat, d as nat) >= 0,
{
    lemma2_to64();
    lemma2_to64_rest();
    let t = pow2(53) as int;
    let (m, e) = rounded(53, n as nat, d as nat);
    let (k, j) = lemma_rounded(53, n as nat, d as nat);
    assert(n < t * d) by (nonlinear_arith)
        requires
            n < t,
            d >= 1,
            t > 0,
    ;
    assert(d * pow2(0) == d);
    let (m2, e2) = rounded(53, (100 * m) as nat, 1);
    let (k2, j2) = lemma_rounded(53, (100 * m) as nat, 1);
    assert(1 * pow2(k2) == pow2(k2));
    lemma_pow2_adds(j2, j);
    lemma_pow2_pos(j);
    lemma_pow2_pos(j2);
    assert(e + e2 == k2 - (j2 + j));
    lemma_nearest_whole(m2, k2, j2 + j);
    lemma_centi_error(
        n,
        d,
        nearest_whole(m2, e + e2),
        m,
        m2 * pow2(k2),
        pow2(j) as int,
        pow2(j2) as int,
        t,
    );
}

/// `m * 2^k / 2^j` cut to an integer.
proof fn lemma_whole(m: int, k: nat, j: nat)
    requires
        m >= 0,
    ensures
        whole(m, k - j) == (m * pow2(k)) / pow2(j) as int,
{
    if k >= j {
        lemma_split(k, j);
        let (b, u) = (pow2(j) as int, pow2((k - j) as nat) as int);
        assert(m * (b * u) == b * (m * u)) by (nonlinear_arith);
        vstd::arithmetic::div_mod::lemma_div_multiples_vanish(m * u, b);
    } else {
        lemma_split(j, k);
        let (a, u) = (pow2(k) as int, pow2((j - k) as nat) as int);
        vstd::arithmetic::div_mod::lemma_div_denominator(a * m, a, u);
        vstd::arithmetic::div_mod::lemma_div_multiples_vanish(m, a);
        assert(m * a == a * m) by (nonlinear_arith);
    }
}

/// Larger factors give a larger product.
proof fn lemma_three(a: int, b: int, c: int, x: int, y: int, z: int)
    requires
        0 <= a <= x,
        0 <= b <= y,
        0 <= c <= z,
    ensures
        a * b * c <= x * y * z,
{
    assert(0 <= a * b <= x * y) by (nonlinear_arith)
        requires
            0 <= a <= x,
            0 <= b <= y,
    ;
    assert(a * b * c <= x * y * z) by (nonlinear_arith)
        requires
            0 <= a * b <= x * y,
            0 <= c <= z,
    ;
}

/// A distance that is a small part of a number bounds its ratio.
proof fn lemma_ratio(a: int, b: int, t: int, n: int)
    requires
        0 < n <= t,
        0 <= b,
        t * gap(a, b) <= b,
    ensures
        (n - 1) * b <= n * a,
        n * a <= (n + 1) * b,
{
    let g = gap(a, b);
    assert(n * g <= b) by (nonlinear_arith)
        requires
            t * g <= b,
            0 < n <= t,
            g >= 0,
    ;
    assert(n * a <= n * b + n * g && n * b <= n * a + n * g) by (nonlinear_arith)
        requires
            a <= b + g,
            b <= a + g,
            n > 0,
    ;
    assert((n - 1) * b == n * b - b && (n + 1) * b == n * b + b) by (nonlinear_arith);
}

/// Three roundings move a quotient by no more than five parts in `2^24`: `x`
/// stands for the result and `y` for the true value.
proof fn lemma_quotient(a1: int, b1: int, a2: int, b2: int, a3: int, b3: int, x: int, y: int, f: int, n: int)
    requires
        n == 0x100_0000,
        0 < f,
        0 <= a1,
        0 <= b1,
        0 <= a2,
        0 <= b2,
        0 <= a3,
        0 <= b3,
        0 <= x,
        0 <= y,
        (n - 1) * b1 <= n * a1 <= (n + 1) * b1,
        (n - 1) * b2 <= n * a2 <= (n + 1) * b2,
        (n - 1) * b3 <= n * a3 <= (n + 1) * b3,
        a3 * b2 * b1 == f * x,
        b3 * a2 * a1 == f * y,
    ensures
        n * x <= (n + 5) * y,
        (n - 5) * y <= n * x,
{
    lemma_three(n * a3, (n - 1) * b2, (n - 1) * b1, (n + 1) * b3, n * a2, n * a1);
    lemma_three((n - 1) * b3, n * a2, n * a1, n * a3, (n + 1) * b2, (n + 1) * b1);
    assert(n * a3 * ((n - 1) * b2) * ((n - 1) * b1) == n * (n - 1) * (n - 1) * (a3 * b2 * b1)) by (nonlinear_arith);
    assert((n + 1) * b3 * (n * a2) * (n * a1) == (n + 1) * n * n * (b3 * a2 * a1)) by (nonlinear_arith);
    assert((n - 1) * b3 * (n * a2) * (n * a1) == (n - 1) * n * n * (b3 * a2 * a1)) by (nonlinear_arith);
    assert(n * a3 * ((n + 1) * b2) * ((n + 1) * b1) == n * (n + 1) * (n + 1) * (a3 * b2 * b1)) by (nonlinear_arith);
    let (c1, c2, c3, c4) = (n * (n - 1) * (n - 1), (n + 1) * n * n, (n - 1) * n * n, n * (n + 1) * (n + 1));
    assert(c1 * x <= c2 * y && c3 * y <= c4 * x) by (nonlinear_arith)
        requires
            c1 * (f * x) <= c2 * (f * y),
            c3 * (f * y) <= c4 * (f * x),
            f > 0,
    {
        assert(c1 * (f * x) == f * (c1 * x));
        assert(c2 * (f * y) == f * (c2 * y));
        assert(c3 * (f * y) == f * (c3 * y));
        assert(c4 * (f * x) == f * (c4 * x));
    }
    assert(c2 * n <= c1 * (n + 5)) by (nonlinear_arith)
        requires
            n == 0x100_0000,
            c1 == n * (n - 1) * (n - 1),
            c2 == (n + 1) * n * n,
    ;
    assert(c4 * (n - 5) <= c3 * n) by (nonlinear_arith)
        requires
            n == 0x100_0000,
            c4 == n * (n + 1) * (n + 1),
            c3 == (n - 1) * n * n,
    ;
    assert(c1 > 0 && c4 > 0) by (nonlinear_arith)
        requires
            n == 0x100_0000,
            c1 == n * (n - 1) * (n - 1),
            c4 == n * (n + 1) * (n + 1),
    ;
    assert(n * x <= (n + 5) * y) by (nonlinear_arith)
        requires
            c1 * x <= c2 * y,
            c2 * n <= c1 * (n + 5),
            c1 > 0,
            n > 0,
            y >= 0,
    {
        assert(n * (c1 * x) <= n * (c2 * y));
        assert(c2 * n * y <= c1 * (n + 5) * y);
        assert(c1 * (n * x) <= c1 * ((n + 5) * y));
    }
    assert((n - 5) * y <= n * x) by (nonlinear_arith)
        requires
            c3 * y <= c4 * x,
            c4 * (n - 5) <= c3 * n,
            c4 > 0,
            n > 0,
            y >= 0,
    {
        assert(n * (c3 * y) <= n * (c4 * x));
        assert(c4 * (n - 5) * y <= c3 * n * y);
        assert(c4 * ((n - 5) * y) <= c4 * (n * x));
    }
}

/// The ticks are a quotient, cut off, that differs from `10^9 / c` by no more
/// than five parts in `2^24`.
proof fn lemma_ticks(c: int) -> (r: (int, int))
    requires
        0 < c,
    ensures
        r.0 >= 0,
        r.1 > 0,
        ticks_at(c as nat) == r.0 / r.1,
        0x100_0000 * (r.0 * c) <= 0x100_0005 * (1_000_000_000 * r.1),
        0xff_fffb * (1_000_000_000 * r.1) <= 0x100_0000 * (r.0 * c),
{
    lemma2_to64();
    lemma2_to64_rest();
    let n: int = 0x100_0000;
    let (m, e) = rounded(53, c as nat, 100);
    let (k1, j1) = lemma_rounded(53, c as nat, 100);
    let (m2, e2) = rounded(24, m as nat, 1);
    let (k2, j2) = lemma_rounded(24, m as nat, 1);
    let (m3, e3) = rounded(24, 10_000_000, m2 as nat);
    let (k3, j3) = lemma_rounded(24, 10_000_000, m2 as nat);
    lemma_pow2_pos(k1);
    lemma_pow2_pos(k2);
    lemma_pow2_pos(k3);
    lemma_pow2_pos(j1);
    lemma_pow2_pos(j2);
    lemma_pow2_pos(j3);
    let (p1, p2, p3) = (pow2(k1) as int, pow2(k2) as int, pow2(k3) as int);
    let (q1, q2, q3) = (pow2(j1) as int, pow2(j2) as int, pow2(j3) as int);
    lemma_pow2_adds(k3, j1);
    lemma_pow2_adds(k3 + j1, j2);
    lemma_pow2_adds(j3, k1);
    lemma_pow2_adds(j3 + k1, k2);
    lemma_whole(m3, k3 + j1 + j2, j3 + k1 + k2);
    let top = m3 * (p3 * q1 * q2);
    let bottom = q3 * p1 * p2;
    assert(e3 - (e + e2) == (k3 + j1 + j2) - (j3 + k1 + k2));
    assert(p3 * q1 * q2 > 0 && bottom > 0) by (nonlinear_arith)
        requires
            p1 > 0,
            p2 > 0,
            p3 > 0,
            q1 > 0,
            q2 > 0,
            q3 > 0,
            bottom == q3 * p1 * p2,
    {
        assert(p3 * q1 > 0);
        assert(q3 * p1 > 0);
    }
    assert(top >= 0) by (nonlinear_arith)
        requires
            top == m3 * (p3 * q1 * q2),
            m3 > 0,
            p3 * q1 * q2 > 0,
    ;
    let (a1, b1) = (m * (100 * p1), c * q1);
    let (a2, b2) = (m2 * (1 * p2), m * q2);
    let (a3, b3) = (m3 * (m2 * p3), 10_000_000 * q3);
    assert(a1 >= 0 && b1 >= 0 && a2 >= 0 && b2 >= 0 && a3 >= 0 && b3 >= 0) by (nonlinear_arith)
        requires
            a1 == m * (100 * p1),
            b1 == c * q1,
            a2 == m2 * (1 * p2),
            b2 == m * q2,
            a3 == m3 * (m2 * p3),
            b3 == 10_000_000 * q3,
            m > 0,
            m2 > 0,
            m3 > 0,
            c > 0,
            p1 > 0,
            p2 > 0,
            p3 > 0,
            q1 > 0,
            q2 > 0,
            q3 > 0,
    {
        assert(m2 * p3 > 0);
    }
    lemma_ratio(a1, b1, pow2(53) as int, n);
    lemma_ratio(a2, b2, pow2(24) as int, n);
    lemma_ratio(a3, b3, pow2(24) as int, n);
    let f = m * m2;
    assert(f > 0) by (nonlinear_arith)
        requires
            f == m * m2,
            m > 0,
            m2 > 0,
    ;
    let x = top * c;
    let y = 1_000_000_000 * bottom;
    assert(x >= 0) by (nonlinear_arith)
        requires
            x == top * c,
            top >= 0,
            c > 0,
    ;
    let w = m3 * p3 * q2;
    assert(m3 * (m2 * p3) * (m * q2) == m * m2 * (m3 * p3 * q2)) by (nonlinear_arith);
    assert(f * w * (c * q1) == f * (w * q1 * c)) by (nonlinear_arith);
    assert(m3 * (p3 * q1 * q2) == m3 * p3 * q2 * q1) by (nonlinear_arith);
    assert(b3 * a2 * a1 == f * y) by (nonlinear_arith)
        requires
            b3 == 10_000_000 * q3,
            a2 == m2 * (1 * p2),
            a1 == m * (100 * p1),
            f == m * m2,
            y == 1_000_000_000 * (q3 * p1 * p2),
    ;
    lemma_quotient(a1, b1, a2, b2, a3, b3, x, y, f, n);
    (top, bottom)
}

/// What the ticks are worth, and that they fall as the rate rises.
proof fn lemma_ticks_fall(c: int, c2: int)
    requires
        0 < c <= c2,
        10 * c <= 0xff_fffb,
    ensures
        ticks_at(c2 as nat) <= ticks_at(c as nat),
{
    if c < c2 {
        let (s, q) = lemma_ticks(c);
        let (s2, q2) = lemma_ticks(c2);
        let n: int = 0x100_0000;
        let (lo, hi) = (n - 5, n + 5);
        let g: int = 1_000_000_000;
        assert(s2 * q <= s * q2) by {
            let a = n * (s2 * c2);
            let b = hi * (g * q2);
            let x = lo * (g * q);
            let y = n * (s * c);
            assert(0 <= a && 0 <= x) by (nonlinear_arith)
                requires
                    a == n * (s2 * c2),
                    x == lo * (g * q),
                    n > 0,
                    s2 >= 0,
                    c2 > 0,
                    lo > 0,
                    g > 0,
                    q > 0,
            {
                assert(s2 * c2 >= 0);
                assert(g * q >= 0);
            }
            assert(a * x <= b * y) by (nonlinear_arith)
                requires
                    0 <= a <= b,
                    0 <= x <= y,
            ;
            let (k, l) = (s2 * q, s * q2);
            assert(k >= 0) by (nonlinear_arith)
                requires
                    k == s2 * q,
                    s2 >= 0,
                    q > 0,
            ;
            let (u, v) = (s2 * c2, g * q);
            assert(s2 * c2 * (g * q) == g * (s2 * q * c2)) by (nonlinear_arith);
            assert(n * u * (lo * v) == n * lo * (u * v)) by (nonlinear_arith);
            assert(n * lo * (g * (k * c2)) == n * g * (k * (c2 * lo))) by (nonlinear_arith);
            assert(b * y == n * g * (l * (c * hi))) by (nonlinear_arith)
                requires
                    b == hi * (g * q2),
                    y == n * (s * c),
                    l == s * q2,
            ;
            assert(k * (c2 * lo) <= l * (c * hi)) by (nonlinear_arith)
                requires
                    n * g * (k * (c2 * lo)) <= n * g * (l * (c * hi)),
                    n * g > 0,
            ;
            assert(c * hi <= c2 * lo && c * hi > 0) by (nonlinear_arith)
                requires
                    0 < c,
                    c + 1 <= c2,
                    10 * c <= lo,
                    hi == lo + 10,
                    lo > 0,
            ;
            let u = c * hi;
            assert(k * u <= k * (c2 * lo)) by (nonlinear_arith)
                requires
                    k >= 0,
                    u <= c2 * lo,
            ;
            assert(k <= l) by (nonlinear_arith)
                requires
                    k * u <= l * u,
                    u > 0,
            ;
        }
        lemma_quotients(s2, q2, s, q);
    }
}

/// A smaller quotient is not larger once it is cut off.
proof fn lemma_quotients(a: int, b: int, x: int, y: int)
    requires
        0 < b,
        0 < y,
        a * y <= x * b,
    ensures
        a / b <= x / y,
{
    let (p, q) = (a / b, x / y);
    vstd::arithmetic::div_mod::lemma_fundamental_div_mod(a, b);
    vstd::arithmetic::div_mod::lemma_fundamental_div_mod(x, y);
    assert(0 <= a % b && x % y < y) by (nonlinear_arith)
        requires
            b > 0,
            y > 0,
    ;
    if p > q {
        assert(b * p * y <= a * y) by (nonlinear_arith)
            requires
                b * p <= a,
                y > 0,
        ;
        assert(x * b < y * (q + 1) * b) by (nonlinear_arith)
            requires
                x < y * q + y,
                b > 0,
        ;
        assert(y * (q + 1) * b <= b * p * y) by (nonlinear_arith)
            requires
                q + 1 <= p,
                b > 0,
                y > 0,
        {
            assert(y * b > 0);
        }
    }
}

/// Ticks times rate make a second, but for the tick that is cut off and three
/// parts in ten million.
proof fn lemma_ticks_second(c: int)
    requires
        0 < c,
    ensures
        gap(ticks_at(c as nat) * c, 1_000_000_000) <= c + 300,
        ticks_at(c as nat) >= 0,
{
    let (s, q) = lemma_ticks(c);
    let i = s / q;
    vstd::arithmetic::div_mod::lemma_fundamental_div_mod(s, q);
    assert(0 <= s % q < q) by (nonlinear_arith)
        requires
            q > 0,
    ;
    assert(i >= 0) by (nonlinear_arith)
        requires
            s == q * i + s % q,
            s >= 0,
            s % q < q,
            q > 0,
    ;
    let n: int = 0x100_0000;
    let g: int = 1_000_000_000;
    let x = s * c;
    // i * c * q lies between x - c * q and x.
    assert(i * c * q <= x && x <= i * c * q + c * q) by (nonlinear_arith)
        requires
            q * i <= s,
            s <= q * i + q,
            c > 0,
            x == s * c,
    ;
    let ic = i * c;
    assert(n * ic <= (n + 5) * g) by (nonlinear_arith)
        requires
            ic * q <= x,
            n * x <= (n + 5) * (g * q),
            n > 0,
            q > 0,
    {
        assert(n * (ic * q) <= n * x);
        assert(n * ic * q <= (n + 5) * g * q);
    }
    assert((n - 5) * g <= n * (ic + c)) by (nonlinear_arith)
        requires
            x <= ic * q + c * q,
            (n - 5) * (g * q) <= n * x,
            n > 0,
            q > 0,
    {
        assert(n * x <= n * (ic * q + c * q));
        assert((n - 5) * g * q <= n * (ic + c) * q);
    }
}

/// How far `i` ticks for one frame are from the true frame time.
pub open spec fn off_by(i: int, n: int, d: int) -> int {
    gap(i * n, 10_000_000 * d)
}

/// The interval is the time that one frame takes: `n` frames of it make `d`
/// seconds. It is off by the tick that is cut off and by what rounding the rate
/// to two decimals comes to: no more than one part in a thousand for rates from
/// 10 on, six for rates from 1 on, and a tick and a fraction for whole rates.
pub proof fn law_interval_is_the_frame_time(n: int, d: int)
    requires
        0 < d <= i32::MAX,
        d <= n <= i32::MAX,
        n <= 1000 * d,
    ensures
        0 < interval_of(n, d),
        1000 * off_by(interval_of(n, d), n, d) <= 6 * (10_000_000 * d),
        n >= 10 * d ==> 1000 * off_by(interval_of(n, d), n, d) <= 10_000_000 * d,
        d == 1 ==> off_by(interval_of(n, d), n, d) <= n + 3,
{
    law_rate_in_hundredths(n, d);
    let c = centi_rate(n as nat, d as nat);
    let cd = c * d;
    assert(100 * d <= 2 * c * d + d) by (nonlinear_arith)
        requires
            100 * n - c * d <= d,
            d <= n,
            2 * (100 * n - c * d) <= d,
            d > 0,
    ;
    assert(99 < c <= 100_000) by (nonlinear_arith)
        requires
            2 * gap(c * d, 100 * n) <= d,
            gap(c * d, 100 * n) >= 100 * n - c * d,
            gap(c * d, 100 * n) >= c * d - 100 * n,
            d <= n <= 1000 * d,
            d > 0,
    ;
    lemma_ticks_second(c);
    let i = ticks_at(c as nat);
    assert(i == interval_of(n, d));
    let e = gap(i * c, 1_000_000_000);
    let g = gap(cd, 100 * n);
    lemma_gap_scaled(i * c, 1_000_000_000, d);
    lemma_gap_scaled(cd, 100 * n, i);
    assert(i * c * d == cd * i) by (nonlinear_arith)
        requires
            cd == c * d,
    ;
    assert(100 * n * i == 100 * (i * n)) by (nonlinear_arith);
    assert(100 * off_by(i, n, d) <= e * d + g * i);
    assert(2 * (g * i) <= i * d) by (nonlinear_arith)
        requires
            2 * g <= d,
            i >= 0,
    ;
    assert(e * d <= (c + 300) * d) by (nonlinear_arith)
        requires
            e <= c + 300,
            d > 0,
    ;
    assert(i * 99 <= 1_001_000_000) by (nonlinear_arith)
        requires
            i * c <= 1_000_000_000 + c + 300,
            99 < c <= 100_000,
            i >= 0,
    ;
    assert(i * d <= 10_111_112 * d) by (nonlinear_arith)
        requires
            i <= 10_111_112,
            d > 0,
    ;
    assert((c + 300) * d <= 100_300 * d) by (nonlinear_arith)
        requires
            c <= 100_000,
            d > 0,
    ;
    if n >= 10 * d {
        assert(c >= 999) by (nonlinear_arith)
            requires
                2 * (100 * n - c * d) <= d,
                10 * d <= n,
                d > 0,
        ;
        assert(i * 999 <= 1_001_000_000) by (nonlinear_arith)
            requires
                i * c <= 1_000_000_000 + c + 300,
                999 <= c <= 100_000,
                i >= 0,
        ;
        assert(i * d <= 1_002_003 * d) by (nonlinear_arith)
            requires
                i <= 1_002_003,
                d > 0,
        ;
    }
    if d == 1 {
        assert(cd == c);
        assert(g == 0);
        assert(g * i == 0);
        assert(e * d == e && (c + 300) * d == c + 300) by (nonlinear_arith)
            requires
                d == 1,
        ;
    }
    assert(i > 0) by (nonlinear_arith)
        requires
            1_000_000_000 - i * c <= c + 300,
            c <= 100_000,
            c > 0,
    ;
}

/// A higher rate never has a longer interval.
pub proof fn law_higher_rate_shorter_interval(n: int, d: int, n2: int, d2: int)
    requires
        0 < n <= i32::MAX,
        0 < d <= i32::MAX,
        0 < n2 <= i32::MAX,
        0 < d2 <= i32::MAX,
        d <= n <= 1000 * d,
        n * d2 < n2 * d,
    ensures
        interval_of(n2, d2) <= interval_of(n, d),
{
    law_rate_in_hundredths(n, d);
    law_rate_in_hundredths(n2, d2);
    let c = centi_rate(n as nat, d as nat);
    let c2 = centi_rate(n2 as nat, d2 as nat);
    assert(99 < c <= 100_000) by (nonlinear_arith)
        requires
            2 * (100 * n - c * d) <= d,
            2 * (c * d - 100 * n) <= d,
            d <= n <= 1000 * d,
            d > 0,
    ;
    assert(c <= c2) by {
        let (x, y) = (c * d * d2, c2 * d2 * d);
        let (a, b) = (n * d2, n2 * d);
        assert(2 * x <= 200 * a + d * d2) by (nonlinear_arith)
            requires
                2 * (c * d - 100 * n) <= d,
                d2 > 0,
                x == c * d * d2,
                a == n * d2,
        ;
        assert(200 * b - d * d2 <= 2 * y) by (nonlinear_arith)
            requires
                2 * (100 * n2 - c2 * d2) <= d2,
                d > 0,
                y == c2 * d2 * d,
                b == n2 * d,
        ;
        let w = d * d2;
        assert(x == c * w && y == c2 * w && w > 0) by (nonlinear_arith)
            requires
                x == c * d * d2,
                y == c2 * d2 * d,
                w == d * d2,
                d > 0,
                d2 > 0,
        ;
        assert(x < y + w);
        assert(c < c2 + 1) by (nonlinear_arith)
            requires
                c * w < c2 * w + w,
                w > 0,
        ;
    }
    lemma_ticks_fall(c, c2);
}

/// Only a positive rate has an interval, and a rate is its two parts' ratio
/// whatever their sign.
pub proof fn law_rate_signs(n: int, d: int)
    requires
        n != 0,
        d != 0,
    ensures
        interval_of(-n, -d) == interval_of(n, d),
        interval_of(n, -d) == 0 || interval_of(n, d) == 0,
        (n < 0) != (d < 0) ==> interval_of(n, d) == 0,
{
}

/// Audio: `samples` samples at the rate take that long, cut to whole ticks.
pub proof fn law_audio_interval(sample_rate: int, samples: int)
    requires
        0 < sample_rate,
        0 < samples,
    ensures
        audio_interval_of(sample_rate, samples) * sample_rate <= 10_000_000 * samples,
        10_000_000 * samples < (audio_interval_of(sample_rate, samples) + 1) * sample_rate,
{
    let x = 10_000_000 * samples;
    let i = x / sample_rate;
    vstd::arithmetic::div_mod::lemma_fundamental_div_mod(x, sample_rate);
    assert(0 <= x % sample_rate < sample_rate) by (nonlinear_arith)
        requires
            sample_rate > 0,
    ;
    assert(i * sample_rate == sample_rate * i) by (nonlinear_arith);
    assert((i + 1) * sample_rate == sample_rate * i + sample_rate) by (nonlinear_arith);
}

} // verus!
