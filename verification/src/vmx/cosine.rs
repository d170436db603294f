//! The forward transform is the discrete cosine transform.

use super::dct::{
    column, fold, forward, forward_column, forward_columns, forward_row, forward_table, input_scale, swapped, Depth,
};
use super::fidelity::{is_block, lemma_column_sum, lemma_diff, lemma_low, lemma_sum, sum8, top_sample};
use super::lanes::{high16, low16, odd16};
use super::tables::{FDCT_SQRT2, FDCT_TAN1, FDCT_TAN2, FDCT_TAN3, FTAB1, FTAB2, FTAB3, FTAB4};
use vstd::prelude::*;

verus! {

/// `2^14 cos(k pi / 16)`, rounded.
pub open spec fn cosine(k: int) -> int {
    let r = k % 32;
    let q = if r <= 16 {
        r
    } else {
        32 - r
    };
    if q <= 8 {
        quarter(q)
    } else {
        -quarter(16 - q)
    }
}

/// The same over a quarter turn.
pub open spec fn quarter(k: int) -> int {
    if k == 0 {
        16384
    } else if k == 1 {
        16069
    } else if k == 2 {
        15137
    } else if k == 3 {
        13623
    } else if k == 4 {
        11585
    } else if k == 5 {
        9102
    } else if k == 6 {
        6270
    } else if k == 7 {
        3196
    } else {
        0
    }
}

/// Element `j` of vector `u` of the cosine basis, `2^14` times what makes all
/// vectors equally long.
pub open spec fn basis(u: int, j: int) -> int {
    if u == 0 {
        11585
    } else {
        cosine((2 * j + 1) * u)
    }
}

/// The scale that the column pass leaves on coefficient `u`, times `2^14`.
pub open spec fn column_scale(u: int) -> int {
    if u == 0 || u == 4 {
        11585
    } else if u == 1 || u == 7 {
        16069
    } else if u == 2 || u == 6 {
        15137
    } else {
        13623
    }
}

/// The projection of eight values on a vector of the basis.
pub open spec fn projection(u: int, x: Seq<int>) -> int {
    basis(u, 0) * x[0] + basis(u, 1) * x[1] + basis(u, 2) * x[2] + basis(u, 3) * x[3] + basis(u, 4) * x[4] + basis(
        u,
        5,
    ) * x[5] + basis(u, 6) * x[6] + basis(u, 7) * x[7]
}

/// The high half of a product.
proof fn lemma_high(a: int, k: int)
    ensures
        a * k - 65535 <= 65536 * high16(a, k) <= a * k,
        high16(a, k) == high16(k, a),
{
    reveal(high16);
    assert(a * k == k * a) by (nonlinear_arith);
}

/// The same for each of the constants of the transform.
proof fn lemma_constants(a: int)
    ensures
        13036 * a - 65535 <= 65536 * high16(a, FDCT_TAN1 as int) <= 13036 * a,
        27146 * a - 65535 <= 65536 * high16(FDCT_TAN2 as int, a) <= 27146 * a,
        -21746 * a - 65535 <= 65536 * high16(a, FDCT_TAN3 as int) <= -21746 * a,
        23170 * a - 65535 <= 65536 * high16(a, FDCT_SQRT2 as int) <= 23170 * a,
{
    lemma_high(a, 13036);
    lemma_high(a, 27146);
    lemma_high(a, -21746);
    lemma_high(a, 23170);
}

/// Setting the lowest bit.
proof fn lemma_odd(x: int)
    ensures
        x <= odd16(x) <= x + 1,
{
    reveal(odd16);
}

/// The largest difference of two samples at an input scale.
spec fn spread(m: int) -> int {
    if m == 8 {
        255
    } else {
        1023
    }
}

/// Eight level-shifted samples.
spec fn is_column(x: Seq<int>, m: int) -> bool {
    &&& x.len() == 8
    &&& m == 8 || m == 2
    &&& exists|lo: int|
        -spread(m) <= lo <= 0 && #[trigger] starts(x, lo, m)
}

spec fn starts(x: Seq<int>, lo: int, m: int) -> bool {
    forall|i: int| 0 <= i < 8 ==> lo <= #[trigger] x[i] <= lo + spread(m)
}

/// The even part of a column.
proof fn lemma_even_part(x: Seq<int>, m: int)
    requires
        is_column(x, m),
    ensures
        ({
            let c = forward_column(x, m);
            let (a, b) = (x[0] + x[7] - x[3] - x[4], x[1] + x[6] - x[2] - x[5]);
            &&& c[4] == m * (x[0] + x[7] + x[3] + x[4] - x[1] - x[6] - x[2] - x[5])
            &&& m * (27146 * b + 65536 * a) - 65535 <= 65536 * c[2] <= m * (27146 * b + 65536 * a) + 65536
            &&& m * (27146 * a - 65536 * b) - 65535 <= 65536 * c[6] <= m * (27146 * a - 65536 * b) + 65536
        }),
{
    let lo = choose|lo: int| -spread(m) <= lo <= 0 && #[trigger] starts(x, lo, m);
    let t = spread(m);
    let (x0, x1, x2, x3, x4, x5, x6, x7) = (x[0], x[1], x[2], x[3], x[4], x[5], x[6], x[7]);
    assert(lo <= x0 <= lo + t && lo <= x1 <= lo + t && lo <= x2 <= lo + t && lo <= x3 <= lo + t);
    assert(lo <= x4 <= lo + t && lo <= x5 <= lo + t && lo <= x6 <= lo + t && lo <= x7 <= lo + t);
    lemma_sum(x7, x0);
    lemma_sum(x6, x1);
    lemma_sum(x5, x2);
    lemma_sum(x4, x3);
    let (s07, s16, s25, s34) = (x7 + x0, x6 + x1, x5 + x2, x4 + x3);
    lemma_diff(s07, s34);
    lemma_diff(s16, s25);
    let (m03, m12) = (s07 - s34, s16 - s25);
    lemma_sum(s34, s34);
    lemma_sum(s34 + s34, m03);
    lemma_sum(s25, s25);
    lemma_sum(s25 + s25, m12);
    let (u, v) = (s34 + s34 + m03, s25 + s25 + m12);
    lemma_low(u, m);
    lemma_low(v, m);
    lemma_diff(u * m, v * m);
    lemma_low(m03, m);
    lemma_low(m12, m);
    let (e03, e12) = (m03 * m, m12 * m);
    lemma_high(FDCT_TAN2 as int, e03);
    lemma_high(FDCT_TAN2 as int, e12);
    let (h3, h2) = (high16(FDCT_TAN2 as int, e03), high16(FDCT_TAN2 as int, e12));
    lemma_diff(h3, e12);
    lemma_sum(h2, e03);
    lemma_odd(h3 - e12);
    lemma_odd(h2 + e03);
}

/// Two numbers are within `e` of each other.
pub open spec fn near(a: int, b: int, e: int) -> bool {
    -e <= a - b <= e
}

/// The odd part of a column, from the scaled differences of mirrored samples.
spec fn odd_part(a: int, b: int, c: int, d: int) -> Seq<int> {
    let sum = 2 * c + 2 * b;
    let dif = 2 * b - 2 * c;
    let p65 = odd16(high16(sum, FDCT_SQRT2 as int));
    let m65 = high16(dif, FDCT_SQRT2 as int);
    let (m465, p465, m765, p765) = (d - m65, m65 + d, a - p65, p65 + a);
    seq![
        high16(p465, FDCT_TAN1 as int) + p765,
        m765 - (high16(m465, FDCT_TAN3 as int) + m465),
        m465 + (high16(m765, FDCT_TAN3 as int) + m765),
        high16(p765, FDCT_TAN1 as int) - p465,
    ]
}

/// What it is worth.
proof fn lemma_odd_values(a: int, b: int, c: int, d: int)
    requires
        -2046 <= a <= 2046,
        -2046 <= b <= 2046,
        -2046 <= c <= 2046,
        -2046 <= d <= 2046,
    ensures
        ({
            let r = odd_part(a, b, c, d);
            &&& near(16069 * r[0], 16069 * a + 13623 * b + 9102 * c + 3196 * d, 65536)
            &&& near(13623 * r[1], 13623 * a - 3196 * b - 16069 * c - 9102 * d, 65536)
            &&& near(13623 * r[2], 9102 * a - 16069 * b + 3196 * c + 13623 * d, 65536)
            &&& near(16069 * r[3], 3196 * a - 9102 * b + 13623 * c - 16069 * d, 65536)
        }),
{
    let sum = 2 * c + 2 * b;
    let dif = 2 * b - 2 * c;
    lemma_constants(sum);
    lemma_constants(dif);
    lemma_odd(high16(sum, FDCT_SQRT2 as int));
    let p65 = odd16(high16(sum, FDCT_SQRT2 as int));
    let m65 = high16(dif, FDCT_SQRT2 as int);
    let (m465, p465, m765, p765) = (d - m65, m65 + d, a - p65, p65 + a);
    lemma_constants(p465);
    lemma_constants(m465);
    lemma_constants(m765);
    lemma_constants(p765);
}

/// The odd part stays within 16 bits all along.
proof fn lemma_odd_ranges(a: int, b: int, c: int, d: int)
    requires
        -2046 <= a <= 2046,
        -2046 <= b <= 2046,
        -2046 <= c <= 2046,
        -2046 <= d <= 2046,
    ensures
        ({
            let p65 = odd16(high16(2 * c + 2 * b, FDCT_SQRT2 as int));
            let m65 = high16(2 * b - 2 * c, FDCT_SQRT2 as int);
            let (m465, p465, m765, p765) = (d - m65, m65 + d, a - p65, p65 + a);
            &&& -3000 <= p65 <= 3000
            &&& -3000 <= m65 <= 3000
            &&& -1200 <= high16(p465, FDCT_TAN1 as int) <= 1200
            &&& -1200 <= high16(p765, FDCT_TAN1 as int) <= 1200
            &&& -1800 <= high16(m465, FDCT_TAN3 as int) <= 1800
            &&& -1800 <= high16(m765, FDCT_TAN3 as int) <= 1800
        }),
{
    let sum = 2 * c + 2 * b;
    let dif = 2 * b - 2 * c;
    lemma_constants(sum);
    lemma_constants(dif);
    lemma_odd(high16(sum, FDCT_SQRT2 as int));
    let p65 = odd16(high16(sum, FDCT_SQRT2 as int));
    let m65 = high16(dif, FDCT_SQRT2 as int);
    lemma_constants(m65 + d);
    lemma_constants(d - m65);
    lemma_constants(a - p65);
    lemma_constants(p65 + a);
}

/// The odd part of a column.
proof fn lemma_odd_part(x: Seq<int>, m: int)
    requires
        is_column(x, m),
    ensures
        ({
            let r = forward_column(x, m);
            let o = odd_part(m * (x[0] - x[7]), m * (x[1] - x[6]), m * (x[2] - x[5]), m * (x[3] - x[4]));
            r[1] == o[0] && r[3] == o[1] && r[5] == o[2] && r[7] == o[3]
        }),
        -2046 <= m * (x[0] - x[7]) <= 2046,
        -2046 <= m * (x[1] - x[6]) <= 2046,
        -2046 <= m * (x[2] - x[5]) <= 2046,
        -2046 <= m * (x[3] - x[4]) <= 2046,
{
    let lo = choose|lo: int| -spread(m) <= lo <= 0 && #[trigger] starts(x, lo, m);
    let t = spread(m);
    let (x0, x1, x2, x3, x4, x5, x6, x7) = (x[0], x[1], x[2], x[3], x[4], x[5], x[6], x[7]);
    assert(lo <= x0 <= lo + t && lo <= x1 <= lo + t && lo <= x2 <= lo + t && lo <= x3 <= lo + t);
    assert(lo <= x4 <= lo + t && lo <= x5 <= lo + t && lo <= x6 <= lo + t && lo <= x7 <= lo + t);
    lemma_scaled(x0 - x7, m);
    lemma_scaled(x1 - x6, m);
    lemma_scaled(x2 - x5, m);
    lemma_scaled(x3 - x4, m);
    let (a, b, c, d) = (m * (x0 - x7), m * (x1 - x6), m * (x2 - x5), m * (x3 - x4));
    lemma_diff(x0, x7);
    lemma_diff(x1, x6);
    lemma_diff(x2, x5);
    lemma_diff(x3, x4);
    lemma_odd_ranges(a, b, c, d);
    lemma_diff(2 * b, 2 * c);
    lemma_sum(2 * c, 2 * c);
    lemma_sum(2 * c + 2 * c, 2 * b - 2 * c);
    assert(2 * c + 2 * c + (2 * b - 2 * c) == 2 * c + 2 * b);
    let p65 = odd16(high16(2 * c + 2 * b, FDCT_SQRT2 as int));
    let m65 = high16(2 * b - 2 * c, FDCT_SQRT2 as int);
    lemma_diff(d, m65);
    lemma_sum(m65, d);
    lemma_diff(a, p65);
    lemma_sum(p65, a);
    let (m465, p465, m765, p765) = (d - m65, m65 + d, a - p65, p65 + a);
    let (h1, h3, h5, h7) = (
        high16(p465, FDCT_TAN1 as int),
        high16(m465, FDCT_TAN3 as int),
        high16(m765, FDCT_TAN3 as int),
        high16(p765, FDCT_TAN1 as int),
    );
    lemma_sum(h1, p765);
    lemma_sum(h3, m465);
    lemma_diff(m765, h3 + m465);
    lemma_sum(h5, m765);
    lemma_sum(m465, h5 + m765);
    lemma_diff(h7, p465);
}

/// A difference of samples on its way in.
proof fn lemma_scaled(v: int, m: int)
    requires
        m == 8 || m == 2,
        -spread(m) <= v <= spread(m),
    ensures
        low16(v, m) == m * v,
        low16(v, 2 * m) == 2 * (m * v),
        -2046 <= m * v <= 2046,
{
    lemma_low(v, m);
    lemma_low(v, 2 * m);
    assert(v * m == m * v && v * (2 * m) == 2 * (m * v)) by (nonlinear_arith);
}

/// The basis, vector by vector.
pub proof fn lemma_basis()
    ensures
        basis(0, 0) == 11585,
        basis(0, 1) == 11585,
        basis(0, 2) == 11585,
        basis(0, 3) == 11585,
        basis(0, 4) == 11585,
        basis(0, 5) == 11585,
        basis(0, 6) == 11585,
        basis(0, 7) == 11585,
        basis(1, 0) == 16069,
        basis(1, 1) == 13623,
        basis(1, 2) == 9102,
        basis(1, 3) == 3196,
        basis(1, 4) == -3196,
        basis(1, 5) == -9102,
        basis(1, 6) == -13623,
        basis(1, 7) == -16069,
        basis(2, 0) == 15137,
        basis(2, 1) == 6270,
        basis(2, 2) == -6270,
        basis(2, 3) == -15137,
        basis(2, 4) == -15137,
        basis(2, 5) == -6270,
        basis(2, 6) == 6270,
        basis(2, 7) == 15137,
        basis(3, 0) == 13623,
        basis(3, 1) == -3196,
        basis(3, 2) == -16069,
        basis(3, 3) == -9102,
        basis(3, 4) == 9102,
        basis(3, 5) == 16069,
        basis(3, 6) == 3196,
        basis(3, 7) == -13623,
        basis(4, 0) == 11585,
        basis(4, 1) == -11585,
        basis(4, 2) == -11585,
        basis(4, 3) == 11585,
        basis(4, 4) == 11585,
        basis(4, 5) == -11585,
        basis(4, 6) == -11585,
        basis(4, 7) == 11585,
        basis(5, 0) == 9102,
        basis(5, 1) == -16069,
        basis(5, 2) == 3196,
        basis(5, 3) == 13623,
        basis(5, 4) == -13623,
        basis(5, 5) == -3196,
        basis(5, 6) == 16069,
        basis(5, 7) == -9102,
        basis(6, 0) == 6270,
        basis(6, 1) == -15137,
        basis(6, 2) == 15137,
        basis(6, 3) == -6270,
        basis(6, 4) == -6270,
        basis(6, 5) == 15137,
        basis(6, 6) == -15137,
        basis(6, 7) == 6270,
        basis(7, 0) == 3196,
        basis(7, 1) == -9102,
        basis(7, 2) == 13623,
        basis(7, 3) == -16069,
        basis(7, 4) == 16069,
        basis(7, 5) == -13623,
        basis(7, 6) == 9102,
        basis(7, 7) == -3196,
{
}

/// The projections, from the sums and differences of mirrored values.
proof fn lemma_projections(x: Seq<int>)
    ensures
        ({
            let (a, b, c, d) = (x[0] - x[7], x[1] - x[6], x[2] - x[5], x[3] - x[4]);
            let (e, f) = (x[0] + x[7] - x[3] - x[4], x[1] + x[6] - x[2] - x[5]);
            &&& projection(0, x) == 11585 * sum8(x)
            &&& projection(1, x) == 16069 * a + 13623 * b + 9102 * c + 3196 * d
            &&& projection(2, x) == 15137 * e + 6270 * f
            &&& projection(3, x) == 13623 * a - 3196 * b - 16069 * c - 9102 * d
            &&& projection(4, x) == 11585 * (x[0] + x[7] + x[3] + x[4] - x[1] - x[6] - x[2] - x[5])
            &&& projection(5, x) == 9102 * a - 16069 * b + 3196 * c + 13623 * d
            &&& projection(6, x) == 6270 * e - 15137 * f
            &&& projection(7, x) == 3196 * a - 9102 * b + 13623 * c - 16069 * d
        }),
{
    lemma_basis();
}

/// Each coefficient of a column is its projection on the cosine basis, scaled.
proof fn lemma_column(x: Seq<int>, m: int, u: int)
    requires
        is_column(x, m),
        0 <= u < 8,
    ensures
        near(column_scale(u) * forward_column(x, m)[u], m * projection(u, x), 65536),
        u > 0 ==> -8184 <= forward_column(x, m)[u] <= 8184,
{
    let c = forward_column(x, m);
    if u % 2 == 0 {
        lemma_even_columns(x, m, c[0], c[2], c[4], c[6]);
    } else {
        lemma_odd_columns(x, m, c[1], c[3], c[5], c[7]);
    }
}

proof fn lemma_even_columns(x: Seq<int>, m: int, c0: int, c2: int, c4: int, c6: int)
    requires
        is_column(x, m),
        c0 == forward_column(x, m)[0],
        c2 == forward_column(x, m)[2],
        c4 == forward_column(x, m)[4],
        c6 == forward_column(x, m)[6],
    ensures
        near(11585 * c0, m * projection(0, x), 65536),
        near(15137 * c2, m * projection(2, x), 65536),
        near(11585 * c4, m * projection(4, x), 65536),
        near(15137 * c6, m * projection(6, x), 65536),
        -8184 <= c2 <= 8184,
        -8184 <= c4 <= 8184,
        -8184 <= c6 <= 8184,
{
    lemma_projections(x);
    lemma_wide(x, m);
    lemma_column_sum(x, m);
    lemma_even_part(x, m);
    let (e, f) = (x[0] + x[7] - x[3] - x[4], x[1] + x[6] - x[2] - x[5]);
    if m == 8 {
        assert(near(15137 * c2, 8 * (15137 * e + 6270 * f), 65536));
        assert(near(15137 * c6, 8 * (6270 * e - 15137 * f), 65536));
    } else {
        assert(near(15137 * c2, 2 * (15137 * e + 6270 * f), 65536));
        assert(near(15137 * c6, 2 * (6270 * e - 15137 * f), 65536));
    }
}

proof fn lemma_odd_columns(x: Seq<int>, m: int, c1: int, c3: int, c5: int, c7: int)
    requires
        is_column(x, m),
        c1 == forward_column(x, m)[1],
        c3 == forward_column(x, m)[3],
        c5 == forward_column(x, m)[5],
        c7 == forward_column(x, m)[7],
    ensures
        near(16069 * c1, m * projection(1, x), 65536),
        near(13623 * c3, m * projection(3, x), 65536),
        near(13623 * c5, m * projection(5, x), 65536),
        near(16069 * c7, m * projection(7, x), 65536),
        -8184 <= c1 <= 8184,
        -8184 <= c3 <= 8184,
        -8184 <= c5 <= 8184,
        -8184 <= c7 <= 8184,
{
    lemma_projections(x);
    lemma_odd_part(x, m);
    let (a, b, c, d) = (x[0] - x[7], x[1] - x[6], x[2] - x[5], x[3] - x[4]);
    lemma_odd_values(m * a, m * b, m * c, m * d);
    lemma_odd_column(c1, 16069, 16069, 13623, 9102, 3196, a, b, c, d, m);
    lemma_odd_column(c3, 13623, 13623, -3196, -16069, -9102, a, b, c, d, m);
    lemma_odd_column(c5, 13623, 9102, -16069, 3196, 13623, a, b, c, d, m);
    lemma_odd_column(c7, 16069, 3196, -9102, 13623, -16069, a, b, c, d, m);
}

/// Samples of a column are near each other.
proof fn lemma_wide(x: Seq<int>, m: int)
    requires
        is_column(x, m),
    ensures
        forall|i: int| 0 <= i < 8 ==> -spread(m) <= #[trigger] x[i] <= spread(m),
        -2 * spread(m) <= x[0] + x[7] - x[3] - x[4] <= 2 * spread(m),
        -2 * spread(m) <= x[1] + x[6] - x[2] - x[5] <= 2 * spread(m),
{
    let lo = choose|lo: int| -spread(m) <= lo <= 0 && #[trigger] starts(x, lo, m);
    let t = spread(m);
    assert(lo <= x[0] <= lo + t && lo <= x[1] <= lo + t && lo <= x[2] <= lo + t && lo <= x[3] <= lo + t);
    assert(lo <= x[4] <= lo + t && lo <= x[5] <= lo + t && lo <= x[6] <= lo + t && lo <= x[7] <= lo + t);
}

/// The odd coefficients, with the scale taken out of the sums.
proof fn lemma_odd_column(r: int, g: int, p: int, q: int, s: int, t: int, a: int, b: int, c: int, d: int, m: int)
    requires
        m == 8 || m == 2,
        near(g * r, p * (m * a) + q * (m * b) + s * (m * c) + t * (m * d), 65536),
    ensures
        near(g * r, m * (p * a + q * b + s * c + t * d), 65536),
{
    lemma_scale_out(p, a, m);
    lemma_scale_out(q, b, m);
    lemma_scale_out(s, c, m);
    lemma_scale_out(t, d, m);
    let (e, f, h, i) = (p * a, q * b, s * c, t * d);
    assert(m * (e + f + h + i) == m * e + m * f + m * h + m * i);
}

pub proof fn lemma_scale_out(p: int, a: int, m: int)
    ensures
        p * (m * a) == m * (p * a),
{
    assert(p * (m * a) == m * (p * a)) by (nonlinear_arith);
}

// ---------------------------------------------------------------------------
// Rows
// ---------------------------------------------------------------------------

/// What element `i` of a row counts for in coefficient `k`.
spec fn weight(tab: Seq<i16>, k: int, i: int) -> int {
    let t = if k < 4 {
        0
    } else {
        16int
    };
    let h = if i < 4 {
        i
    } else {
        7 - i
    };
    let v = if k % 4 == 0 {
        seq![tab[t], tab[t + 1], tab[t + 8], tab[t + 9]][h]
    } else if k % 4 == 1 {
        seq![tab[t + 2], tab[t + 3], tab[t + 10], tab[t + 11]][h]
    } else if k % 4 == 2 {
        seq![tab[t + 12], tab[t + 13], tab[t + 4], tab[t + 5]][h]
    } else {
        seq![tab[t + 14], tab[t + 15], tab[t + 6], tab[t + 7]][h]
    };
    if i < 4 || k % 2 == 0 {
        v as int
    } else {
        -v
    }
}

/// The weighted sum of a row.
spec fn row_value(x: Seq<int>, tab: Seq<i16>, k: int) -> int {
    weight(tab, k, 0) * x[0] + weight(tab, k, 1) * x[1] + weight(tab, k, 2) * x[2] + weight(tab, k, 3) * x[3]
        + weight(tab, k, 4) * x[4] + weight(tab, k, 5) * x[5] + weight(tab, k, 6) * x[6] + weight(tab, k, 7) * x[7]
}

/// Coefficient `k` of a row is its weighted sum, rounded.
proof fn lemma_row(x: Seq<int>, tab: Seq<i16>, k: int)
    requires
        x.len() == 8,
        tab.len() == 32,
        0 <= k < 8,
        forall|i: int| 0 <= i < 8 ==> -16383 <= #[trigger] x[i] <= 16383,
        -2_147_400_000 <= row_value(x, tab, k) <= 2_147_400_000,
    ensures
        near(65536 * forward_row(x, tab, k), row_value(x, tab, k), 32768),
{
    let (x0, x1, x2, x3, x4, x5, x6, x7) = (x[0], x[1], x[2], x[3], x[4], x[5], x[6], x[7]);
    assert(-16383 <= x0 <= 16383 && -16383 <= x1 <= 16383 && -16383 <= x2 <= 16383 && -16383 <= x3 <= 16383);
    assert(-16383 <= x4 <= 16383 && -16383 <= x5 <= 16383 && -16383 <= x6 <= 16383 && -16383 <= x7 <= 16383);
    lemma_sum(x0, x7);
    lemma_sum(x1, x6);
    lemma_sum(x2, x5);
    lemma_sum(x3, x4);
    lemma_diff(x0, x7);
    lemma_diff(x1, x6);
    lemma_diff(x2, x5);
    lemma_diff(x3, x4);
    let f = fold(x);
    assert(f[0] == x0 + x7 && f[1] == x1 + x6 && f[4] == x2 + x5 && f[5] == x3 + x4);
    assert(f[2] == x0 - x7 && f[3] == x1 - x6 && f[6] == x2 - x5 && f[7] == x3 - x4);
    let (w0, w1, w2, w3) = (weight(tab, k, 0), weight(tab, k, 1), weight(tab, k, 2), weight(tab, k, 3));
    if k % 2 == 0 {
        lemma_mirrored(x0, x7, w0, 1);
        lemma_mirrored(x1, x6, w1, 1);
        lemma_mirrored(x2, x5, w2, 1);
        lemma_mirrored(x3, x4, w3, 1);
    } else {
        lemma_mirrored(x0, x7, w0, -1);
        lemma_mirrored(x1, x6, w1, -1);
        lemma_mirrored(x2, x5, w2, -1);
        lemma_mirrored(x3, x4, w3, -1);
    }
    let j = 2 * (k % 4);
    let t = if k < 4 {
        0
    } else {
        16int
    };
    let v = f[j] * tab[t + j] + f[j + 1] * tab[t + j + 1] + f[swapped(j)] * tab[t + 8 + j] + f[swapped(j + 1)] * tab[t
        + 9 + j];
    assert(v == row_value(x, tab, k)) by {
        assert(k % 4 == 0 || k % 4 == 1 || k % 4 == 2 || k % 4 == 3);
    }
}

/// Mirrored elements share their weight, but for the sign.
proof fn lemma_mirrored(a: int, b: int, w: int, sign: int)
    ensures
        sign == 1 ==> (a + b) * w == w * a + w * b,
        sign == -1 ==> (a - b) * w == w * a + (-w) * b,
{
    assert((a + b) * w == w * a + w * b) by (nonlinear_arith);
    assert((a - b) * w == w * a + (-w) * b) by (nonlinear_arith);
}

/// The weights of coefficient `k` are its vector of the basis, scaled.
spec fn weights_near(tab: Seq<i16>, scale: int, k: int) -> bool {
    &&& near(16384 * weight(tab, k, 0), 2 * scale * basis(k, 0), 18_000)
    &&& near(16384 * weight(tab, k, 1), 2 * scale * basis(k, 1), 18_000)
    &&& near(16384 * weight(tab, k, 2), 2 * scale * basis(k, 2), 18_000)
    &&& near(16384 * weight(tab, k, 3), 2 * scale * basis(k, 3), 18_000)
    &&& near(16384 * weight(tab, k, 4), 2 * scale * basis(k, 4), 18_000)
    &&& near(16384 * weight(tab, k, 5), 2 * scale * basis(k, 5), 18_000)
    &&& near(16384 * weight(tab, k, 6), 2 * scale * basis(k, 6), 18_000)
    &&& near(16384 * weight(tab, k, 7), 2 * scale * basis(k, 7), 18_000)
}

/// So it is for every row.
proof fn lemma_weights(y: int, k: int)
    requires
        0 <= y < 8,
        0 <= k < 8,
    ensures
        weights_near(forward_table(y), column_scale(y), k),
{
    lemma_basis();
    assert(weights_near(FTAB1@, 11585, 0));
    assert(weights_near(FTAB1@, 11585, 1));
    assert(weights_near(FTAB1@, 11585, 2));
    assert(weights_near(FTAB1@, 11585, 3));
    assert(weights_near(FTAB1@, 11585, 4));
    assert(weights_near(FTAB1@, 11585, 5));
    assert(weights_near(FTAB1@, 11585, 6));
    assert(weights_near(FTAB1@, 11585, 7));
    assert(weights_near(FTAB2@, 16069, 0));
    assert(weights_near(FTAB2@, 16069, 1));
    assert(weights_near(FTAB2@, 16069, 2));
    assert(weights_near(FTAB2@, 16069, 3));
    assert(weights_near(FTAB2@, 16069, 4));
    assert(weights_near(FTAB2@, 16069, 5));
    assert(weights_near(FTAB2@, 16069, 6));
    assert(weights_near(FTAB2@, 16069, 7));
    assert(weights_near(FTAB3@, 15137, 0));
    assert(weights_near(FTAB3@, 15137, 1));
    assert(weights_near(FTAB3@, 15137, 2));
    assert(weights_near(FTAB3@, 15137, 3));
    assert(weights_near(FTAB3@, 15137, 4));
    assert(weights_near(FTAB3@, 15137, 5));
    assert(weights_near(FTAB3@, 15137, 6));
    assert(weights_near(FTAB3@, 15137, 7));
    assert(weights_near(FTAB4@, 13623, 0));
    assert(weights_near(FTAB4@, 13623, 1));
    assert(weights_near(FTAB4@, 13623, 2));
    assert(weights_near(FTAB4@, 13623, 3));
    assert(weights_near(FTAB4@, 13623, 4));
    assert(weights_near(FTAB4@, 13623, 5));
    assert(weights_near(FTAB4@, 13623, 6));
    assert(weights_near(FTAB4@, 13623, 7));
}

/// A row whose elements are near `mid` has a sum within 32 bits, if `mid` is
/// nothing or counts for nothing.
proof fn lemma_row_bound(x: Seq<int>, tab: Seq<i16>, k: int, mid: int)
    requires
        x.len() == 8,
        forall|i: int| 0 <= i < 8 ==> -8184 <= #[trigger] x[i] - mid <= 8184,
        forall|i: int| 0 <= i < 8 ==> -32140 <= #[trigger] weight(tab, k, i) <= 32140,
        mid == 0 || weight(tab, k, 0) + weight(tab, k, 1) + weight(tab, k, 2) + weight(tab, k, 3) + weight(tab, k, 4)
            + weight(tab, k, 5) + weight(tab, k, 6) + weight(tab, k, 7) == 0,
    ensures
        -2_147_400_000 <= row_value(x, tab, k) <= 2_147_400_000,
{
    lemma_product(weight(tab, k, 0), x[0], mid);
    lemma_product(weight(tab, k, 1), x[1], mid);
    lemma_product(weight(tab, k, 2), x[2], mid);
    lemma_product(weight(tab, k, 3), x[3], mid);
    lemma_product(weight(tab, k, 4), x[4], mid);
    lemma_product(weight(tab, k, 5), x[5], mid);
    lemma_product(weight(tab, k, 6), x[6], mid);
    lemma_product(weight(tab, k, 7), x[7], mid);
    let s = weight(tab, k, 0) + weight(tab, k, 1) + weight(tab, k, 2) + weight(tab, k, 3) + weight(tab, k, 4) + weight(
        tab,
        k,
        5,
    ) + weight(tab, k, 6) + weight(tab, k, 7);
    lemma_eight_times(
        mid,
        weight(tab, k, 0),
        weight(tab, k, 1),
        weight(tab, k, 2),
        weight(tab, k, 3),
        weight(tab, k, 4),
        weight(tab, k, 5),
        weight(tab, k, 6),
        weight(tab, k, 7),
    );
    assert(mid * s == 0) by (nonlinear_arith)
        requires
            mid == 0 || s == 0,
    ;
}

proof fn lemma_product(w: int, x: int, mid: int)
    requires
        -32140 <= w <= 32140,
        -8184 <= x - mid <= 8184,
    ensures
        mid * w - 263_033_760 <= w * x <= mid * w + 263_033_760,
{
    let d = x - mid;
    assert(w * x == mid * w + w * d) by (nonlinear_arith)
        requires
            d == x - mid,
    ;
    assert(-263_033_760 <= w * d <= 263_033_760) by (nonlinear_arith)
        requires
            -32140 <= w <= 32140,
            -8184 <= d <= 8184,
    ;
}

pub proof fn lemma_eight_times(m: int, a: int, b: int, c: int, d: int, e: int, f: int, g: int, h: int)
    ensures
        m * (a + b + c + d + e + f + g + h) == m * a + m * b + m * c + m * d + m * e + m * f + m * g + m * h,
{
    let (p, q) = (a + b + c + d, e + f + g + h);
    assert(m * (p + q) == m * p + m * q) by (nonlinear_arith);
    assert(m * (a + b + c + d) == m * a + m * b + m * c + m * d) by (nonlinear_arith);
    assert(m * (e + f + g + h) == m * e + m * f + m * g + m * h) by (nonlinear_arith);
}

// ---------------------------------------------------------------------------
// Blocks
// ---------------------------------------------------------------------------

/// Column `x` of a block, level-shifted.
pub open spec fn shifted_column(b: Seq<Seq<int>>, shift: int, x: int) -> Seq<int> {
    Seq::new(8, |j: int| b[j][x] - shift)
}

/// The projection of a block on the product of two vectors of the basis, `u`
/// down and `v` across.
pub open spec fn block_projection(b: Seq<Seq<int>>, shift: int, u: int, v: int) -> int {
    projection(v, Seq::new(8, |x: int| projection(u, shifted_column(b, shift, x))))
}

/// One element of a row: what it counts for, and what it stands for.
proof fn lemma_term(w: int, g: int, bs: int, c: int, s: int)
    requires
        near(16384 * w, 2 * g * bs, 18_000),
        near(g * c, s, 65536),
        -16384 <= c <= 16384,
        -16384 <= bs <= 16384,
    ensures
        near(16384 * (w * c), 2 * (bs * s), 2_442_395_648),
{
    let d = 16384 * w - 2 * g * bs;
    let e = g * c - s;
    assert(-294_912_000 <= d * c <= 294_912_000) by (nonlinear_arith)
        requires
            -18_000 <= d <= 18_000,
            -16384 <= c <= 16384,
    ;
    assert(-2_147_483_648 <= 2 * bs * e <= 2_147_483_648) by (nonlinear_arith)
        requires
            -65536 <= e <= 65536,
            -16384 <= bs <= 16384,
    ;
    assert(16384 * (w * c) == d * c + 2 * bs * (g * c)) by (nonlinear_arith)
        requires
            d == 16384 * w - 2 * g * bs,
    ;
    assert(2 * bs * (g * c) == 2 * bs * e + 2 * (bs * s)) by (nonlinear_arith)
        requires
            e == g * c - s,
    ;
}

/// The columns of a block.
proof fn lemma_block_column(b: Seq<Seq<int>>, depth: Depth, shift: int, y: int, x: int)
    requires
        is_block(b, depth),
        shift == 0 || shift == (top_sample(depth) + 1) / 2,
        0 <= y < 8,
        0 <= x < 8,
    ensures
        ({
            let c = forward_columns(b, depth, -shift, y)[x];
            let m = input_scale(depth);
            &&& near(column_scale(y) * c, m * projection(y, shifted_column(b, shift, x)), 65536)
            &&& y > 0 ==> -8184 <= c <= 8184
            &&& y == 0 ==> -8184 <= c - (8184 - 8 * m * shift) <= 8184
            &&& -16383 <= c <= 16383
        }),
{
    let m = input_scale(depth);
    let col = column(b, -shift, x);
    let t = top_sample(depth);
    assert forall|i: int| 0 <= i < 8 implies #[trigger] col[i] == b[i][x] - shift && 0 <= b[i][x] <= t by {
        assert(0 <= b[i][x] <= t);
        lemma_sum(b[i][x], -shift);
    }
    assert(col =~= shifted_column(b, shift, x));
    assert(starts(col, -shift, m));
    assert(is_column(col, m));
    lemma_column(col, m, y);
    if y == 0 {
        lemma_column_sum(col, m);
        assert(0 <= b[0][x] <= t && 0 <= b[1][x] <= t && 0 <= b[2][x] <= t && 0 <= b[3][x] <= t);
        assert(0 <= b[4][x] <= t && 0 <= b[5][x] <= t && 0 <= b[6][x] <= t && 0 <= b[7][x] <= t);
        assert(col[0] == b[0][x] - shift && col[1] == b[1][x] - shift && col[2] == b[2][x] - shift);
        assert(col[3] == b[3][x] - shift && col[4] == b[4][x] - shift && col[5] == b[5][x] - shift);
        assert(col[6] == b[6][x] - shift && col[7] == b[7][x] - shift);
    }
}

/// The weights of the first table beyond its first coefficient cancel.
proof fn lemma_first_table(k: int)
    requires
        1 <= k < 8,
    ensures
        ({
            let t = FTAB1@;
            weight(t, k, 0) + weight(t, k, 1) + weight(t, k, 2) + weight(t, k, 3) + weight(t, k, 4) + weight(t, k, 5)
                + weight(t, k, 6) + weight(t, k, 7) == 0
        }),
{
    if k == 2 {
        assert(weight(FTAB1@, 2, 0) == 21407);
    } else if k == 4 {
        assert(weight(FTAB1@, 4, 0) == 16384);
    } else if k == 6 {
        assert(weight(FTAB1@, 6, 0) == 8867);
    }
}

/// The cosines are at most one.
pub proof fn lemma_basis_range(k: int)
    requires
        0 <= k < 8,
    ensures
        forall|i: int| -16384 <= #[trigger] basis(k, i) <= 16384,
{
}

/// The weighted sum of a row of a block fits in 32 bits.
proof fn lemma_block_row(b: Seq<Seq<int>>, depth: Depth, shift: int, y: int, k: int)
    requires
        is_block(b, depth),
        shift == 0 || shift == (top_sample(depth) + 1) / 2,
        0 <= y < 8,
        0 <= k < 8,
        forall|i: int| 0 <= i < 8 ==> -32140 <= #[trigger] weight(forward_table(y), k, i) <= 32140,
    ensures
        -2_147_400_000 <= row_value(forward_columns(b, depth, -shift, y), forward_table(y), k) <= 2_147_400_000,
{
    let c = forward_columns(b, depth, -shift, y);
    let mid = if y == 0 {
        8184 - 8 * input_scale(depth) * shift
    } else {
        0
    };
    assert forall|i: int| 0 <= i < 8 implies -8184 <= #[trigger] c[i] - mid <= 8184 by {
        lemma_block_column(b, depth, shift, y, i);
    }
    if y == 0 && k == 0 {
        lemma_first_row(c);
        assert forall|i: int| 0 <= i < 8 implies -16368 <= #[trigger] c[i] <= 16368 by {
            lemma_block_column(b, depth, shift, y, i);
        }
    } else {
        if y == 0 {
            lemma_first_table(k);
        }
        lemma_row_bound(c, forward_table(y), k, mid);
    }
}

/// The first coefficient of the first row weighs all elements alike.
proof fn lemma_first_row(x: Seq<int>)
    ensures
        row_value(x, FTAB1@, 0) == 16384 * sum8(x),
{
    let t = FTAB1@;
    assert(weight(t, 0, 0) == 16384 && weight(t, 0, 1) == 16384 && weight(t, 0, 2) == 16384 && weight(t, 0, 3) == 16384);
    assert(weight(t, 0, 4) == 16384 && weight(t, 0, 5) == 16384 && weight(t, 0, 6) == 16384 && weight(t, 0, 7) == 16384);
}

/// The scale of the input can be taken out of the projection.
proof fn lemma_block_scale(b: Seq<Seq<int>>, shift: int, y: int, k: int, m: int)
    requires
        m == 8 || m == 2,
    ensures
        ({
            let p = |x: int| projection(y, shifted_column(b, shift, x));
            m * block_projection(b, shift, y, k) == basis(k, 0) * (m * p(0)) + basis(k, 1) * (m * p(1)) + basis(k, 2) * (
            m * p(2)) + basis(k, 3) * (m * p(3)) + basis(k, 4) * (m * p(4)) + basis(k, 5) * (m * p(5)) + basis(k, 6) * (m
                * p(6)) + basis(k, 7) * (m * p(7))
        }),
{
    let p = |x: int| projection(y, shifted_column(b, shift, x));
    lemma_scale_out(basis(k, 0), p(0), m);
    lemma_scale_out(basis(k, 1), p(1), m);
    lemma_scale_out(basis(k, 2), p(2), m);
    lemma_scale_out(basis(k, 3), p(3), m);
    lemma_scale_out(basis(k, 4), p(4), m);
    lemma_scale_out(basis(k, 5), p(5), m);
    lemma_scale_out(basis(k, 6), p(6), m);
    lemma_scale_out(basis(k, 7), p(7), m);
    lemma_eight_times(
        m,
        basis(k, 0) * p(0),
        basis(k, 1) * p(1),
        basis(k, 2) * p(2),
        basis(k, 3) * p(3),
        basis(k, 4) * p(4),
        basis(k, 5) * p(5),
        basis(k, 6) * p(6),
        basis(k, 7) * p(7),
    );
}

/// One element of a row of a block.
proof fn lemma_block_term(b: Seq<Seq<int>>, depth: Depth, shift: int, y: int, k: int, i: int)
    requires
        is_block(b, depth),
        shift == 0 || shift == (top_sample(depth) + 1) / 2,
        0 <= y < 8,
        0 <= k < 8,
        0 <= i < 8,
    ensures
        near(
            16384 * (weight(forward_table(y), k, i) * forward_columns(b, depth, -shift, y)[i]),
            2 * (basis(k, i) * (input_scale(depth) * projection(y, shifted_column(b, shift, i)))),
            2_442_395_648,
        ),
        -32140 <= weight(forward_table(y), k, i) <= 32140,
{
    let g = column_scale(y);
    let w = weight(forward_table(y), k, i);
    assert(near(16384 * w, 2 * g * basis(k, i), 18_000)) by {
        lemma_weights(y, k);
        assert(i == 0 || i == 1 || i == 2 || i == 3 || i == 4 || i == 5 || i == 6 || i == 7);
    }
    lemma_basis_range(k);
    lemma_block_column(b, depth, shift, y, i);
    lemma_term(
        w,
        g,
        basis(k, i),
        forward_columns(b, depth, -shift, y)[i],
        input_scale(depth) * projection(y, shifted_column(b, shift, i)),
    );
    let bs = basis(k, i);
    assert(-2 * 16069 * 16384 <= 2 * g * bs <= 2 * 16069 * 16384) by (nonlinear_arith)
        requires
            0 <= g <= 16069,
            -16384 <= bs <= 16384,
    ;
}

/// The weighted sum of a row of a block is the projection of the block.
proof fn lemma_block_value(b: Seq<Seq<int>>, depth: Depth, shift: int, y: int, k: int)
    requires
        is_block(b, depth),
        shift == 0 || shift == (top_sample(depth) + 1) / 2,
        0 <= y < 8,
        0 <= k < 8,
    ensures
        near(
            16384 * row_value(forward_columns(b, depth, -shift, y), forward_table(y), k),
            2 * (input_scale(depth) * block_projection(b, shift, y, k)),
            19_539_165_184,
        ),
{
    lemma_block_term(b, depth, shift, y, k, 0);
    lemma_block_term(b, depth, shift, y, k, 1);
    lemma_block_term(b, depth, shift, y, k, 2);
    lemma_block_term(b, depth, shift, y, k, 3);
    lemma_block_term(b, depth, shift, y, k, 4);
    lemma_block_term(b, depth, shift, y, k, 5);
    lemma_block_term(b, depth, shift, y, k, 6);
    lemma_block_term(b, depth, shift, y, k, 7);
    lemma_block_scale(b, shift, y, k, input_scale(depth));
}

/// Coefficient `v` of row `u` of the forward transform of a block is the
/// projection of the block on the product of two cosines: the discrete cosine
/// transform, sixteen times, to within 19 of some 32 thousand.
pub proof fn law_forward_is_the_cosine_transform(b: Seq<Seq<int>>, depth: Depth, shift: int, u: int, v: int)
    requires
        is_block(b, depth),
        shift == 0 || shift == (top_sample(depth) + 1) / 2,
        0 <= u < 8,
        0 <= v < 8,
    ensures
        ({
            let f = forward(b, depth, -shift, 8 * u + v);
            let p = block_projection(b, shift, u, v);
            match depth {
                Depth::Eight => near(0x400_0000 * f, p, 19int * 0x400_0000),
                Depth::Ten => near(0x1000_0000 * f, p, 19int * 0x1000_0000),
            }
        }),
{
    let c = forward_columns(b, depth, -shift, u);
    let t = forward_table(u);
    assert forall|i: int| 0 <= i < 8 implies -32140 <= #[trigger] weight(t, v, i) <= 32140 by {
        lemma_block_term(b, depth, shift, u, v, i);
    }
    assert forall|i: int| 0 <= i < 8 implies -16383 <= #[trigger] c[i] <= 16383 by {
        lemma_block_column(b, depth, shift, u, i);
    }
    lemma_block_row(b, depth, shift, u, v);
    lemma_row(c, t, v);
    lemma_block_value(b, depth, shift, u, v);
    assert((8 * u + v) / 8 == u && (8 * u + v) % 8 == v);
}

} // verus!
