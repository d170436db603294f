//! The inverse transform undoes the discrete cosine transform.

use super::bits::wrap16;
use super::cosine::{basis, column_scale, lemma_basis, lemma_basis_range, lemma_eight_times, near};
use super::dct::{
    col_shift, dequantised, half, inverse, inverse_column, inverse_row, inverse_rows, inverse_table, lemma_zig_inverse,
    row_shift, zig_place, Depth,
};
use super::fidelity::{lemma_diff, lemma_sum};
use super::lanes::{diff16, down16, high16, odd16, sat16, sum16, wrap32};
use super::tables::{COS_4_16, TAB_I_04, TAB_I_17, TAB_I_26, TAB_I_35, TG_1_16, TG_2_16, TG_3_16, ZIGZAG};
use vstd::prelude::*;

verus! {

// ---------------------------------------------------------------------------
// Columns
// ---------------------------------------------------------------------------

/// The high half of a product with each of the constants.
proof fn lemma_constants(a: int)
    ensures
        13036 * a - 65535 <= 65536 * high16(a, TG_1_16 as int) <= 13036 * a,
        13036 * a - 65535 <= 65536 * high16(TG_1_16 as int, a) <= 13036 * a,
        27146 * a - 65535 <= 65536 * high16(a, TG_2_16 as int) <= 27146 * a,
        27146 * a - 65535 <= 65536 * high16(TG_2_16 as int, a) <= 27146 * a,
        -21746 * a - 65535 <= 65536 * high16(a, TG_3_16 as int) <= -21746 * a,
        -21746 * a - 65535 <= 65536 * high16(TG_3_16 as int, a) <= -21746 * a,
        -19195 * a - 65535 <= 65536 * high16(COS_4_16 as int, a) <= -19195 * a,
{
    reveal(high16);
    assert(a * 13036 == 13036 * a);
}

/// Setting the lowest bit.
proof fn lemma_odd(x: int)
    ensures
        x <= odd16(x) <= x + 1,
{
    reveal(odd16);
}

/// A number that an inverse column has room for.
spec fn fits(a: int) -> bool {
    -18_600 <= a <= 18_600
}

/// The magnitude of a number.
#[verifier::opaque]
pub open spec fn size(a: int) -> int {
    if a < 0 {
        -a
    } else {
        a
    }
}

/// The odd part of an inverse column.
#[verifier::opaque]
spec fn odd_back(y1: int, y3: int, y5: int, y7: int) -> Seq<int> {
    let b = high16(y5, TG_3_16 as int) + y5 + y3;
    let d = y5 - (high16(TG_3_16 as int, y3) + y3);
    let a = high16(y7, TG_1_16 as int) + y1;
    let c = high16(TG_1_16 as int, y1) - y7;
    let (t0, t1) = (a - b, c - d + 1);
    let (u, v) = (t0 + t1, t0 - t1);
    seq![b + a + 1, odd16(u + high16(COS_4_16 as int, u)), odd16(high16(COS_4_16 as int, v) + v), c + d]
}

/// What it is worth.
proof fn lemma_odd_back(y1: int, y3: int, y5: int, y7: int)
    requires
        fits(y1),
        fits(y3),
        fits(y5),
        fits(y7),
    ensures
        ({
            let o = odd_back(y1, y3, y5, y7);
            &&& near(65536 * o[0], 65536 * y1 + 65536 * y3 + 43787 * y5 + 13035 * y7, 524_288)
            &&& near(65536 * o[1], 55560 * y1 - 15375 * y3 - 77303 * y5 - 37122 * y7, 524_288)
            &&& near(65536 * o[2], 37122 * y1 - 77303 * y3 + 15375 * y5 + 55560 * y7, 524_288)
            &&& near(65536 * o[3], 13035 * y1 - 43787 * y3 + 65536 * y5 - 65536 * y7, 524_288)
        }),
{
    reveal(odd_back);
    lemma_odd_inputs(y1, y3, y5, y7);
    let b = high16(y5, TG_3_16 as int) + y5 + y3;
    let d = y5 - (high16(TG_3_16 as int, y3) + y3);
    let a = high16(y7, TG_1_16 as int) + y1;
    let c = high16(TG_1_16 as int, y1) - y7;
    let (u, v) = (a - b + (c - d + 1), a - b - (c - d + 1));
    lemma_outer(a, b, c, d, y1, y3, y5, y7);
    lemma_turned(u);
    lemma_turned(v);
    let (o1, o2) = (odd16(u + high16(COS_4_16 as int, u)), odd16(high16(COS_4_16 as int, v) + v));
    lemma_turned_sum(u, o1, y1, y3, y5, y7, 78572, -21746, -109326, -52500, 55560, -15375, -77303, -37122);
    lemma_turned_sum(v, o2, y1, y3, y5, y7, 52500, -109326, 21746, 78572, 37122, -77303, 15375, 55560);
}

/// What follows from the four sums at once.
proof fn lemma_outer(a: int, b: int, c: int, d: int, y1: int, y3: int, y5: int, y7: int)
    requires
        43790 * y5 + 65536 * y3 - 65535 <= 65536 * b <= 43790 * y5 + 65536 * y3,
        65536 * y5 - 43790 * y3 <= 65536 * d <= 65536 * y5 - 43790 * y3 + 65535,
        13036 * y7 + 65536 * y1 - 65535 <= 65536 * a <= 13036 * y7 + 65536 * y1,
        13036 * y1 - 65536 * y7 - 65535 <= 65536 * c <= 13036 * y1 - 65536 * y7,
        fits(y1),
        fits(y3),
        fits(y5),
        fits(y7),
    ensures
        near(65536 * (b + a + 1), 65536 * y1 + 65536 * y3 + 43787 * y5 + 13035 * y7, 524_288),
        near(65536 * (c + d), 13035 * y1 - 43787 * y3 + 65536 * y5 - 65536 * y7, 524_288),
        near(
            65536 * (a - b + (c - d + 1)),
            78572 * y1 - 21746 * y3 - 109326 * y5 - 52500 * y7,
            4 * 65536int,
        ),
        near(
            65536 * (a - b - (c - d + 1)),
            52500 * y1 - 109326 * y3 + 21746 * y5 + 78572 * y7,
            4 * 65536int,
        ),
{
}

/// The four sums that the odd part is made of.
proof fn lemma_odd_inputs(y1: int, y3: int, y5: int, y7: int)
    ensures
        ({
            let b = high16(y5, TG_3_16 as int) + y5 + y3;
            let d = y5 - (high16(TG_3_16 as int, y3) + y3);
            let a = high16(y7, TG_1_16 as int) + y1;
            let c = high16(TG_1_16 as int, y1) - y7;
            &&& 43790 * y5 + 65536 * y3 - 65535 <= 65536 * b <= 43790 * y5 + 65536 * y3
            &&& 65536 * y5 - 43790 * y3 <= 65536 * d <= 65536 * y5 - 43790 * y3 + 65535
            &&& 13036 * y7 + 65536 * y1 - 65535 <= 65536 * a <= 13036 * y7 + 65536 * y1
            &&& 13036 * y1 - 65536 * y7 - 65535 <= 65536 * c <= 13036 * y1 - 65536 * y7
        }),
{
    lemma_constants(y5);
    lemma_constants(y3);
    lemma_constants(y7);
    lemma_constants(y1);
}

/// A sum turned by an eighth.
proof fn lemma_turned(u: int)
    ensures
        46341 * u - 65535 <= 65536 * odd16(u + high16(COS_4_16 as int, u)) <= 46341 * u + 65536,
        odd16(u + high16(COS_4_16 as int, u)) == odd16(high16(COS_4_16 as int, u) + u),
{
    lemma_constants(u);
    lemma_odd(u + high16(COS_4_16 as int, u));
}

/// What a turned sum is made of.
proof fn lemma_turned_sum(
    u: int,
    o: int,
    y1: int,
    y3: int,
    y5: int,
    y7: int,
    a1: int,
    a3: int,
    a5: int,
    a7: int,
    b1: int,
    b3: int,
    b5: int,
    b7: int,
)
    requires
        near(65536 * u, a1 * y1 + a3 * y3 + a5 * y5 + a7 * y7, 4 * 65536int),
        46341 * u - 65535 <= 65536 * o <= 46341 * u + 65536,
        near(46341 * a1, 65536 * b1, 196_608),
        near(46341 * a3, 65536 * b3, 196_608),
        near(46341 * a5, 65536 * b5, 196_608),
        near(46341 * a7, 65536 * b7, 196_608),
        fits(y1),
        fits(y3),
        fits(y5),
        fits(y7),
    ensures
        near(65536 * o, b1 * y1 + b3 * y3 + b5 * y5 + b7 * y7, 524_288),
{
    lemma_weighed(a1, b1, y1);
    lemma_weighed(a3, b3, y3);
    lemma_weighed(a5, b5, y5);
    lemma_weighed(a7, b7, y7);
}

proof fn lemma_weighed(a: int, b: int, y: int)
    requires
        near(46341 * a, 65536 * b, 196_608),
        fits(y),
    ensures
        near(46341 * (a * y), 65536 * (b * y), 196_608 * 18_600int),
{
    let d = 46341 * a - 65536 * b;
    assert(-196_608 * 18_600 <= d * y <= 196_608 * 18_600) by (nonlinear_arith)
        requires
            -196_608 <= d <= 196_608,
            -18_600 <= y <= 18_600,
    ;
    assert(d * y == 46341 * (a * y) - 65536 * (b * y)) by (nonlinear_arith)
        requires
            d == 46341 * a - 65536 * b,
    ;
}

/// The even part, with the rounding of the final shift.
#[verifier::opaque]
spec fn even_back(y0: int, y2: int, y4: int, y6: int, h: int) -> Seq<int> {
    let (p, q) = (y4 + y0, y0 - y4);
    let e = high16(y6, TG_2_16 as int) + y2;
    let f = high16(TG_2_16 as int, y2) - y6;
    seq![p + e + h, q + f + h, q - f + (h - 1), p - e + (h - 1)]
}

/// What it is worth.
proof fn lemma_even_back(y0: int, y2: int, y4: int, y6: int, h: int)
    requires
        fits(y0),
        fits(y2),
        fits(y4),
        fits(y6),
    ensures
        ({
            let e = even_back(y0, y2, y4, y6, h);
            &&& near(65536 * (e[0] - h), 65536 * y0 + 65536 * y2 + 65536 * y4 + 27146 * y6, 196_608)
            &&& near(65536 * (e[1] - h), 65536 * y0 + 27146 * y2 - 65536 * y4 - 65536 * y6, 196_608)
            &&& near(65536 * (e[2] - h), 65536 * y0 - 27146 * y2 - 65536 * y4 + 65536 * y6, 196_608)
            &&& near(65536 * (e[3] - h), 65536 * y0 - 65536 * y2 + 65536 * y4 - 27146 * y6, 196_608)
        }),
{
    reveal(even_back);
    lemma_constants(y6);
    lemma_constants(y2);
}

/// What the elements of an inverse column count for in each sample of its
/// first half, times `2^16`.
const SHARES: [i32; 32] = [
    65536, 65536, 65536, 65536, 65536, 43787, 27146, 13035,
    65536, 55560, 27146, -15375, -65536, -77303, -65536, -37122,
    65536, 37122, -27146, -77303, -65536, 15375, 65536, 55560,
    65536, 13035, -65536, -43787, 65536, 65536, -27146, -65536,
];

/// What element `u` of an inverse column counts for in sample `j`, times
/// `2^16`.
spec fn share(u: int, j: int) -> int {
    let h = if j < 4 {
        j
    } else {
        7 - j
    };
    let v = SHARES@[8 * h + u] as int;
    if j < 4 || u % 2 == 0 {
        v
    } else {
        -v
    }
}

/// The sum of what eight elements count for.
spec fn shares(y: Seq<int>, j: int) -> int {
    share(0, j) * y[0] + share(1, j) * y[1] + share(2, j) * y[2] + share(3, j) * y[3] + share(4, j) * y[4] + share(5, j)
        * y[5] + share(6, j) * y[6] + share(7, j) * y[7]
}

/// The sum of the magnitudes of eight numbers.
pub open spec fn total_size(y: Seq<int>) -> int {
    size(y[0]) + size(y[1]) + size(y[2]) + size(y[3]) + size(y[4]) + size(y[5]) + size(y[6]) + size(y[7])
}

/// The odd part of an inverse column in saturating arithmetic.
#[verifier::opaque]
spec fn odd_held(y1: int, y3: int, y5: int, y7: int) -> Seq<int> {
    let b = sum16(sum16(high16(y5, TG_3_16 as int), y5), y3);
    let d = diff16(y5, sum16(high16(TG_3_16 as int, y3), y3));
    let a = sum16(high16(y7, TG_1_16 as int), y1);
    let c = diff16(high16(TG_1_16 as int, y1), y7);
    let (t0, t1) = (diff16(a, b), sum16(diff16(c, d), 1));
    let (u, v) = (sum16(t0, t1), diff16(t0, t1));
    seq![
        sum16(sum16(b, a), 1),
        odd16(sum16(u, high16(COS_4_16 as int, u))),
        odd16(sum16(high16(COS_4_16 as int, v), v)),
        sum16(c, d),
    ]
}

/// And the even part.
#[verifier::opaque]
spec fn even_held(y0: int, y2: int, y4: int, y6: int, r: int) -> Seq<int> {
    let (p, q) = (sum16(y4, y0), diff16(y0, y4));
    let e = sum16(high16(y6, TG_2_16 as int), y2);
    let f = diff16(high16(TG_2_16 as int, y2), y6);
    seq![sum16(sum16(p, e), r), sum16(sum16(q, f), r), sum16(diff16(q, f), r - 1), sum16(diff16(p, e), r - 1)]
}

/// A number of 16 bits, with some to spare.
spec fn in_word(a: int) -> bool {
    -32_000 <= a <= 32_000
}

/// The sums of the odd part fit in 16 bits.
proof fn lemma_odd_room(
    a: int,
    b: int,
    c: int,
    d: int,
    y1: int,
    y3: int,
    y5: int,
    y7: int,
    s1: int,
    s3: int,
    s5: int,
    s7: int,
)
    requires
        43790 * y5 + 65536 * y3 - 65535 <= 65536 * b <= 43790 * y5 + 65536 * y3,
        65536 * y5 - 43790 * y3 <= 65536 * d <= 65536 * y5 - 43790 * y3 + 65535,
        13036 * y7 + 65536 * y1 - 65535 <= 65536 * a <= 13036 * y7 + 65536 * y1,
        13036 * y1 - 65536 * y7 - 65535 <= 65536 * c <= 13036 * y1 - 65536 * y7,
        -s1 <= y1 <= s1,
        -s3 <= y3 <= s3,
        -s5 <= y5 <= s5,
        -s7 <= y7 <= s7,
        s1 + s3 + s5 + s7 <= 18_600,
    ensures
        in_word(b + a),
        in_word(b + a + 1),
        in_word(c + d),
        in_word(a - b),
        in_word(c - d),
        in_word(c - d + 1),
        in_word(a - b + (c - d + 1)),
        in_word(a - b - (c - d + 1)),
{
    lemma_outer(a, b, c, d, y1, y3, y5, y7);
    let (ba, cd) = (a - b, c - d);
    let t = s1 + s3 + s5 + s7;
    assert(-65536 * t - 131_072 <= 65536 * ba <= 65536 * t + 131_072);
    assert(-65536 * t - 131_072 <= 65536 * cd <= 65536 * t + 131_072);
    assert(-109_326 * t - 262_144 <= 65536 * (ba + (cd + 1)) <= 109_326 * t + 262_144);
    assert(-109_326 * t - 262_144 <= 65536 * (ba - (cd + 1)) <= 109_326 * t + 262_144);
    assert(-65536 * t - 131_072 <= 65536 * (b + a) <= 65536 * t + 131_072);
    assert(-65536 * t - 131_072 <= 65536 * (c + d) <= 65536 * t + 131_072);
}

/// The odd part of an inverse column does not saturate.
#[verifier::rlimit(30)]
proof fn lemma_plain_odd(y1: int, y3: int, y5: int, y7: int, s1: int, s3: int, s5: int, s7: int)
    requires
        -s1 <= y1 <= s1,
        -s3 <= y3 <= s3,
        -s5 <= y5 <= s5,
        -s7 <= y7 <= s7,
        s1 + s3 + s5 + s7 <= 18_600,
    ensures
        odd_held(y1, y3, y5, y7) == odd_back(y1, y3, y5, y7),
{
    reveal(odd_back);
    reveal(odd_held);
    let h5 = high16(y5, TG_3_16 as int);
    let h3 = high16(TG_3_16 as int, y3);
    let h7 = high16(y7, TG_1_16 as int);
    let h1 = high16(TG_1_16 as int, y1);
    let (b, d, a, c) = (h5 + y5 + y3, y5 - (h3 + y3), h7 + y1, h1 - y7);
    assert(sum16(sum16(h5, y5), y3) == b && diff16(y5, sum16(h3, y3)) == d && sum16(h7, y1) == a && diff16(h1, y7) == c)
        by {
        lemma_constants(y5);
        lemma_constants(y3);
        lemma_constants(y7);
        lemma_constants(y1);
        lemma_sum(h5, y5);
        lemma_sum(h5 + y5, y3);
        lemma_sum(h3, y3);
        lemma_diff(y5, h3 + y3);
        lemma_sum(h7, y1);
        lemma_diff(h1, y7);
    }
    lemma_odd_inputs(y1, y3, y5, y7);
    lemma_odd_room(a, b, c, d, y1, y3, y5, y7, s1, s3, s5, s7);
    lemma_held(a, b, c, d);
}

/// The last steps of the odd part.
proof fn lemma_held(a: int, b: int, c: int, d: int)
    requires
        in_word(b + a),
        in_word(b + a + 1),
        in_word(c + d),
        in_word(a - b),
        in_word(c - d),
        in_word(c - d + 1),
        in_word(a - b + (c - d + 1)),
        in_word(a - b - (c - d + 1)),
    ensures
        sum16(sum16(b, a), 1) == b + a + 1,
        sum16(c, d) == c + d,
        ({
            let (t0, t1) = (diff16(a, b), sum16(diff16(c, d), 1));
            let (u, v) = (sum16(t0, t1), diff16(t0, t1));
            &&& u == a - b + (c - d + 1)
            &&& v == a - b - (c - d + 1)
            &&& sum16(u, high16(COS_4_16 as int, u)) == u + high16(COS_4_16 as int, u)
            &&& sum16(high16(COS_4_16 as int, v), v) == high16(COS_4_16 as int, v) + v
        }),
{
    lemma_sum(b, a);
    lemma_sum(b + a, 1);
    lemma_sum(c, d);
    lemma_diff(a, b);
    lemma_diff(c, d);
    lemma_sum(c - d, 1);
    let (t0, t1) = (a - b, c - d + 1);
    lemma_sum(t0, t1);
    lemma_diff(t0, t1);
    let (u, v) = (t0 + t1, t0 - t1);
    lemma_constants(u);
    lemma_constants(v);
    lemma_sum(u, high16(COS_4_16 as int, u));
    lemma_sum(high16(COS_4_16 as int, v), v);
}

/// Nor does the even part.
#[verifier::rlimit(30)]
proof fn lemma_plain_even(y0: int, y2: int, y4: int, y6: int, s0: int, s2: int, s4: int, s6: int, r: int)
    requires
        -s0 <= y0 <= s0,
        -s2 <= y2 <= s2,
        -s4 <= y4 <= s4,
        -s6 <= y6 <= s6,
        s0 + s2 + s4 + s6 <= 18_600,
        0 <= r <= 32,
    ensures
        even_held(y0, y2, y4, y6, r) == even_back(y0, y2, y4, y6, r),
{
    reveal(even_back);
    reveal(even_held);
    lemma_constants(y6);
    lemma_constants(y2);
    lemma_sum(y4, y0);
    lemma_diff(y0, y4);
    let (p, q) = (y4 + y0, y0 - y4);
    let h6 = high16(y6, TG_2_16 as int);
    lemma_sum(h6, y2);
    let h2 = high16(TG_2_16 as int, y2);
    lemma_diff(h2, y6);
    let (e, f) = (h6 + y2, h2 - y6);
    lemma_sum(p, e);
    lemma_sum(p + e, r);
    lemma_sum(q, f);
    lemma_sum(q + f, r);
    lemma_diff(q, f);
    lemma_sum(q - f, r - 1);
    lemma_diff(p, e);
    lemma_sum(p - e, r - 1);
}

/// An inverse column joins the two parts.
proof fn lemma_column_form(y: Seq<int>, h: nat)
    ensures
        ({
            let c = inverse_column(y, h);
            let o = odd_held(y[1], y[3], y[5], y[7]);
            let e = even_held(y[0], y[2], y[4], y[6], half(h));
            &&& c[0] == sum16(o[0], e[0]) && c[7] == diff16(e[0], o[0])
            &&& c[1] == sum16(e[1], o[1]) && c[6] == diff16(e[1], o[1])
            &&& c[2] == sum16(e[2], o[2]) && c[5] == diff16(e[2], o[2])
            &&& c[3] == sum16(o[3], e[3]) && c[4] == diff16(e[3], o[3])
        }),
{
    reveal(odd_held);
    reveal(even_held);
}

/// The two parts can be joined in 16 bits.
proof fn lemma_room(
    y0: int,
    y1: int,
    y2: int,
    y3: int,
    y4: int,
    y5: int,
    y6: int,
    y7: int,
    s0: int,
    s1: int,
    s2: int,
    s3: int,
    s4: int,
    s5: int,
    s6: int,
    s7: int,
    r: int,
)
    requires
        -s0 <= y0 <= s0,
        -s1 <= y1 <= s1,
        -s2 <= y2 <= s2,
        -s3 <= y3 <= s3,
        -s4 <= y4 <= s4,
        -s5 <= y5 <= s5,
        -s6 <= y6 <= s6,
        -s7 <= y7 <= s7,
        s0 + s1 + s2 + s3 + s4 + s5 + s6 + s7 <= 18_600,
        0 <= r <= 32,
    ensures
        ({
            let o = odd_back(y1, y3, y5, y7);
            let e = even_back(y0, y2, y4, y6, r);
            in_room(o[0], e[0]) && in_room(o[1], e[1]) && in_room(o[2], e[2]) && in_room(o[3], e[3])
        }),
{
    let o = odd_back(y1, y3, y5, y7);
    let e = even_back(y0, y2, y4, y6, r);
    let (so, se) = (s1 + s3 + s5 + s7, s0 + s2 + s4 + s6);
    assert(se >= 0 && so >= 0 && so + se <= 18_600);
    lemma_odd_back(y1, y3, y5, y7);
    lemma_within(o[0], o[1], o[2], o[3], y1, y3, y5, y7, s1, s3, s5, s7);
    lemma_even_back(y0, y2, y4, y6, r);
    lemma_even_within(e[0], e[1], e[2], e[3], y0, y2, y4, y6, s0, s2, s4, s6, r);
    lemma_in_room(o[0], e[0], so, se);
    lemma_in_room(o[1], e[1], so, se);
    lemma_in_room(o[2], e[2], so, se);
    lemma_in_room(o[3], e[3], so, se);
}

proof fn lemma_in_room(o: int, e: int, so: int, se: int)
    requires
        -8 * 65536 - 77303 * so <= 65536 * o <= 8 * 65536 + 77303 * so,
        -40 - se <= e <= 40 + se,
        0 <= so,
        0 <= se,
        so + se <= 18_600,
    ensures
        in_room(o, e),
{
}

/// An inverse column does not saturate.
proof fn lemma_plain_column(y: Seq<int>, h: nat)
    requires
        y.len() == 8,
        total_size(y) <= 18_600,
        0 <= half(h) <= 32,
    ensures
        ({
            let c = inverse_column(y, h);
            let o = odd_back(y[1], y[3], y[5], y[7]);
            let e = even_back(y[0], y[2], y[4], y[6], half(h));
            &&& c[0] == o[0] + e[0] && c[7] == e[0] - o[0]
            &&& c[1] == o[1] + e[1] && c[6] == e[1] - o[1]
            &&& c[2] == o[2] + e[2] && c[5] == e[2] - o[2]
            &&& c[3] == o[3] + e[3] && c[4] == e[3] - o[3]
            &&& in_room(o[0], e[0]) && in_room(o[1], e[1]) && in_room(o[2], e[2]) && in_room(o[3], e[3])
        }),
        fits(y[0]) && fits(y[1]) && fits(y[2]) && fits(y[3]) && fits(y[4]) && fits(y[5]) && fits(y[6]) && fits(y[7]),
{
    lemma_sizes(y);
    let (s0, s1, s2, s3) = (size(y[0]), size(y[1]), size(y[2]), size(y[3]));
    let (s4, s5, s6, s7) = (size(y[4]), size(y[5]), size(y[6]), size(y[7]));
    let r = half(h);
    let o = odd_back(y[1], y[3], y[5], y[7]);
    let e = even_back(y[0], y[2], y[4], y[6], r);
    lemma_room(y[0], y[1], y[2], y[3], y[4], y[5], y[6], y[7], s0, s1, s2, s3, s4, s5, s6, s7, r);
    lemma_join(o[0], e[0]);
    lemma_join(o[1], e[1]);
    lemma_join(o[2], e[2]);
    lemma_join(o[3], e[3]);
    lemma_plain_odd(y[1], y[3], y[5], y[7], s1, s3, s5, s7);
    lemma_plain_even(y[0], y[2], y[4], y[6], s0, s2, s4, s6, r);
    lemma_column_form(y, h);
}

/// Two numbers whose sum and difference fit in 16 bits.
spec fn in_room(a: int, b: int) -> bool {
    -32768 <= a + b <= 32767 && -32768 <= b - a <= 32767
}

proof fn lemma_join(a: int, b: int)
    requires
        in_room(a, b),
    ensures
        sum16(a, b) == a + b,
        sum16(b, a) == a + b,
        diff16(b, a) == b - a,
{
    lemma_sum(a, b);
    lemma_sum(b, a);
    lemma_diff(b, a);
}

/// Every number lies within its magnitude.
proof fn lemma_sizes(y: Seq<int>)
    requires
        total_size(y) <= 18_600,
    ensures
        -size(y[0]) <= y[0] <= size(y[0]),
        -size(y[1]) <= y[1] <= size(y[1]),
        -size(y[2]) <= y[2] <= size(y[2]),
        -size(y[3]) <= y[3] <= size(y[3]),
        -size(y[4]) <= y[4] <= size(y[4]),
        -size(y[5]) <= y[5] <= size(y[5]),
        -size(y[6]) <= y[6] <= size(y[6]),
        -size(y[7]) <= y[7] <= size(y[7]),
        fits(y[0]) && fits(y[1]) && fits(y[2]) && fits(y[3]) && fits(y[4]) && fits(y[5]) && fits(y[6]) && fits(y[7]),
        size(y[1]) + size(y[3]) + size(y[5]) + size(y[7]) <= 18_600,
        size(y[0]) + size(y[2]) + size(y[4]) + size(y[6]) <= 18_600,
{
    reveal(size);
}

/// The outputs of the odd part are small where its inputs are.
proof fn lemma_within(
    o0: int,
    o1: int,
    o2: int,
    o3: int,
    y1: int,
    y3: int,
    y5: int,
    y7: int,
    s1: int,
    s3: int,
    s5: int,
    s7: int,
)
    requires
        near(65536 * o0, 65536 * y1 + 65536 * y3 + 43787 * y5 + 13035 * y7, 524_288),
        near(65536 * o1, 55560 * y1 - 15375 * y3 - 77303 * y5 - 37122 * y7, 524_288),
        near(65536 * o2, 37122 * y1 - 77303 * y3 + 15375 * y5 + 55560 * y7, 524_288),
        near(65536 * o3, 13035 * y1 - 43787 * y3 + 65536 * y5 - 65536 * y7, 524_288),
        -s1 <= y1 <= s1,
        -s3 <= y3 <= s3,
        -s5 <= y5 <= s5,
        -s7 <= y7 <= s7,
    ensures
        -8 * 65536 - 77303 * (s1 + s3 + s5 + s7) <= 65536 * o0 <= 8 * 65536 + 77303 * (s1 + s3 + s5 + s7),
        -8 * 65536 - 77303 * (s1 + s3 + s5 + s7) <= 65536 * o1 <= 8 * 65536 + 77303 * (s1 + s3 + s5 + s7),
        -8 * 65536 - 77303 * (s1 + s3 + s5 + s7) <= 65536 * o2 <= 8 * 65536 + 77303 * (s1 + s3 + s5 + s7),
        -8 * 65536 - 77303 * (s1 + s3 + s5 + s7) <= 65536 * o3 <= 8 * 65536 + 77303 * (s1 + s3 + s5 + s7),
{
}

/// And those of the even part.
proof fn lemma_even_within(
    e0: int,
    e1: int,
    e2: int,
    e3: int,
    y0: int,
    y2: int,
    y4: int,
    y6: int,
    s0: int,
    s2: int,
    s4: int,
    s6: int,
    h: int,
)
    requires
        near(65536 * (e0 - h), 65536 * y0 + 65536 * y2 + 65536 * y4 + 27146 * y6, 196_608),
        near(65536 * (e1 - h), 65536 * y0 + 27146 * y2 - 65536 * y4 - 65536 * y6, 196_608),
        near(65536 * (e2 - h), 65536 * y0 - 27146 * y2 - 65536 * y4 + 65536 * y6, 196_608),
        near(65536 * (e3 - h), 65536 * y0 - 65536 * y2 + 65536 * y4 - 27146 * y6, 196_608),
        -s0 <= y0 <= s0,
        -s2 <= y2 <= s2,
        -s4 <= y4 <= s4,
        -s6 <= y6 <= s6,
        0 <= h <= 32,
    ensures
        -40 - (s0 + s2 + s4 + s6) <= e0 <= 40 + (s0 + s2 + s4 + s6),
        -40 - (s0 + s2 + s4 + s6) <= e1 <= 40 + (s0 + s2 + s4 + s6),
        -40 - (s0 + s2 + s4 + s6) <= e2 <= 40 + (s0 + s2 + s4 + s6),
        -40 - (s0 + s2 + s4 + s6) <= e3 <= 40 + (s0 + s2 + s4 + s6),
{
}

/// Sample `j` of an inverse column is the sum of what its elements count for.
proof fn lemma_inverse_column(y: Seq<int>, h: nat, j: int)
    requires
        y.len() == 8,
        total_size(y) <= 18_600,
        0 <= half(h) <= 32,
        0 <= j < 8,
    ensures
        near(65536 * (inverse_column(y, h)[j] - half(h)), shares(y, j), 720_896),
        -32_768 <= inverse_column(y, h)[j] <= 32_767,
{
    lemma_plain_column(y, h);
    lemma_odd_back(y[1], y[3], y[5], y[7]);
    lemma_even_back(y[0], y[2], y[4], y[6], half(h));
    let c = inverse_column(y, h)[j];
    lemma_shares(y);
    assert(j == 0 || j == 1 || j == 2 || j == 3 || j == 4 || j == 5 || j == 6 || j == 7);
}

/// The shares, one by one.
proof fn lemma_share_values()
    ensures
        share(0, 0) == 65536,
        share(1, 0) == 65536,
        share(2, 0) == 65536,
        share(3, 0) == 65536,
        share(4, 0) == 65536,
        share(5, 0) == 43787,
        share(6, 0) == 27146,
        share(7, 0) == 13035,
        share(0, 1) == 65536,
        share(1, 1) == 55560,
        share(2, 1) == 27146,
        share(3, 1) == -15375,
        share(4, 1) == -65536,
        share(5, 1) == -77303,
        share(6, 1) == -65536,
        share(7, 1) == -37122,
        share(0, 2) == 65536,
        share(1, 2) == 37122,
        share(2, 2) == -27146,
        share(3, 2) == -77303,
        share(4, 2) == -65536,
        share(5, 2) == 15375,
        share(6, 2) == 65536,
        share(7, 2) == 55560,
        share(0, 3) == 65536,
        share(1, 3) == 13035,
        share(2, 3) == -65536,
        share(3, 3) == -43787,
        share(4, 3) == 65536,
        share(5, 3) == 65536,
        share(6, 3) == -27146,
        share(7, 3) == -65536,
        share(0, 4) == 65536,
        share(1, 4) == -13035,
        share(2, 4) == -65536,
        share(3, 4) == 43787,
        share(4, 4) == 65536,
        share(5, 4) == -65536,
        share(6, 4) == -27146,
        share(7, 4) == 65536,
        share(0, 5) == 65536,
        share(1, 5) == -37122,
        share(2, 5) == -27146,
        share(3, 5) == 77303,
        share(4, 5) == -65536,
        share(5, 5) == -15375,
        share(6, 5) == 65536,
        share(7, 5) == -55560,
        share(0, 6) == 65536,
        share(1, 6) == -55560,
        share(2, 6) == 27146,
        share(3, 6) == 15375,
        share(4, 6) == -65536,
        share(5, 6) == 77303,
        share(6, 6) == -65536,
        share(7, 6) == 37122,
        share(0, 7) == 65536,
        share(1, 7) == -65536,
        share(2, 7) == 65536,
        share(3, 7) == -65536,
        share(4, 7) == 65536,
        share(5, 7) == -43787,
        share(6, 7) == 27146,
        share(7, 7) == -13035,
{
}

/// The shares of each sample.
proof fn lemma_shares(y: Seq<int>)
    ensures
        shares(y, 0) == 65536 * y[0] + 65536 * y[1] + 65536 * y[2] + 65536 * y[3] + 65536 * y[4] + 43787 * y[5] + 27146 * y[6] + 13035 * y[7],
        shares(y, 1) == 65536 * y[0] + 55560 * y[1] + 27146 * y[2] - 15375 * y[3] - 65536 * y[4] - 77303 * y[5] - 65536 * y[6] - 37122 * y[7],
        shares(y, 2) == 65536 * y[0] + 37122 * y[1] - 27146 * y[2] - 77303 * y[3] - 65536 * y[4] + 15375 * y[5] + 65536 * y[6] + 55560 * y[7],
        shares(y, 3) == 65536 * y[0] + 13035 * y[1] - 65536 * y[2] - 43787 * y[3] + 65536 * y[4] + 65536 * y[5] - 27146 * y[6] - 65536 * y[7],
        shares(y, 4) == 65536 * y[0] - 13035 * y[1] - 65536 * y[2] + 43787 * y[3] + 65536 * y[4] - 65536 * y[5] - 27146 * y[6] + 65536 * y[7],
        shares(y, 5) == 65536 * y[0] - 37122 * y[1] - 27146 * y[2] + 77303 * y[3] - 65536 * y[4] - 15375 * y[5] + 65536 * y[6] - 55560 * y[7],
        shares(y, 6) == 65536 * y[0] - 55560 * y[1] + 27146 * y[2] + 15375 * y[3] - 65536 * y[4] + 77303 * y[5] - 65536 * y[6] + 37122 * y[7],
        shares(y, 7) == 65536 * y[0] - 65536 * y[1] + 65536 * y[2] - 65536 * y[3] + 65536 * y[4] - 43787 * y[5] + 27146 * y[6] - 13035 * y[7],
{
    lemma_share_values();
}

// ---------------------------------------------------------------------------
// Rows
// ---------------------------------------------------------------------------

/// What element `u` of an inverse row counts for in sample `x`.
spec fn weight(tab: Seq<i16>, u: int, x: int) -> int {
    let k = if x < 4 {
        x
    } else {
        7 - x
    };
    let t = if u % 2 == 0 {
        0
    } else {
        16int
    };
    let w = tab[t + 8 * (u / 4) + 2 * k + (u / 2) % 2] as int;
    if x < 4 || u % 2 == 0 {
        w
    } else {
        -w
    }
}

/// The weighted sum of an inverse row.
spec fn row_sum(a: Seq<int>, tab: Seq<i16>, x: int) -> int {
    weight(tab, 0, x) * a[0] + weight(tab, 1, x) * a[1] + weight(tab, 2, x) * a[2] + weight(tab, 3, x) * a[3] + weight(
        tab,
        4,
        x,
    ) * a[4] + weight(tab, 5, x) * a[5] + weight(tab, 6, x) * a[6] + weight(tab, 7, x) * a[7]
}

proof fn lemma_swap(a: int, b: int)
    ensures
        a * b == b * a,
        a * -b == -(a * b),
        -b * a == -(a * b),
{
    assert(a * b == b * a) by (nonlinear_arith);
    assert(a * -b == -(a * b)) by (nonlinear_arith);
    assert(-b * a == -(a * b)) by (nonlinear_arith);
}

/// An inverse row rounds its weighted sum.
proof fn lemma_row_form(a: Seq<int>, tab: Seq<i16>, shift: nat, x: int)
    requires
        0 <= x < 8,
    ensures
        inverse_row(a, tab, shift, x) == sat16(
            wrap32(row_sum(a, tab, x) + half(shift)) / vstd::arithmetic::power2::pow2(shift) as int,
        ),
{
    let k = if x < 4 {
        x
    } else {
        7 - x
    };
    lemma_swap(a[0], tab[2 * k] as int);
    lemma_swap(a[2], tab[2 * k + 1] as int);
    lemma_swap(a[4], tab[8 + 2 * k] as int);
    lemma_swap(a[6], tab[9 + 2 * k] as int);
    lemma_swap(a[1], tab[16 + 2 * k] as int);
    lemma_swap(a[3], tab[17 + 2 * k] as int);
    lemma_swap(a[5], tab[24 + 2 * k] as int);
    lemma_swap(a[7], tab[25 + 2 * k] as int);
}

/// The weights of sample `x` are those of the basis, scaled by `g`.
spec fn weights_near(tab: Seq<i16>, g: int, x: int) -> bool {
    &&& near(16384 * weight(tab, 0, x), 2 * g * basis(0, x), 18_000)
    &&& near(16384 * weight(tab, 1, x), 2 * g * basis(1, x), 18_000)
    &&& near(16384 * weight(tab, 2, x), 2 * g * basis(2, x), 18_000)
    &&& near(16384 * weight(tab, 3, x), 2 * g * basis(3, x), 18_000)
    &&& near(16384 * weight(tab, 4, x), 2 * g * basis(4, x), 18_000)
    &&& near(16384 * weight(tab, 5, x), 2 * g * basis(5, x), 18_000)
    &&& near(16384 * weight(tab, 6, x), 2 * g * basis(6, x), 18_000)
    &&& near(16384 * weight(tab, 7, x), 2 * g * basis(7, x), 18_000)
    &&& g == 11585 ==> weight(tab, 0, x) == 16384
}

proof fn lemma_first_weights()
    ensures
        forall|x: int| 0 <= x < 8 ==> #[trigger] weights_near(TAB_I_04@, 11585, x),
{
    lemma_basis();
    assert(weights_near(TAB_I_04@, 11585, 0));
    assert(weights_near(TAB_I_04@, 11585, 1));
    assert(weights_near(TAB_I_04@, 11585, 2));
    assert(weights_near(TAB_I_04@, 11585, 3));
    assert(weights_near(TAB_I_04@, 11585, 4));
    assert(weights_near(TAB_I_04@, 11585, 5));
    assert(weights_near(TAB_I_04@, 11585, 6));
    assert(weights_near(TAB_I_04@, 11585, 7));
}

proof fn lemma_second_weights()
    ensures
        forall|x: int| 0 <= x < 8 ==> #[trigger] weights_near(TAB_I_17@, 16069, x),
{
    lemma_basis();
    assert(weights_near(TAB_I_17@, 16069, 0));
    assert(weights_near(TAB_I_17@, 16069, 1));
    assert(weights_near(TAB_I_17@, 16069, 2));
    assert(weights_near(TAB_I_17@, 16069, 3));
    assert(weights_near(TAB_I_17@, 16069, 4));
    assert(weights_near(TAB_I_17@, 16069, 5));
    assert(weights_near(TAB_I_17@, 16069, 6));
    assert(weights_near(TAB_I_17@, 16069, 7));
}

proof fn lemma_third_weights()
    ensures
        forall|x: int| 0 <= x < 8 ==> #[trigger] weights_near(TAB_I_26@, 15137, x),
{
    lemma_basis();
    assert(weights_near(TAB_I_26@, 15137, 0));
    assert(weights_near(TAB_I_26@, 15137, 1));
    assert(weights_near(TAB_I_26@, 15137, 2));
    assert(weights_near(TAB_I_26@, 15137, 3));
    assert(weights_near(TAB_I_26@, 15137, 4));
    assert(weights_near(TAB_I_26@, 15137, 5));
    assert(weights_near(TAB_I_26@, 15137, 6));
    assert(weights_near(TAB_I_26@, 15137, 7));
}

proof fn lemma_fourth_weights()
    ensures
        forall|x: int| 0 <= x < 8 ==> #[trigger] weights_near(TAB_I_35@, 13623, x),
{
    lemma_basis();
    assert(weights_near(TAB_I_35@, 13623, 0));
    assert(weights_near(TAB_I_35@, 13623, 1));
    assert(weights_near(TAB_I_35@, 13623, 2));
    assert(weights_near(TAB_I_35@, 13623, 3));
    assert(weights_near(TAB_I_35@, 13623, 4));
    assert(weights_near(TAB_I_35@, 13623, 5));
    assert(weights_near(TAB_I_35@, 13623, 6));
    assert(weights_near(TAB_I_35@, 13623, 7));
}

/// What eight coefficients across make of sample `x`: the sum of the vectors
/// of the basis, each as strong as its coefficient.
pub open spec fn across(a: Seq<int>, x: int) -> int {
    basis(0, x) * a[0] + basis(1, x) * a[1] + basis(2, x) * a[2] + basis(3, x) * a[3] + basis(4, x) * a[4] + basis(
        5,
        x,
    ) * a[5] + basis(6, x) * a[6] + basis(7, x) * a[7]
}

/// One element of a row.
proof fn lemma_term(w: int, g: int, b: int, a: int)
    requires
        near(16384 * w, 2 * g * b, 18_000),
        -16384 <= b <= 16384,
        0 <= g <= 16069,
    ensures
        near(16384 * (w * a), 2 * g * (b * a), 18_000 * size(a)),
        -32_768 * size(a) <= w * a <= 32_768 * size(a),
        -16384 * size(a) <= b * a <= 16384 * size(a),
        -size(a) <= a <= size(a),
{
    reveal(size);
    let d = 16384 * w - 2 * g * b;
    let s = size(a);
    assert(-18_000 * s <= d * a <= 18_000 * s) by (nonlinear_arith)
        requires
            -18_000 <= d <= 18_000,
            -s <= a <= s,
            s == a || s == -a,
    ;
    assert(-16384 * s <= b * a <= 16384 * s) by (nonlinear_arith)
        requires
            -16384 <= b <= 16384,
            -s <= a <= s,
            s == a || s == -a,
    ;
    assert(16384 * (w * a) == d * a + 2 * g * (b * a)) by (nonlinear_arith)
        requires
            d == 16384 * w - 2 * g * b,
    ;
    assert(-32_768 <= w <= 32_768) by {
        assert(-2 * 16069 * 16384 <= 2 * g * b <= 2 * 16069 * 16384) by (nonlinear_arith)
            requires
                0 <= g <= 16069,
                -16384 <= b <= 16384,
        ;
    }
    assert(-32_768 * s <= w * a <= 32_768 * s) by (nonlinear_arith)
        requires
            -32_768 <= w <= 32_768,
            -s <= a <= s,
            s == a || s == -a,
    ;
}

/// How much of the range of the transform row `v` of the coefficients takes:
/// twice the magnitudes, the mean counting once.
pub open spec fn row_reach(a: Seq<int>, v: int) -> int {
    2 * total_size(a) - (if v == 0 {
        size(a[0])
    } else {
        0
    })
}

/// The weighted sum of a row against the basis, and its size.
proof fn lemma_row_sum(a: Seq<int>, v: int, x: int)
    requires
        0 <= v < 8,
        0 <= x < 8,
    ensures
        near(
            16384 * row_sum(a, inverse_table(v), x),
            2 * column_scale(v) * across(a, x),
            18_000 * total_size(a),
        ),
        -16384 * row_reach(a, v) <= row_sum(a, inverse_table(v), x) <= 16384 * row_reach(a, v),
        -16384 * total_size(a) <= across(a, x) <= 16384 * total_size(a),
{
    let t = inverse_table(v);
    let g = column_scale(v);
    assert(weights_near(t, g, x)) by {
        lemma_first_weights();
        lemma_second_weights();
        lemma_third_weights();
        lemma_fourth_weights();
    }
    lemma_basis_range(0);
    lemma_basis_range(1);
    lemma_basis_range(2);
    lemma_basis_range(3);
    lemma_basis_range(4);
    lemma_basis_range(5);
    lemma_basis_range(6);
    lemma_basis_range(7);
    lemma_term(weight(t, 0, x), g, basis(0, x), a[0]);
    lemma_term(weight(t, 1, x), g, basis(1, x), a[1]);
    lemma_term(weight(t, 2, x), g, basis(2, x), a[2]);
    lemma_term(weight(t, 3, x), g, basis(3, x), a[3]);
    lemma_term(weight(t, 4, x), g, basis(4, x), a[4]);
    lemma_term(weight(t, 5, x), g, basis(5, x), a[5]);
    lemma_term(weight(t, 6, x), g, basis(6, x), a[6]);
    lemma_term(weight(t, 7, x), g, basis(7, x), a[7]);
    lemma_eight_times(
        2 * g,
        basis(0, x) * a[0],
        basis(1, x) * a[1],
        basis(2, x) * a[2],
        basis(3, x) * a[3],
        basis(4, x) * a[4],
        basis(5, x) * a[5],
        basis(6, x) * a[6],
        basis(7, x) * a[7],
    );
    if v == 0 {
        let w = weight(t, 0, x);
        assert(w * a[0] == 16384 * a[0]) by {
            assert(w == 16384);
        }
    }
}

/// A number rounded after a shift.
proof fn lemma_rounded(s: int, n: int, limit: int)
    requires
        n == 2048 || n == 4096,
        -limit <= s <= limit,
        0 <= limit <= 18_600 * n,
    ensures
        ({
            let r = sat16(wrap32(s + n / 2) / n);
            &&& near(n * r, s, n / 2)
            &&& n * size(r) <= limit + n / 2
        }),
{
    reveal(size);
    let r = (s + n / 2) / n;
    assert(wrap32(s + n / 2) == s + n / 2);
    if n == 2048 {
        assert(2048 * r <= s + 1024 < 2048 * r + 2048);
    } else {
        assert(4096 * r <= s + 2048 < 4096 * r + 4096);
    }
}

/// The range of the transform.
pub open spec fn reach_limit(depth: Depth) -> int {
    match depth {
        Depth::Eight => 2320,
        Depth::Ten => 4640,
    }
}

/// The scale of the row pass.
spec fn row_unit(depth: Depth) -> int {
    match depth {
        Depth::Eight => 2048,
        Depth::Ten => 4096,
    }
}

/// One element after the row pass.
proof fn lemma_back_row(a: Seq<int>, depth: Depth, v: int, x: int)
    requires
        0 <= v < 8,
        0 <= x < 8,
        row_reach(a, v) <= reach_limit(depth),
    ensures
        ({
            let n = row_unit(depth);
            let r = inverse_row(a, inverse_table(v), row_shift(depth), x);
            &&& near(n * r, row_sum(a, inverse_table(v), x), n / 2)
            &&& n * size(r) <= 16384 * row_reach(a, v) + n / 2
        }),
{
    vstd::arithmetic::power2::lemma2_to64();
    lemma_row_form(a, inverse_table(v), row_shift(depth), x);
    lemma_row_sum(a, v, x);
    lemma_rounded(row_sum(a, inverse_table(v), x), row_unit(depth), 16384 * row_reach(a, v));
}

// ---------------------------------------------------------------------------
// Blocks
// ---------------------------------------------------------------------------

/// What element `r` of a column after the row pass adds to a sample.
proof fn lemma_product(h: int, g: int, b: int, r: int, n: int, s: int, p: int, t: int)
    requires
        near(h * g, 65536 * b, 6_400),
        -77_303 <= h <= 77_303,
        near(n * r, s, n / 2),
        near(16384 * s, 2 * g * p, 18_000 * t),
        -16384 * t <= p <= 16384 * t,
        n == 2048 || n == 4096,
        0 <= t,
    ensures
        near(16384 * (n * (h * r)), 131_072 * (b * p), 1_266_532_352 * (n / 2) + 1_601_169_200 * t),
{
    let e1 = n * r - s;
    let e2 = 16384 * s - 2 * g * p;
    let e3 = h * g - 65536 * b;
    let m = n / 2;
    assert(-77_303 * m <= h * e1 <= 77_303 * m) by (nonlinear_arith)
        requires
            -77_303 <= h <= 77_303,
            -m <= e1 <= m,
    ;
    assert(-1_391_454_000 * t <= h * e2 <= 1_391_454_000 * t) by (nonlinear_arith)
        requires
            -77_303 <= h <= 77_303,
            -18_000 * t <= e2 <= 18_000 * t,
    ;
    assert(-104_857_600 * t <= e3 * p <= 104_857_600 * t) by (nonlinear_arith)
        requires
            -6_400 <= e3 <= 6_400,
            -16384 * t <= p <= 16384 * t,
    ;
    assert(n * (h * r) == h * e1 + h * s) by (nonlinear_arith)
        requires
            e1 == n * r - s,
    ;
    assert(16384 * (h * s) == h * e2 + 2 * (h * g * p)) by (nonlinear_arith)
        requires
            e2 == 16384 * s - 2 * g * p,
    ;
    assert(h * g * p == e3 * p + 65536 * (b * p)) by (nonlinear_arith)
        requires
            e3 == h * g - 65536 * b,
    ;
}

/// The shares undo the scale that the rows leave.
proof fn lemma_share_scale(v: int, y: int)
    requires
        0 <= v < 8,
        0 <= y < 8,
    ensures
        near(share(v, y) * column_scale(v), 65536 * basis(v, y), 6_400),
        -77_303 <= share(v, y) <= 77_303,
{
    lemma_basis();
    lemma_share_values();
    assert(v == 0 || v == 1 || v == 2 || v == 3 || v == 4 || v == 5 || v == 6 || v == 7);
    assert(y == 0 || y == 1 || y == 2 || y == 3 || y == 4 || y == 5 || y == 6 || y == 7);
}

/// What a block of coefficients makes of sample (`y`, `x`): the sum of the
/// products of two cosines, each as strong as its coefficient, times `2^30`.
pub open spec fn picture(c: Seq<Seq<int>>, y: int, x: int) -> int {
    across(Seq::new(8, |v: int| across(c[v], x)), y)
}

/// How much of the range of the transform a block of coefficients takes.
pub open spec fn block_reach(c: Seq<Seq<int>>) -> int {
    row_reach(c[0], 0) + row_reach(c[1], 1) + row_reach(c[2], 2) + row_reach(c[3], 3) + row_reach(c[4], 4) + row_reach(
        c[5],
        5,
    ) + row_reach(c[6], 6) + row_reach(c[7], 7)
}

/// Column `x` of a block after the row pass.
spec fn block_column(c: Seq<Seq<int>>, depth: Depth, x: int) -> Seq<int> {
    Seq::new(8, |v: int| inverse_row(c[v], inverse_table(v), row_shift(depth), x))
}

/// Every row takes its part of the range.
proof fn lemma_reach(a: Seq<int>, v: int)
    ensures
        0 <= total_size(a) <= row_reach(a, v),
{
    reveal(size);
}

/// One element of a column after the row pass.
proof fn lemma_block_element(c: Seq<Seq<int>>, depth: Depth, y: int, x: int, v: int)
    requires
        0 <= y < 8,
        0 <= x < 8,
        0 <= v < 8,
        row_reach(c[v], v) <= reach_limit(depth),
    ensures
        ({
            let n = row_unit(depth);
            let r = block_column(c, depth, x)[v];
            &&& n * size(r) <= 16384 * row_reach(c[v], v) + n / 2
            &&& near(
                16384 * (n * (share(v, y) * r)),
                131_072 * (basis(v, y) * across(c[v], x)),
                1_266_532_352 * (n / 2) + 1_601_169_200 * row_reach(c[v], v),
            )
        }),
{
    lemma_reach(c[v], v);
    lemma_back_row(c[v], depth, v, x);
    lemma_row_sum(c[v], v, x);
    lemma_share_scale(v, y);
    lemma_product(
        share(v, y),
        column_scale(v),
        basis(v, y),
        block_column(c, depth, x)[v],
        row_unit(depth),
        row_sum(c[v], inverse_table(v), x),
        across(c[v], x),
        total_size(c[v]),
    );
}

/// A column after the row pass fits the column pass, and the shares of its
/// elements make up the picture.
proof fn lemma_block_shares(c: Seq<Seq<int>>, depth: Depth, y: int, x: int)
    requires
        0 <= y < 8,
        0 <= x < 8,
        block_reach(c) <= reach_limit(depth),
    ensures
        ({
            let n = row_unit(depth);
            let col = block_column(c, depth, x);
            &&& n * total_size(col) <= 16384 * block_reach(c) + 4 * n
            &&& near(
                16384 * (n * shares(col, y)),
                131_072 * picture(c, y, x),
                5_066_129_408 * n + 1_601_169_200 * block_reach(c),
            )
        }),
{
    let n = row_unit(depth);
    let col = block_column(c, depth, x);
    lemma_reach(c[0], 0);
    lemma_reach(c[1], 1);
    lemma_reach(c[2], 2);
    lemma_reach(c[3], 3);
    lemma_reach(c[4], 4);
    lemma_reach(c[5], 5);
    lemma_reach(c[6], 6);
    lemma_reach(c[7], 7);
    lemma_block_element(c, depth, y, x, 0);
    lemma_block_element(c, depth, y, x, 1);
    lemma_block_element(c, depth, y, x, 2);
    lemma_block_element(c, depth, y, x, 3);
    lemma_block_element(c, depth, y, x, 4);
    lemma_block_element(c, depth, y, x, 5);
    lemma_block_element(c, depth, y, x, 6);
    lemma_block_element(c, depth, y, x, 7);
    lemma_eight_times(
        n,
        share(0, y) * col[0],
        share(1, y) * col[1],
        share(2, y) * col[2],
        share(3, y) * col[3],
        share(4, y) * col[4],
        share(5, y) * col[5],
        share(6, y) * col[6],
        share(7, y) * col[7],
    );
    lemma_eight_times(
        n,
        size(col[0]),
        size(col[1]),
        size(col[2]),
        size(col[3]),
        size(col[4]),
        size(col[5]),
        size(col[6]),
        size(col[7]),
    );
}

/// The level that a shift leaves of a sum with its half.
proof fn lemma_level(k: int, h: int, add: int)
    requires
        h == 32 || h == 16,
        -32_768 <= k <= 32_767,
        -512 <= add <= 512,
    ensures
        sum16(k / (2 * h), add) == k / (2 * h) + add,
        near(2 * h * (k / (2 * h)), k - h, h),
{
    if h == 32 {
        assert(near(64 * (k / 64), k - 32, 32));
        lemma_sum(k / 64, add);
    } else {
        assert(near(32 * (k / 32), k - 16, 16));
        lemma_sum(k / 32, add);
    }
}

/// Half a unit of the final shift.
spec fn final_half(depth: Depth) -> int {
    match depth {
        Depth::Eight => 32,
        Depth::Ten => 16,
    }
}

/// Half a level more than rounding, in the units of the picture.
pub open spec fn picture_error(depth: Depth) -> int {
    match depth {
        Depth::Eight => 0x4000_0000,
        Depth::Ten => 0x5000_0000,
    }
}

/// The arithmetic of the last step.
proof fn lemma_last_step(depth: Depth, k: int, w: int, q: int, reach: int)
    requires
        reach <= reach_limit(depth),
        near(65536 * (k - final_half(depth)), w, 720_896),
        near(
            16384 * (row_unit(depth) * w),
            131_072 * q,
            5_066_129_408 * row_unit(depth) + 1_601_169_200 * reach,
        ),
        -32_768 <= k <= 32_767,
    ensures
        near(0x4000_0000 * (k / (2 * final_half(depth))), q, picture_error(depth)),
{
    lemma_level(k, final_half(depth), 0);
    match depth {
        Depth::Eight => {
            assert(near(64 * (k / 64), k - 32, 32));
        },
        Depth::Ten => {
            assert(near(32 * (k / 32), k - 16, 16));
        },
    }
}

/// A block of coefficients is made into its picture.
proof fn lemma_block_picture(c: Seq<Seq<int>>, depth: Depth, add: int, y: int, x: int)
    requires
        block_reach(c) <= reach_limit(depth),
        -512 <= add <= 512,
        0 <= y < 8,
        0 <= x < 8,
    ensures
        ({
            let s = col_shift(depth);
            let r = sum16(down16(inverse_column(block_column(c, depth, x), s)[y], s), add);
            near(0x4000_0000 * (r - add), picture(c, y, x), picture_error(depth))
        }),
{
    let s = col_shift(depth);
    let col = block_column(c, depth, x);
    let h = final_half(depth);
    assert(half(s) == h && vstd::arithmetic::power2::pow2(s) == 2 * h) by {
        vstd::arithmetic::power2::lemma2_to64();
    }
    lemma_block_shares(c, depth, y, x);
    assert(total_size(col) <= 18_600);
    lemma_inverse_column(col, s, y);
    let k = inverse_column(col, s)[y];
    assert(down16(k, s) == k / (2 * h)) by {
        reveal(down16);
    }
    lemma_last_step(depth, k, shares(col, y), picture(c, y, x), block_reach(c));
    lemma_level(k, h, add);
}

/// The coefficients that a block in zig-zag order stands for: each number
/// times its quantiser.
pub open spec fn stands_for(zz: Seq<i16>, depth: Depth, matrix: Seq<u16>, c: Seq<Seq<int>>) -> bool {
    &&& c.len() == 8
    &&& forall|v: int| 0 <= v < 8 ==> (#[trigger] c[v]).len() == 8
    &&& forall|n: int|
        0 <= n < 64 ==> {
            let i = ZIGZAG@[n] as int;
            let p = #[trigger] zz[n] * matrix[i];
            &&& -32_768 <= p <= 32_767
            &&& c[i / 8][i % 8] == match depth {
                Depth::Eight => p / 16,
                Depth::Ten => p / 4,
            }
        }
}

proof fn lemma_stands_for(zz: Seq<i16>, depth: Depth, matrix: Seq<u16>, c: Seq<Seq<int>>, v: int)
    requires
        stands_for(zz, depth, matrix, c),
        0 <= v < 8,
    ensures
        c[v] == dequantised(zz, depth, matrix, v),
{
    vstd::arithmetic::power2::lemma2_to64();
    let d = dequantised(zz, depth, matrix, v);
    assert forall|u: int| 0 <= u < 8 implies c[v][u] == #[trigger] d[u] by {
        let i = 8 * v + u;
        lemma_zig_inverse(i);
        let n = zig_place(i);
        assert(i / 8 == v && i % 8 == u);
        let p = zz[n] * matrix[i];
        assert(wrap16(p) == p);
        reveal(down16);
    }
    assert(c[v] =~= d);
}

/// The inverse transform draws the picture that the coefficients of a block
/// describe, the sum of the products of two cosines that each stands for, to
/// within one level at 8 bits and a level and a quarter at 10, wherever the
/// coefficients leave the arithmetic its room.
pub proof fn law_inverse_draws_the_cosines(
    zz: Seq<i16>,
    depth: Depth,
    matrix: Seq<u16>,
    c: Seq<Seq<int>>,
    add: int,
    y: int,
    x: int,
)
    requires
        stands_for(zz, depth, matrix, c),
        block_reach(c) <= reach_limit(depth),
        -512 <= add <= 512,
        0 <= y < 8,
        0 <= x < 8,
    ensures
        near(
            0x4000_0000 * (inverse(zz, depth, matrix, add, y, x) - add),
            picture(c, y, x),
            picture_error(depth),
        ),
{
    reveal(inverse);
    let col = inverse_rows(zz, depth, matrix, x);
    assert forall|v: int| 0 <= v < 8 implies #[trigger] col[v] == block_column(c, depth, x)[v] by {
        lemma_stands_for(zz, depth, matrix, c, v);
    }
    assert(col =~= block_column(c, depth, x));
    lemma_block_picture(c, depth, add, y, x);
}

} // verus!
