//! 8x8 forward transform, quantisation and zig-zag order, and the way back.
//!
//! Blocks of 64 words are kept in natural order (row by row) inside the
//! transform and in zig-zag order outside of it.

use super::bits::{bit_len, lemma_bit_len_pow, lemma_leading_zeros, wrap16};
use super::lanes::{
    adds, cut, cut_unsigned, diff16, down16, high16, low16, mulhi, mullo, odd16, or1,
    pack_shifted, sat16, srai16, subs, sum16, wrap32,
};
use super::tables::{
    COS_4_16, DEFAULT_QUANTIZATION_MATRIX, FDCT_SQRT2, FDCT_TAN1, FDCT_TAN2, FDCT_TAN3, FTAB1, FTAB2,
    FTAB3, FTAB4, QUALITY, QUALITY_COUNT, TAB_I_04, TAB_I_17, TAB_I_26, TAB_I_35, TG_1_16, TG_2_16,
    TG_3_16, ZIGZAG,
};
use vstd::prelude::*;

verus! {

/// Sample precision of a plane.
#[derive(Clone, Copy, Debug, PartialEq, Eq, Structural)]
pub enum Depth {
    /// 8-bit samples.
    Eight,
    /// 10-bit samples (carried MSB-aligned in 16-bit words).
    Ten,
}

// ---------------------------------------------------------------------------
// Forward transform
// ---------------------------------------------------------------------------

/// One column of the forward transform: eight samples to eight coefficients,
/// the samples scaled by `m` on the way in.
pub open spec fn forward_column(x: Seq<int>, m: int) -> Seq<int> {
    let (s07, s16, s25, s34) = (
        sum16(x[7], x[0]),
        sum16(x[6], x[1]),
        sum16(x[5], x[2]),
        sum16(x[4], x[3]),
    );
    let (d07, d16, d25, d34) = (
        low16(diff16(x[0], x[7]), m),
        low16(diff16(x[1], x[6]), 2 * m),
        low16(diff16(x[2], x[5]), 2 * m),
        low16(diff16(x[3], x[4]), m),
    );
    // Even part.
    let (m03, m12) = (diff16(s07, s34), diff16(s16, s25));
    let p03 = low16(sum16(sum16(s34, s34), m03), m);
    let p12 = low16(sum16(sum16(s25, s25), m12), m);
    let (e03, e12) = (low16(m03, m), low16(m12, m));
    let c4 = diff16(p03, p12);
    let c0 = sum16(sum16(p12, p12), c4);
    let c6 = odd16(diff16(high16(FDCT_TAN2 as int, e03), e12));
    let c2 = odd16(sum16(high16(FDCT_TAN2 as int, e12), e03));
    // Odd part.
    let dif = diff16(d16, d25);
    let sum = sum16(sum16(d25, d25), dif);
    let p65 = odd16(high16(sum, FDCT_SQRT2 as int));
    let m65 = high16(dif, FDCT_SQRT2 as int);
    let (m465, p465) = (diff16(d34, m65), sum16(m65, d34));
    let (m765, p765) = (diff16(d07, p65), sum16(p65, d07));
    let c1 = sum16(high16(p465, FDCT_TAN1 as int), p765);
    let c3 = diff16(m765, sum16(high16(m465, FDCT_TAN3 as int), m465));
    let c5 = sum16(m465, sum16(high16(m765, FDCT_TAN3 as int), m765));
    let c7 = diff16(high16(p765, FDCT_TAN1 as int), p465);
    seq![c0, c1, c2, c3, c4, c5, c6, c7]
}

/// The butterfly that opens the row pass: sums and differences of mirrored
/// elements, interleaved as the tables expect them.
pub open spec fn fold(x: Seq<int>) -> Seq<int> {
    let s = Seq::new(4, |i: int| sum16(x[i], x[7 - i]));
    let d = Seq::new(4, |i: int| diff16(x[i], x[7 - i]));
    seq![s[0], s[1], d[0], d[1], s[2], s[3], d[2], d[3]]
}

/// Element `j` of the folded row with its two halves swapped.
pub open spec fn swapped(j: int) -> int {
    (j + 4) % 8
}

/// Element `k` of one row of the forward transform.
pub open spec fn forward_row(x: Seq<int>, tab: Seq<i16>, k: int) -> int {
    let f = fold(x);
    let j = 2 * (k % 4);
    let t = if k < 4 {
        0
    } else {
        16int
    };
    sat16(
        wrap32(
            f[j] * tab[t + j] + f[j + 1] * tab[t + j + 1] + f[swapped(j)] * tab[t + 8 + j] + f[swapped(
                j + 1,
            )] * tab[t + 9 + j] + 32768,
        ) / 65536,
    )
}

/// The multipliers of row `y` of the forward transform.
pub open spec fn forward_table(y: int) -> Seq<i16> {
    if y == 0 || y == 4 {
        FTAB1@
    } else if y == 1 || y == 7 {
        FTAB2@
    } else if y == 2 || y == 6 {
        FTAB3@
    } else {
        FTAB4@
    }
}

/// Scale of the samples on their way into the forward transform.
pub open spec fn input_scale(depth: Depth) -> int {
    match depth {
        Depth::Eight => 8,
        Depth::Ten => 2,
    }
}

/// Column `x` of a block of level-shifted samples.
pub open spec fn column(rows: Seq<Seq<int>>, add: int, x: int) -> Seq<int> {
    Seq::new(8, |y: int| sum16(rows[y][x], add))
}

/// Row `y` after the column pass.
pub open spec fn forward_columns(rows: Seq<Seq<int>>, depth: Depth, add: int, y: int) -> Seq<int> {
    Seq::new(8, |x: int| forward_column(column(rows, add, x), input_scale(depth))[y])
}

/// Coefficient `i` (natural order) of the forward transform of a block.
pub open spec fn forward(rows: Seq<Seq<int>>, depth: Depth, add: int, i: int) -> int {
    forward_row(forward_columns(rows, depth, add, i / 8), forward_table(i / 8), i % 8)
}

/// A coefficient divided by its quantiser: the magnitude plus a correction,
/// through two unsigned high multiplies, with its sign put back.
pub open spec fn quantise(x: int, correction: int, reciprocal: int, scale: int) -> int {
    let a = if x < 0 {
        -x
    } else {
        x
    };
    let q = ((a + correction) % 65536 * reciprocal) / 65536 * scale / 65536;
    if x < 0 {
        wrap16(-wrap16(q))
    } else if x == 0 {
        0
    } else {
        wrap16(q)
    }
}

/// The quantised coefficients of a block in zig-zag order.
#[verifier::opaque]
pub open spec fn forward_zig(
    rows: Seq<Seq<int>>,
    depth: Depth,
    matrix: Seq<u16>,
    add: int,
) -> Seq<i16> {
    Seq::new(
        64,
        |i: int|
            {
                let n = ZIGZAG@[i] as int;
                quantise(
                    forward(rows, depth, add, n),
                    matrix[n] as int,
                    matrix[64 + n] as int,
                    matrix[128 + n] as int,
                ) as i16
            },
    )
}

/// The words of a block.
pub open spec fn words(rows: Seq<[i16; 8]>) -> Seq<Seq<int>> {
    Seq::new(8, |y: int| Seq::new(8, |x: int| rows[y]@[x] as int))
}

/// One column of the forward transform.
fn fdct_column(x: &[i16; 8], m: i16) -> (r: [i16; 8])
    requires
        0 < m <= 8,
    ensures
        forall|k: int|
            0 <= k < 8 ==> #[trigger] r@[k] == forward_column(
                Seq::new(8, |y: int| x@[y] as int),
                m as int,
            )[k],
{
    let s07: i16 = adds(x[7], x[0]);
    let s16: i16 = adds(x[6], x[1]);
    let s25: i16 = adds(x[5], x[2]);
    let s34: i16 = adds(x[4], x[3]);
    let d07: i16 = mullo(subs(x[0], x[7]), m);
    let d16: i16 = mullo(subs(x[1], x[6]), 2 * m);
    let d25: i16 = mullo(subs(x[2], x[5]), 2 * m);
    let d34: i16 = mullo(subs(x[3], x[4]), m);

    let m03: i16 = subs(s07, s34);
    let m12: i16 = subs(s16, s25);
    let p03: i16 = mullo(adds(adds(s34, s34), m03), m);
    let p12: i16 = mullo(adds(adds(s25, s25), m12), m);
    let e03: i16 = mullo(m03, m);
    let e12: i16 = mullo(m12, m);
    let c4: i16 = subs(p03, p12);
    let c0: i16 = adds(adds(p12, p12), c4);
    let c6: i16 = or1(subs(mulhi(FDCT_TAN2, e03), e12));
    let c2: i16 = or1(adds(mulhi(FDCT_TAN2, e12), e03));

    let dif: i16 = subs(d16, d25);
    let sum: i16 = adds(adds(d25, d25), dif);
    let p65: i16 = or1(mulhi(sum, FDCT_SQRT2));
    let m65: i16 = mulhi(dif, FDCT_SQRT2);
    let m465: i16 = subs(d34, m65);
    let p465: i16 = adds(m65, d34);
    let m765: i16 = subs(d07, p65);
    let p765: i16 = adds(p65, d07);
    let c1: i16 = adds(mulhi(p465, FDCT_TAN1), p765);
    let c3: i16 = subs(m765, adds(mulhi(m465, FDCT_TAN3), m465));
    let c5: i16 = adds(m465, adds(mulhi(m765, FDCT_TAN3), m765));
    let c7: i16 = subs(mulhi(p765, FDCT_TAN1), p465);
    [c0, c1, c2, c3, c4, c5, c6, c7]
}

/// Sum of two products, exact in 64 bits.
fn dot2(a: i16, s: i16, b: i16, t: i16) -> (r: i64)
    ensures
        r == a * s + b * t,
        -0x8000_0000 <= r <= 0x8000_0000,
{
    proof {
        lemma_word_product(a as int, s as int);
        lemma_word_product(b as int, t as int);
    }
    a as i64 * s as i64 + b as i64 * t as i64
}

proof fn lemma_word_product(a: int, b: int)
    by (nonlinear_arith)
    requires
        -32768 <= a <= 32767,
        -32768 <= b <= 32767,
    ensures
        -0x4000_0000 <= a * b <= 0x4000_0000,
{
}

proof fn lemma_cut_word(x: i64)
    by (bit_vector)
    ensures
        (x as i32) as int == (x + 0x8000_0000) % 0x1_0000_0000 - 0x8000_0000,
{
}

/// Cuts to 32 bits.
fn cut_word(x: i64) -> (r: i32)
    ensures
        r == wrap32(x as int),
{
    proof {
        lemma_cut_word(x);
    }
    x as i32
}

/// One row of the forward transform.
fn fdct_row(x: &[i16; 8], tab: &[i16; 32]) -> (r: [i16; 8])
    ensures
        forall|k: int|
            0 <= k < 8 ==> #[trigger] r@[k] == forward_row(
                Seq::new(8, |i: int| x@[i] as int),
                tab@,
                k,
            ),
{
    let f: [i16; 8] = [
        adds(x[0], x[7]),
        adds(x[1], x[6]),
        subs(x[0], x[7]),
        subs(x[1], x[6]),
        adds(x[2], x[5]),
        adds(x[3], x[4]),
        subs(x[2], x[5]),
        subs(x[3], x[4]),
    ];
    let ghost xs = Seq::new(8, |i: int| x@[i] as int);
    assert forall|j: int| 0 <= j < 8 implies #[trigger] f@[j] == fold(xs)[j] by {}
    let mut r: [i16; 8] = [0; 8];
    let mut k: usize = 0;
    while k < 8
        invariant
            k <= 8,
            xs == Seq::new(8, |i: int| x@[i] as int),
            forall|j: int| 0 <= j < 8 ==> #[trigger] f@[j] == fold(xs)[j],
            forall|i: int| 0 <= i < k ==> #[trigger] r@[i] == forward_row(xs, tab@, i),
        decreases 8 - k,
    {
        let j: usize = 2 * (k % 4);
        let t: usize = if k < 4 {
            0
        } else {
            16
        };
        let h: usize = (j + 4) % 8;
        let a: i64 = dot2(f[j], tab[t + j], f[j + 1], tab[t + j + 1]);
        let b: i64 = dot2(f[h], tab[t + 8 + j], f[h + 1], tab[t + 9 + j]);
        proof {
            vstd::arithmetic::power2::lemma2_to64();
            assert(swapped(j + 1) == h + 1);
        }
        r[k] = pack_shifted(cut_word(a + b + 32768), 16);
        k = k + 1;
    }
    r
}

proof fn lemma_magnitude_product(a: int, b: int)
    by (nonlinear_arith)
    requires
        0 <= a < 65536,
        0 <= b < 65536,
    ensures
        0 <= a * b < 0x1_0000_0000,
        0 <= a * b / 65536 < 65536,
{
}

/// Divides one coefficient by its quantiser.
fn quantise_one(x: i16, correction: u16, reciprocal: u16, scale: u16) -> (r: i16)
    ensures
        r == quantise(x as int, correction as int, reciprocal as int, scale as int),
{
    let a: u32 = if x < 0 {
        (-(x as i32)) as u32
    } else {
        x as u32
    };
    let b: u32 = (a + correction as u32) % 65536;
    proof {
        lemma_magnitude_product(b as int, reciprocal as int);
    }
    let c: u32 = b * reciprocal as u32 / 65536;
    proof {
        lemma_magnitude_product(c as int, scale as int);
    }
    let q: i16 = cut_unsigned(c * scale as u32 / 65536);
    if x < 0 {
        cut(-(q as i32))
    } else if x == 0 {
        0
    } else {
        q
    }
}

/// A block has 64 coefficients.
pub proof fn lemma_forward_zig_len(
    rows: Seq<Seq<int>>,
    depth: Depth,
    matrix: Seq<u16>,
    add: int,
)
    ensures
        forward_zig(rows, depth, matrix, add).len() == 64,
{
    reveal(forward_zig);
}

/// Every zig-zag position names a place in the block.
pub proof fn lemma_zigzag(i: int)
    requires
        0 <= i < 64,
    ensures
        0 <= ZIGZAG@[i] < 64,
{
}

/// Forward transform, quantisation and zig-zag order of one 8x8 block.
///
/// `rows` holds the widened input samples (8-bit: `0..=255`, 10-bit:
/// `0..=1023`), `add` is the level shift. Returns the 64 quantised
/// coefficients.
pub fn fdct_quant_zig(rows: &[[i16; 8]; 8], depth: Depth, matrix: &[u16; 192], add: i16) -> (r: [i16;
    64])
    ensures
        r@ == forward_zig(words(rows@), depth, matrix@, add as int),
{
    let m: i16 = match depth {
        Depth::Eight => 8,
        Depth::Ten => 2,
    };
    // Column pass; `mid[y]` is row `y` of the result.
    let mut mid: [[i16; 8]; 8] = [[0i16; 8]; 8];
    let mut x: usize = 0;
    while x < 8
        invariant
            x <= 8,
            m == input_scale(depth),
            0 < m <= 8,
            forall|i: int, y: int|
                0 <= i < x && 0 <= y < 8 ==> #[trigger] mid@[y]@[i] == forward_column(
                    column(words(rows@), add as int, i),
                    input_scale(depth),
                )[y],
        decreases 8 - x,
    {
        let mut col: [i16; 8] = [0i16; 8];
        let mut y: usize = 0;
        while y < 8
            invariant
                y <= 8,
                x < 8,
                forall|k: int|
                    0 <= k < y ==> #[trigger] col@[k] == sum16(rows@[k]@[x as int] as int, add as int),
            decreases 8 - y,
        {
            col[y] = adds(rows[y][x], add);
            y = y + 1;
        }
        let out: [i16; 8] = fdct_column(&col, m);
        assert(Seq::new(8, |k: int| col@[k] as int) =~= column(words(rows@), add as int, x as int));
        let ghost before = mid@;
        let mut y: usize = 0;
        while y < 8
            invariant
                y <= 8,
                x < 8,
                forall|k: int, i: int|
                    0 <= k < 8 && 0 <= i < 8 ==> #[trigger] mid@[k]@[i] == (if i == x && k < y {
                        out@[k]
                    } else {
                        before[k]@[i]
                    }),
            decreases 8 - y,
        {
            mid[y][x] = out[y];
            y = y + 1;
        }
        x = x + 1;
    }
    // Row pass and quantisation, in natural order.
    let mut flat: [i16; 64] = [0i16; 64];
    let mut y: usize = 0;
    while y < 8
        invariant
            y <= 8,
            forall|i: int, k: int|
                0 <= i < 8 && 0 <= k < 8 ==> #[trigger] mid@[k]@[i] == forward_column(
                    column(words(rows@), add as int, i),
                    input_scale(depth),
                )[k],
            forall|n: int|
                0 <= n < 8 * y ==> #[trigger] flat@[n] == quantise(
                    forward(words(rows@), depth, add as int, n),
                    matrix@[n] as int,
                    matrix@[64 + n] as int,
                    matrix@[128 + n] as int,
                ),
        decreases 8 - y,
    {
        let tab: &[i16; 32] = if y == 0 || y == 4 {
            &FTAB1
        } else if y == 1 || y == 7 {
            &FTAB2
        } else if y == 2 || y == 6 {
            &FTAB3
        } else {
            &FTAB4
        };
        let out: [i16; 8] = fdct_row(&mid[y], tab);
        assert(Seq::new(8, |i: int| mid@[y as int]@[i] as int) =~= forward_columns(
            words(rows@),
            depth,
            add as int,
            y as int,
        ));
        assert(tab@ == forward_table(y as int));
        let mut x: usize = 0;
        while x < 8
            invariant
                x <= 8,
                y < 8,
                forall|k: int|
                    0 <= k < 8 ==> #[trigger] out@[k] == forward_row(
                        forward_columns(words(rows@), depth, add as int, y as int),
                        forward_table(y as int),
                        k,
                    ),
                forall|n: int|
                    0 <= n < 8 * y + x ==> #[trigger] flat@[n] == quantise(
                        forward(words(rows@), depth, add as int, n),
                        matrix@[n] as int,
                        matrix@[64 + n] as int,
                        matrix@[128 + n] as int,
                    ),
            decreases 8 - x,
        {
            let n: usize = 8 * y + x;
            assert(n / 8 == y && n % 8 == x);
            flat[n] = quantise_one(out[x], matrix[n], matrix[64 + n], matrix[128 + n]);
            x = x + 1;
        }
        y = y + 1;
    }
    let mut zz: [i16; 64] = [0i16; 64];
    let mut i: usize = 0;
    while i < 64
        invariant
            i <= 64,
            forall|n: int|
                0 <= n < 64 ==> #[trigger] flat@[n] == quantise(
                    forward(words(rows@), depth, add as int, n),
                    matrix@[n] as int,
                    matrix@[64 + n] as int,
                    matrix@[128 + n] as int,
                ),
            forall|k: int|
                0 <= k < i ==> #[trigger] zz@[k] == forward_zig(words(rows@), depth, matrix@, add as int)[k],
        decreases 64 - i,
    {
        proof {
            reveal(forward_zig);
            lemma_zigzag(i as int);
        }
        zz[i] = flat[ZIGZAG[i]];
        i = i + 1;
    }
    proof {
        reveal(forward_zig);
    }
    assert(zz@ =~= forward_zig(words(rows@), depth, matrix@, add as int));
    zz
}

// ---------------------------------------------------------------------------
// Inverse transform
// ---------------------------------------------------------------------------

/// Shift after dequantisation.
pub open spec fn deq_shift(depth: Depth) -> nat {
    match depth {
        Depth::Eight => 4,
        Depth::Ten => 2,
    }
}

/// Shift after the row pass of the inverse transform.
pub open spec fn row_shift(depth: Depth) -> nat {
    match depth {
        Depth::Eight => 11,
        Depth::Ten => 12,
    }
}

/// Shift after the column pass of the inverse transform.
pub open spec fn col_shift(depth: Depth) -> nat {
    match depth {
        Depth::Eight => 6,
        Depth::Ten => 5,
    }
}

/// Half a unit of a shift by `n`.
pub open spec fn half(n: nat) -> int {
    vstd::arithmetic::power2::pow2((n - 1) as nat) as int
}

/// The even and odd parts of element `k` (below 4) of an inverse row.
pub open spec fn inverse_even(a: Seq<int>, tab: Seq<i16>, k: int) -> int {
    a[0] * tab[2 * k] + a[2] * tab[2 * k + 1] + a[4] * tab[8 + 2 * k] + a[6] * tab[9 + 2 * k]
}

pub open spec fn inverse_odd(a: Seq<int>, tab: Seq<i16>, k: int) -> int {
    a[1] * tab[16 + 2 * k] + a[3] * tab[17 + 2 * k] + a[5] * tab[24 + 2 * k] + a[7] * tab[25 + 2 * k]
}

/// Element `k` of one row of the inverse transform: the parts are added in
/// the first half of the row and subtracted, mirrored, in the second.
pub open spec fn inverse_row(a: Seq<int>, tab: Seq<i16>, shift: nat, k: int) -> int {
    let v = if k < 4 {
        inverse_even(a, tab, k) + inverse_odd(a, tab, k)
    } else {
        inverse_even(a, tab, 7 - k) - inverse_odd(a, tab, 7 - k)
    };
    sat16(wrap32(v + half(shift)) / vstd::arithmetic::power2::pow2(shift) as int)
}

/// The multipliers of row `y` of the inverse transform.
pub open spec fn inverse_table(y: int) -> Seq<i16> {
    if y == 0 || y == 4 {
        TAB_I_04@
    } else if y == 1 || y == 7 {
        TAB_I_17@
    } else if y == 2 || y == 6 {
        TAB_I_26@
    } else {
        TAB_I_35@
    }
}

/// One column of the inverse transform, before the final shift.
pub open spec fn inverse_column(y: Seq<int>, shift: nat) -> Seq<int> {
    // Odd part.
    let b = sum16(sum16(high16(y[5], TG_3_16 as int), y[5]), y[3]);
    let d = diff16(y[5], sum16(high16(TG_3_16 as int, y[3]), y[3]));
    let a = sum16(high16(y[7], TG_1_16 as int), y[1]);
    let c = diff16(high16(TG_1_16 as int, y[1]), y[7]);
    let o0 = sum16(sum16(b, a), 1);
    let o3 = sum16(c, d);
    let t0 = diff16(a, b);
    let t1 = sum16(diff16(c, d), 1);
    let (u, v) = (sum16(t0, t1), diff16(t0, t1));
    let o1 = odd16(sum16(u, high16(COS_4_16 as int, u)));
    let o2 = odd16(sum16(high16(COS_4_16 as int, v), v));
    // Even part, with the rounding of the final shift.
    let (p, q) = (sum16(y[4], y[0]), diff16(y[0], y[4]));
    let e = sum16(high16(y[6], TG_2_16 as int), y[2]);
    let f = diff16(high16(TG_2_16 as int, y[2]), y[6]);
    let e0 = sum16(sum16(p, e), half(shift));
    let e1 = sum16(sum16(q, f), half(shift));
    let e2 = sum16(diff16(q, f), half(shift) - 1);
    let e3 = sum16(diff16(p, e), half(shift) - 1);
    seq![
        sum16(o0, e0),
        sum16(e1, o1),
        sum16(e2, o2),
        sum16(o3, e3),
        diff16(e3, o3),
        diff16(e2, o2),
        diff16(e1, o1),
        diff16(e0, o0),
    ]
}

/// The place of natural index `n` in the zig-zag order.
pub open spec fn zig_place(n: int) -> int {
    choose|i: int| 0 <= i < 64 && ZIGZAG@[i] == n
}

/// Dequantised coefficients of row `y`.
pub open spec fn dequantised(zz: Seq<i16>, depth: Depth, matrix: Seq<u16>, y: int) -> Seq<int> {
    Seq::new(
        8,
        |x: int|
            down16(
                wrap16(zz[zig_place(8 * y + x)] * matrix[8 * y + x]),
                deq_shift(depth),
            ),
    )
}

/// Column `x` after the row pass.
pub open spec fn inverse_rows(zz: Seq<i16>, depth: Depth, matrix: Seq<u16>, x: int) -> Seq<int> {
    Seq::new(
        8,
        |y: int|
            inverse_row(
                dequantised(zz, depth, matrix, y),
                inverse_table(y),
                row_shift(depth),
                x,
            ),
    )
}

/// Sample (`y`, `x`) of the reconstructed block, level shift applied, not yet
/// held to the sample range.
#[verifier::opaque]
pub open spec fn inverse(
    zz: Seq<i16>,
    depth: Depth,
    matrix: Seq<u16>,
    add: int,
    y: int,
    x: int,
) -> int {
    let s = col_shift(depth);
    sum16(down16(inverse_column(inverse_rows(zz, depth, matrix, x), s)[y], s), add)
}

/// `x` held between `lo` and `hi`.
pub open spec fn between(x: int, lo: int, hi: int) -> int {
    if x < lo {
        lo
    } else if x > hi {
        hi
    } else {
        x
    }
}

/// The sample as it is stored: 8-bit, or 10-bit in the upper bits of a word.
pub open spec fn stored_sample(v: int, depth: Depth) -> int {
    match depth {
        Depth::Eight => between(v, 0, 255),
        Depth::Ten => between(v, 0, 1023) * 64,
    }
}

/// One column of the inverse transform.
fn idct_column(y: &[i16; 8], round: i16, Ghost(shift): Ghost<nat>) -> (r: [i16; 8])
    requires
        round == half(shift),
        1 < round,
    ensures
        forall|k: int|
            0 <= k < 8 ==> #[trigger] r@[k] == inverse_column(
                Seq::new(8, |i: int| y@[i] as int),
                shift,
            )[k],
{
    let b: i16 = adds(adds(mulhi(y[5], TG_3_16), y[5]), y[3]);
    let d: i16 = subs(y[5], adds(mulhi(TG_3_16, y[3]), y[3]));
    let a: i16 = adds(mulhi(y[7], TG_1_16), y[1]);
    let c: i16 = subs(mulhi(TG_1_16, y[1]), y[7]);
    let o0: i16 = adds(adds(b, a), 1);
    let o3: i16 = adds(c, d);
    let t0: i16 = subs(a, b);
    let t1: i16 = adds(subs(c, d), 1);
    let u: i16 = adds(t0, t1);
    let v: i16 = subs(t0, t1);
    let o1: i16 = or1(adds(u, mulhi(COS_4_16, u)));
    let o2: i16 = or1(adds(mulhi(COS_4_16, v), v));

    let p: i16 = adds(y[4], y[0]);
    let q: i16 = subs(y[0], y[4]);
    let e: i16 = adds(mulhi(y[6], TG_2_16), y[2]);
    let f: i16 = subs(mulhi(TG_2_16, y[2]), y[6]);
    let e0: i16 = adds(adds(p, e), round);
    let e1: i16 = adds(adds(q, f), round);
    let e2: i16 = adds(subs(q, f), round - 1);
    let e3: i16 = adds(subs(p, e), round - 1);
    [
        adds(o0, e0),
        adds(e1, o1),
        adds(e2, o2),
        adds(o3, e3),
        subs(e3, o3),
        subs(e2, o2),
        subs(e1, o1),
        subs(e0, o0),
    ]
}

/// One row of the inverse transform.
fn idct_row(a: &[i16; 8], tab: &[i16; 32], round: i64, shift: u32) -> (r: [i16; 8])
    requires
        shift == 11 || shift == 12,
        round == half(shift as nat),
    ensures
        forall|k: int|
            0 <= k < 8 ==> #[trigger] r@[k] == inverse_row(
                Seq::new(8, |i: int| a@[i] as int),
                tab@,
                shift as nat,
                k,
            ),
{
    let ghost xs = Seq::new(8, |i: int| a@[i] as int);
    let mut r: [i16; 8] = [0i16; 8];
    let mut k: usize = 0;
    proof {
        vstd::arithmetic::power2::lemma2_to64();
    }
    while k < 4
        invariant
            k <= 4,
            shift == 11 || shift == 12,
            round == half(shift as nat),
            0 <= round <= 2048,
            xs == Seq::new(8, |i: int| a@[i] as int),
            forall|i: int|
                0 <= i < 8 && (i < k || i > 7 - k) ==> #[trigger] r@[i] == inverse_row(
                    xs,
                    tab@,
                    shift as nat,
                    i,
                ),
        decreases 4 - k,
    {
        let j: usize = 2 * k;
        let even: i64 = dot2(a[0], tab[j], a[2], tab[j + 1]) + dot2(a[4], tab[8 + j], a[6], tab[9 + j]);
        let odd: i64 = dot2(a[1], tab[16 + j], a[3], tab[17 + j]) + dot2(
            a[5],
            tab[24 + j],
            a[7],
            tab[25 + j],
        );
        assert(even == inverse_even(xs, tab@, k as int));
        assert(odd == inverse_odd(xs, tab@, k as int));
        r[k] = pack_shifted(cut_word(even + odd + round), shift);
        r[7 - k] = pack_shifted(cut_word(even - odd + round), shift);
        k = k + 1;
    }
    r
}

/// The zig-zag order visits every place once.
pub proof fn lemma_zig_place(i: int)
    requires
        0 <= i < 64,
    ensures
        zig_place(ZIGZAG@[i] as int) == i,
{
}

/// Dequantisation and inverse transform of one block given in zig-zag order:
/// the eight output rows, level shift applied, not yet held to a range.
pub fn idct_core(zz: &[i16; 64], depth: Depth, matrix: &[u16; 64], add: i16) -> (r: [[i16; 8]; 8])
    ensures
        forall|y: int, x: int|
            0 <= y < 8 && 0 <= x < 8 ==> #[trigger] r@[y]@[x] == inverse(
                zz@,
                depth,
                matrix@,
                add as int,
                y,
                x,
            ),
{
    let (dshift, rround, rshift, cround, cshift): (u32, i64, u32, i16, u32) = match depth {
        Depth::Eight => (4, 1024, 11, 32, 6),
        Depth::Ten => (2, 2048, 12, 16, 5),
    };
    proof {
        vstd::arithmetic::power2::lemma2_to64();
    }
    // Natural order, dequantised.
    let mut a: [[i16; 8]; 8] = [[0i16; 8]; 8];
    let mut i: usize = 0;
    while i < 64
        invariant
            i <= 64,
            dshift == deq_shift(depth),
            dshift <= 15,
            forall|y: int, x: int|
                0 <= y < 8 && 0 <= x < 8 && zig_place(8 * y + x) < i ==> #[trigger] a@[y]@[x]
                    == dequantised(zz@, depth, matrix@, y)[x],
        decreases 64 - i,
    {
        let n: usize = ZIGZAG[i];
        proof {
            lemma_zigzag(i as int);
            lemma_zig_place(i as int);
        }
        let m: u16 = matrix[n];
        proof {
            lemma_mixed_product(zz@[i as int] as int, m as int);
        }
        let p: i16 = cut(zz[i] as i32 * m as i32);
        let v: i16 = srai16(p, dshift);
        let y: usize = n / 8;
        let x: usize = n % 8;
        a[y][x] = v;
        proof {
            assert(8 * y + x == n);
            assert forall|yy: int, xx: int|
                0 <= yy < 8 && 0 <= xx < 8 && zig_place(8 * yy + xx)
                    < i + 1 implies #[trigger] a@[yy]@[xx] == dequantised(
                zz@,
                depth,
                matrix@,
                yy,
            )[xx] by {
                lemma_zig_inverse(8 * yy + xx);
            }
        }
        i = i + 1;
    }
    // Row pass.
    let mut mid: [[i16; 8]; 8] = [[0i16; 8]; 8];
    let mut y: usize = 0;
    while y < 8
        invariant
            y <= 8,
            rshift == row_shift(depth),
            rround == half(rshift as nat),
            rshift == 11 || rshift == 12,
            forall|k: int, x: int|
                0 <= k < 8 && 0 <= x < 8 ==> #[trigger] a@[k]@[x] == dequantised(
                    zz@,
                    depth,
                    matrix@,
                    k,
                )[x],
            forall|k: int, x: int|
                0 <= k < y && 0 <= x < 8 ==> #[trigger] mid@[k]@[x] == inverse_rows(
                    zz@,
                    depth,
                    matrix@,
                    x,
                )[k],
        decreases 8 - y,
    {
        let tab: &[i16; 32] = if y == 0 || y == 4 {
            &TAB_I_04
        } else if y == 1 || y == 7 {
            &TAB_I_17
        } else if y == 2 || y == 6 {
            &TAB_I_26
        } else {
            &TAB_I_35
        };
        assert(Seq::new(8, |k: int| a@[y as int]@[k] as int) =~= dequantised(
            zz@,
            depth,
            matrix@,
            y as int,
        ));
        mid[y] = idct_row(&a[y], tab, rround, rshift);
        y = y + 1;
    }
    // Column pass.
    let mut out: [[i16; 8]; 8] = [[0i16; 8]; 8];
    let mut x: usize = 0;
    while x < 8
        invariant
            x <= 8,
            cshift == col_shift(depth),
            cshift <= 15,
            cround == half(cshift as nat),
            1 < cround,
            forall|k: int, i: int|
                0 <= k < 8 && 0 <= i < 8 ==> #[trigger] mid@[k]@[i] == inverse_rows(
                    zz@,
                    depth,
                    matrix@,
                    i,
                )[k],
            forall|k: int, i: int|
                0 <= k < 8 && 0 <= i < x ==> #[trigger] out@[k]@[i] == inverse(
                    zz@,
                    depth,
                    matrix@,
                    add as int,
                    k,
                    i,
                ),
        decreases 8 - x,
    {
        let col: [i16; 8] = [
            mid[0][x],
            mid[1][x],
            mid[2][x],
            mid[3][x],
            mid[4][x],
            mid[5][x],
            mid[6][x],
            mid[7][x],
        ];
        assert(Seq::new(8, |k: int| col@[k] as int) =~= inverse_rows(
            zz@,
            depth,
            matrix@,
            x as int,
        ));
        let c: [i16; 8] = idct_column(&col, cround, Ghost(cshift as nat));
        let ghost before = out@;
        let mut k: usize = 0;
        while k < 8
            invariant
                k <= 8,
                x < 8,
                cshift <= 15,
                forall|j: int, i: int|
                    0 <= j < 8 && 0 <= i < 8 ==> #[trigger] out@[j]@[i] == (if i == x && j < k {
                        sum16(down16(c@[j] as int, cshift as nat), add as int)
                    } else {
                        before[j]@[i] as int
                    }),
            decreases 8 - k,
        {
            out[k][x] = adds(srai16(c[k], cshift), add);
            k = k + 1;
        }
        proof {
            reveal(inverse);
        }
        x = x + 1;
    }
    out
}

/// The zig-zag order reaches every place.
pub proof fn lemma_zig_inverse(n: int)
    requires
        0 <= n < 64,
    ensures
        0 <= zig_place(n) < 64,
        ZIGZAG@[zig_place(n)] == n,
{
    let w: Seq<int> = seq![
        0, 1, 5, 6, 14, 15, 27, 28,
        2, 4, 7, 13, 16, 26, 29, 42,
        3, 8, 12, 17, 25, 30, 41, 43,
        9, 11, 18, 24, 31, 40, 44, 53,
        10, 19, 23, 32, 39, 45, 52, 54,
        20, 22, 33, 38, 46, 51, 55, 60,
        21, 34, 37, 47, 50, 56, 59, 61,
        35, 36, 48, 49, 57, 58, 62, 63,
    ];
    assert(0 <= w[n] < 64 && ZIGZAG@[w[n]] == n);
}

/// The rows of samples as sequences.
pub open spec fn grid(rows: Seq<Vec<u16>>) -> Seq<Seq<u16>> {
    rows.map_values(|r: Vec<u16>| r@)
}

/// `rows` with the 8x8 block at (`y0`, `x0`) replaced.
pub open spec fn with_block(
    rows: Seq<Seq<u16>>,
    y0: int,
    x0: int,
    block: spec_fn(int, int) -> int,
) -> Seq<Seq<u16>> {
    Seq::new(
        rows.len(),
        |y: int|
            Seq::new(
                rows[y].len(),
                |x: int|
                    if y0 <= y < y0 + 8 && x0 <= x < x0 + 8 {
                        block(y - y0, x - x0) as u16
                    } else {
                        rows[y][x]
                    },
            ),
    )
}

/// The 8x8 block at (`y0`, `x0`) lies inside `rows`.
pub open spec fn block_fits(rows: Seq<Seq<u16>>, y0: int, x0: int) -> bool {
    &&& 0 <= y0
    &&& 0 <= x0
    &&& y0 + 8 <= rows.len()
    &&& forall|y: int| y0 <= y < y0 + 8 ==> x0 + 8 <= #[trigger] rows[y].len()
}

proof fn lemma_mixed_product(a: int, b: int)
    by (nonlinear_arith)
    requires
        -32768 <= a <= 32767,
        0 <= b <= 65535,
    ensures
        -0x8000_0000 <= a * b <= 0x7FFF_FFFF,
{
}

/// Sets one sample.
pub fn set_sample(rows: &mut Vec<Vec<u16>>, y: usize, x: usize, v: u16)
    requires
        y < old(rows)@.len(),
        x < grid(old(rows)@)[y as int].len(),
    ensures
        grid(final(rows)@) == grid(old(rows)@).update(
            y as int,
            grid(old(rows)@)[y as int].update(x as int, v),
        ),
{
    let ghost g = grid(rows@);
    rows[y][x] = v;
    assert(grid(rows@) =~~= g.update(y as int, g[y as int].update(x as int, v)));
}

/// Writes an 8x8 block at row `y0`, column `x0`.
fn put_block(rows: &mut Vec<Vec<u16>>, y0: usize, x0: usize, block: &[[u16; 8]; 8])
    requires
        block_fits(grid(old(rows)@), y0 as int, x0 as int),
    ensures
        grid(final(rows)@) == with_block(
            grid(old(rows)@),
            y0 as int,
            x0 as int,
            |y: int, x: int| block@[y]@[x] as int,
        ),
{
    let ghost g0 = grid(rows@);
    let n: usize = rows.len();
    assert(y0 + 8 <= n);
    let mut y: usize = 0;
    while y < 8
        invariant
            y <= 8,
            y0 + 8 <= n,
            n == g0.len(),
            block_fits(g0, y0 as int, x0 as int),
            grid(rows@).len() == g0.len(),
            forall|j: int| 0 <= j < g0.len() ==> (#[trigger] grid(rows@)[j]).len() == g0[j].len(),
            forall|j: int, i: int|
                0 <= j < g0.len() && 0 <= i < g0[j].len() ==> #[trigger] grid(rows@)[j][i] == (if y0
                    <= j < y0 + y && x0 <= i < x0 + 8 {
                    block@[j - y0]@[i - x0]
                } else {
                    g0[j][i]
                }),
        decreases 8 - y,
    {
        let ghost g1 = grid(rows@);
        let w: usize = rows[y0 + y].len();
        assert(w == g1[y0 + y].len());
        let mut x: usize = 0;
        while x < 8
            invariant
                x <= 8,
                y < 8,
                y0 + 8 <= n,
                n == g0.len(),
                w == g0[y0 + y].len(),
                block_fits(g0, y0 as int, x0 as int),
                grid(rows@).len() == g0.len(),
                forall|j: int|
                    0 <= j < g0.len() ==> (#[trigger] grid(rows@)[j]).len() == g0[j].len(),
                forall|j: int, i: int|
                    0 <= j < g0.len() && 0 <= i < g0[j].len() ==> #[trigger] grid(rows@)[j][i] == (if j
                        == y0 + y && x0 <= i < x0 + x {
                        block@[j - y0]@[i - x0]
                    } else {
                        g1[j][i]
                    }),
            decreases 8 - x,
        {
            assert(grid(rows@)[y0 + y].len() == g0[y0 + y].len());
            set_sample(rows, y0 + y, x0 + x, block[y][x]);
            x = x + 1;
        }
        y = y + 1;
    }
    assert(grid(rows@) =~~= with_block(
        g0,
        y0 as int,
        x0 as int,
        |y: int, x: int| block@[y]@[x] as int,
    ));
}

/// Replacing a block depends on the 64 new samples only.
proof fn lemma_with_block(
    rows: Seq<Seq<u16>>,
    y0: int,
    x0: int,
    a: spec_fn(int, int) -> int,
    b: spec_fn(int, int) -> int,
)
    requires
        forall|y: int, x: int| 0 <= y < 8 && 0 <= x < 8 ==> #[trigger] a(y, x) == b(y, x),
    ensures
        with_block(rows, y0, x0, a) == with_block(rows, y0, x0, b),
{
    assert(with_block(rows, y0, x0, a) =~~= with_block(rows, y0, x0, b)) by {
        assert forall|y: int, x: int|
            y0 <= y < y0 + 8 && x0 <= x < x0 + 8 implies #[trigger] a(y - y0, x - x0) == b(
            y - y0,
            x - x0,
        ) by {}
    }
}

/// Dequantises and transforms one block back, writing its samples at row
/// `y0`, column `x0`.
pub fn idct(
    zz: &[i16; 64],
    depth: Depth,
    matrix: &[u16; 64],
    rows: &mut Vec<Vec<u16>>,
    y0: usize,
    x0: usize,
    add: i16,
)
    requires
        block_fits(grid(old(rows)@), y0 as int, x0 as int),
    ensures
        grid(final(rows)@) == with_block(
            grid(old(rows)@),
            y0 as int,
            x0 as int,
            |y: int, x: int|
                stored_sample(inverse(zz@, depth, matrix@, add as int, y, x), depth),
        ),
{
    let b: [[i16; 8]; 8] = idct_core(zz, depth, matrix, add);
    let mut block: [[u16; 8]; 8] = [[0u16; 8]; 8];
    let mut y: usize = 0;
    while y < 8
        invariant
            y <= 8,
            forall|j: int, i: int|
                0 <= j < y && 0 <= i < 8 ==> #[trigger] block@[j]@[i] == stored_sample(
                    b@[j]@[i] as int,
                    depth,
                ),
        decreases 8 - y,
    {
        let mut x: usize = 0;
        while x < 8
            invariant
                x <= 8,
                y < 8,
                forall|j: int, i: int|
                    0 <= i < 8 && (0 <= j < y || j == y && i < x) ==> #[trigger] block@[j]@[i]
                        == stored_sample(b@[j]@[i] as int, depth),
            decreases 8 - x,
        {
            let v: i16 = b[y][x];
            let s: u16 = match depth {
                Depth::Eight => if v < 0 {
                    0
                } else if v > 255 {
                    255
                } else {
                    v as u16
                },
                Depth::Ten => if v < 0 {
                    0
                } else if v > 1023 {
                    1023 * 64
                } else {
                    v as u16 * 64
                },
            };
            block[y][x] = s;
            x = x + 1;
        }
        y = y + 1;
    }
    proof {
        lemma_with_block(
            grid(rows@),
            y0 as int,
            x0 as int,
            |y: int, x: int| block@[y]@[x] as int,
            |y: int, x: int| stored_sample(inverse(zz@, depth, matrix@, add as int, y, x), depth),
        );
    }
    put_block(rows, y0, x0, &block);
}

/// The sample that a block of nothing but its DC value is filled with.
pub open spec fn flat_sample(dc: int, add: int) -> int {
    between(wrap16(wrap16(dc + 4) / 8 + add), 0, 255)
}

/// Fills an 8x8 8-bit block with its DC value.
pub fn broadcast_dc8(dc: i16, rows: &mut Vec<Vec<u16>>, y0: usize, x0: usize, add: i16)
    requires
        block_fits(grid(old(rows)@), y0 as int, x0 as int),
    ensures
        grid(final(rows)@) == with_block(
            grid(old(rows)@),
            y0 as int,
            x0 as int,
            |y: int, x: int| flat_sample(dc as int, add as int),
        ),
{
    proof {
        reveal(down16);
        vstd::arithmetic::power2::lemma2_to64();
    }
    let t: i16 = srai16(cut(dc as i32 + 4), 3);
    let v: i16 = cut(t as i32 + add as i32);
    let s: u16 = if v < 0 {
        0
    } else if v > 255 {
        255
    } else {
        v as u16
    };
    let block: [[u16; 8]; 8] = [[s; 8]; 8];
    proof {
        lemma_with_block(
            grid(rows@),
            y0 as int,
            x0 as int,
            |y: int, x: int| block@[y]@[x] as int,
            |y: int, x: int| flat_sample(dc as int, add as int),
        );
    }
    put_block(rows, y0, x0, &block);
}

// ---------------------------------------------------------------------------
// Quantisation tables
// ---------------------------------------------------------------------------

/// How [`quantise`] divides by `d`: correction, reciprocal and scale.
#[verifier::opaque]
pub open spec fn reciprocal_of(d: int) -> (int, int, int) {
    let b = (bit_len(d as u64) - 1) as nat;
    let n = vstd::arithmetic::power2::pow2(16 + b) as int;
    let s = vstd::arithmetic::power2::pow2((16 - b) as nat) as int;
    let fr = n % d;
    if fr == 0 {
        (d / 2, n / d / 2 % 65536, 2 * s % 65536)
    } else if fr <= d / 2 {
        (d / 2 + 1, n / d % 65536, s % 65536)
    } else {
        (d / 2, (n / d + 1) % 65536, s % 65536)
    }
}

/// The quantiser of coefficient `i` (natural order) under preset `index`.
#[verifier::opaque]
pub open spec fn quantiser(index: int, i: int) -> int {
    if i == 0 {
        DEFAULT_QUANTIZATION_MATRIX@[0] as int
    } else {
        DEFAULT_QUANTIZATION_MATRIX@[i] * QUALITY@[index]
    }
}

/// Dequantisation multipliers of preset `index`.
pub open spec fn decode_matrix(index: int) -> Seq<u16> {
    Seq::new(64, |i: int| quantiser(index, i) as u16)
}

/// Corrections, reciprocals and scales of preset `index`.
pub open spec fn encode_matrix(index: int) -> Seq<u16> {
    Seq::new(
        192,
        |i: int|
            {
                let r = reciprocal_of(quantiser(index, i % 64));
                (if i < 64 {
                    r.0
                } else if i < 128 {
                    r.1
                } else {
                    r.2
                }) as u16
            },
    )
}

/// Division by `divisor` as two unsigned high multiplies.
pub fn reciprocal(divisor: u16) -> (r: [u16; 3])
    requires
        divisor > 0,
    ensures
        r@[0] == reciprocal_of(divisor as int).0,
        r@[1] == reciprocal_of(divisor as int).1,
        r@[2] == reciprocal_of(divisor as int).2,
{
    let d: u64 = divisor as u64;
    proof {
        reveal(reciprocal_of);
        vstd::arithmetic::power2::lemma2_to64();
        lemma_leading_zeros(d);
        lemma_bit_len_pow(d, 16);
    }
    let b: u64 = 63 - d.leading_zeros() as u64;
    assert(b == bit_len(d) - 1 && b <= 15);
    proof {
        vstd::arithmetic::power2::lemma_pow2_strictly_increases((16 + b) as nat, 32);
        vstd::bits::lemma_u64_shl_is_mul(1, (16 + b) as u64);
        vstd::arithmetic::power2::lemma_pow2_strictly_increases((16 - b) as nat, 32);
        vstd::bits::lemma_u64_shl_is_mul(1, (16 - b) as u64);
    }
    let n: u64 = 1u64 << (16 + b);
    let s: u64 = 1u64 << (16 - b);
    let fq: u64 = n / d;
    let fr: u64 = n % d;
    if fr == 0 {
        [divisor / 2, (fq / 2 % 65536) as u16, (2 * s % 65536) as u16]
    } else if fr <= d / 2 {
        [divisor / 2 + 1, (fq % 65536) as u16, (s % 65536) as u16]
    } else {
        [divisor / 2, ((fq + 1) % 65536) as u16, (s % 65536) as u16]
    }
}

/// The quantiser of one coefficient.
fn quantiser_at(index: usize, i: usize) -> (r: u16)
    requires
        index < 25,
        i < 64,
    ensures
        r == quantiser(index as int, i as int),
        r > 0,
{
    proof {
        lemma_quantiser(index as int, i as int);
        reveal(quantiser);
    }
    if i == 0 {
        DEFAULT_QUANTIZATION_MATRIX[0]
    } else {
        DEFAULT_QUANTIZATION_MATRIX[i] * QUALITY[index]
    }
}

/// Quantisation tables for one quality preset.
#[derive(Clone)]
pub struct QuantTables {
    /// Dequantisation multipliers (natural order).
    pub decode: [u16; 64],
    /// Encoder correction (`[0..64]`), reciprocal (`[64..128]`) and scale
    /// (`[128..192]`), natural order.
    pub encode: [u16; 192],
}

impl QuantTables {
    /// These are the tables of preset `index`.
    pub open spec fn of_preset(self, index: int) -> bool {
        &&& self.decode@ == decode_matrix(index)
        &&& self.encode@ == encode_matrix(index)
    }

    /// Builds the tables for quality preset `index` (0 = finest).
    pub fn new(index: usize) -> (r: Self)
        requires
            index < QUALITY_COUNT,
        ensures
            r.of_preset(index as int),
    {
        let mut decode: [u16; 64] = [0u16; 64];
        let mut encode: [u16; 192] = [0u16; 192];
        let mut y: usize = 0;
        while y < 64
            invariant
                y <= 64,
                index < 25,
                forall|i: int| 0 <= i < y ==> #[trigger] decode@[i] == decode_matrix(index as int)[i],
                forall|i: int|
                    0 <= i < y || 64 <= i < 64 + y || 128 <= i < 128 + y ==> #[trigger] encode@[i]
                        == encode_matrix(index as int)[i],
            decreases 64 - y,
        {
            let d: u16 = quantiser_at(index, y);
            decode[y] = d;
            let rc: [u16; 3] = reciprocal(d);
            encode[y] = rc[0];
            encode[y + 64] = rc[1];
            encode[y + 128] = rc[2];
            y = y + 1;
        }
        assert(decode@ =~= decode_matrix(index as int));
        assert(encode@ =~= encode_matrix(index as int));
        QuantTables { decode, encode }
    }
}

/// Every quantiser is a multiple of its base and fits in 13 bits.
pub proof fn lemma_quantiser(index: int, i: int)
    requires
        0 <= index < 25,
        0 <= i < 64,
    ensures
        16 <= quantiser(index, i) <= 5312,
{
    reveal(quantiser);
    let m = DEFAULT_QUANTIZATION_MATRIX@[i] as int;
    let q = QUALITY@[index] as int;
    assert(16 <= m <= 83);
    assert(1 <= q <= 64);
    assert(16 <= m * q <= 5312) by (nonlinear_arith)
        requires
            16 <= m <= 83,
            1 <= q <= 64,
    ;
}

} // verus!
