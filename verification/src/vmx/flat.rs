//! What compression makes of a block of one value.

use super::bits::wrap16;
use super::convert::{carries, law_stored_samples, plane_shape, plane_width, planes_fit, sample_of};
use super::dct::{
    col_shift, column, decode_matrix, dequantised, encode_matrix, fold, forward, forward_column, forward_columns,
    forward_row, forward_table, forward_zig, half, input_scale, inverse, inverse_column, inverse_even, inverse_odd,
    inverse_row, inverse_rows, inverse_table, lemma_forward_zig_len, lemma_quantiser, lemma_zig_inverse, quantiser,
    row_shift, zig_place, Depth,
};
use super::decoder::{decoded_into, decoded_planes};
use super::encoder::{coding, depth_of, plane_count, EncoderState};
use super::fidelity::{
    block_sum, coded_value, divided, kept, law_coefficients_rounded, law_dc_is_the_mean, law_dc_precision,
    law_decoded_at_its_place, lemma_column_sum, lemma_diff, lemma_sum, own_block, top_sample,
};
use super::frame::{alpha_format, deep_format, halved_format, Frame, PixelFormat};
use super::lanes::{diff16, down16, high16, low16, odd16, sum16, wrap32};
use super::layout::{parse_of, preset_of, Layout};
use super::round_trip::{fits_container, law_packet_parses};
use super::slice::{block_sample, dc_round, level_shift_of};
use super::tables::ZIGZAG;
use vstd::prelude::*;

verus! {

/// A block of one value.
pub open spec fn flat_block(v: int) -> Seq<Seq<int>> {
    Seq::new(8, |i: int| Seq::new(8, |j: int| v))
}

/// A column of one value has next to nothing but its first coefficient.
proof fn lemma_flat_column(x: Seq<int>, v: int, m: int, k: int)
    requires
        x == Seq::new(8, |i: int| v),
        m == 8 && -255 <= v <= 255 || m == 2 && -1023 <= v <= 1023,
        1 <= k < 8,
    ensures
        -1 <= forward_column(x, m)[k] <= 1,
{
    reveal(sum16);
    reveal(diff16);
    reveal(low16);
    reveal(high16);
    reveal(odd16);
    assert(low16(0, m) == 0);
    assert(low16(0, 2 * m) == 0);
    let p = low16(sum16(sum16(2 * v, 2 * v), 0), m);
    assert(diff16(p, p) == 0);
}

/// A row of one value has nothing but its first coefficient.
spec fn flat_row(x: Seq<int>, v: int, tab: Seq<i16>) -> bool {
    &&& forall|k: int| 1 <= k < 8 ==> #[trigger] forward_row(x, tab, k) == 0
    &&& -1 <= v <= 1 ==> -4 <= forward_row(x, tab, 0) <= 4
}

proof fn lemma_even_row(v: int, a: int, b: int, c: int, d: int)
    ensures
        2 * v * a + 2 * v * b + 2 * v * c + 2 * v * d == 2 * v * (a + b + c + d),
        a + b + c + d == 0 ==> 2 * v * (a + b + c + d) == 0,
{
    assert(2 * v * a + 2 * v * b + 2 * v * c + 2 * v * d == 2 * v * (a + b + c + d)) by (nonlinear_arith);
    assert(a + b + c + d == 0 ==> 2 * v * (a + b + c + d) == 0) by (nonlinear_arith);
}

proof fn lemma_flat_row(x: Seq<int>, v: int, y: int)
    requires
        x == Seq::new(8, |i: int| v),
        0 <= y < 8,
        -16368 <= v <= 16368,
    ensures
        flat_row(x, v, forward_table(y)),
{
    let t = forward_table(y);
    assert(t[4] + t[5] + t[12] + t[13] == 0);
    assert(t[16] + t[17] + t[24] + t[25] == 0);
    assert(t[20] + t[21] + t[28] + t[29] == 0);
    assert(0 <= t[0] + t[1] + t[8] + t[9] <= 4 * 22725);
    lemma_sum(v, v);
    lemma_diff(v, v);
    let f = fold(x);
    assert(f[0] == 2 * v && f[1] == 2 * v && f[4] == 2 * v && f[5] == 2 * v);
    assert(f[2] == 0 && f[3] == 0 && f[6] == 0 && f[7] == 0);
    assert forall|k: int| 1 <= k < 8 implies #[trigger] forward_row(x, t, k) == 0 by {
        if k == 2 {
            lemma_even_row(v, t[4] as int, t[5] as int, t[12] as int, t[13] as int);
        } else if k == 4 {
            lemma_even_row(v, t[16] as int, t[17] as int, t[24] as int, t[25] as int);
        } else if k == 6 {
            lemma_even_row(v, t[20] as int, t[21] as int, t[28] as int, t[29] as int);
        } else {
            assert(k == 1 || k == 3 || k == 5 || k == 7);
            assert(forall|z: i16| #[trigger] (0 * z) == 0);
        }
    }
    lemma_even_row(v, t[0] as int, t[1] as int, t[8] as int, t[9] as int);
}

/// Only the DC coefficient of a flat block is left once it is quantised.
proof fn lemma_flat_coefficients(v: int, depth: Depth, preset: int, shift: int, i: int)
    requires
        0 <= v <= top_sample(depth),
        0 <= preset < 25,
        shift == 0 || shift == (top_sample(depth) + 1) / 2,
        1 <= i < 64,
    ensures
        forward_zig(flat_block(v), depth, encode_matrix(preset), -shift)[i] == 0,
{
    let b = flat_block(v);
    law_coefficients_rounded(b, depth, preset, -shift, i);
    let n = ZIGZAG@[i] as int;
    assert(0 < n < 64);
    let (y, k) = (n / 8, n % 8);
    let m = input_scale(depth);
    let col = column(b, -shift, 0);
    let w = v - shift;
    assert(sum16(v, -shift) == w) by {
        reveal(sum16);
    }
    let cs = forward_columns(b, depth, -shift, y);
    let u = forward_column(Seq::new(8, |j: int| w), m)[y];
    assert forall|x: int| 0 <= x < 8 implies #[trigger] cs[x] == u by {
        assert(column(b, -shift, x) =~= Seq::new(8, |j: int| w));
    }
    assert(cs =~= Seq::new(8, |j: int| u));
    if y == 0 {
        lemma_column_sum(Seq::new(8, |j: int| w), m);
    } else {
        lemma_flat_column(Seq::new(8, |j: int| w), w, m, y);
    }
    assert(-16368 <= u <= 16368);
    lemma_flat_row(cs, u, y);
    let f = forward(b, depth, -shift, n);
    assert(-4 <= f <= 4);
    lemma_small(f, quantiser(preset, n));
}

/// What is less than half the divisor rounds to nothing.
proof fn lemma_small(f: int, d: int)
    requires
        -4 <= f <= 4,
        16 <= d,
    ensures
        divided(f, d) == 0,
{
    let a = if f < 0 {
        -f
    } else {
        f
    };
    assert((a + d / 2) / d == 0) by (nonlinear_arith)
        requires
            0 <= a + d / 2 < d,
    ;
}

// ---------------------------------------------------------------------------
// Back again
// ---------------------------------------------------------------------------

/// A block with nothing but a DC coefficient.
pub open spec fn dc_only(zz: Seq<i16>) -> bool {
    zz.len() == 64 && forall|i: int| 1 <= i < 64 ==> #[trigger] zz[i] == 0
}

/// The dequantised coefficients of such a block.
proof fn lemma_dc_only_rows(zz: Seq<i16>, back: Depth, preset: int, y: int, x: int)
    requires
        dc_only(zz),
        -2047 <= zz[0] <= 2047,
        0 <= preset < 25,
        0 <= y < 8,
        0 <= x < 8,
    ensures
        dequantised(zz, back, decode_matrix(preset), y)[x] == (if y == 0 && x == 0 {
            match back {
                Depth::Eight => zz[0] as int,
                Depth::Ten => 4 * zz[0],
            }
        } else {
            0
        }),
{
    reveal(down16);
    vstd::arithmetic::power2::lemma2_to64();
    let n = 8 * y + x;
    lemma_zig_inverse(n);
    let i = zig_place(n);
    assert(ZIGZAG@[0] == 0);
    lemma_quantiser(preset, n);
    let q = decode_matrix(preset)[n] as int;
    if n == 0 {
        assert(i == 0);
        assert(quantiser(preset, 0) == 16) by {
            reveal(quantiser);
        }
        assert(wrap16(zz[0] * 16) == zz[0] * 16);
    } else {
        assert(zz[i] == 0);
        assert(0 * q == 0);
    }
}

/// Element `k` of a column with nothing but its first element, before the final
/// shift.
#[verifier::opaque]
spec fn column_element(v: int, h: nat, k: int) -> int {
    inverse_column(seq![v, 0, 0, 0, 0, 0, 0, 0], h)[k]
}

/// All of them are next to that element.
proof fn lemma_dc_column(v: int, h: nat, k: int)
    requires
        -32736 <= v <= 32736,
        h == 6 && -32700 <= v <= 32700 || h == 5,
        0 <= k < 8,
    ensures
        h == 6 ==> v + 30 <= column_element(v, h, k) <= v + 33,
        h == 5 ==> v + 14 <= column_element(v, h, k) <= v + 17,
{
    reveal(column_element);
    reveal(sum16);
    reveal(diff16);
    reveal(high16);
    reveal(odd16);
    vstd::arithmetic::power2::lemma2_to64();
}

/// Element `x` of row `r` after the row pass.
#[verifier::opaque]
spec fn row_element(zz: Seq<i16>, back: Depth, preset: int, r: int, x: int) -> int {
    inverse_row(dequantised(zz, back, decode_matrix(preset), r), inverse_table(r), row_shift(back), x)
}

/// The columns of the same after the row pass.
proof fn lemma_dc_only_columns(zz: Seq<i16>, back: Depth, preset: int, x: int)
    requires
        dc_only(zz),
        -2047 <= zz[0] <= 2047,
        0 <= preset < 25,
        0 <= x < 8,
    ensures
        inverse_rows(zz, back, decode_matrix(preset), x) == seq![
            match back {
                Depth::Eight => 8 * zz[0],
                Depth::Ten => 16 * zz[0],
            },
            0,
            0,
            0,
            0,
            0,
            0,
            0,
        ],
{
    let m = decode_matrix(preset);
    let rows = inverse_rows(zz, back, m, x);
    assert(rows.len() == 8);
    assert forall|r: int| 0 <= r < 8 implies #[trigger] rows[r] == row_element(zz, back, preset, r, x) by {
        reveal(row_element);
    }
    lemma_dc_only_row(zz, back, preset, 0, x);
    lemma_dc_only_row(zz, back, preset, 1, x);
    lemma_dc_only_row(zz, back, preset, 2, x);
    lemma_dc_only_row(zz, back, preset, 3, x);
    lemma_dc_only_row(zz, back, preset, 4, x);
    lemma_dc_only_row(zz, back, preset, 5, x);
    lemma_dc_only_row(zz, back, preset, 6, x);
    lemma_dc_only_row(zz, back, preset, 7, x);
}

/// The samples of a block with nothing but a DC coefficient, level shift
/// included: all but equal to each other.
proof fn lemma_dc_only_sample(zz: Seq<i16>, back: Depth, preset: int, add: int, y: int, x: int)
    requires
        dc_only(zz),
        -2046 <= zz[0] <= 2046,
        0 <= preset < 25,
        0 <= add <= 512,
        0 <= y < 8,
        0 <= x < 8,
    ensures
        ({
            let v = inverse(zz, back, decode_matrix(preset), add, y, x);
            match back {
                Depth::Eight => (8 * zz[0] + 30) / 64 <= v - add <= (8 * zz[0] + 33) / 64,
                Depth::Ten => (16 * zz[0] + 14) / 32 <= v - add <= (16 * zz[0] + 17) / 32,
            }
        }),
{
    let v = match back {
        Depth::Eight => 8 * zz[0],
        Depth::Ten => 16 * zz[0],
    };
    let h = col_shift(back);
    lemma_dc_only_inverse(zz, back, preset, add, y, x);
    lemma_dc_column(v, h, y);
    lemma_shifted(column_element(v, h, y), h, add);
}

/// The inverse transform ends with the columns.
proof fn lemma_dc_only_inverse(zz: Seq<i16>, back: Depth, preset: int, add: int, y: int, x: int)
    requires
        dc_only(zz),
        -2047 <= zz[0] <= 2047,
        0 <= preset < 25,
        0 <= y < 8,
        0 <= x < 8,
    ensures
        inverse(zz, back, decode_matrix(preset), add, y, x) == sum16(
            down16(
                column_element(
                    match back {
                        Depth::Eight => 8 * zz[0],
                        Depth::Ten => 16 * zz[0],
                    },
                    col_shift(back),
                    y,
                ),
                col_shift(back),
            ),
            add,
        ),
{
    lemma_dc_only_columns(zz, back, preset, x);
    reveal(inverse);
    reveal(column_element);
}

/// The final shift.
proof fn lemma_shifted(c: int, h: nat, add: int)
    requires
        -32768 <= c <= 32767,
        h == 5 || h == 6,
        0 <= add <= 512,
    ensures
        h == 5 ==> sum16(down16(c, h), add) == c / 32 + add,
        h == 6 ==> sum16(down16(c, h), add) == c / 64 + add,
{
    reveal(down16);
    reveal(sum16);
    vstd::arithmetic::power2::lemma2_to64();
}

/// One element of one row of the same.
proof fn lemma_dc_only_row(zz: Seq<i16>, back: Depth, preset: int, r: int, x: int)
    requires
        dc_only(zz),
        -2047 <= zz[0] <= 2047,
        0 <= preset < 25,
        0 <= r < 8,
        0 <= x < 8,
    ensures
        row_element(zz, back, preset, r, x) == (if r == 0 {
            match back {
                Depth::Eight => 8 * zz[0],
                Depth::Ten => 16 * zz[0],
            }
        } else {
            0
        }),
{
    reveal(row_element);
    vstd::arithmetic::power2::lemma2_to64();
    let a = dequantised(zz, back, decode_matrix(preset), r);
    let t = inverse_table(r);
    assert forall|k: int| 0 <= k < 8 implies #[trigger] a[k] == (if r == 0 && k == 0 {
        match back {
            Depth::Eight => zz[0] as int,
            Depth::Ten => 4 * zz[0],
        }
    } else {
        0
    }) by {
        lemma_dc_only_rows(zz, back, preset, r, k);
    }
    let k = if x < 4 {
        x
    } else {
        7 - x
    };
    lemma_only_first(a, t, k);
    if r == 0 {
        assert(t[2 * k] == 16384);
        assert(a[0] * t[2 * k] == 16384 * a[0]);
    } else {
        lemma_zero(a[0], t[2 * k] as int);
    }
    let e = 16384 * a[0];
    match back {
        Depth::Eight => {
            assert(half(11) == 1024);
            assert(wrap32(e + 1024) == e + 1024 && wrap32(1024) == 1024);
            assert(r == 0 ==> (e + 1024) / 2048 == 8 * zz[0]);
            assert(1024int / 2048 == 0);
        },
        Depth::Ten => {
            assert(half(12) == 2048);
            assert(wrap32(e + 2048) == e + 2048 && wrap32(2048) == 2048);
            assert(r == 0 ==> (e + 2048) / 4096 == 16 * zz[0]);
            assert(2048int / 4096 == 0);
        },
    }
}

/// A row with one element.
proof fn lemma_only_first(a: Seq<int>, t: Seq<i16>, k: int)
    requires
        a.len() == 8,
        forall|i: int| 1 <= i < 8 ==> #[trigger] a[i] == 0,
    ensures
        inverse_even(a, t, k) == a[0] * t[2 * k],
        inverse_odd(a, t, k) == 0,
{
    lemma_zero(a[2], t[2 * k + 1] as int);
    lemma_zero(a[4], t[8 + 2 * k] as int);
    lemma_zero(a[6], t[9 + 2 * k] as int);
    lemma_zero(a[1], t[16 + 2 * k] as int);
    lemma_zero(a[3], t[17 + 2 * k] as int);
    lemma_zero(a[5], t[24 + 2 * k] as int);
    lemma_zero(a[7], t[25 + 2 * k] as int);
}

proof fn lemma_zero(a: int, t: int)
    requires
        a == 0,
    ensures
        a * t == 0,
{
}

/// The DC coefficient of a flat block, and that there is no other.
proof fn lemma_flat_kept(v: int, depth: Depth, preset: int, p: int, dc_shift: nat)
    requires
        0 <= v <= top_sample(depth),
        depth == Depth::Ten ==> v <= 1020,
        0 <= preset < 25,
        0 <= p < 4,
        dc_shift <= 3,
    ensures
        ({
            let zz = forward_zig(flat_block(v), depth, encode_matrix(preset), -level_shift_of(p, depth));
            let k = kept(zz, dc_shift);
            let w = v - level_shift_of(p, depth);
            &&& dc_only(k)
            &&& depth == Depth::Eight ==> k[0] == 8 * w
            &&& depth == Depth::Ten ==> -4 <= k[0] - 2 * w <= 4
            &&& depth == Depth::Ten && dc_shift == 0 ==> k[0] == 2 * w
            &&& -1024 <= k[0] <= 2040
        }),
{
    let b = flat_block(v);
    let shift = level_shift_of(p, depth);
    let zz = forward_zig(b, depth, encode_matrix(preset), -shift);
    law_dc_is_the_mean(b, depth, preset, shift);
    assert(block_sum(b) == 64 * v);
    assert forall|i: int| 1 <= i < 64 implies #[trigger] zz[i] == 0 by {
        lemma_flat_coefficients(v, depth, preset, shift, i);
    }
    lemma_forward_zig_len(b, depth, encode_matrix(preset), -shift);
    law_dc_precision(zz[0], dc_shift);
    assert(dc_round(dc_shift) <= 4) by {
        vstd::arithmetic::power2::lemma2_to64();
    }
}

/// A block of one value comes back as that value, whatever the preset and the
/// place in the block: exactly where the depth is 8 bits, or where 8 bits are
/// read as 10; to within a level, or two at 10 bits, where the DC coefficient
/// has to be rounded. Of 10-bit values those above 1020 are left out, which the
/// DC coefficient has no room for once it is rounded.
pub proof fn law_flat_block_survives(
    v: int,
    depth: Depth,
    back: Depth,
    preset: int,
    p: int,
    dc_shift: nat,
    coded: bool,
    y: int,
    x: int,
)
    requires
        0 <= v <= top_sample(depth),
        depth == Depth::Ten ==> v <= 1020,
        0 <= preset < 25,
        0 <= p < 4,
        dc_shift <= 3,
        0 <= y < 8,
        0 <= x < 8,
    ensures
        ({
            let zz = forward_zig(flat_block(v), depth, encode_matrix(preset), -level_shift_of(p, depth));
            let out = block_sample(kept(zz, dc_shift), coded, coding(p, back, dc_shift), decode_matrix(preset), y, x);
            match (depth, back) {
                (Depth::Eight, Depth::Eight) => out == v,
                (Depth::Eight, Depth::Ten) => out == 64 * (4 * v),
                (Depth::Ten, Depth::Eight) => -4 <= 4 * out - v <= 4 && out <= 255,
                (Depth::Ten, Depth::Ten) => {
                    &&& -2 * 64 <= out - 64 * v <= 2 * 64
                    &&& dc_shift == 0 ==> out == 64 * v
                },
            }
        }),
{
    lemma_flat_kept(v, depth, preset, p, dc_shift);
    let zz = forward_zig(flat_block(v), depth, encode_matrix(preset), -level_shift_of(p, depth));
    let k = kept(zz, dc_shift);
    lemma_dc_only_sample(k, back, preset, level_shift_of(p, back), y, x);
}

// ---------------------------------------------------------------------------
// Frames
// ---------------------------------------------------------------------------

/// The image row that row `i` of the block around image row `y` is: the rows
/// of its own field where there are two.
pub open spec fn neighbour_row(interlaced: bool, y: int, i: int) -> int {
    if interlaced {
        16 * (y / 16) + 2 * i + y % 2
    } else {
        8 * (y / 8) + i
    }
}

/// The samples of a frame that sample `x` of row `y` of plane `p` shares its
/// block with.
pub open spec fn neighbours(f: Frame, interlaced: bool, p: int, y: int, x: int) -> Seq<Seq<int>> {
    Seq::new(
        8,
        |i: int|
            Seq::new(
                8,
                |j: int|
                    coded_value(
                        sample_of(f.format, f.planes@, p, neighbour_row(interlaced, y, i), 8 * (x / 8) + j),
                        depth_of(f.format),
                    ),
            ),
    )
}

/// The planes that a frame of this format is copied to.
pub open spec fn planes_before(st: EncoderState, f: Frame) -> Seq<Seq<Seq<u16>>> {
    if deep_format(f.format) {
        st.planes16
    } else {
        st.planes8
    }
}

/// The plane rows of a block hold neighbouring rows of the image.
proof fn lemma_neighbour_row(l: Layout, il: bool, y: int, i: int)
    requires
        l.wf(),
        il ==> l.interlaceable(),
        0 <= y < l.height,
        neighbour_row(il, y, 7) < l.height,
        0 <= i < 8,
    ensures
        ({
            let r = l.plane_row_of(y, il);
            &&& 0 <= r < l.aligned_height
            &&& 0 <= 8 * (r / 8) + i < l.aligned_height
            &&& l.image_row_of(8 * (r / 8) + i, il) == Some(neighbour_row(il, y, i))
        }),
{
    if il {
        let h = l.aligned_height as int / 2;
        assert(h % 8 == 0);
        assert(y / 2 / 8 == y / 16);
    }
}

/// A plane holds a sample of the frame that was copied to it.
proof fn lemma_loaded_at(st: EncoderState, f: Frame, p: int, row: int, c: int, y: int)
    requires
        carries(f.format, p),
        planes_fit(planes_before(st, f), st.layout),
        0 <= row < st.layout.aligned_height,
        0 <= c < plane_width(st.layout, p),
        c < st.layout.stride_of(p),
        st.layout.image_row_of(row, st.coded_interlaced(f)) == Some(y),
        p < 4,
    ensures
        st.planes_for(f)[p][row][c] == sample_of(f.format, f.planes@, p, y, c),
{
    let old = planes_before(st, f);
    assert(plane_shape(old[p], st.layout, p));
    assert(old[p][row].len() == st.layout.stride_of(p));
}

/// The block around a sample holds the samples of the frame around it.
proof fn lemma_neighbours(st: EncoderState, f: Frame, p: int, y: int, x: int)
    requires
        st.layout.wf(),
        carries(f.format, p),
        planes_fit(planes_before(st, f), st.layout),
        0 <= y < st.layout.height,
        neighbour_row(st.coded_interlaced(f), y, 7) < st.layout.height,
        0 <= x,
        8 * (x / 8) + 8 <= plane_width(st.layout, p),
    ensures
        ({
            let r = st.layout.plane_row_of(y, st.coded_interlaced(f));
            &&& 0 <= r < st.layout.aligned_height
            &&& 0 <= x < st.layout.stride_of(p)
            &&& own_block(st.planes_for(f)[p], r, x, depth_of(f.format)) == neighbours(
                f,
                st.coded_interlaced(f),
                p,
                y,
                x,
            )
        }),
{
    let l = st.layout;
    let il = st.coded_interlaced(f);
    let depth = depth_of(f.format);
    let r = l.plane_row_of(y, il);
    let own = own_block(st.planes_for(f)[p], r, x, depth);
    let b = neighbours(f, il, p, y, x);
    lemma_neighbour_row(l, il, y, 0);
    assert(8 * (x / 8) + 8 <= l.stride_of(p));
    assert forall|i: int, j: int| 0 <= i < 8 && 0 <= j < 8 implies #[trigger] own[i][j] == b[i][j] by {
        lemma_neighbour_row(l, il, y, i);
        lemma_loaded_at(st, f, p, 8 * (r / 8) + i, 8 * (x / 8) + j, neighbour_row(il, y, i));
    }
    assert forall|i: int| 0 <= i < 8 implies #[trigger] own[i] == b[i] by {
        assert(own[i] =~= b[i]);
    }
    assert(own =~= b);
}

/// What a stored sample of a flat block is worth.
pub open spec fn is_flat_level(out: int, v: int, deep: bool, deep_out: bool, dc_shift: nat) -> bool {
    match (deep, deep_out) {
        (false, false) => out == v,
        (false, true) => out == 64 * (4 * v),
        (true, false) => -4 <= 4 * out - v <= 4 && out <= 255,
        (true, true) => -128 <= out - 64 * v <= 128 && (dc_shift == 0 ==> out == 64 * v),
    }
}

/// A flat block in the decoded planes.
proof fn lemma_flat_plane(st: EncoderState, f: Frame, out: PixelFormat, p: int, r: int, x: int, v: int)
    requires
        st.layout.wf(),
        st.params.dc_shift <= 3,
        st.refuses(f) is None,
        st.quality == preset_of(st.quality.0),
        0 <= st.quality.1 < 25,
        fits_container(st, f),
        !halved_format(out),
        alpha_format(out) ==> alpha_format(f.format),
        0 <= p < plane_count(out),
        0 <= r < st.layout.aligned_height,
        0 <= x < st.layout.stride_of(p),
        own_block(st.planes_for(f)[p], r, x, depth_of(f.format)) == flat_block(v),
        0 <= v <= top_sample(depth_of(f.format)),
        deep_format(f.format) ==> v <= 1020,
    ensures
        is_flat_level(
            decoded_planes(st.layout, parse_of(st.layout, st.packet(f))->Ok_0, out)->0[p][r][x] as int,
            v,
            deep_format(f.format),
            deep_format(out),
            st.params.dc_shift as nat,
        ),
{
    let depth = depth_of(f.format);
    let back = depth_of(out);
    let shift = st.params.dc_shift as nat;
    law_decoded_at_its_place(st, f, out, p, r, x);
    let pl = decoded_planes(st.layout, parse_of(st.layout, st.packet(f))->Ok_0, out)->0;
    let zz = forward_zig(flat_block(v), depth, encode_matrix(st.quality.1), -level_shift_of(p, depth));
    let coded = choose|coded: bool|
        pl[p][r][x] == #[trigger] block_sample(
            kept(zz, shift),
            coded,
            coding(p, back, shift),
            decode_matrix(st.quality.1),
            r % 8,
            x % 8,
        ) as u16;
    law_flat_block_survives(v, depth, back, st.quality.1, p, shift, coded, r % 8, x % 8);
}

/// A decoded frame holds the samples of the decoded planes.
pub proof fn law_decoded_sample(l: Layout, data: Seq<u8>, blank: Frame, g: Frame, p: int, y: int, x: int)
    requires
        l.wf(),
        blank.width == l.width,
        blank.height == l.height,
        blank.valid(),
        !halved_format(blank.format),
        decoded_into(l, data, blank, g),
        parse_of(l, data)->Ok_0.interlaced ==> l.interlaceable(),
        carries(blank.format, p),
        0 <= y < l.height,
        0 <= x < plane_width(l, p),
    ensures
        ({
            let c = parse_of(l, data)->Ok_0;
            let s = decoded_planes(l, c, blank.format)->0[p][l.plane_row_of(y, c.interlaced)][x];
            sample_of(g.format, g.planes@, p, y, x) == (if deep_format(blank.format) {
                s
            } else {
                (s % 256) as u16
            })
        }),
{
    let c = parse_of(l, data)->Ok_0;
    let pl = decoded_planes(l, c, blank.format)->0;
    law_stored_samples(blank, l, c.interlaced, pl, Frame { interlaced: blank.interlaced, ..g }, p, y, x);
}

/// The value of a flat block is that of a sample.
proof fn lemma_flat_value(f: Frame, il: bool, p: int, y: int, x: int, v: int)
    requires
        neighbours(f, il, p, y, x) == flat_block(v),
    ensures
        0 <= v <= top_sample(depth_of(f.format)),
{
    let b = neighbours(f, il, p, y, x);
    assert(b[0][0] == flat_block(v)[0][0]);
    let s = sample_of(f.format, f.planes@, p, neighbour_row(il, y, 0), 8 * (x / 8));
    assert(b[0][0] == coded_value(s, depth_of(f.format)));
}

/// The low byte of a level of 8 bits is the level.
proof fn lemma_flat_byte(s: u16, out: u16, v: int, deep: bool, deep_out: bool, dc_shift: nat)
    requires
        is_flat_level(s as int, v, deep, deep_out, dc_shift),
        !deep ==> v <= 255,
        out == (if deep_out {
            s
        } else {
            (s % 256) as u16
        }),
    ensures
        is_flat_level(out as int, v, deep, deep_out, dc_shift),
{
}

/// Where a frame has one value all over a block, the decoded frame has that
/// value there: a frame of which that holds everywhere comes back as it was.
/// Rows and columns are those of the frames themselves.
pub proof fn law_flat_areas_survive(
    st: EncoderState,
    f: Frame,
    blank: Frame,
    g: Frame,
    p: int,
    y: int,
    x: int,
    v: int,
)
    requires
        st.layout.wf(),
        st.params.dc_shift <= 3,
        st.refuses(f) is None,
        st.quality == preset_of(st.quality.0),
        0 <= st.quality.1 < 25,
        fits_container(st, f),
        planes_fit(planes_before(st, f), st.layout),
        blank.width == st.layout.width,
        blank.height == st.layout.height,
        blank.valid(),
        !halved_format(blank.format),
        alpha_format(blank.format) ==> alpha_format(f.format),
        decoded_into(st.layout, st.packet(f), blank, g),
        0 <= p < plane_count(blank.format),
        0 <= y < st.layout.height,
        neighbour_row(st.coded_interlaced(f), y, 7) < st.layout.height,
        0 <= x,
        8 * (x / 8) + 8 <= plane_width(st.layout, p),
        neighbours(f, st.coded_interlaced(f), p, y, x) == flat_block(v),
        deep_format(f.format) ==> v <= 1020,
    ensures
        is_flat_level(
            sample_of(g.format, g.planes@, p, y, x) as int,
            v,
            deep_format(f.format),
            deep_format(blank.format),
            st.params.dc_shift as nat,
        ),
{
    let l = st.layout;
    let il = st.coded_interlaced(f);
    let r = l.plane_row_of(y, il);
    let c = parse_of(l, st.packet(f))->Ok_0;
    assert(c.interlaced == il) by {
        law_packet_parses(st, f);
    }
    lemma_flat_value(f, il, p, y, x, v);
    let s = decoded_planes(l, c, blank.format)->0[p][r][x];
    let (deep, deep_out, shift) = (deep_format(f.format), deep_format(blank.format), st.params.dc_shift as nat);
    assert(is_flat_level(s as int, v, deep, deep_out, shift)) by {
        lemma_neighbours(st, f, p, y, x);
        lemma_flat_plane(st, f, blank.format, p, r, x, v);
    }
    law_decoded_sample(l, st.packet(f), blank, g, p, y, x);
    lemma_flat_byte(s, sample_of(g.format, g.planes@, p, y, x), v, deep, deep_out, shift);
}

} // verus!
