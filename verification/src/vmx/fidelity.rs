//! What compression keeps of a picture.

use super::bits::{pack, wrap16};
use super::convert::{carries, plane_shape, plane_width, planes_fit, sample_of};
use super::dct::{
    column, decode_matrix, encode_matrix, forward, forward_column, forward_columns, forward_row, forward_zig,
    input_scale, lemma_quantiser, quantiser, reciprocal_of, Depth,
};
use super::decoder::{decoded_planes, is_preview_of, preview_at, preview_row_of, preview_slice};
use super::division::law_quantise_rounds;
use super::encoder::{coding, depth_of, plane_count, slice_blocks, slice_dc, EncoderState};
use super::frame::{alpha_format, deep_format, halved_format, plane_sizes_of, Frame, PixelFormat};
use super::lanes::{diff16, down16, low16, sum16};
use super::layout::{parse_of, preset_of, ContainerView, Layout};
use super::round_trip::{
    fits_container, has_symbols, law_decode_encode, law_packet_parses, law_preview_round_trip, packet_view,
    rebuilt_sample, restored_dc, restored_dcs,
};
use super::slice::{
    block_column, block_index, block_lanes, block_row, block_sample, dc_round, level_shift_of, preview_rows, preview_sample,
    reduced_dc,
};
use super::tables::{FTAB1, ZIGZAG};
use vstd::prelude::*;

verus! {

// ---------------------------------------------------------------------------
// The mean of a block
// ---------------------------------------------------------------------------

/// Largest sample of a depth.
pub open spec fn top_sample(depth: Depth) -> int {
    match depth {
        Depth::Eight => 255,
        Depth::Ten => 1023,
    }
}

/// A block of samples of a depth.
pub open spec fn is_block(b: Seq<Seq<int>>, depth: Depth) -> bool {
    &&& b.len() == 8
    &&& forall|y: int| 0 <= y < 8 ==> (#[trigger] b[y]).len() == 8
    &&& forall|y: int, x: int| 0 <= y < 8 && 0 <= x < 8 ==> 0 <= #[trigger] b[y][x] <= top_sample(depth)
}

/// The sum of eight numbers.
pub open spec fn sum8(s: Seq<int>) -> int {
    s[0] + s[1] + s[2] + s[3] + s[4] + s[5] + s[6] + s[7]
}

/// The sum of the samples of a block.
pub open spec fn block_sum(b: Seq<Seq<int>>) -> int {
    sum8(Seq::new(8, |y: int| sum8(b[y])))
}

/// A sum within 16 bits does not saturate.
pub proof fn lemma_sum(a: int, b: int)
    requires
        -32768 <= a + b <= 32767,
    ensures
        sum16(a, b) == a + b,
{
    reveal(sum16);
}

/// A difference within 16 bits does not saturate.
pub proof fn lemma_diff(a: int, b: int)
    requires
        -32768 <= a - b <= 32767,
    ensures
        diff16(a, b) == a - b,
{
    reveal(diff16);
}

/// A product within 16 bits is not cut.
pub proof fn lemma_low(a: int, b: int)
    requires
        -32768 <= a * b <= 32767,
    ensures
        low16(a, b) == a * b,
{
    reveal(low16);
}

/// The first coefficient of a column is its sum, scaled.
pub proof fn lemma_column_sum(x: Seq<int>, m: int)
    requires
        x.len() == 8,
        m == 8 && (forall|i: int| 0 <= i < 8 ==> -255 <= #[trigger] x[i] <= 255) || m == 2 && (forall|i: int|
            0 <= i < 8 ==> -1023 <= #[trigger] x[i] <= 1023),
    ensures
        forward_column(x, m)[0] == m * sum8(x),
{
    let (a, b, c, d, e, f, g, h) = (x[0], x[1], x[2], x[3], x[4], x[5], x[6], x[7]);
    let t: int = if m == 8 {
        255
    } else {
        1023
    };
    assert(-t <= a <= t && -t <= b <= t && -t <= c <= t && -t <= d <= t);
    assert(-t <= e <= t && -t <= f <= t && -t <= g <= t && -t <= h <= t);
    lemma_sum(h, a);
    lemma_sum(g, b);
    lemma_sum(f, c);
    lemma_sum(e, d);
    let (s07, s16, s25, s34) = (h + a, g + b, f + c, e + d);
    lemma_diff(s07, s34);
    lemma_diff(s16, s25);
    lemma_sum(s34, s34);
    lemma_sum(s34 + s34, s07 - s34);
    lemma_sum(s25, s25);
    lemma_sum(s25 + s25, s16 - s25);
    let (u, v) = (s34 + s34 + (s07 - s34), s25 + s25 + (s16 - s25));
    lemma_low(u, m);
    lemma_low(v, m);
    lemma_diff(u * m, v * m);
    lemma_sum(v * m, v * m);
    lemma_sum(v * m + v * m, u * m - v * m);
    assert(u * m + v * m == m * (u + v)) by (nonlinear_arith);
}

/// The first coefficient of the first row is a quarter of its sum.
proof fn lemma_row_sum(x: Seq<int>)
    requires
        x.len() == 8,
        forall|i: int| 0 <= i < 8 ==> -16368 <= #[trigger] x[i] <= 16368,
    ensures
        forward_row(x, FTAB1@, 0) == (sum8(x) + 2) / 4,
{
    reveal(sum16);
    reveal(diff16);
}

/// The sum of a column of a block.
spec fn column_sum(b: Seq<Seq<int>>, x: int) -> int {
    b[0][x] + b[1][x] + b[2][x] + b[3][x] + b[4][x] + b[5][x] + b[6][x] + b[7][x]
}

/// A block can be summed by rows or by columns.
proof fn lemma_block_sum(b: Seq<Seq<int>>)
    ensures
        block_sum(b) == sum8(Seq::new(8, |x: int| column_sum(b, x))),
{
}

/// The first coefficient of a column of level-shifted samples.
proof fn lemma_column_dc(b: Seq<Seq<int>>, depth: Depth, shift: int, x: int)
    requires
        is_block(b, depth),
        shift == 0 || shift == (top_sample(depth) + 1) / 2,
        0 <= x < 8,
    ensures
        forward_columns(b, depth, -shift, 0)[x] == input_scale(depth) * (column_sum(b, x) - 8 * shift),
        -16368 <= forward_columns(b, depth, -shift, 0)[x] <= 16368,
{
    let m = input_scale(depth);
    let col = column(b, -shift, x);
    assert forall|i: int| 0 <= i < 8 implies #[trigger] col[i] == b[i][x] - shift && 0 <= b[i][x] <= top_sample(depth) by {
        assert(0 <= b[i][x] <= top_sample(depth));
        lemma_sum(b[i][x], -shift);
    }
    lemma_column_sum(col, m);
    let t = top_sample(depth);
    assert(col[0] == b[0][x] - shift && col[1] == b[1][x] - shift && col[2] == b[2][x] - shift && col[3] == b[3][x] - shift);
    assert(col[4] == b[4][x] - shift && col[5] == b[5][x] - shift && col[6] == b[6][x] - shift && col[7] == b[7][x] - shift);
    assert(sum8(col) == column_sum(b, x) - 8 * shift);
    assert(-8 * shift <= sum8(col) <= 8 * (t - shift));
}

/// The DC coefficient of a block before it is quantised.
proof fn lemma_dc_sum(b: Seq<Seq<int>>, depth: Depth, shift: int)
    requires
        is_block(b, depth),
        shift == 0 || shift == (top_sample(depth) + 1) / 2,
    ensures
        forward(b, depth, -shift, 0) == (match depth {
            Depth::Eight => 2 * (block_sum(b) - 64 * shift),
            Depth::Ten => (block_sum(b) - 64 * shift + 1) / 2,
        }),
{
    let m = input_scale(depth);
    let cs = forward_columns(b, depth, -shift, 0);
    assert forall|x: int| 0 <= x < 8 implies -16368 <= #[trigger] cs[x] <= 16368 by {
        lemma_column_dc(b, depth, shift, x);
    }
    lemma_row_sum(cs);
    assert(sum8(cs) == m * (block_sum(b) - 64 * shift)) by {
        lemma_column_dc(b, depth, shift, 0);
        lemma_column_dc(b, depth, shift, 1);
        lemma_column_dc(b, depth, shift, 2);
        lemma_column_dc(b, depth, shift, 3);
        lemma_column_dc(b, depth, shift, 4);
        lemma_column_dc(b, depth, shift, 5);
        lemma_column_dc(b, depth, shift, 6);
        lemma_column_dc(b, depth, shift, 7);
        lemma_block_sum(b);
    }
}

/// A number divided and rounded to the nearest integer, halves away from zero.
pub open spec fn divided(x: int, d: int) -> int {
    if x < 0 {
        -((-x + d / 2) / d)
    } else {
        (x + d / 2) / d
    }
}

/// Dividing and multiplying again moves a number by at most half the divisor.
proof fn lemma_divided(x: int, d: int)
    requires
        1 <= d,
    ensures
        -d <= 2 * (divided(x, d) * d - x) <= d,
{
    let a = if x < 0 {
        -x
    } else {
        x
    };
    let q = (a + d / 2) / d;
    vstd::arithmetic::div_mod::lemma_fundamental_div_mod(a + d / 2, d);
    assert(0 <= (a + d / 2) % d < d) by (nonlinear_arith)
        requires
            d > 0,
    ;
    assert(q * d == d * q && (-q) * d == -(d * q)) by (nonlinear_arith);
}

/// The parts of a reciprocal fit in 16 bits.
proof fn lemma_reciprocal_fits(d: int)
    requires
        3 <= d <= 5312,
    ensures
        0 <= reciprocal_of(d).0 <= 65535,
        0 <= reciprocal_of(d).1 <= 65535,
        0 <= reciprocal_of(d).2 <= 65535,
{
    reveal(reciprocal_of);
}

/// Each coefficient of a block is that of its transform, divided by the
/// quantiser of the preset and rounded.
pub proof fn law_coefficients_rounded(b: Seq<Seq<int>>, depth: Depth, preset: int, add: int, i: int)
    requires
        0 <= preset < 25,
        0 <= i < 64,
    ensures
        ({
            let n = ZIGZAG@[i] as int;
            let d = quantiser(preset, n);
            &&& 0 <= n < 64
            &&& 16 <= d <= 5312
            &&& -32768 <= forward(b, depth, add, n) <= 32767
            &&& forward_zig(b, depth, encode_matrix(preset), add)[i] == divided(forward(b, depth, add, n), d)
        }),
{
    let n = ZIGZAG@[i] as int;
    assert(0 <= n < 64);
    let d = quantiser(preset, n);
    lemma_quantiser(preset, n);
    let m = encode_matrix(preset);
    lemma_reciprocal_fits(d);
    assert(n % 64 == n && (64 + n) % 64 == n && (128 + n) % 64 == n);
    let x = forward(b, depth, add, n);
    law_quantise_rounds(x, d);
    assert(m[n] == reciprocal_of(d).0 && m[64 + n] == reciprocal_of(d).1 && m[128 + n] == reciprocal_of(d).2);
    let q = divided(x, d);
    lemma_divided(x, d);
    assert(-32768 <= q <= 32767) by (nonlinear_arith)
        requires
            -d <= 2 * (q * d - x) <= d,
            -32768 <= x <= 32767,
            d >= 16,
    ;
    reveal(forward_zig);
}

/// The DC coefficient is an eighth of the sum of the level-shifted samples
/// (of 8 bits; a thirty-second of 10-bit ones), to within a half and a bit.
pub proof fn law_dc_is_the_mean(b: Seq<Seq<int>>, depth: Depth, preset: int, shift: int)
    requires
        is_block(b, depth),
        0 <= preset < 25,
        shift == 0 || shift == (top_sample(depth) + 1) / 2,
    ensures
        ({
            let dc = forward_zig(b, depth, encode_matrix(preset), -shift)[0];
            let total = block_sum(b) - 64 * shift;
            match depth {
                Depth::Eight => -4 <= 8 * dc - total <= 4,
                Depth::Ten => -17 <= 32 * dc - total <= 17,
            }
        }),
{
    law_coefficients_rounded(b, depth, preset, -shift, 0);
    assert(ZIGZAG@[0] == 0);
    lemma_dc_sum(b, depth, shift);
    let d = quantiser(preset, 0);
    assert(d == 16) by {
        reveal(quantiser);
    }
    lemma_divided(forward(b, depth, -shift, 0), 16);
}

// ---------------------------------------------------------------------------
// The place of a block
// ---------------------------------------------------------------------------

/// The value that is coded of a stored sample.
pub open spec fn coded_value(s: u16, depth: Depth) -> int {
    match depth {
        Depth::Eight => s as int,
        Depth::Ten => s as int / 64,
    }
}

/// The 8x8 samples of a plane, at multiples of 8, that sample `x` of row `r`
/// is one of.
pub open spec fn own_block(rows: Seq<Seq<u16>>, r: int, x: int, depth: Depth) -> Seq<Seq<int>> {
    Seq::new(
        8,
        |i: int| Seq::new(8, |j: int| coded_value(rows[8 * (r / 8) + i][8 * (x / 8) + j], depth)),
    )
}

/// The block that covers a sample is the transform of the samples around it:
/// whatever the row and the column, slice and block number lead back to the
/// place itself.
pub proof fn law_block_at_its_place(
    pl: Seq<Seq<Seq<u16>>>,
    l: Layout,
    depth: Depth,
    matrix: Seq<u16>,
    dc_shift: nat,
    p: int,
    r: int,
    x: int,
)
    requires
        l.wf(),
        0 <= p < 4,
        0 <= r < l.aligned_height,
        0 <= x < l.stride_of(p),
    ensures
        ({
            let blocks = slice_blocks(pl, l, r / 16, p, depth, matrix, dc_shift);
            let k = r % 16 / 8 * (l.stride_of(p) / 8) + x / 8;
            &&& 0 <= k < blocks.len()
            &&& blocks[k] == forward_zig(own_block(pl[p], r, x, depth), depth, matrix, -level_shift_of(p, depth))
        }),
{
    let blocks = slice_blocks(pl, l, r / 16, p, depth, matrix, dc_shift);
    let stride = l.stride_of(p);
    let n = stride / 8;
    let k = r % 16 / 8 * n + x / 8;
    assert(r % 16 / 8 == 0 || r % 16 / 8 == 1);
    assert(0 * n == 0 && 1 * n == n);
    assert(stride % 8 == 0);
    assert(0 <= x / 8 < n);
    let top = 16 * (r / 16);
    assert(block_row(top, stride, k) == 8 * (r / 8));
    assert(block_column(stride, k) == 8 * (x / 8));
    assert(block_lanes(pl[p], 8 * (r / 8), 8 * (x / 8), depth) =~~= own_block(pl[p], r, x, depth));
}

/// A block with its DC coefficient at the precision that is kept.
pub open spec fn kept(zz: Seq<i16>, dc_shift: nat) -> Seq<i16> {
    zz.update(0, restored_dc(reduced_dc(zz[0], dc_shift), dc_shift) as i16)
}

/// What the decoder makes of a place is made of the block at that place.
proof fn lemma_rebuilt_place(
    pl: Seq<Seq<Seq<u16>>>,
    l: Layout,
    depth: Depth,
    back: Depth,
    preset: int,
    dc_shift: nat,
    p: int,
    r: int,
    x: int,
) -> (coded: bool)
    requires
        l.wf(),
        0 <= p < 4,
        0 <= r < l.aligned_height,
        0 <= x < l.stride_of(p),
    ensures
        rebuilt_sample(pl, l, depth, back, preset, dc_shift, p, r, x) == block_sample(
            kept(
                forward_zig(
                    own_block(pl[p], r, x, depth),
                    depth,
                    encode_matrix(preset),
                    -level_shift_of(p, depth),
                ),
                dc_shift,
            ),
            coded,
            coding(p, back, dc_shift),
            decode_matrix(preset),
            r % 8,
            x % 8,
        ),
{
    let m = encode_matrix(preset);
    law_block_at_its_place(pl, l, depth, m, dc_shift, p, r, x);
    let blocks = slice_blocks(pl, l, r / 16, p, depth, m, dc_shift);
    let n = l.stride_of(p) / 8;
    assert(0 * n == 0 && 1 * n == n);
    let k = block_index(16 * (r / 16), l.stride_of(p), r, x);
    assert(k == r % 16 / 8 * n + x / 8);
    assert((r - 16 * (r / 16)) % 8 == r % 8);
    has_symbols(blocks, k)
}

/// Every decoded sample comes from its own place: it is that of the block of
/// the loaded frame around its row and column, transformed, quantised, and
/// transformed back.
pub proof fn law_decoded_at_its_place(st: EncoderState, f: Frame, out: PixelFormat, p: int, r: int, x: int)
    requires
        st.layout.wf(),
        st.params.dc_shift <= 15,
        st.refuses(f) is None,
        st.quality == preset_of(st.quality.0),
        fits_container(st, f),
        !halved_format(out),
        alpha_format(out) ==> alpha_format(f.format),
        0 <= p < plane_count(out),
        0 <= r < st.layout.aligned_height,
        0 <= x < st.layout.stride_of(p),
    ensures
        parse_of(st.layout, st.packet(f)) is Ok,
        ({
            let got = decoded_planes(st.layout, parse_of(st.layout, st.packet(f))->Ok_0, out);
            let depth = depth_of(f.format);
            let block = forward_zig(
                own_block(st.planes_for(f)[p], r, x, depth),
                depth,
                encode_matrix(st.quality.1),
                -level_shift_of(p, depth),
            );
            &&& got is Some
            &&& exists|coded: bool|
                got->0[p][r][x] == #[trigger] block_sample(
                    kept(block, st.params.dc_shift as nat),
                    coded,
                    coding(p, depth_of(out), st.params.dc_shift as nat),
                    decode_matrix(st.quality.1),
                    r % 8,
                    x % 8,
                ) as u16
        }),
{
    law_decode_encode(st, f, out);
    let coded = lemma_rebuilt_place(
        st.planes_for(f),
        st.layout,
        depth_of(f.format),
        depth_of(out),
        st.quality.1,
        st.params.dc_shift as nat,
        p,
        r,
        x,
    );
    let got = decoded_planes(st.layout, parse_of(st.layout, st.packet(f))->Ok_0, out);
    assert(got->0[p][r][x] == rebuilt_sample(
        st.planes_for(f),
        st.layout,
        depth_of(f.format),
        depth_of(out),
        st.quality.1,
        st.params.dc_shift as nat,
        p,
        r,
        x,
    ) as u16);
}

// ---------------------------------------------------------------------------
// The preview
// ---------------------------------------------------------------------------

/// A DC coefficient keeps its value to within half a unit of the precision
/// that is kept, and stays within the range of the samples it stands for.
pub proof fn law_dc_precision(dc: i16, dc_shift: nat)
    requires
        dc_shift <= 3,
        -1024 <= dc <= 2040,
    ensures
        ({
            let d = restored_dc(reduced_dc(dc, dc_shift), dc_shift);
            &&& -dc_round(dc_shift) <= d - dc <= dc_round(dc_shift)
            &&& -1024 <= d <= 2040
            &&& dc <= 1016 ==> d <= 1016
            &&& dc >= 0 ==> d >= 0
            &&& dc % 8 == 0 || dc_shift == 0 ==> d == dc
        }),
{
    reveal(down16);
    vstd::arithmetic::power2::lemma2_to64();
    let h = dc_round(dc_shift);
    let v = dc + h;
    assert(wrap16(v) == v);
    if dc_shift == 0 {
        assert(reduced_dc(dc, 0) == v / 1);
    } else if dc_shift == 1 {
        assert(reduced_dc(dc, 1) == v / 2);
        assert(wrap16(v / 2 * 2) == v / 2 * 2);
    } else if dc_shift == 2 {
        assert(reduced_dc(dc, 2) == v / 4);
        assert(wrap16(v / 4 * 4) == v / 4 * 4);
    } else {
        assert(reduced_dc(dc, 3) == v / 8);
        assert(wrap16(v / 8 * 8) == v / 8 * 8);
    }
}

/// The image row that row `i` of the block behind row `y` of a preview is: the
/// rows of one field where there are two.
pub open spec fn preview_source_row(interlaced: bool, y: int, i: int) -> int {
    if interlaced {
        16 * (y / 2) + 2 * i + y % 2
    } else {
        8 * y + i
    }
}

/// The samples of a frame that sample `x` of row `y` of plane `p` of its
/// preview stands for.
pub open spec fn preview_source(f: Frame, interlaced: bool, p: int, y: int, x: int) -> Seq<Seq<int>> {
    Seq::new(
        8,
        |i: int|
            Seq::new(
                8,
                |j: int|
                    coded_value(
                        sample_of(f.format, f.planes@, p, preview_source_row(interlaced, y, i), 8 * x + j),
                        depth_of(f.format),
                    ),
            ),
    )
}

/// The preview sample of a DC coefficient.
proof fn lemma_preview_sample(dc: i16, dc_shift: nat, shift: int)
    requires
        dc_shift <= 3,
        shift == 0 && 0 <= dc <= 2040 || shift == 128 && -1024 <= dc <= 1016,
    ensures
        ({
            let v = preview_sample(restored_dc(reduced_dc(dc, dc_shift), dc_shift), shift);
            &&& 0 <= v <= 255
            &&& -4 - dc_round(dc_shift) <= 8 * (v - shift) - dc <= 4 + dc_round(dc_shift)
            &&& dc % 8 == 0 ==> 8 * (v - shift) == dc
        }),
{
    law_dc_precision(dc, dc_shift);
    reveal(down16);
    vstd::arithmetic::power2::lemma2_to64();
}

/// A preview sample is made of the DC coefficient of the block at its place.
proof fn lemma_preview_place(st: EncoderState, f: Frame, n: int, p: int, y: int, x: int)
    requires
        st.layout.wf(),
        st.params.dc_shift <= 15,
        0 <= p < n <= plane_count(f.format),
        0 <= preview_row_of(st.layout, st.coded_interlaced(f), y) < st.layout.aligned_height / 8,
        0 <= x < st.layout.stride_of(p) / 8,
    ensures
        ({
            let depth = depth_of(f.format);
            let r = preview_row_of(st.layout, st.coded_interlaced(f), y);
            let zz = forward_zig(
                own_block(st.planes_for(f)[p], 8 * r, 8 * x, depth),
                depth,
                encode_matrix(st.quality.1),
                -level_shift_of(p, depth),
            );
            let shift = st.params.dc_shift as nat;
            preview_at(st.layout, packet_view(st, f), n, p, y, x) == preview_sample(
                restored_dc(reduced_dc(zz[0], shift), shift),
                level_shift_of(p, Depth::Eight),
            ) as u8
        }),
{
    let l = st.layout;
    let pl = st.planes_for(f);
    let depth = depth_of(f.format);
    let m = encode_matrix(st.quality.1);
    let shift = st.params.dc_shift as nat;
    let r = preview_row_of(l, st.coded_interlaced(f), y);
    law_block_at_its_place(pl, l, depth, m, shift, p, 8 * r, 8 * x);
    law_preview_round_trip(pl, l, r / 2, n, plane_count(f.format), depth, m, shift);
    let c = packet_view(st, f);
    assert(c.dc[r / 2] == pack(slice_dc(pl, l, r / 2, plane_count(f.format), depth, m, shift)));
    let w = l.stride_of(p) / 8;
    assert(8 * r / 16 == r / 2 && 8 * r % 16 / 8 == r % 2 && 8 * x / 8 == x);
    assert(0 * w == 0 && 1 * w == w);
    let blocks = slice_blocks(pl, l, r / 2, p, depth, m, shift);
    let rows = preview_rows(restored_dcs(blocks, shift), l.stride_of(p), level_shift_of(p, Depth::Eight));
    assert(preview_slice(l, c.dc[r / 2], shift, n)->Some_0.0[p] == rows);
}

/// The samples behind a preview sample stand in one block of the planes.
proof fn lemma_preview_source(st: EncoderState, f: Frame, p: int, y: int, x: int)
    requires
        st.layout.wf(),
        carries(f.format, p),
        planes_fit(
            if deep_format(f.format) {
                st.planes16
            } else {
                st.planes8
            },
            st.layout,
        ),
        0 <= y < st.layout.preview_size_of(st.coded_interlaced(f)).1,
        0 <= x,
        8 * x + 8 <= plane_width(st.layout, p),
    ensures
        ({
            let r = preview_row_of(st.layout, st.coded_interlaced(f), y);
            let b = preview_source(f, st.coded_interlaced(f), p, y, x);
            &&& 0 <= r < st.layout.aligned_height / 8
            &&& own_block(st.planes_for(f)[p], 8 * r, 8 * x, depth_of(f.format)) == b
            &&& is_block(b, depth_of(f.format))
        }),
{
    let l = st.layout;
    let il = st.coded_interlaced(f);
    let depth = depth_of(f.format);
    let old = if deep_format(f.format) {
        st.planes16
    } else {
        st.planes8
    };
    let pl = st.planes_for(f);
    let r = preview_row_of(l, il, y);
    let b = preview_source(f, il, p, y, x);
    assert(plane_shape(old[p], l, p));
    assert forall|i: int, j: int| 0 <= i < 8 && 0 <= j < 8 implies #[trigger] pl[p][8 * r + i][8 * x + j] == sample_of(
        f.format,
        f.planes@,
        p,
        preview_source_row(il, y, i),
        8 * x + j,
    ) by {
        assert(l.image_row_of(8 * r + i, il) == Some(preview_source_row(il, y, i)));
        assert(old[p][8 * r + i].len() == l.stride_of(p));
    }
    assert(own_block(pl[p], 8 * r, 8 * x, depth) =~~= b) by {
        assert(8 * r / 8 == r && 8 * x / 8 == x);
        assert forall|i: int, j: int| 0 <= i < 8 && 0 <= j < 8 implies #[trigger] own_block(pl[p], 8 * r, 8 * x, depth)[i][j]
            == b[i][j] by {
            assert(pl[p][8 * r + i][8 * x + j] == sample_of(
                f.format,
                f.planes@,
                p,
                preview_source_row(il, y, i),
                8 * x + j,
            ));
        }
    }
    assert forall|i: int, j: int| 0 <= i < 8 && 0 <= j < 8 implies 0 <= #[trigger] b[i][j] <= top_sample(depth) by {
        let s = sample_of(f.format, f.planes@, p, preview_source_row(il, y, i), 8 * x + j);
        assert(b[i][j] == coded_value(s, depth));
    }
}

/// The sum of a block of samples.
proof fn lemma_block_sum_range(b: Seq<Seq<int>>, depth: Depth)
    requires
        is_block(b, depth),
    ensures
        0 <= block_sum(b) <= 64 * top_sample(depth),
{
    let t = top_sample(depth);
    assert forall|y: int| 0 <= y < 8 implies 0 <= sum8(#[trigger] b[y]) <= 8 * t by {
        assert(0 <= b[y][0] <= t && 0 <= b[y][1] <= t && 0 <= b[y][2] <= t && 0 <= b[y][3] <= t);
        assert(0 <= b[y][4] <= t && 0 <= b[y][5] <= t && 0 <= b[y][6] <= t && 0 <= b[y][7] <= t);
    }
    assert(0 <= sum8(b[0]) <= 8 * t && 0 <= sum8(b[1]) <= 8 * t && 0 <= sum8(b[2]) <= 8 * t && 0 <= sum8(b[3]) <= 8 * t);
    assert(0 <= sum8(b[4]) <= 8 * t && 0 <= sum8(b[5]) <= 8 * t && 0 <= sum8(b[6]) <= 8 * t && 0 <= sum8(b[7]) <= 8 * t);
}

/// The same, of the sum of the samples and the DC coefficient.
proof fn lemma_preview_level(dc: i16, total: int, depth: Depth, p: int, dc_shift: nat)
    requires
        0 <= total <= 64 * top_sample(depth),
        depth == Depth::Ten ==> total <= 64 * 1020,
        0 <= p < 4,
        dc_shift <= 3,
        match depth {
            Depth::Eight => -4 <= 8 * dc - (total - 64 * level_shift_of(p, depth)) <= 4,
            Depth::Ten => -17 <= 32 * dc - (total - 64 * level_shift_of(p, depth)) <= 17,
        },
    ensures
        ({
            let v = preview_sample(
                restored_dc(reduced_dc(dc, dc_shift), dc_shift),
                level_shift_of(p, Depth::Eight),
            );
            &&& 0 <= v <= 255
            &&& is_mean_level(v, total, depth)
        }),
{
    lemma_preview_sample(dc, dc_shift, level_shift_of(p, Depth::Eight));
    assert(dc_round(dc_shift) <= 4) by {
        vstd::arithmetic::power2::lemma2_to64();
    }
}

/// What the preview sample of a block is worth.
proof fn lemma_preview_of_block(b: Seq<Seq<int>>, depth: Depth, preset: int, p: int, dc_shift: nat)
    requires
        is_block(b, depth),
        not_clipped(b, depth),
        0 <= preset < 25,
        0 <= p < 4,
        dc_shift <= 3,
    ensures
        ({
            let zz = forward_zig(b, depth, encode_matrix(preset), -level_shift_of(p, depth));
            let v = preview_sample(
                restored_dc(reduced_dc(zz[0], dc_shift), dc_shift),
                level_shift_of(p, Depth::Eight),
            );
            &&& 0 <= v <= 255
            &&& is_mean_level(v, block_sum(b), depth)
        }),
{
    let shift = level_shift_of(p, depth);
    law_dc_is_the_mean(b, depth, preset, shift);
    lemma_block_sum_range(b, depth);
    let dc = forward_zig(b, depth, encode_matrix(preset), -shift)[0];
    lemma_preview_level(dc, block_sum(b), depth, p, dc_shift);
}

/// The mean of a block can be told from the value that 8 bits have no room for:
/// a 10-bit mean above 1020 may round to 256, of which the preview keeps 0.
pub open spec fn not_clipped(b: Seq<Seq<int>>, depth: Depth) -> bool {
    depth == Depth::Ten ==> block_sum(b) <= 64 * 1020
}

/// `v` is the mean of 64 samples, at 8 bits, to within little more than a level;
/// exactly, where the mean of 8-bit samples is a level.
pub open spec fn is_mean_level(v: int, total: int, depth: Depth) -> bool {
    match depth {
        Depth::Eight => {
            &&& -68 <= 64 * v - total <= 68
            &&& total % 64 == 0 ==> 64 * v == total
        },
        Depth::Ten => -273 <= 256 * v - total <= 273,
    }
}

/// Where a sample of a preview stands.
proof fn lemma_preview_data(l: Layout, c: ContainerView, alpha: bool, g: Frame, p: int, y: int, x: int)
    requires
        l.wf(),
        is_preview_of(g, l, c, alpha),
        0 <= p < g.planes@.len(),
        0 <= y < g.height,
        0 <= x,
        8 * x + 8 <= plane_width(l, p),
    ensures
        0 <= y * g.planes@[p].stride + x < g.planes@[p].data@.len(),
        g.planes@[p].data@[y * g.planes@[p].stride + x] == preview_at(
            l,
            c,
            if alpha {
                4
            } else {
                3
            },
            p,
            y,
            x,
        ),
{
    let (w, h) = l.preview_size_of(c.interlaced);
    let pw = plane_sizes_of(g.format, w, h)[p].0;
    assert(g.planes@[p].stride == pw);
    assert(x < pw);
    let at = y * pw + x;
    vstd::arithmetic::div_mod::lemma_fundamental_div_mod_converse(at, pw, y, x);
    assert(0 <= y * pw && at < h * pw && h * pw == pw * h) by (nonlinear_arith)
        requires
            0 <= y < h,
            0 <= x < pw,
            at == y * pw + x,
    ;
}

/// Every sample of a preview, in every plane, is the mean of the 64 samples of
/// the frame that stand at its place.
pub proof fn law_preview_is_the_mean(st: EncoderState, f: Frame, alpha: bool, g: Frame, p: int, y: int, x: int)
    requires
        st.layout.wf(),
        st.params.dc_shift <= 3,
        0 <= st.quality.1 < 25,
        fits_container(st, f),
        planes_fit(
            if deep_format(f.format) {
                st.planes16
            } else {
                st.planes8
            },
            st.layout,
        ),
        alpha ==> alpha_format(f.format),
        is_preview_of(g, st.layout, parse_of(st.layout, st.packet(f))->Ok_0, alpha),
        0 <= p < g.planes@.len(),
        0 <= y < g.height,
        0 <= x,
        8 * x + 8 <= plane_width(st.layout, p),
        not_clipped(preview_source(f, st.coded_interlaced(f), p, y, x), depth_of(f.format)),
    ensures
        0 <= y * g.planes@[p].stride + x < g.planes@[p].data@.len(),
        is_mean_level(
            g.planes@[p].data@[y * g.planes@[p].stride + x] as int,
            block_sum(preview_source(f, st.coded_interlaced(f), p, y, x)),
            depth_of(f.format),
        ),
{
    let l = st.layout;
    law_packet_parses(st, f);
    let c = packet_view(st, f);
    let n = if alpha {
        4int
    } else {
        3
    };
    lemma_preview_source(st, f, p, y, x);
    lemma_preview_place(st, f, n, p, y, x);
    let b = preview_source(f, st.coded_interlaced(f), p, y, x);
    lemma_preview_of_block(b, depth_of(f.format), st.quality.1, p, st.params.dc_shift as nat);
    lemma_preview_data(l, c, alpha, g, p, y, x);
}

} // verus!
