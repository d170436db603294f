//! What a compressed frame looks like, byte by byte and bit by bit.

use super::bits::{
    bit_len, bits_of, code_of, lemma_bit_len, lemma_bit_len_pow, lemma_value_of_bits, run_code, value_code, value_of,
};
use super::encoder::{ac_streams, dc_streams, depth_of, plane_count, EncoderState};
use super::dct::encode_matrix;
use super::frame::Frame;
use super::layout::{framed, header_of, Layout};
use super::tables::ZIGZAG;
use crate::wire::{law_le32, le32, le32_at};
use vstd::arithmetic::power2::pow2;
use vstd::prelude::*;

verus! {

// ---------------------------------------------------------------------------
// Codes
// ---------------------------------------------------------------------------

/// The code of a number of `n` binary digits is one zero less than it has
/// digits, and the digits, of which the first is a one.
pub proof fn law_value_code(v: u64)
    requires
        0 < v < 0x1_0000_0000,
    ensures
        ({
            let n = bit_len(v);
            let c = value_code(v);
            &&& n > 0
            &&& pow2((n - 1) as nat) <= v < pow2(n)
            &&& c.len() == 2 * n - 1
            &&& forall|i: int| 0 <= i < n - 1 ==> !#[trigger] c[i]
            &&& c[n - 1]
            &&& value_of(c.skip(n - 1)) == v
        }),
{
    let n = bit_len(v);
    lemma_bit_len(v);
    lemma_bit_len_pow(v, n);
    lemma_bit_len_pow(v, (n - 1) as nat);
    lemma_value_of_bits(v, n);
    assert(value_code(v).skip(n - 1) =~= bits_of(v, n));
}

/// A run of zeros is a one and the code of its length; no run is no code. So
/// the first bit of a code tells runs from values, whose codes begin with a
/// zero.
pub proof fn law_run_code(n: u64, v: u64)
    requires
        n < 0x1_0000_0000,
        2 <= v < 0x1_0000_0000,
    ensures
        n == 0 ==> run_code(n).len() == 0,
        n > 0 ==> run_code(n)[0] && run_code(n).skip(1) == value_code(n),
        !value_code(v)[0],
{
    if n > 0 {
        assert(run_code(n).skip(1) =~= value_code(n));
    }
    law_value_code(v);
    vstd::arithmetic::power2::lemma2_to64();
    if bit_len(v) == 1 {
        assert(pow2(1) == 2);
    }
}

/// Coefficients are numbered from 2 on by their magnitude, each negative one
/// before the positive: -1, 1, -2, 2 and so on.
pub proof fn law_coefficient_numbers(x: int)
    requires
        0 < x,
    ensures
        code_of(-1) == 2,
        code_of(x) == code_of(-x) + 1,
        code_of(-x - 1) == code_of(x) + 1,
{
}

// ---------------------------------------------------------------------------
// Fields
// ---------------------------------------------------------------------------

/// The planes of a progressive frame hold its rows in order. Those of an
/// interlaced one hold the even rows in the upper half of the slices and the
/// odd rows in the lower half, each field in order.
pub proof fn law_fields_apart(l: Layout, y: int)
    requires
        l.wf(),
        0 <= y < l.height,
    ensures
        l.plane_row_of(y, false) == y,
        l.interlaceable() && y % 2 == 0 ==> 2 * l.plane_row_of(y, true) == y && l.plane_row_of(y, true) < 8 * l.slices,
        l.interlaceable() && y % 2 == 1 ==> 2 * (l.plane_row_of(y, true) - 8 * l.slices) + 1 == y
            && l.plane_row_of(y, true) >= 8 * l.slices,
        l.interlaceable() <==> l.height == 480 || l.height == 576 || l.height == 1080,
        16 * l.slices == l.aligned_height,
        l.height <= l.aligned_height < l.height + 16,
{
}

// ---------------------------------------------------------------------------
// The container
// ---------------------------------------------------------------------------

/// Where stream `i` of some streams starts.
pub open spec fn stream_start(v: Seq<Seq<u8>>, i: int) -> int
    decreases i,
{
    if i <= 0 {
        0
    } else {
        stream_start(v, i - 1) + 4 + v[i - 1].len()
    }
}

/// Each stream stands behind the ones before it, its length first.
pub proof fn law_streams_places(v: Seq<Seq<u8>>, i: int)
    requires
        0 <= i < v.len(),
        v[i].len() < 0x1_0000_0000,
    ensures
        ({
            let (b, at) = (framed(v), stream_start(v, i));
            &&& 0 <= at
            &&& at + 4 + v[i].len() <= b.len()
            &&& b.len() == stream_start(v, v.len() as int)
            &&& le32_at(b, at) == v[i].len()
            &&& b.subrange(at + 4, at + 4 + v[i].len()) == v[i]
        }),
    decreases v.len(),
{
    broadcast use crate::wire::group_le_len;

    let before = v.drop_last();
    let b = framed(v);
    let n = v.len() as int;
    lemma_stream_start(v, n - 1);
    lemma_framed_total(before);
    assert(framed(before).len() == stream_start(v, n - 1));
    if i < n - 1 {
        law_streams_places(before, i);
        lemma_stream_start(v, i);
        let at = stream_start(v, i);
        let a = framed(before);
        assert(b.subrange(at + 4, at + 4 + v[i].len()) =~= a.subrange(at + 4, at + 4 + v[i].len()));
        assert(b[at] == a[at] && b[at + 1] == a[at + 1] && b[at + 2] == a[at + 2] && b[at + 3] == a[at + 3]);
    } else {
        let at = stream_start(v, i);
        assert(b.subrange(at, at + 4) =~= le32(v[i].len() as int));
        law_le32(v[i].len() as int, b, at);
        assert(b.subrange(at + 4, at + 4 + v[i].len()) =~= v[i]);
    }
}

/// The start of a stream depends on those before it alone.
proof fn lemma_stream_start(v: Seq<Seq<u8>>, i: int)
    requires
        0 <= i < v.len(),
    ensures
        stream_start(v, i) == stream_start(v.drop_last(), i),
        stream_start(v, i) >= 0,
    decreases i,
{
    if i > 0 {
        lemma_stream_start(v, i - 1);
    }
}

proof fn lemma_framed_total(v: Seq<Seq<u8>>)
    ensures
        framed(v).len() == stream_start(v, v.len() as int),
    decreases v.len(),
{
    broadcast use crate::wire::group_le_len;

    if v.len() > 0 {
        lemma_framed_total(v.drop_last());
        lemma_stream_start(v, v.len() - 1);
    }
}

/// The first bytes of a packet tell how it was coded: 3 and the DC shift where
/// DC precision is reduced; then 1 for a progressive or 2 for an interlaced
/// frame, the quality in force, and the number of slices, of which the low
/// eight bits are kept. Behind them stand the DC streams of all slices from top
/// to bottom, and behind those the AC streams.
pub proof fn law_packet_layout(st: EncoderState, f: Frame)
    requires
        st.layout.wf(),
        st.params.dc_shift <= 15,
        0 <= st.quality.0 <= 255,
    ensures
        ({
            let b = st.packet(f);
            let shift = st.params.dc_shift as int;
            let at = if shift > 0 {
                2int
            } else {
                0
            };
            let (n, depth, m) = (plane_count(f.format), depth_of(f.format), encode_matrix(st.quality.1));
            let dc = framed(dc_streams(st.planes_for(f), st.layout, n, depth, m, shift as nat));
            let ac = framed(ac_streams(st.planes_for(f), st.layout, n, depth, m, shift as nat));
            &&& shift > 0 ==> b[0] == 3 && b[1] == shift
            &&& b[at] == (if f.interlaced && (st.layout.height == 480 || st.layout.height == 576 || st.layout.height
                == 1080) {
                2u8
            } else {
                1
            })
            &&& b[at + 1] == st.quality.0
            &&& b[at + 2] == st.layout.slices % 256
            &&& b.skip(at + 3) == dc + ac
        }),
{
    let b = st.packet(f);
    let shift = st.params.dc_shift as int;
    let at = if shift > 0 {
        2int
    } else {
        0
    };
    let (n, depth, m) = (plane_count(f.format), depth_of(f.format), encode_matrix(st.quality.1));
    let dc = framed(dc_streams(st.planes_for(f), st.layout, n, depth, m, shift as nat));
    let ac = framed(ac_streams(st.planes_for(f), st.layout, n, depth, m, shift as nat));
    let h = header_of(st.layout, st.coded_interlaced(f), st.quality.0, shift);
    assert(h.len() == at + 3);
    assert(b == h + dc + ac);
    assert(b.skip(at + 3) =~= dc + ac);
}

/// The coefficients of a block are coded diagonal by diagonal, from the mean to
/// the finest: upwards along the even diagonals, downwards along the odd.
pub proof fn law_diagonal_order(n: int)
    requires
        0 <= n < 63,
    ensures
        ZIGZAG@[0] == 0,
        ({
            let (a, b) = (ZIGZAG@[n] as int, ZIGZAG@[n + 1] as int);
            let (y, x) = (a / 8, a % 8);
            let (v, u) = (b / 8, b % 8);
            let up = (y + x) % 2 == 0;
            &&& v + u == y + x || v + u == y + x + 1
            &&& v + u == y + x ==> v == y + (if up {
                -1int
            } else {
                1
            })
            &&& v + u == y + x + 1 ==> (if up {
                y == 0 || x == 7
            } else {
                x == 0 || y == 7
            })
            &&& v + u == y + x + 1 ==> (if up {
                v == 0 || u == 7
            } else {
                u == 0 || v == 7
            })
        }),
{
}

} // verus!
