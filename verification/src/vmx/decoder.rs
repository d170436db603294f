//! VMX decoder.

use super::bits::{BitReader, Corrupt};
use super::convert::{filled, plane_shape, planes_fit, planes_to_frame, stored, Planes, FILL16, FILL8};
use super::dct::{decode_matrix, grid, Depth, QuantTables};
use super::encoder::{all_presets, coding, depth_of, plane_count};
use super::error::Error;
use super::frame::{halved_format, plane_sizes_of, Frame, PixelFormat, Plane};
use super::layout::{
    framed, lemma_framed_len, parse, parse_of, preset_of, quality_preset, Container, ContainerView,
    Layout,
};
use super::slice::{
    block_count, decode_plane, decode_plane_preview, level_shift, level_shift_of, painted, preview_rows,
    read_blocks, read_dcs,
};
use super::tables::QUALITY_COUNT;
use vstd::prelude::*;

verus! {

broadcast use crate::wire::group_le_len;

/// Facts about a compressed frame read from its header.
#[derive(Clone, Copy, Debug, PartialEq, Eq, Structural)]
pub struct FrameInfo {
    /// Quality the frame was coded with.
    pub quality: i32,
    /// DC precision reduction (0 = full 11-bit DC).
    pub dc_shift: u32,
    /// Field-coded frame.
    pub interlaced: bool,
    /// `false` for a DC-only (preview) frame.
    pub has_ac: bool,
}

// ---------------------------------------------------------------------------
// Slices
// ---------------------------------------------------------------------------

/// The planes and the stream positions after reading some planes of a slice.
pub struct SliceState {
    pub planes: Seq<Seq<Seq<u16>>>,
    pub dc: int,
    pub ac: int,
}

/// Reads the first `n` planes of slice `s` into `pl`.
pub open spec fn slice_read(
    pl: Seq<Seq<Seq<u16>>>,
    l: Layout,
    s: int,
    n: int,
    depth: Depth,
    matrix: Seq<u16>,
    dc_shift: nat,
    dcd: Seq<u8>,
    acd: Seq<u8>,
) -> Option<SliceState>
    decreases n,
{
    if n <= 0 {
        Some(SliceState { planes: pl, dc: 0, ac: 0 })
    } else {
        match slice_read(pl, l, s, n - 1, depth, matrix, dc_shift, dcd, acd) {
            Some(st) => {
                let p = n - 1;
                let stride = l.stride_of(p);
                match read_blocks(dcd, acd, st.dc, st.ac, dc_shift, block_count(stride) as nat) {
                    Some(b) => Some(
                        SliceState {
                            planes: st.planes.update(
                                p,
                                painted(
                                    st.planes[p],
                                    16 * s,
                                    stride,
                                    coding(p, depth, dc_shift),
                                    matrix,
                                    b.blocks,
                                    b.coded,
                                ),
                            ),
                            dc: (b.dc + 7) / 8 * 8,
                            ac: (b.ac + 7) / 8 * 8,
                        },
                    ),
                    None => None,
                }
            },
            None => None,
        }
    }
}

/// The planes after the first `k` slices of a compressed frame.
pub open spec fn slices_read(
    l: Layout,
    c: ContainerView,
    n: int,
    depth: Depth,
    matrix: Seq<u16>,
    k: int,
) -> Option<Seq<Seq<Seq<u16>>>>
    decreases k,
{
    if k <= 0 {
        Some(
            filled(
                l,
                match depth {
                    Depth::Eight => FILL8@,
                    Depth::Ten => FILL16@,
                },
            ),
        )
    } else {
        match slices_read(l, c, n, depth, matrix, k - 1) {
            Some(pl) => match slice_read(
                pl,
                l,
                k - 1,
                n,
                depth,
                matrix,
                c.dc_shift as nat,
                c.dc[k - 1],
                c.ac[k - 1],
            ) {
                Some(st) => Some(st.planes),
                None => None,
            },
            None => None,
        }
    }
}

proof fn lemma_slices_stuck(
    l: Layout,
    c: ContainerView,
    n: int,
    depth: Depth,
    matrix: Seq<u16>,
    k: int,
    m: int,
)
    requires
        0 < k <= m,
        slices_read(l, c, n, depth, matrix, k) is None,
    ensures
        slices_read(l, c, n, depth, matrix, m) is None,
    decreases m,
{
    if k < m {
        lemma_slices_stuck(l, c, n, depth, matrix, k, m - 1);
    }
}

proof fn lemma_slice_stuck(
    pl: Seq<Seq<Seq<u16>>>,
    l: Layout,
    s: int,
    depth: Depth,
    matrix: Seq<u16>,
    dc_shift: nat,
    dcd: Seq<u8>,
    acd: Seq<u8>,
    k: int,
    n: int,
)
    requires
        0 < k <= n,
        slice_read(pl, l, s, k, depth, matrix, dc_shift, dcd, acd) is None,
    ensures
        slice_read(pl, l, s, n, depth, matrix, dc_shift, dcd, acd) is None,
    decreases n,
{
    if k < n {
        lemma_slice_stuck(pl, l, s, depth, matrix, dc_shift, dcd, acd, k, n - 1);
    }
}

/// Decodes plane `p` of one slice.
fn decode_slice_plane(
    pl: &mut Planes,
    l: &Layout,
    s: usize,
    p: usize,
    depth: Depth,
    dc: &mut BitReader,
    ac: &mut BitReader,
    matrix: &[u16; 64],
    dc_shift: u32,
) -> (r: Result<(), Corrupt>)
    requires
        l.wf(),
        planes_fit(old(pl)@, *l),
        s < l.slices,
        p < 4,
        dc_shift <= 15,
        old(dc).at() < 0x0010_0000_0000_0000,
        old(ac).at() < 0x0010_0000_0000_0000,
    ensures
        planes_fit(final(pl)@, *l),
        final(dc).data() == old(dc).data(),
        final(ac).data() == old(ac).data(),
        final(dc).at() <= old(dc).at() + 0x20_0000_0000,
        final(ac).at() <= old(ac).at() + 0x20_0000_0000,
        match read_blocks(
            old(dc).data(),
            old(ac).data(),
            old(dc).at(),
            old(ac).at(),
            dc_shift as nat,
            block_count(l.stride_of(p as int)) as nat,
        ) {
            Some(b) => {
                &&& r is Ok
                &&& final(pl)@ == old(pl)@.update(
                    p as int,
                    painted(
                        old(pl)@[p as int],
                        16 * s as int,
                        l.stride_of(p as int),
                        coding(p as int, depth, dc_shift as nat),
                        matrix@,
                        b.blocks,
                        b.coded,
                    ),
                )
                &&& final(dc).at() == (b.dc + 7) / 8 * 8
                &&& final(ac).at() == (b.ac + 7) / 8 * 8
            },
            None => r is Err,
        },
{
    assert(l.strides@[p as int] == l.stride_of(p as int));
    let stride: usize = l.strides[p];
    let shift: i16 = level_shift(p, depth);
    let ghost before = pl@;
    proof {
        assert(before[p as int] == grid(pl.rows@[p as int]@));
        assert(plane_shape(before[p as int], *l, p as int));
    }
    let got: Result<(), Corrupt> = decode_plane(
        &mut pl.rows[p],
        16 * s,
        stride,
        depth,
        shift,
        matrix,
        dc_shift,
        dc,
        ac,
    );
    proof {
        assert(pl@ =~= before.update(p as int, grid(pl.rows@[p as int]@)));
        assert(plane_shape(pl@[p as int], *l, p as int));
    }
    got
}

/// Decodes one slice. Slices are independent of each other.
pub fn decode_one_slice(
    pl: &mut Planes,
    l: &Layout,
    s: usize,
    nplanes: usize,
    depth: Depth,
    dc: &[u8],
    ac: &[u8],
    matrix: &[u16; 64],
    dc_shift: u32,
) -> (r: Result<(), Error>)
    requires
        l.wf(),
        planes_fit(old(pl)@, *l),
        s < l.slices,
        nplanes <= 4,
        dc_shift <= 15,
    ensures
        planes_fit(final(pl)@, *l),
        match slice_read(
            old(pl)@,
            *l,
            s as int,
            nplanes as int,
            depth,
            matrix@,
            dc_shift as nat,
            dc@,
            ac@,
        ) {
            Some(st) => r is Ok && final(pl)@ == st.planes,
            None => r == Err::<(), Error>(Error::InvalidBitstream("corrupt slice stream")),
        },
{
    let ghost v0 = pl@;
    let ghost (dcd, acd) = (dc@, ac@);
    let mut dcr: BitReader = BitReader::new(dc);
    let mut acr: BitReader = BitReader::new(ac);
    let mut p: usize = 0;
    while p < nplanes
        invariant
            p <= nplanes <= 4,
            l.wf(),
            v0 == old(pl)@,
            planes_fit(pl@, *l),
            s < l.slices,
            dc_shift <= 15,
            dcd == dc@,
            acd == ac@,
            dcr.data() == dcd,
            acr.data() == acd,
            dcr.at() <= p * 0x20_0000_0000,
            acr.at() <= p * 0x20_0000_0000,
            slice_read(
                v0,
                *l,
                s as int,
                p as int,
                depth,
                matrix@,
                dc_shift as nat,
                dcd,
                acd,
            ) == Some(SliceState { planes: pl@, dc: dcr.at(), ac: acr.at() }),
        decreases nplanes - p,
    {
        let got: Result<(), Corrupt> = decode_slice_plane(
            pl,
            l,
            s,
            p,
            depth,
            &mut dcr,
            &mut acr,
            matrix,
            dc_shift,
        );
        match got {
            Ok(()) => {},
            Err(_) => {
                proof {
                    lemma_slice_stuck(
                        v0,
                        *l,
                        s as int,
                        depth,
                        matrix@,
                        dc_shift as nat,
                        dcd,
                        acd,
                        p + 1,
                        nplanes as int,
                    );
                }
                return Err(Error::InvalidBitstream("corrupt slice stream"));
            },
        }
        p = p + 1;
    }
    Ok(())
}

/// Decodes every slice.
fn decode_slices(
    pl: &mut Planes,
    l: &Layout,
    c: &Container,
    nplanes: usize,
    depth: Depth,
    matrix: &[u16; 64],
) -> (r: Result<(), Error>)
    requires
        l.wf(),
        Some(old(pl)@) == slices_read(*l, c@, nplanes as int, depth, matrix@, 0),
        planes_fit(old(pl)@, *l),
        c.dc@.len() == l.slices,
        c.ac@.len() == l.slices,
        c.dc_shift <= 15,
        nplanes <= 4,
    ensures
        planes_fit(final(pl)@, *l),
        match slices_read(*l, c@, nplanes as int, depth, matrix@, l.slices as int) {
            Some(v) => r is Ok && final(pl)@ == v,
            None => r == Err::<(), Error>(Error::InvalidBitstream("corrupt slice stream")),
        },
{
    let mut s: usize = 0;
    while s < l.slices
        invariant
            s <= l.slices,
            l.wf(),
            planes_fit(pl@, *l),
            c.dc@.len() == l.slices,
            c.ac@.len() == l.slices,
            c.dc_shift <= 15,
            nplanes <= 4,
            slices_read(*l, c@, nplanes as int, depth, matrix@, s as int) == Some(pl@),
        decreases l.slices - s,
    {
        assert(c@.dc[s as int] == c.dc@[s as int]@);
        assert(c@.ac[s as int] == c.ac@[s as int]@);
        match decode_one_slice(pl, l, s, nplanes, depth, c.dc[s], c.ac[s], matrix, c.dc_shift) {
            Ok(()) => {},
            Err(e) => {
                proof {
                    lemma_slices_stuck(
                        *l,
                        c@,
                        nplanes as int,
                        depth,
                        matrix@,
                        s + 1,
                        l.slices as int,
                    );
                }
                return Err(e);
            },
        }
        s = s + 1;
    }
    Ok(())
}

// ---------------------------------------------------------------------------
// Preview
// ---------------------------------------------------------------------------

/// The preview rows of the first `n` planes of a slice and the position after
/// them.
pub open spec fn preview_slice(l: Layout, dcd: Seq<u8>, dc_shift: nat, n: int) -> Option<
    (Seq<(Seq<u8>, Seq<u8>)>, int),
>
    decreases n,
{
    if n <= 0 {
        Some((Seq::empty(), 0))
    } else {
        match preview_slice(l, dcd, dc_shift, n - 1) {
            Some((rows, pos)) => {
                let stride = l.stride_of(n - 1);
                match read_dcs(dcd, pos, dc_shift, block_count(stride) as nat) {
                    Some((values, p)) => Some(
                        (
                            rows.push(
                                preview_rows(values, stride, level_shift_of(n - 1, Depth::Eight)),
                            ),
                            (p + 7) / 8 * 8,
                        ),
                    ),
                    None => None,
                }
            },
            None => None,
        }
    }
}

/// Every slice has a readable preview.
pub open spec fn preview_readable(l: Layout, c: ContainerView, n: int) -> bool {
    forall|s: int|
        0 <= s < c.dc.len() ==> #[trigger] preview_slice(l, c.dc[s], c.dc_shift as nat, n) is Some
}

/// The preview row that row `y` of the preview image shows.
pub open spec fn preview_row_of(l: Layout, interlaced: bool, y: int) -> int {
    if !interlaced {
        y
    } else if y % 2 == 0 {
        y / 2
    } else {
        l.aligned_height as int / 16 + y / 2
    }
}

/// Sample (`y`, `x`) of plane `p` of the preview image. The image may be one
/// sample wider than the blocks: the fill value stands there.
pub open spec fn preview_at(l: Layout, c: ContainerView, n: int, p: int, y: int, x: int) -> u8 {
    let r = preview_row_of(l, c.interlaced, y);
    let rows = preview_slice(l, c.dc[r / 2], c.dc_shift as nat, n)->Some_0.0[p];
    if x < l.stride_of(p) / 8 {
        if r % 2 == 0 {
            rows.0[x]
        } else {
            rows.1[x]
        }
    } else {
        FILL8@[p] as u8
    }
}

/// The samples of plane `p` of the preview image, `w` by `h`.
pub open spec fn preview_plane_of(l: Layout, c: ContainerView, n: int, p: int, w: int, h: int) -> Seq<
    u8,
> {
    Seq::new((w * h) as nat, |i: int| preview_at(l, c, n, p, i / w, i % w))
}

/// `f` is the preview of a parsed frame.
pub open spec fn is_preview_of(f: Frame, l: Layout, c: ContainerView, alpha: bool) -> bool {
    let (w, h) = l.preview_size_of(c.interlaced);
    let n = if alpha {
        4int
    } else {
        3
    };
    let format = if alpha {
        PixelFormat::Yuva422p
    } else {
        PixelFormat::Yuv422p
    };
    &&& f.width == w
    &&& f.height == h
    &&& f.format == format
    &&& f.interlaced == c.interlaced
    &&& f.planes@.len() == n
    &&& forall|p: int|
        0 <= p < n ==> {
            let pw = plane_sizes_of(format, w, h)[p].0;
            &&& (#[trigger] f.planes@[p]).stride == pw
            &&& f.planes@[p].data@ == preview_plane_of(l, c, n, p, pw, h)
        }
}

/// The two preview rows of each plane of one slice.
fn read_preview_slice(l: &Layout, dc: &[u8], dc_shift: u32, n: usize) -> (r: Option<
    Vec<(Vec<u8>, Vec<u8>)>,
>)
    requires
        l.wf(),
        n <= 4,
        dc_shift <= 15,
    ensures
        match preview_slice(*l, dc@, dc_shift as nat, n as int) {
            Some((rows, _)) => {
                &&& r is Some
                &&& r->0@.len() == n
                &&& rows.len() == n
                &&& forall|p: int|
                    0 <= p < n ==> (#[trigger] r->0@[p]).0@ == rows[p].0 && r->0@[p].1@ == rows[p].1
                &&& forall|p: int|
                    0 <= p < n ==> (#[trigger] rows[p]).0.len() == l.stride_of(p) / 8
                        && rows[p].1.len() == l.stride_of(p) / 8
            },
            None => r is None,
        },
{
    let ghost dcd = dc@;
    let mut reader: BitReader = BitReader::new(dc);
    let mut out: Vec<(Vec<u8>, Vec<u8>)> = Vec::new();
    let mut p: usize = 0;
    let ghost mut rows = Seq::<(Seq<u8>, Seq<u8>)>::empty();
    while p < n
        invariant
            p <= n <= 4,
            l.wf(),
            dc_shift <= 15,
            dcd == dc@,
            reader.data() == dcd,
            reader.at() <= p * 0x20_0000_0000,
            out@.len() == p,
            rows.len() == p,
            preview_slice(*l, dcd, dc_shift as nat, p as int) == Some((rows, reader.at())),
            forall|i: int|
                0 <= i < p ==> (#[trigger] out@[i]).0@ == rows[i].0 && out@[i].1@ == rows[i].1,
            forall|i: int|
                0 <= i < p ==> (#[trigger] rows[i]).0.len() == l.stride_of(i) / 8
                    && rows[i].1.len() == l.stride_of(i) / 8,
        decreases n - p,
    {
        assert(l.strides@[p as int] == l.stride_of(p as int));
        let stride: usize = l.strides[p];
        let shift: i16 = level_shift(p, Depth::Eight);
        match decode_plane_preview(stride, shift, dc_shift, &mut reader) {
            Ok(pair) => {
                proof {
                    rows = rows.push((pair.0@, pair.1@));
                }
                out.push(pair);
            },
            Err(_) => {
                proof {
                    lemma_preview_stuck(*l, dcd, dc_shift as nat, p + 1, n as int);
                }
                return None;
            },
        }
        p = p + 1;
    }
    Some(out)
}

proof fn lemma_preview_stuck(l: Layout, dcd: Seq<u8>, dc_shift: nat, k: int, n: int)
    requires
        0 < k <= n,
        preview_slice(l, dcd, dc_shift, k) is None,
    ensures
        preview_slice(l, dcd, dc_shift, n) is None,
    decreases n,
{
    if k < n {
        lemma_preview_stuck(l, dcd, dc_shift, k, n - 1);
    }
}

/// `rows` are the preview rows of the slices read so far.
spec fn rows_match(
    l: Layout,
    c: ContainerView,
    n: int,
    rows: Seq<Vec<(Vec<u8>, Vec<u8>)>>,
    k: int,
) -> bool {
    &&& rows.len() == k
    &&& forall|s: int| 0 <= s < k ==> slice_rows_match(l, c, n, #[trigger] rows[s], s)
}

spec fn slice_rows_match(
    l: Layout,
    c: ContainerView,
    n: int,
    v: Vec<(Vec<u8>, Vec<u8>)>,
    s: int,
) -> bool {
    let want = preview_slice(l, c.dc[s], c.dc_shift as nat, n);
    &&& want is Some
    &&& v@.len() == n
    &&& want->Some_0.0.len() == n
    &&& forall|p: int|
        0 <= p < n ==> (#[trigger] v@[p]).0@ == want->Some_0.0[p].0 && v@[p].1@ == want->Some_0.0[p].1
    &&& forall|p: int|
        0 <= p < n ==> (#[trigger] want->Some_0.0[p]).0.len() == l.stride_of(p) / 8
            && want->Some_0.0[p].1.len() == l.stride_of(p) / 8
}

/// The preview rows of every slice.
fn read_preview(l: &Layout, c: &Container, n: usize) -> (r: Option<Vec<Vec<(Vec<u8>, Vec<u8>)>>>)
    requires
        l.wf(),
        n <= 4,
        c.dc_shift <= 15,
        c.dc@.len() == l.slices,
    ensures
        match r {
            Some(v) => preview_readable(*l, c@, n as int) && rows_match(
                *l,
                c@,
                n as int,
                v@,
                l.slices as int,
            ),
            None => !preview_readable(*l, c@, n as int),
        },
{
    let mut out: Vec<Vec<(Vec<u8>, Vec<u8>)>> = Vec::new();
    let mut s: usize = 0;
    while s < l.slices
        invariant
            s <= l.slices,
            l.wf(),
            n <= 4,
            c.dc_shift <= 15,
            c.dc@.len() == l.slices,
            rows_match(*l, c@, n as int, out@, s as int),
        decreases l.slices - s,
    {
        assert(c@.dc[s as int] == c.dc@[s as int]@);
        match read_preview_slice(l, c.dc[s], c.dc_shift, n) {
            Some(v) => {
                assert(slice_rows_match(*l, c@, n as int, v, s as int));
                out.push(v);
            },
            None => {
                assert(preview_slice(*l, c@.dc[s as int], c@.dc_shift as nat, n as int) is None);
                return None;
            },
        }
        s = s + 1;
    }
    proof {
        assert forall|k: int| 0 <= k < c@.dc.len() implies #[trigger] preview_slice(
            *l,
            c@.dc[k],
            c@.dc_shift as nat,
            n as int,
        ) is Some by {
            assert(slice_rows_match(*l, c@, n as int, out@[k], k));
        }
    }
    Some(out)
}

proof fn lemma_row_index(y: int, x: int, w: int)
    requires
        0 <= x < w,
        0 <= y,
    ensures
        (y * w + x) / w == y,
        (y * w + x) % w == x,
{
    vstd::arithmetic::div_mod::lemma_fundamental_div_mod_converse(y * w + x, w, y, x);
}

/// The samples of plane `p` of the preview image.
fn preview_plane(
    l: &Layout,
    rows: &Vec<Vec<(Vec<u8>, Vec<u8>)>>,
    interlaced: bool,
    p: usize,
    w: usize,
    h: usize,
    Ghost(c): Ghost<ContainerView>,
    Ghost(n): Ghost<int>,
) -> (r: Vec<u8>)
    requires
        l.wf(),
        p < n <= 4,
        c.interlaced == interlaced,
        interlaced ==> l.interlaceable(),
        rows_match(*l, c, n, rows@, l.slices as int),
        h == l.preview_size_of(interlaced).1,
        0 < w,
        w * h <= usize::MAX,
    ensures
        r@ == preview_plane_of(*l, c, n, p as int, w as int, h as int),
{
    assert(l.strides@[p as int] == l.stride_of(p as int));
    let ps: usize = l.strides[p] / 8;
    let fill: u8 = FILL8[p] as u8;
    let mut out: Vec<u8> = Vec::new();
    let mut y: usize = 0;
    assert(0int * (w as int) == 0);
    while y < h
        invariant
            y <= h,
            l.wf(),
            p < n <= 4,
            ps == l.stride_of(p as int) / 8,
            fill == FILL8@[p as int] as u8,
            c.interlaced == interlaced,
            interlaced ==> l.interlaceable(),
            rows_match(*l, c, n, rows@, l.slices as int),
            h == l.preview_size_of(interlaced).1,
            0 < w,
            out@.len() == y * w,
            forall|i: int|
                0 <= i < out@.len() ==> #[trigger] out@[i] == preview_at(
                    *l,
                    c,
                    n,
                    p as int,
                    i / w as int,
                    i % w as int,
                ),
        decreases h - y,
    {
        let r: usize = if !interlaced {
            y
        } else if y % 2 == 0 {
            y / 2
        } else {
            l.aligned_height / 16 + y / 2
        };
        assert(r == preview_row_of(*l, interlaced, y as int));
        assert(r / 2 < l.slices);
        assert(slice_rows_match(*l, c, n, rows@[r as int / 2], r as int / 2));
        let pair: &(Vec<u8>, Vec<u8>) = &rows[r / 2][p];
        let mut x: usize = 0;
        while x < w
            invariant
                x <= w,
                y < h,
                0 < w,
                p < n <= 4,
                ps == l.stride_of(p as int) / 8,
                fill == FILL8@[p as int] as u8,
                c.interlaced == interlaced,
                r == preview_row_of(*l, interlaced, y as int),
                ({
                    let want = preview_slice(*l, c.dc[r as int / 2], c.dc_shift as nat, n)->Some_0.0[p as int];
                    pair.0@ == want.0 && pair.1@ == want.1 && want.0.len() == ps && want.1.len() == ps
                }),
                out@.len() == y * w + x,
                forall|i: int|
                    0 <= i < out@.len() ==> #[trigger] out@[i] == preview_at(
                        *l,
                        c,
                        n,
                        p as int,
                        i / w as int,
                        i % w as int,
                    ),
            decreases w - x,
        {
            proof {
                lemma_row_index(y as int, x as int, w as int);
            }
            let v: u8 = if x < ps {
                if r % 2 == 0 {
                    pair.0[x]
                } else {
                    pair.1[x]
                }
            } else {
                fill
            };
            out.push(v);
            x = x + 1;
        }
        assert(y * w + w == (y + 1) * w) by (nonlinear_arith);
        y = y + 1;
    }
    assert(w * h == y * w) by (nonlinear_arith)
        requires
            y == h,
    ;
    assert(out@ =~= preview_plane_of(*l, c, n, p as int, w as int, h as int));
    out
}

// ---------------------------------------------------------------------------
// Decoder
// ---------------------------------------------------------------------------

/// Decompresses VMX frames of one fixed size.
///
/// The VMX bitstream records neither the frame size, the bit depth nor
/// whether an alpha plane is present; the transport carries those. Pick the
/// output [`PixelFormat`] accordingly: `P216`/`Pa16` select the 10-bit path,
/// formats with alpha decode the fourth plane.
pub struct Decoder {
    layout: Layout,
    presets: Vec<QuantTables>,
    threads: usize,
}

/// The planes of a parsed frame, or `None` where a slice is corrupt.
pub open spec fn decoded_planes(l: Layout, c: ContainerView, format: PixelFormat) -> Option<
    Seq<Seq<Seq<u16>>>,
> {
    slices_read(
        l,
        c,
        plane_count(format),
        depth_of(format),
        decode_matrix(preset_of(c.quality).1),
        l.slices as int,
    )
}

/// Why a compressed frame cannot be decoded into `out`.
pub open spec fn decode_refused(l: Layout, data: Seq<u8>, out: Frame) -> Option<Error> {
    if out.width != l.width || out.height != l.height {
        Some(Error::FrameSizeMismatch)
    } else if halved_format(out.format) {
        Some(Error::Unsupported("decoding to 4:2:0"))
    } else if out.fault() is Some {
        out.fault()
    } else {
        match parse_of(l, data) {
            Err(e) => Some(e),
            Ok(c) => if c.ac.len() == 0 {
                Some(Error::InvalidBitstream("frame has no AC data (preview only)"))
            } else if decoded_planes(l, c, out.format) is None {
                Some(Error::InvalidBitstream("corrupt slice stream"))
            } else {
                None
            },
        }
    }
}

/// `g` is `f` with a compressed frame decoded into it.
pub open spec fn decoded_into(l: Layout, data: Seq<u8>, f: Frame, g: Frame) -> bool {
    let c = parse_of(l, data)->Ok_0;
    &&& g.interlaced == c.interlaced
    &&& stored(
        f,
        l,
        c.interlaced,
        decoded_planes(l, c, f.format)->0,
        (Frame { interlaced: f.interlaced, ..g }),
    )
}

impl Decoder {
    /// The geometry.
    pub closed spec fn layout(self) -> Layout {
        self.layout
    }

    /// Worker threads that the caller would like to spend on a frame.
    pub closed spec fn threads(self) -> usize {
        self.threads
    }

    /// The tables are complete.
    pub closed spec fn wf(self) -> bool {
        &&& self.layout.wf()
        &&& self.presets@.len() == QUALITY_COUNT
        &&& forall|i: int| 0 <= i < QUALITY_COUNT ==> (#[trigger] self.presets@[i]).of_preset(i)
    }

    /// Creates a decoder for `width` x `height` frames.
    pub fn new(width: usize, height: usize) -> (r: Result<Self, Error>)
        ensures
            match r {
                Ok(d) => {
                    &&& d.wf()
                    &&& d.layout().wf()
                    &&& d.layout().width == width
                    &&& d.layout().height == height
                    &&& d.threads() == 1
                },
                Err(e) => {
                    &&& !super::layout::codable(width as int, height as int)
                    &&& e == (Error::InvalidDimensions { width, height })
                },
            },
    {
        match Layout::new(width, height) {
            Ok(layout) => Ok(Decoder { layout, presets: all_presets(), threads: 1 }),
            Err(e) => Err(e),
        }
    }

    /// Sets the number of worker threads for slice-parallel decoding.
    pub fn set_threads(&mut self, threads: usize)
        requires
            old(self).wf(),
        ensures
            final(self).wf(),
            final(self).layout() == old(self).layout(),
            final(self).threads() == if threads == 0 {
                1
            } else {
                threads
            },
    {
        self.threads = if threads == 0 {
            1
        } else {
            threads
        };
    }

    /// Reads the header of a compressed frame without decoding it.
    pub fn info(&self, data: &[u8]) -> (r: Result<FrameInfo, Error>)
        requires
            self.wf(),
        ensures
            match parse_of(self.layout(), data@) {
                Ok(c) => {
                    &&& r is Ok
                    &&& r->Ok_0.quality == preset_of(c.quality).0
                    &&& r->Ok_0.dc_shift == c.dc_shift
                    &&& r->Ok_0.interlaced == c.interlaced
                    &&& r->Ok_0.has_ac == (c.ac.len() > 0)
                },
                Err(e) => r == Err::<FrameInfo, Error>(e),
            },
    {
        match parse(&self.layout, data) {
            Ok(c) => Ok(
                FrameInfo {
                    quality: quality_preset(c.quality).0,
                    dc_shift: c.dc_shift,
                    interlaced: c.interlaced,
                    has_ac: c.ac.len() > 0,
                },
            ),
            Err(e) => Err(e),
        }
    }

    /// Length of the DC-only prefix of `data` that [`Decoder::decode_preview`]
    /// needs: the header that the stream has and the DC streams.
    pub fn preview_len(&self, data: &[u8]) -> (r: Result<usize, Error>)
        requires
            self.wf(),
        ensures
            match parse_of(self.layout(), data@) {
                Ok(c) => {
                    &&& r is Ok
                    &&& r->Ok_0 == c.header_len + framed(c.dc).len()
                    &&& r->Ok_0 <= data@.len()
                },
                Err(e) => r == Err::<usize, Error>(e),
            },
    {
        let c: Container = match parse(&self.layout, data) {
            Ok(c) => c,
            Err(e) => {
                return Err(e);
            },
        };
        let ghost all = c@.dc;
        proof {
            law_preview_prefix(self.layout, data@);
        }
        let mut n: usize = c.header_len;
        let mut i: usize = 0;
        assert(all.take(0) =~= Seq::empty());
        while i < c.dc.len()
            invariant
                i <= c.dc@.len(),
                all == c@.dc,
                n == c.header_len + framed(all.take(i as int)).len(),
                c.header_len + framed(all).len() <= data.len(),
            decreases c.dc@.len() - i,
        {
            proof {
                assert(all.take(i + 1).drop_last() =~= all.take(i as int));
                assert(all[i as int] == c.dc@[i as int]@);
                lemma_framed_prefix(all, i + 1);
            }
            n = n + (c.dc[i].len() + 4);
            i = i + 1;
        }
        assert(all.take(i as int) =~= all);
        Ok(n)
    }

    /// Decodes a frame into a newly allocated, tightly packed frame.
    pub fn decode(&mut self, data: &[u8], format: PixelFormat) -> (r: Result<Frame, Error>)
        requires
            old(self).wf(),
        ensures
            *final(self) == *old(self),
            exists|blank: Frame|
                {
                    &&& #[trigger] blank.is_blank(
                        old(self).layout().width as int,
                        old(self).layout().height as int,
                        format,
                    )
                    &&& match decode_refused(old(self).layout(), data@, blank) {
                        Some(e) => r == Err::<Frame, Error>(e),
                        None => r is Ok && decoded_into(
                            old(self).layout(),
                            data@,
                            blank,
                            r->Ok_0,
                        ),
                    }
                },
    {
        proof {
            assert(2 * self.layout.width * self.layout.height <= usize::MAX) by (nonlinear_arith)
                requires
                    self.layout.width <= 7680,
                    self.layout.height <= 4320,
            ;
        }
        let mut f: Frame = Frame::new(self.layout.width, self.layout.height, format);
        let ghost blank = f;
        assert(blank.is_blank(self.layout.width as int, self.layout.height as int, format));
        match self.decode_into(data, &mut f) {
            Ok(()) => Ok(f),
            Err(e) => Err(e),
        }
    }

    /// Decodes a frame into `out`, whose size and format must already be set
    /// (its strides are respected). Sets `out.interlaced` from the header.
    pub fn decode_into(&mut self, data: &[u8], out: &mut Frame) -> (r: Result<(), Error>)
        requires
            old(self).wf(),
        ensures
            *final(self) == *old(self),
            match decode_refused(old(self).layout(), data@, *old(out)) {
                Some(e) => r == Err::<(), Error>(e) && *final(out) == *old(out),
                None => r is Ok && decoded_into(
                    old(self).layout(),
                    data@,
                    *old(out),
                    *final(out),
                ),
            },
    {
        let l: Layout = self.layout;
        if out.width != l.width || out.height != l.height {
            return Err(Error::FrameSizeMismatch);
        }
        if !out.format.can_decode() {
            return Err(Error::Unsupported("decoding to 4:2:0"));
        }
        match out.validate() {
            Ok(()) => {},
            Err(e) => {
                return Err(e);
            },
        }
        let c: Container = match parse(&l, data) {
            Ok(c) => c,
            Err(e) => {
                return Err(e);
            },
        };
        if c.ac.len() == 0 {
            return Err(Error::InvalidBitstream("frame has no AC data (preview only)"));
        }
        let (_, idx): (i32, usize) = quality_preset(c.quality);
        assert(self.presets@[idx as int].of_preset(idx as int));
        let n: usize = if out.format.has_alpha() {
            4
        } else {
            3
        };
        let depth: Depth = if out.format.is_10bit() {
            Depth::Ten
        } else {
            Depth::Eight
        };
        let mut pl: Planes = match depth {
            Depth::Eight => Planes::new(&l, &FILL8),
            Depth::Ten => Planes::new(&l, &FILL16),
        };
        match decode_slices(&mut pl, &l, &c, n, depth, &self.presets[idx].decode) {
            Ok(()) => {},
            Err(e) => {
                return Err(e);
            },
        }
        planes_to_frame(&pl, &l, c.interlaced, out);
        out.interlaced = c.interlaced;
        Ok(())
    }

    /// Decodes the DC-only preview at 1/8 scale as `Yuv422p` (or `Yuva422p`
    /// when `alpha` is set). Only the DC part of the frame is read, so a
    /// truncated frame of [`Decoder::preview_len`] bytes is enough.
    ///
    /// Preview width is `width / 8` rounded up to even, height `height / 8`
    /// (made even for interlaced frames).
    pub fn decode_preview(&mut self, data: &[u8], alpha: bool) -> (r: Result<Frame, Error>)
        requires
            old(self).wf(),
        ensures
            *final(self) == *old(self),
            match parse_of(old(self).layout(), data@) {
                Ok(c) => if preview_readable(
                    old(self).layout(),
                    c,
                    if alpha {
                        4
                    } else {
                        3
                    },
                ) {
                    r is Ok && is_preview_of(r->Ok_0, old(self).layout(), c, alpha)
                } else {
                    r == Err::<Frame, Error>(Error::InvalidBitstream("corrupt DC stream"))
                },
                Err(e) => r == Err::<Frame, Error>(e),
            },
    {
        let l: Layout = self.layout;
        let c: Container = match parse(&l, data) {
            Ok(c) => c,
            Err(e) => {
                return Err(e);
            },
        };
        let n: usize = if alpha {
            4
        } else {
            3
        };
        let rows: Vec<Vec<(Vec<u8>, Vec<u8>)>> = match read_preview(&l, &c, n) {
            Some(v) => v,
            None => {
                return Err(Error::InvalidBitstream("corrupt DC stream"));
            },
        };
        let (pw, ph): (usize, usize) = l.preview_size(c.interlaced);
        let format: PixelFormat = if alpha {
            PixelFormat::Yuva422p
        } else {
            PixelFormat::Yuv422p
        };
        let mut planes: Vec<Plane> = Vec::new();
        let mut p: usize = 0;
        while p < n
            invariant
                p <= n,
                n == if alpha {
                    4int
                } else {
                    3
                },
                l.wf(),
                format == if alpha {
                    PixelFormat::Yuva422p
                } else {
                    PixelFormat::Yuv422p
                },
                c.interlaced ==> l.interlaceable(),
                pw == l.preview_size_of(c.interlaced).0,
                ph == l.preview_size_of(c.interlaced).1,
                rows_match(l, c@, n as int, rows@, l.slices as int),
                planes@.len() == p,
                forall|i: int|
                    0 <= i < p ==> {
                        let w = plane_sizes_of(format, pw as int, ph as int)[i].0;
                        &&& (#[trigger] planes@[i]).stride == w
                        &&& planes@[i].data@ == preview_plane_of(l, c@, n as int, i, w, ph as int)
                    },
            decreases n - p,
        {
            let w: usize = if p == 1 || p == 2 {
                pw / 2
            } else {
                pw
            };
            proof {
                assert(w * ph <= usize::MAX) by (nonlinear_arith)
                    requires
                        w <= 1000,
                        ph <= 1000,
                ;
            }
            let data: Vec<u8> = preview_plane(
                &l,
                &rows,
                c.interlaced,
                p,
                w,
                ph,
                Ghost(c@),
                Ghost(n as int),
            );
            planes.push(Plane { data, stride: w });
            p = p + 1;
        }
        Ok(Frame { width: pw, height: ph, format, interlaced: c.interlaced, planes })
    }
}

/// A shorter list of streams takes no more bytes.
proof fn lemma_framed_prefix(v: Seq<Seq<u8>>, k: int)
    requires
        0 <= k <= v.len(),
    ensures
        framed(v.take(k)).len() <= framed(v).len(),
    decreases v.len() - k,
{
    if k == v.len() {
        assert(v.take(k) =~= v);
    } else {
        lemma_framed_prefix(v, k + 1);
        assert(v.take(k + 1).drop_last() =~= v.take(k));
    }
}

/// Where the streams end that were read from `pos` on.
proof fn lemma_streams_end(data: Seq<u8>, pos: int, n: nat, max: int)
    requires
        0 <= pos <= data.len(),
    ensures
        match super::layout::streams_at(data, pos, n, max) {
            Ok((v, p)) => v.len() == n && p == pos + framed(v).len() && p <= data.len(),
            Err(_) => true,
        },
    decreases n,
{
    if n > 0 {
        lemma_streams_end(data, pos, (n - 1) as nat, max);
        match super::layout::streams_at(data, pos, n, max) {
            Ok((v, p)) => {
                let before = super::layout::streams_at(data, pos, (n - 1) as nat, max)->Ok_0.0;
                assert(v.drop_last() =~= before);
            },
            Err(_) => {},
        }
    }
}

/// Reading streams does not look behind their end.
proof fn lemma_streams_prefix(data: Seq<u8>, m: int, pos: int, n: nat, max: int)
    requires
        0 <= pos <= m <= data.len(),
        super::layout::streams_at(data, pos, n, max) is Ok,
        super::layout::streams_at(data, pos, n, max)->Ok_0.1 <= m,
    ensures
        super::layout::streams_at(data.take(m), pos, n, max) == super::layout::streams_at(
            data,
            pos,
            n,
            max,
        ),
    decreases n,
{
    if n > 0 {
        lemma_streams_end(data, pos, (n - 1) as nat, max);
        let (v, p) = super::layout::streams_at(data, pos, (n - 1) as nat, max)->Ok_0;
        lemma_streams_prefix(data, m, pos, (n - 1) as nat, max);
        let len = crate::wire::le32_at(data, p);
        assert(data.take(m).subrange(p + 4, p + 4 + len) =~= data.subrange(p + 4, p + 4 + len));
    }
}

/// The preview part of a compressed frame stands alone: cut to its header and
/// DC streams, the frame parses to the same header and DC streams without the
/// AC part, so its preview is that of the whole frame.
pub proof fn law_preview_prefix(l: Layout, data: Seq<u8>)
    requires
        l.wf(),
    ensures
        match parse_of(l, data) {
            Ok(c) => {
                let n = c.header_len + framed(c.dc).len();
                &&& n <= data.len()
                &&& parse_of(l, data.take(n)) == Ok::<ContainerView, Error>(
                    (ContainerView { ac: Seq::empty(), ..c }),
                )
            },
            Err(_) => true,
        },
{
    match parse_of(l, data) {
        Ok(c) => {
            let h = c.header_len;
            let n = h + framed(c.dc).len();
            lemma_streams_end(data, h, l.slices as nat, l.dc_limit());
            lemma_framed_len(c.dc);
            lemma_streams_prefix(data, n, h, l.slices as nat, l.dc_limit());
        },
        Err(_) => {},
    }
}

/// The preview decoded from the prefix is the preview decoded from the whole
/// frame.
pub proof fn law_preview_of_prefix(l: Layout, data: Seq<u8>, alpha: bool, f: Frame)
    requires
        l.wf(),
        parse_of(l, data) is Ok,
    ensures
        ({
            let c = parse_of(l, data)->Ok_0;
            let n = c.header_len + framed(c.dc).len();
            let k = if alpha {
                4int
            } else {
                3
            };
            let cut = parse_of(l, data.take(n))->Ok_0;
            &&& parse_of(l, data.take(n)) is Ok
            &&& preview_readable(l, cut, k) == preview_readable(l, c, k)
            &&& is_preview_of(f, l, cut, alpha) == is_preview_of(f, l, c, alpha)
        }),
{
    law_preview_prefix(l, data);
    let c = parse_of(l, data)->Ok_0;
    let n = c.header_len + framed(c.dc).len();
    let cut = parse_of(l, data.take(n))->Ok_0;
    let k = if alpha {
        4int
    } else {
        3
    };
    let (w, h) = l.preview_size_of(c.interlaced);
    assert forall|p: int, pw: int| #[trigger]
        preview_plane_of(l, c, k, p, pw, h) == preview_plane_of(l, cut, k, p, pw, h) by {
        assert(preview_plane_of(l, c, k, p, pw, h) =~= preview_plane_of(l, cut, k, p, pw, h));
    }
}

} // verus!
