//! Frame geometry, quality presets and the compressed frame container.

use super::error::Error;
use super::tables::{QUALITY, QUALITY_COUNT, SLICE_HEIGHT};
use crate::wire::{law_le32, le32, le32_at, lemma_le32_wraps, put_u32, read_u32};
use vstd::prelude::*;
use vstd::slice::slice_subrange;

verus! {

broadcast use crate::wire::group_le_len;

pub const MIN_WIDTH: usize = 16;

pub const MIN_HEIGHT: usize = 16;

pub const MAX_WIDTH: usize = 7680;

pub const MAX_HEIGHT: usize = 4320;

/// Container format byte values.
pub const FORMAT_PROGRESSIVE: u8 = 1;

pub const FORMAT_INTERLACED: u8 = 2;

pub const FORMAT_EXTENDED: u8 = 3;

// ---------------------------------------------------------------------------
// Geometry
// ---------------------------------------------------------------------------

/// `v` rounded up to a multiple of `a`.
pub open spec fn aligned(v: int, a: int) -> int {
    (v + a - 1) / a * a
}

/// The frame sizes that can be coded.
pub open spec fn codable(width: int, height: int) -> bool {
    &&& MIN_WIDTH <= width <= MAX_WIDTH
    &&& MIN_HEIGHT <= height <= MAX_HEIGHT
    &&& width % 2 == 0
}

/// Internal plane geometry for one frame size.
#[derive(Clone, Copy, Debug)]
pub struct Layout {
    /// Width in pixels.
    pub width: usize,
    /// Height in pixels.
    pub height: usize,
    /// Height rounded up to whole slices.
    pub aligned_height: usize,
    /// Number of slices.
    pub slices: usize,
    /// Stride (in samples) of planes 0..4: Y, U, V, A.
    pub strides: [usize; 4],
}

impl Layout {
    /// Stride of plane `p`.
    pub open spec fn stride_of(self, p: int) -> int {
        if p == 1 || p == 2 {
            aligned(self.width as int / 2, 8)
        } else {
            aligned(self.width as int, 8)
        }
    }

    /// The geometry is that of a codable size.
    pub open spec fn wf(self) -> bool {
        &&& codable(self.width as int, self.height as int)
        &&& self.aligned_height == aligned(self.height as int, 16)
        &&& self.slices == self.aligned_height / 16
        &&& forall|p: int| 0 <= p < 4 ==> #[trigger] self.strides@[p] == self.stride_of(p)
    }

    /// The geometry of a `width` x `height` frame.
    pub fn new(width: usize, height: usize) -> (r: Result<Self, Error>)
        ensures
            match r {
                Ok(l) => {
                    &&& codable(width as int, height as int)
                    &&& l.wf()
                    &&& l.width == width
                    &&& l.height == height
                },
                Err(e) => {
                    &&& !codable(width as int, height as int)
                    &&& e == (Error::InvalidDimensions { width, height })
                },
            },
    {
        if width < MIN_WIDTH || width > MAX_WIDTH || height < MIN_HEIGHT || height > MAX_HEIGHT || width
            % 2 != 0 {
            return Err(Error::InvalidDimensions { width, height });
        }
        let sy: usize = (width + 7) / 8 * 8;
        let sc: usize = (width / 2 + 7) / 8 * 8;
        let aligned_height: usize = (height + 15) / 16 * 16;
        Ok(
            Layout {
                width,
                height,
                aligned_height,
                slices: aligned_height / SLICE_HEIGHT,
                strides: [sy, sc, sc, sy],
            },
        )
    }

    /// The heights that are coded as interlaced when asked.
    pub open spec fn interlaceable(self) -> bool {
        self.height == 480 || self.height == 576 || self.height == 1080
    }

    /// Whether a frame of this height is coded as interlaced when asked.
    pub fn interlace_capable(&self) -> (r: bool)
        ensures
            r == self.interlaceable(),
    {
        self.height == 480 || self.height == 576 || self.height == 1080
    }

    /// Image row stored in plane row `r`, or `None` for padding rows.
    pub open spec fn image_row_of(self, r: int, interlaced: bool) -> Option<int> {
        if !interlaced {
            if r < self.height {
                Some(r)
            } else {
                None
            }
        } else {
            let half = self.aligned_height as int / 2;
            let rows = self.height as int / 2;
            if r < half {
                if r < rows {
                    Some(2 * r)
                } else {
                    None
                }
            } else if r - half < rows {
                Some(2 * (r - half) + 1)
            } else {
                None
            }
        }
    }

    /// Image row stored in internal plane row `r`, or `None` for padding rows.
    ///
    /// Interlaced frames store the top field (even lines) in the upper half of
    /// the slices and the bottom field in the lower half.
    pub fn image_row(&self, r: usize, interlaced: bool) -> (res: Option<usize>)
        requires
            self.wf(),
        ensures
            match res {
                Some(i) => self.image_row_of(r as int, interlaced) == Some(i as int),
                None => self.image_row_of(r as int, interlaced) is None,
            },
    {
        if !interlaced {
            if r < self.height {
                return Some(r);
            }
            return None;
        }
        let half: usize = self.aligned_height / 2;
        let rows: usize = self.height / 2;
        if r < half {
            if r < rows {
                Some(2 * r)
            } else {
                None
            }
        } else if r - half < rows {
            Some(2 * (r - half) + 1)
        } else {
            None
        }
    }

    /// The plane row that holds image row `y`.
    pub open spec fn plane_row_of(self, y: int, interlaced: bool) -> int {
        if !interlaced {
            y
        } else if y % 2 == 0 {
            y / 2
        } else {
            self.aligned_height as int / 2 + y / 2
        }
    }

    /// Every image row is stored in exactly one plane row (for the heights
    /// that are coded as interlaced, in either order).
    pub proof fn law_rows(self, y: int, r: int, interlaced: bool)
        requires
            self.wf(),
            interlaced ==> self.interlaceable(),
            0 <= r < self.aligned_height,
            0 <= y < self.height,
        ensures
            0 <= self.plane_row_of(y, interlaced) < self.aligned_height,
            self.image_row_of(r, interlaced) == Some(y) <==> r == self.plane_row_of(y, interlaced),
    {
    }

    /// Largest DC stream accepted for one slice.
    pub open spec fn dc_limit(self) -> int {
        self.stride_of(0) * 32
    }

    /// Largest AC stream accepted for one slice.
    pub open spec fn ac_limit(self) -> int {
        self.stride_of(0) * 56
    }

    /// Largest DC stream accepted for one slice.
    pub fn max_dc_len(&self) -> (r: usize)
        requires
            self.wf(),
        ensures
            r == self.dc_limit(),
    {
        assert(self.strides@[0] == self.stride_of(0));
        self.strides[0] * 32
    }

    /// Largest AC stream accepted for one slice: seven eighths of four bytes
    /// per sample.
    pub fn max_ac_len(&self) -> (r: usize)
        requires
            self.wf(),
        ensures
            r == self.ac_limit(),
    {
        assert(self.strides@[0] == self.stride_of(0));
        let ac: usize = self.strides[0] * 64;
        ac - ac / 8
    }

    /// Preview (1/8 scale) dimensions.
    pub open spec fn preview_size_of(self, interlaced: bool) -> (int, int) {
        let h = self.height as int / 8;
        (
            aligned(self.width as int / 8, 2),
            if interlaced && h % 2 == 1 {
                h - 1
            } else {
                h
            },
        )
    }

    /// Preview (1/8 scale) dimensions.
    pub fn preview_size(&self, interlaced: bool) -> (r: (usize, usize))
        requires
            self.wf(),
        ensures
            r.0 == self.preview_size_of(interlaced).0,
            r.1 == self.preview_size_of(interlaced).1,
    {
        let w: usize = (self.width / 8 + 1) / 2 * 2;
        let h: usize = self.height / 8;
        if interlaced && h % 2 == 1 {
            (w, h - 1)
        } else {
            (w, h)
        }
    }
}

// ---------------------------------------------------------------------------
// Quality presets
// ---------------------------------------------------------------------------

/// The preset for quality `q`, searched from preset `i` on: the finest one
/// that is at most as fine as asked for. Below every preset the quality stands
/// as it is and the finest preset is used.
pub open spec fn preset_from(q: int, i: int) -> (int, int)
    decreases QUALITY_COUNT - i,
{
    if i >= QUALITY_COUNT {
        (q, 0)
    } else if QUALITY@[i] >= 100 - q {
        (100 - QUALITY@[i], i)
    } else {
        preset_from(q, i + 1)
    }
}

/// The effective quality and preset index for quality `q`.
pub open spec fn preset_of(q: int) -> (int, int) {
    preset_from(q, 0)
}

/// Resolves a quality value to (effective quality, preset index).
pub fn quality_preset(q: i32) -> (r: (i32, usize))
    ensures
        r.0 == preset_of(q as int).0,
        r.1 == preset_of(q as int).1,
        r.1 < QUALITY_COUNT,
{
    let want: i64 = 100 - q as i64;
    let mut i: usize = 0;
    while i < QUALITY_COUNT
        invariant
            i <= QUALITY_COUNT,
            want == 100 - q,
            preset_of(q as int) == preset_from(q as int, i as int),
        decreases QUALITY_COUNT - i,
    {
        let m: u16 = QUALITY[i];
        if m as i64 >= want {
            return (100 - m as i32, i);
        }
        i = i + 1;
    }
    (q, 0)
}

/// The preset of an effective quality is stable: asking for the quality that
/// a preset gives selects the same preset again.
pub proof fn law_preset_stable(q: int)
    requires
        36 <= q <= 99,
    ensures
        preset_of(preset_of(q).0) == preset_of(q),
        36 <= preset_of(q).0 <= q,
{
    lemma_preset_stable(q, 0);
}

proof fn lemma_preset_stable(q: int, i: int)
    requires
        36 <= q <= 99,
        0 <= i < QUALITY_COUNT,
        i > 0 ==> QUALITY@[i - 1] < 100 - q,
    ensures
        ({
            let e = preset_from(q, i);
            &&& preset_from(e.0, i) == e
            &&& 36 <= e.0 <= q
        }),
    decreases QUALITY_COUNT - i,
{
    if QUALITY@[i] < 100 - q {
        assert(i < QUALITY_COUNT - 1);
        lemma_preset_stable(q, i + 1);
        let e = preset_from(q, i + 1);
        assert(e.0 <= q);
        assert(QUALITY@[i] < 100 - e.0);
    }
}

/// The multipliers grow from preset to preset.
pub proof fn lemma_multipliers_grow(i: int, j: int)
    requires
        0 <= i < j < QUALITY_COUNT,
    ensures
        QUALITY@[i] < QUALITY@[j],
        1 <= QUALITY@[i],
        QUALITY@[j] <= 64,
    decreases j - i,
{
    if i + 1 < j {
        lemma_multipliers_grow(i + 1, j);
    }
}

/// What the search for a preset finds: the first one that is coarse enough,
/// or nothing.
pub proof fn lemma_preset_found(q: int, i: int)
    requires
        0 <= i <= QUALITY_COUNT,
        forall|k: int| 0 <= k < i ==> #[trigger] QUALITY@[k] < 100 - q,
    ensures
        ({
            let (e, j) = preset_from(q, i);
            ||| e == q && j == 0 && forall|k: int|
                0 <= k < QUALITY_COUNT ==> #[trigger] QUALITY@[k] < 100 - q
            ||| {
                &&& 0 <= j < QUALITY_COUNT
                &&& e == 100 - QUALITY@[j]
                &&& e <= q
                &&& forall|k: int| 0 <= k < j ==> #[trigger] QUALITY@[k] < 100 - q
            }
        }),
    decreases QUALITY_COUNT - i,
{
    if i < QUALITY_COUNT && QUALITY@[i] < 100 - q {
        lemma_preset_found(q, i + 1);
    }
}

/// The quality of a preset selects that preset.
pub proof fn lemma_preset_own(j: int)
    requires
        0 <= j < QUALITY_COUNT,
    ensures
        preset_of(100 - QUALITY@[j]) == (100 - QUALITY@[j], j),
{
    let q = 100 - QUALITY@[j];
    lemma_preset_found(q, 0);
    let (e, k) = preset_of(q);
    if k < j {
        lemma_multipliers_grow(k, j);
    } else if k > j {
        assert(QUALITY@[j] < 100 - q);
    }
}

/// How far apart the presets are: by the steps of the rate control, but for
/// the coarsest one.
pub proof fn lemma_preset_gaps(j: int)
    requires
        0 < j < QUALITY_COUNT,
    ensures
        ({
            let (q, finer) = (100 - QUALITY@[j], 100 - QUALITY@[j - 1]);
            &&& 36 <= q < finer <= 99
            &&& q == 36 <==> j == 24
            &&& q >= 92 ==> finer == q + 1
            &&& 76 <= q < 92 ==> finer == q + 2
            &&& 36 < q < 76 ==> finer == q + 4
        }),
{
}

/// A preset that is no finer than asked for is at most as fine as the one that
/// is selected.
pub proof fn lemma_preset_greatest(q: int, j: int)
    requires
        0 <= j < QUALITY_COUNT,
        100 - QUALITY@[j] <= q,
    ensures
        preset_of(q).0 >= 100 - QUALITY@[j],
        preset_of(q).0 <= q,
{
    lemma_preset_found(q, 0);
    let (e, i) = preset_of(q);
    assert(QUALITY@[j] >= 100 - q);
    if i < j {
        lemma_multipliers_grow(i, j);
    }
}

// ---------------------------------------------------------------------------
// Container
// ---------------------------------------------------------------------------

/// A parsed compressed frame.
pub struct ContainerView {
    pub interlaced: bool,
    pub quality: int,
    pub dc_shift: int,
    pub header_len: int,
    pub dc: Seq<Seq<u8>>,
    pub ac: Seq<Seq<u8>>,
}

/// Reads `n` length-prefixed streams of at most `max` bytes from `pos` on.
pub open spec fn streams_at(data: Seq<u8>, pos: int, n: nat, max: int) -> Result<
    (Seq<Seq<u8>>, int),
    Error,
>
    decreases n,
{
    if n == 0 {
        Ok((Seq::empty(), pos))
    } else {
        match streams_at(data, pos, (n - 1) as nat, max) {
            Ok((v, p)) => if p + 4 > data.len() {
                Err(Error::Truncated)
            } else if le32_at(data, p) > max {
                Err(Error::InvalidBitstream("slice stream larger than allowed"))
            } else if p + 4 + le32_at(data, p) > data.len() {
                Err(Error::Truncated)
            } else {
                Ok(
                    (
                        v.push(data.subrange(p + 4, p + 4 + le32_at(data, p))),
                        p + 4 + le32_at(data, p),
                    ),
                )
            },
            Err(e) => Err(e),
        }
    }
}

/// Parses a compressed frame.
pub open spec fn parse_of(layout: Layout, data: Seq<u8>) -> Result<ContainerView, Error> {
    if data.len() < 5 {
        Err(Error::Truncated)
    } else if !(1 <= data[0] <= 3) {
        Err(Error::InvalidBitstream("unknown codec format byte"))
    } else {
        let offset = if data[0] == FORMAT_EXTENDED {
            2int
        } else {
            0
        };
        let dc_shift = if data[0] == FORMAT_EXTENDED {
            data[1] as int
        } else {
            0
        };
        if dc_shift > 15 {
            Err(Error::InvalidBitstream("DC shift out of range"))
        } else if data[offset + 2] != layout.slices % 256 {
            Err(
                Error::SliceCountMismatch {
                    expected: (layout.slices % 256) as usize,
                    found: data[offset + 2] as usize,
                },
            )
        } else {
            match streams_at(data, 3 + offset, layout.slices as nat, layout.dc_limit()) {
                Err(e) => Err(e),
                Ok((dc, p)) => {
                    let head = ContainerView {
                        interlaced: data[offset] != FORMAT_PROGRESSIVE && layout.interlaceable(),
                        quality: data[offset + 1] as int,
                        dc_shift,
                        header_len: 3 + offset,
                        dc,
                        ac: Seq::empty(),
                    };
                    if p >= data.len() {
                        Ok(head)
                    } else {
                        match streams_at(data, p, layout.slices as nat, layout.ac_limit()) {
                            Err(e) => Err(e),
                            Ok((ac, _)) => Ok(ContainerView { ac, ..head }),
                        }
                    }
                },
            }
        }
    }
}

/// Parsed container header plus the per-slice streams.
pub struct Container<'a> {
    pub interlaced: bool,
    pub quality: i32,
    pub dc_shift: u32,
    /// Bytes before the first stream.
    pub header_len: usize,
    pub dc: Vec<&'a [u8]>,
    /// Empty when the frame carries only the DC (preview) part.
    pub ac: Vec<&'a [u8]>,
}

/// The bytes of some streams.
pub open spec fn stream_bytes(v: Seq<&[u8]>) -> Seq<Seq<u8>> {
    v.map_values(|s: &[u8]| s@)
}

impl<'a> View for Container<'a> {
    type V = ContainerView;

    open spec fn view(&self) -> ContainerView {
        ContainerView {
            interlaced: self.interlaced,
            quality: self.quality as int,
            dc_shift: self.dc_shift as int,
            header_len: self.header_len as int,
            dc: stream_bytes(self.dc@),
            ac: stream_bytes(self.ac@),
        }
    }
}

/// Reads `slices` length-prefixed streams, advancing `pos`.
fn read_streams<'a>(data: &'a [u8], pos: usize, slices: usize, max: usize) -> (r: Result<
    (Vec<&'a [u8]>, usize),
    Error,
>)
    requires
        pos <= data@.len(),
        max < 0x1000_0000,
    ensures
        match r {
            Ok((v, p)) => {
                &&& streams_at(data@, pos as int, slices as nat, max as int) == Ok::<_, Error>(
                    (stream_bytes(v@), p as int),
                )
                &&& pos <= p <= data@.len()
                &&& v@.len() == slices
            },
            Err(e) => streams_at(data@, pos as int, slices as nat, max as int) == Err::<
                (Seq<Seq<u8>>, int),
                Error,
            >(e),
        },
{
    let mut v: Vec<&'a [u8]> = Vec::new();
    let mut p: usize = pos;
    let mut i: usize = 0;
    assert(stream_bytes(v@) =~= Seq::empty());
    while i < slices
        invariant
            i <= slices,
            max < 0x1000_0000,
            pos <= p <= data.len(),
            v@.len() == i,
            streams_at(data@, pos as int, i as nat, max as int) == Ok::<_, Error>(
                (stream_bytes(v@), p as int),
            ),
        decreases slices - i,
    {
        let ghost before = stream_bytes(v@);
        let ghost next = streams_at(data@, pos as int, (i + 1) as nat, max as int);
        if data.len() - p < 4 {
            proof {
                lemma_streams_stuck(data@, pos as int, (i + 1) as nat, slices as nat, max as int);
            }
            return Err(Error::Truncated);
        }
        let len: u32 = read_u32(data, p);
        if len as u64 > max as u64 {
            proof {
                lemma_streams_stuck(data@, pos as int, (i + 1) as nat, slices as nat, max as int);
            }
            return Err(Error::InvalidBitstream("slice stream larger than allowed"));
        }
        let len: usize = len as usize;
        if data.len() - p - 4 < len {
            proof {
                lemma_streams_stuck(data@, pos as int, (i + 1) as nat, slices as nat, max as int);
            }
            return Err(Error::Truncated);
        }
        let s: &'a [u8] = slice_subrange(data, p + 4, p + 4 + len);
        v.push(s);
        assert(stream_bytes(v@) =~= before.push(s@));
        p = p + 4 + len;
        i = i + 1;
    }
    Ok((v, p))
}

proof fn lemma_streams_stuck(data: Seq<u8>, pos: int, k: nat, n: nat, max: int)
    requires
        k <= n,
        streams_at(data, pos, k, max) is Err,
    ensures
        streams_at(data, pos, n, max) == streams_at(data, pos, k, max),
    decreases n,
{
    if k < n {
        lemma_streams_stuck(data, pos, k, (n - 1) as nat, max);
    }
}

/// Parses a compressed frame.
pub fn parse<'a>(layout: &Layout, data: &'a [u8]) -> (r: Result<Container<'a>, Error>)
    requires
        layout.wf(),
    ensures
        match r {
            Ok(c) => {
                &&& parse_of(*layout, data@) == Ok::<ContainerView, Error>(c@)
                &&& c.dc@.len() == layout.slices
                &&& c.ac@.len() == layout.slices || c.ac@.len() == 0
                &&& c.dc_shift <= 15
                &&& 0 <= c.quality <= 255
            },
            Err(e) => parse_of(*layout, data@) == Err::<ContainerView, Error>(e),
        },
{
    if data.len() < 5 {
        return Err(Error::Truncated);
    }
    let (offset, dc_shift): (usize, u32) = if data[0] == FORMAT_PROGRESSIVE || data[0]
        == FORMAT_INTERLACED {
        (0, 0)
    } else if data[0] == FORMAT_EXTENDED {
        (2, data[1] as u32)
    } else {
        return Err(Error::InvalidBitstream("unknown codec format byte"));
    };
    if dc_shift > 15 {
        return Err(Error::InvalidBitstream("DC shift out of range"));
    }
    let format: u8 = data[offset];
    let quality: i32 = data[offset + 1] as i32;
    let slices: usize = data[offset + 2] as usize;
    // The slice count is stored in one byte: 8K (270 slices) wraps to 14.
    if slices != layout.slices % 256 {
        return Err(Error::SliceCountMismatch { expected: layout.slices % 256, found: slices });
    }
    let header_len: usize = 3 + offset;
    let (dc, pos): (Vec<&'a [u8]>, usize) = match read_streams(
        data,
        header_len,
        layout.slices,
        layout.max_dc_len(),
    ) {
        Ok(x) => x,
        Err(e) => {
            return Err(e);
        },
    };
    let ac: Vec<&'a [u8]> = if pos < data.len() {
        match read_streams(data, pos, layout.slices, layout.max_ac_len()) {
            Ok(x) => x.0,
            Err(e) => {
                return Err(e);
            },
        }
    } else {
        Vec::new()
    };
    let c = Container {
        interlaced: format != FORMAT_PROGRESSIVE && layout.interlace_capable(),
        quality,
        dc_shift,
        header_len,
        dc,
        ac,
    };
    assert(pos >= data@.len() ==> stream_bytes(c.ac@) =~= Seq::empty());
    Ok(c)
}

/// The bytes of some streams.
pub open spec fn vec_bytes(v: Seq<Vec<u8>>) -> Seq<Seq<u8>> {
    v.map_values(|s: Vec<u8>| s@)
}

/// Length-prefixed streams, one after another.
pub open spec fn framed(v: Seq<Seq<u8>>) -> Seq<u8>
    decreases v.len(),
{
    if v.len() == 0 {
        Seq::empty()
    } else {
        framed(v.drop_last()) + le32(v.last().len() as int) + v.last()
    }
}

/// The header of a compressed frame.
pub open spec fn header_of(layout: Layout, interlaced: bool, quality: int, dc_shift: int) -> Seq<u8> {
    let extended = if dc_shift > 0 {
        seq![FORMAT_EXTENDED, dc_shift as u8]
    } else {
        Seq::empty()
    };
    extended + seq![
        if interlaced {
            FORMAT_INTERLACED
        } else {
            FORMAT_PROGRESSIVE
        },
        (quality % 256) as u8,
        (layout.slices % 256) as u8,
    ]
}

/// A compressed frame.
pub open spec fn container_of(
    layout: Layout,
    interlaced: bool,
    quality: int,
    dc_shift: int,
    dc: Seq<Seq<u8>>,
    ac: Seq<Seq<u8>>,
) -> Seq<u8> {
    header_of(layout, interlaced, quality, dc_shift) + framed(dc) + framed(ac)
}

/// Appends length-prefixed streams.
fn put_streams(out: &mut Vec<u8>, v: &Vec<Vec<u8>>)
    ensures
        final(out)@ == old(out)@ + framed(vec_bytes(v@)),
{
    let ghost all = vec_bytes(v@);
    let mut i: usize = 0;
    assert(all.take(0) =~= Seq::empty());
    assert(out@ =~= old(out)@ + framed(all.take(0)));
    while i < v.len()
        invariant
            i <= v@.len(),
            all == vec_bytes(v@),
            out@ == old(out)@ + framed(all.take(i as int)),
        decreases v@.len() - i,
    {
        let n: u64 = v[i].len() as u64;
        proof {
            lemma_le32_wraps(n as int);
        }
        put_u32(out, (n % 0x1_0000_0000) as u32);
        out.extend_from_slice(v[i].as_slice());
        proof {
            assert(all.take(i + 1).drop_last() =~= all.take(i as int));
            assert(out@ =~= old(out)@ + framed(all.take(i + 1)));
        }
        i = i + 1;
    }
    assert(all.take(i as int) =~= all);
}

proof fn lemma_quality_byte(q: i32)
    by (bit_vector)
    ensures
        (q as u8) as int == (q + 0x1_0000_0000) % 256,
{
}

/// Writes a compressed frame at the end of `out`.
pub fn write(
    out: &mut Vec<u8>,
    layout: &Layout,
    interlaced: bool,
    quality: i32,
    dc_shift: u32,
    dc: &Vec<Vec<u8>>,
    ac: &Vec<Vec<u8>>,
)
    requires
        layout.wf(),
        dc_shift <= 15,
    ensures
        final(out)@ == old(out)@ + container_of(
            *layout,
            interlaced,
            quality as int,
            dc_shift as int,
            vec_bytes(dc@),
            vec_bytes(ac@),
        ),
{
    if dc_shift > 0 {
        out.push(FORMAT_EXTENDED);
        out.push(dc_shift as u8);
    }
    proof {
        lemma_quality_byte(quality);
    }
    out.push(
        if interlaced {
            FORMAT_INTERLACED
        } else {
            FORMAT_PROGRESSIVE
        },
    );
    out.push(quality as u8);
    out.push((layout.slices % 256) as u8);
    assert(out@ =~= old(out)@ + header_of(*layout, interlaced, quality as int, dc_shift as int));
    put_streams(out, dc);
    put_streams(out, ac);
    assert(out@ =~= old(out)@ + container_of(
        *layout,
        interlaced,
        quality as int,
        dc_shift as int,
        vec_bytes(dc@),
        vec_bytes(ac@),
    ));
}

// ---------------------------------------------------------------------------
// What is written is read back
// ---------------------------------------------------------------------------

/// The framed bytes of a prefix start the framed bytes of the whole.
proof fn lemma_framed_split(v: Seq<Seq<u8>>, k: int) -> (rest: Seq<u8>)
    requires
        0 <= k <= v.len(),
    ensures
        framed(v) == framed(v.take(k)) + rest,
    decreases v.len() - k,
{
    if k == v.len() {
        assert(v.take(k) =~= v);
        assert(framed(v) =~= framed(v.take(k)) + Seq::<u8>::empty());
        Seq::empty()
    } else {
        let r = lemma_framed_split(v, k + 1);
        assert(v.take(k + 1).drop_last() =~= v.take(k));
        let own = le32(v[k].len() as int) + v[k];
        assert(framed(v.take(k + 1)) =~= framed(v.take(k)) + own);
        assert(framed(v) =~= framed(v.take(k)) + (own + r));
        own + r
    }
}

/// Framed streams are read back from wherever they stand.
pub proof fn law_streams(pre: Seq<u8>, v: Seq<Seq<u8>>, post: Seq<u8>, k: nat, max: int)
    requires
        k <= v.len(),
        max < 0x1_0000_0000,
        forall|i: int| 0 <= i < v.len() ==> (#[trigger] v[i]).len() <= max,
    ensures
        streams_at(pre + framed(v) + post, pre.len() as int, k, max) == Ok::<
            (Seq<Seq<u8>>, int),
            Error,
        >((v.take(k as int), (pre.len() + framed(v.take(k as int)).len()) as int)),
    decreases k,
{
    let data = pre + framed(v) + post;
    if k == 0 {
        assert(v.take(0) =~= Seq::empty());
    } else {
        let j = k - 1;
        law_streams(pre, v, post, j as nat, max);
        let rest = lemma_framed_split(v, k as int);
        assert(v.take(k as int).drop_last() =~= v.take(j));
        let p = (pre.len() + framed(v.take(j)).len()) as int;
        let n = v[j].len() as int;
        let own = le32(n) + v[j];
        assert(framed(v.take(k as int)) =~= framed(v.take(j)) + own);
        assert(data =~= pre + framed(v.take(j)) + own + rest + post);
        assert(data.subrange(p, p + 4) =~= le32(n));
        law_le32(n, data, p);
        assert(data.subrange(p + 4, p + 4 + n) =~= v[j]);
        assert(v.take(j).push(v[j]) =~= v.take(k as int));
    }
}

/// A compressed frame is parsed back to what was written: its header fields
/// and every slice stream, with or without the AC part.
pub proof fn law_container_round_trip(
    layout: Layout,
    interlaced: bool,
    quality: int,
    dc_shift: int,
    dc: Seq<Seq<u8>>,
    ac: Seq<Seq<u8>>,
)
    requires
        layout.wf(),
        interlaced ==> layout.interlaceable(),
        0 <= quality <= 255,
        0 <= dc_shift <= 15,
        dc.len() == layout.slices,
        ac.len() == layout.slices || ac.len() == 0,
        forall|i: int| 0 <= i < dc.len() ==> (#[trigger] dc[i]).len() <= layout.dc_limit(),
        forall|i: int| 0 <= i < ac.len() ==> (#[trigger] ac[i]).len() <= layout.ac_limit(),
    ensures
        parse_of(layout, container_of(layout, interlaced, quality, dc_shift, dc, ac)) == Ok::<
            ContainerView,
            Error,
        >(
            (ContainerView {
                interlaced,
                quality,
                dc_shift,
                header_len: if dc_shift > 0 {
                    5
                } else {
                    3
                },
                dc,
                ac,
            }),
        ),
{
    let h = header_of(layout, interlaced, quality, dc_shift);
    let data = container_of(layout, interlaced, quality, dc_shift, dc, ac);
    law_streams(h, dc, framed(ac), dc.len(), layout.dc_limit());
    assert(dc.take(dc.len() as int) =~= dc);
    let pre = h + framed(dc);
    assert(data =~= pre + framed(ac) + Seq::<u8>::empty());
    law_streams(pre, ac, Seq::empty(), ac.len(), layout.ac_limit());
    assert(ac.take(ac.len() as int) =~= ac);
    lemma_framed_len(dc);
    lemma_framed_len(ac);
    assert(data[0] == h[0]);
    assert(data.len() >= 5);
    if dc_shift > 0 {
        assert(data[1] == h[1] && data[2] == h[2] && data[3] == h[3] && data[4] == h[4]);
    } else {
        assert(data[1] == h[1] && data[2] == h[2]);
    }
}

/// Every stream takes its length and four bytes.
pub proof fn lemma_framed_len(v: Seq<Seq<u8>>)
    ensures
        framed(v).len() >= 4 * v.len(),
        v.len() == 0 ==> framed(v).len() == 0,
    decreases v.len(),
{
    if v.len() > 0 {
        lemma_framed_len(v.drop_last());
    }
}

/// A preview is an eighth of the picture each way: as many whole lines as that
/// allows, one fewer where a field would be left without its pair, and as many
/// pixels or one more, so that they come in pairs.
pub proof fn law_preview_is_an_eighth(l: Layout, interlaced: bool)
    requires
        l.wf(),
    ensures
        ({
            let (w, h) = l.preview_size_of(interlaced);
            &&& w % 2 == 0
            &&& l.width - 7 <= 8 * w <= l.width + 8
            &&& h % 2 == 0 || !interlaced
            &&& 8 * h <= l.height
            &&& l.height < 8 * h + (if interlaced {
                16int
            } else {
                8
            })
        }),
{
}

} // verus!
