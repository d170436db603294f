//! VMX encoder.

use super::bits::{pack, pad8, BitWriter};
use super::convert::{
    all_narrow, filled, frame_to_planes, loaded, narrow, plane_shape, planes_fit, Planes, FILL16, FILL8,
};
use super::dct::{encode_matrix, grid, Depth, QuantTables};
use super::error::Error;
use super::frame::{alpha_format, deep_format, halved_format, Frame, PixelFormat};
use super::lanes::wrap32;
use super::layout::{
    container_of, lemma_multipliers_grow, lemma_preset_found, lemma_preset_gaps, lemma_preset_greatest,
    lemma_preset_own, preset_of, quality_preset, vec_bytes, Layout,
};
use super::slice::{
    ac_bits, ac_words, dc_bits, dc_values, encode_plane, level_shift, level_shift_of, plane_blocks,
    plane_fits, PlaneCoding,
};
use super::tables::{BITRATE_TABLE, MAX_QUALITY, QUALITY, QUALITY_COUNT};
use vstd::prelude::*;

verus! {

/// Encoding profile. Selects the bitrate target, the minimum quality the
/// rate control may fall to, and the DC precision (see [`EncodingParameters`]).
///
/// The `Omt*` profiles are the ones Open Media Transport senders use.
#[derive(Clone, Copy, Debug, PartialEq, Eq, Hash, Structural)]
pub enum Profile {
    /// Low quality (vMix instant replay).
    Lq,
    /// Standard quality (vMix instant replay).
    Sq,
    /// High quality (vMix instant replay). The default.
    Hq,
    /// Open Media Transport, low quality.
    OmtLq,
    /// Open Media Transport, standard quality.
    OmtSq,
    /// Open Media Transport, high quality.
    OmtHq,
}

/// The number of a profile.
pub open spec fn profile_id(p: Profile) -> int {
    match p {
        Profile::Lq => 33,
        Profile::Sq => 66,
        Profile::Hq => 99,
        Profile::OmtLq => 133,
        Profile::OmtSq => 166,
        Profile::OmtHq => 199,
    }
}

impl Default for Profile {
    fn default() -> (r: Self)
        ensures
            r == Profile::Hq,
    {
        Profile::Hq
    }
}

impl Profile {
    /// The number of the profile.
    pub fn id(self) -> (r: u8)
        ensures
            r == profile_id(self),
    {
        match self {
            Profile::Lq => 33,
            Profile::Sq => 66,
            Profile::Hq => 99,
            Profile::OmtLq => 133,
            Profile::OmtSq => 166,
            Profile::OmtHq => 199,
        }
    }
}

/// Encoder settings.
#[derive(Clone, Copy, Debug, PartialEq, Eq, Structural)]
pub struct EncoderConfig {
    /// Width in pixels: even, 16..=7680.
    pub width: usize,
    /// Height in pixels: 16..=4320.
    pub height: usize,
    /// Rate-control profile.
    pub profile: Profile,
    /// Worker threads that the caller would like to spend on a frame. The
    /// output does not depend on this value.
    pub threads: usize,
}

impl EncoderConfig {
    /// Single-threaded [`Profile::Hq`] configuration.
    pub fn new(width: usize, height: usize) -> (r: Self)
        ensures
            r == (EncoderConfig { width, height, profile: Profile::Hq, threads: 1 }),
    {
        EncoderConfig { width, height, profile: Profile::Hq, threads: 1 }
    }
}

/// Rate-control and precision parameters.
#[derive(Clone, Copy, Debug, PartialEq, Eq, Structural)]
pub struct EncodingParameters {
    /// A frame smaller than this many bytes raises the quality of the next frame.
    pub frame_min: i32,
    /// A frame larger than this many bytes lowers the quality of the next frame.
    pub frame_max: i32,
    /// Floor for the quality, whatever the bitrate.
    pub min_quality: i32,
    /// DC precision: 0 = 11 bit, 1 = 10 bit, 2 = 9 bit, 3 = 8 bit (0..=15 accepted).
    pub dc_shift: u32,
}

// ---------------------------------------------------------------------------
// Rate control
// ---------------------------------------------------------------------------

/// The parameters of the first row of the bitrate table from `i` on that fits
/// the profile and the height.
pub open spec fn parameters_from(profile: int, height: int, i: int) -> EncodingParameters
    decreases 36 - i,
{
    if i >= 36 {
        EncodingParameters { frame_min: 0, frame_max: 0, min_quality: 80, dc_shift: 0 }
    } else {
        let row = BITRATE_TABLE@[i]@;
        if row[0] == profile && height >= row[1] {
            EncodingParameters {
                frame_min: row[5],
                frame_max: row[6],
                min_quality: row[4],
                dc_shift: row[3] as u32,
            }
        } else {
            parameters_from(profile, height, i + 1)
        }
    }
}

/// The parameters that a new encoder starts with.
pub open spec fn default_parameters(profile: Profile, height: int) -> EncodingParameters {
    parameters_from(profile_id(profile), height, 0)
}

/// Looks the parameters up in the bitrate table.
fn find_parameters(profile: Profile, height: usize) -> (r: EncodingParameters)
    requires
        height <= 4320,
    ensures
        r == default_parameters(profile, height as int),
        r.dc_shift <= 15,
{
    let id: i32 = profile.id() as i32;
    let h: i32 = height as i32;
    let mut i: usize = 0;
    while i < 36
        invariant
            i <= 36,
            id == profile_id(profile),
            h == height,
            default_parameters(profile, height as int) == parameters_from(
                profile_id(profile),
                height as int,
                i as int,
            ),
        decreases 36 - i,
    {
        let row: &[i32; 7] = &BITRATE_TABLE[i];
        assert(0 <= row@[3] <= 3);
        if row[0] == id && h >= row[1] {
            return EncodingParameters {
                frame_min: row[5],
                frame_max: row[6],
                min_quality: row[4],
                dc_shift: row[3] as u32,
            };
        }
        i = i + 1;
    }
    EncodingParameters { frame_min: 0, frame_max: 0, min_quality: 80, dc_shift: 0 }
}

/// The quality asked for, held between the floor and the ceiling. The floor
/// wins.
pub open spec fn held_quality(q: int, min_quality: int) -> int {
    let c = if q > MAX_QUALITY {
        MAX_QUALITY as int
    } else {
        q
    };
    if c < min_quality {
        min_quality
    } else {
        c
    }
}

/// The quality and preset that asking for `q` selects: the preset of the held
/// quality, or the next finer one where that preset is below the floor.
pub open spec fn chosen(q: int, min_quality: int) -> (int, int) {
    let (e, i) = preset_of(held_quality(q, min_quality));
    if e < min_quality && i > 0 {
        (100 - QUALITY@[i - 1], i - 1)
    } else {
        (e, i)
    }
}

/// The quality that is selected lies between the floor and the ceiling, and
/// selects its own preset again.
pub proof fn law_quality_floor(q: int, min_quality: int)
    requires
        min_quality <= MAX_QUALITY,
    ensures
        min_quality <= chosen(q, min_quality).0 <= MAX_QUALITY,
        preset_of(chosen(q, min_quality).0) == chosen(q, min_quality),
{
    let h = held_quality(q, min_quality);
    lemma_preset_found(h, 0);
    let (e, i) = preset_of(h);
    if e < min_quality {
        assert(0 < i < QUALITY_COUNT);
        assert(QUALITY@[i - 1] < 100 - h);
        if i == 1 {
            assert(QUALITY@[1] == 2);
        } else {
            assert(QUALITY@[i - 1] >= 2);
        }
        lemma_preset_own(i - 1);
    } else if e != h || i != 0 {
        lemma_preset_own(i);
    }
}

/// The quality that the rate control asks for after a frame of `len` bytes,
/// or `None` where it leaves everything as it is.
pub open spec fn adjusted(p: EncodingParameters, q: int, len: int) -> Option<int> {
    if len == 0 || p.frame_min == 0 || p.frame_max == 0 {
        None
    } else if len < p.frame_min {
        if q < p.min_quality {
            Some(p.min_quality as int)
        } else if q < 76 {
            Some(q + 4)
        } else if q < 92 {
            Some(q + 2)
        } else if q < 99 {
            Some(q + 1)
        } else {
            None
        }
    } else if len > p.frame_max {
        if q > 92 {
            Some(q - 1)
        } else if q > p.min_quality {
            Some(q - 2)
        } else {
            Some(p.min_quality as int)
        }
    } else {
        None
    }
}

// ---------------------------------------------------------------------------
// Slices
// ---------------------------------------------------------------------------

/// How plane `p` is coded.
pub open spec fn coding(p: int, depth: Depth, dc_shift: nat) -> PlaneCoding {
    PlaneCoding { depth, shift: level_shift_of(p, depth), dc_shift }
}

/// The coefficients of plane `p` of slice `s`.
pub open spec fn slice_blocks(
    pl: Seq<Seq<Seq<u16>>>,
    l: Layout,
    s: int,
    p: int,
    depth: Depth,
    matrix: Seq<u16>,
    dc_shift: nat,
) -> Seq<Seq<i16>> {
    plane_blocks(pl[p], 16 * s, l.stride_of(p), coding(p, depth, dc_shift), matrix)
}

/// The DC stream of the first `n` planes of slice `s`.
pub open spec fn slice_dc(
    pl: Seq<Seq<Seq<u16>>>,
    l: Layout,
    s: int,
    n: int,
    depth: Depth,
    matrix: Seq<u16>,
    dc_shift: nat,
) -> Seq<bool>
    decreases n,
{
    if n <= 0 {
        Seq::empty()
    } else {
        pad8(
            slice_dc(pl, l, s, n - 1, depth, matrix, dc_shift) + dc_bits(
                dc_values(slice_blocks(pl, l, s, n - 1, depth, matrix, dc_shift), dc_shift),
            ),
        )
    }
}

/// The AC stream of the first `n` planes of slice `s`.
pub open spec fn slice_ac(
    pl: Seq<Seq<Seq<u16>>>,
    l: Layout,
    s: int,
    n: int,
    depth: Depth,
    matrix: Seq<u16>,
    dc_shift: nat,
) -> Seq<bool>
    decreases n,
{
    if n <= 0 {
        Seq::empty()
    } else {
        pad8(
            slice_ac(pl, l, s, n - 1, depth, matrix, dc_shift) + ac_bits(
                ac_words(slice_blocks(pl, l, s, n - 1, depth, matrix, dc_shift)),
            ),
        )
    }
}

/// The DC streams of all slices.
pub open spec fn dc_streams(
    pl: Seq<Seq<Seq<u16>>>,
    l: Layout,
    n: int,
    depth: Depth,
    matrix: Seq<u16>,
    dc_shift: nat,
) -> Seq<Seq<u8>> {
    Seq::new(l.slices as nat, |s: int| pack(slice_dc(pl, l, s, n, depth, matrix, dc_shift)))
}

/// The AC streams of all slices.
pub open spec fn ac_streams(
    pl: Seq<Seq<Seq<u16>>>,
    l: Layout,
    n: int,
    depth: Depth,
    matrix: Seq<u16>,
    dc_shift: nat,
) -> Seq<Seq<u8>> {
    Seq::new(l.slices as nat, |s: int| pack(slice_ac(pl, l, s, n, depth, matrix, dc_shift)))
}

/// Encodes one slice: its DC and AC streams. Slices are independent of each
/// other.
pub fn encode_one_slice(
    pl: &Planes,
    l: &Layout,
    s: usize,
    nplanes: usize,
    depth: Depth,
    matrix: &[u16; 192],
    dc_shift: u32,
) -> (r: (Vec<u8>, Vec<u8>))
    requires
        l.wf(),
        planes_fit(pl@, *l),
        depth == Depth::Eight ==> all_narrow(pl@),
        s < l.slices,
        nplanes <= 4,
        dc_shift <= 15,
    ensures
        r.0@ == pack(
            slice_dc(pl@, *l, s as int, nplanes as int, depth, matrix@, dc_shift as nat),
        ),
        r.1@ == pack(
            slice_ac(pl@, *l, s as int, nplanes as int, depth, matrix@, dc_shift as nat),
        ),
{
    let mut dc: BitWriter = BitWriter::with_capacity(256);
    let mut ac: BitWriter = BitWriter::with_capacity(4096);
    let mut p: usize = 0;
    while p < nplanes
        invariant
            p <= nplanes <= 4,
            l.wf(),
            planes_fit(pl@, *l),
            depth == Depth::Eight ==> all_narrow(pl@),
            s < l.slices,
            dc_shift <= 15,
            dc.wf(),
            ac.wf(),
            dc@ == slice_dc(pl@, *l, s as int, p as int, depth, matrix@, dc_shift as nat),
            ac@ == slice_ac(pl@, *l, s as int, p as int, depth, matrix@, dc_shift as nat),
        decreases nplanes - p,
    {
        assert(l.strides@[p as int] == l.stride_of(p as int));
        let stride: usize = l.strides[p];
        let shift: i16 = level_shift(p, depth);
        proof {
            assert(pl@[p as int] == grid(pl.rows@[p as int]@));
            assert(plane_shape(pl@[p as int], *l, p as int));
            assert(depth == Depth::Eight ==> narrow(pl@[p as int]));
            assert(plane_fits(pl@[p as int], 16 * s as int, stride as int, depth));
        }
        encode_plane(&pl.rows[p], 16 * s, stride, depth, shift, matrix, dc_shift, &mut dc, &mut ac);
        p = p + 1;
    }
    (dc.into_bytes(), ac.into_bytes())
}

/// Encodes every slice.
fn encode_slices(
    pl: &Planes,
    l: &Layout,
    nplanes: usize,
    depth: Depth,
    matrix: &[u16; 192],
    dc_shift: u32,
) -> (r: (Vec<Vec<u8>>, Vec<Vec<u8>>))
    requires
        l.wf(),
        planes_fit(pl@, *l),
        depth == Depth::Eight ==> all_narrow(pl@),
        nplanes <= 4,
        dc_shift <= 15,
    ensures
        vec_bytes(r.0@) == dc_streams(pl@, *l, nplanes as int, depth, matrix@, dc_shift as nat),
        vec_bytes(r.1@) == ac_streams(pl@, *l, nplanes as int, depth, matrix@, dc_shift as nat),
{
    let ghost wd = dc_streams(pl@, *l, nplanes as int, depth, matrix@, dc_shift as nat);
    let ghost wa = ac_streams(pl@, *l, nplanes as int, depth, matrix@, dc_shift as nat);
    let mut dc: Vec<Vec<u8>> = Vec::new();
    let mut ac: Vec<Vec<u8>> = Vec::new();
    let mut s: usize = 0;
    while s < l.slices
        invariant
            s <= l.slices,
            l.wf(),
            planes_fit(pl@, *l),
            depth == Depth::Eight ==> all_narrow(pl@),
            nplanes <= 4,
            dc_shift <= 15,
            wd == dc_streams(pl@, *l, nplanes as int, depth, matrix@, dc_shift as nat),
            wa == ac_streams(pl@, *l, nplanes as int, depth, matrix@, dc_shift as nat),
            dc@.len() == s,
            ac@.len() == s,
            forall|i: int| 0 <= i < s ==> (#[trigger] dc@[i])@ == wd[i],
            forall|i: int| 0 <= i < s ==> (#[trigger] ac@[i])@ == wa[i],
        decreases l.slices - s,
    {
        let (d, a): (Vec<u8>, Vec<u8>) = encode_one_slice(
            pl,
            l,
            s,
            nplanes,
            depth,
            matrix,
            dc_shift,
        );
        dc.push(d);
        ac.push(a);
        s = s + 1;
    }
    assert(vec_bytes(dc@) =~= wd);
    assert(vec_bytes(ac@) =~= wa);
    (dc, ac)
}

// ---------------------------------------------------------------------------
// Encoder
// ---------------------------------------------------------------------------

/// What an encoder holds between frames.
pub struct EncoderState {
    pub layout: Layout,
    pub params: EncodingParameters,
    /// Quality and preset of the next frame.
    pub quality: (int, int),
    pub threads: int,
    /// The planes of the last frame at each depth, whose padding stays.
    pub planes8: Seq<Seq<Seq<u16>>>,
    pub planes16: Seq<Seq<Seq<u16>>>,
}

/// The depth that a format is coded at.
pub open spec fn depth_of(format: PixelFormat) -> Depth {
    if deep_format(format) {
        Depth::Ten
    } else {
        Depth::Eight
    }
}

/// The number of planes of a format.
pub open spec fn plane_count(format: PixelFormat) -> int {
    if alpha_format(format) {
        4
    } else {
        3
    }
}

impl EncoderState {
    /// Why a frame cannot be encoded.
    pub open spec fn refuses(self, f: Frame) -> Option<Error> {
        if f.width != self.layout.width || f.height != self.layout.height {
            Some(Error::FrameSizeMismatch)
        } else if f.fault() is Some {
            f.fault()
        } else if halved_format(f.format) && f.height % 2 != 0 {
            Some(Error::InvalidFrame("4:2:0 input needs an even height"))
        } else if halved_format(f.format) && self.coded_interlaced(f) {
            Some(Error::Unsupported("interlaced 4:2:0 input"))
        } else {
            None
        }
    }

    /// Whether a frame is coded as two fields.
    pub open spec fn coded_interlaced(self, f: Frame) -> bool {
        f.interlaced && self.layout.interlaceable()
    }

    /// The planes with the frame copied in.
    pub open spec fn planes_for(self, f: Frame) -> Seq<Seq<Seq<u16>>> {
        loaded(
            f,
            self.layout,
            self.coded_interlaced(f),
            if deep_format(f.format) {
                self.planes16
            } else {
                self.planes8
            },
        )
    }

    /// The compressed frame.
    pub open spec fn packet(self, f: Frame) -> Seq<u8> {
        let pl = self.planes_for(f);
        let n = plane_count(f.format);
        let depth = depth_of(f.format);
        let m = encode_matrix(self.quality.1);
        let shift = self.params.dc_shift;
        container_of(
            self.layout,
            self.coded_interlaced(f),
            self.quality.0,
            shift as int,
            dc_streams(pl, self.layout, n, depth, m, shift as nat),
            ac_streams(pl, self.layout, n, depth, m, shift as nat),
        )
    }

    /// The state after asking for quality `q`.
    pub open spec fn with_quality(self, q: int) -> EncoderState {
        EncoderState { quality: chosen(q, self.params.min_quality as int), ..self }
    }

    /// The state after encoding a frame.
    pub open spec fn after(self, f: Frame) -> EncoderState {
        let st = if deep_format(f.format) {
            EncoderState { planes16: self.planes_for(f), ..self }
        } else {
            EncoderState { planes8: self.planes_for(f), ..self }
        };
        match adjusted(self.params, self.quality.0, wrap32(self.packet(f).len() as int)) {
            Some(q) => st.with_quality(q),
            None => st,
        }
    }
}

/// The floor holds whatever the bitrate: a quality that is not below it is
/// not taken below it by the frames that follow, nor is a quality that is
/// asked for.
pub proof fn law_floor_kept(st: EncoderState, f: Frame, q: int)
    requires
        st.params.min_quality <= MAX_QUALITY,
        st.quality.0 >= st.params.min_quality,
    ensures
        st.after(f).quality.0 >= st.params.min_quality,
        st.after(f).params == st.params,
        st.with_quality(q).quality.0 >= st.params.min_quality,
        st.with_quality(q).params == st.params,
{
    law_quality_floor(q, st.params.min_quality as int);
    match adjusted(st.params, st.quality.0, wrap32(st.packet(f).len() as int)) {
        Some(a) => {
            law_quality_floor(a, st.params.min_quality as int);
        },
        None => {},
    }
}

/// A quality that selects its own preset is that of a preset, or below all of
/// them.
proof fn lemma_own_quality(q: int) -> (j: int)
    requires
        preset_of(q).0 == q,
    ensures
        q < 36 || (0 <= j < QUALITY_COUNT && q == 100 - QUALITY@[j]),
        q < 36 ==> preset_of(q) == (q, 0int),
{
    lemma_preset_found(q, 0);
    if q < 36 {
        lemma_preset_gaps(24);
        assert forall|k: int| 0 <= k < QUALITY_COUNT implies #[trigger] QUALITY@[k] < 100 - q by {
            if k < 24 {
                lemma_multipliers_grow(k, 24);
            }
        }
    } else {
        lemma_preset_gaps(24);
        assert(QUALITY@[24] >= 100 - q);
    }
    preset_of(q).1
}

/// Asking for less than the quality that is in force lowers it, unless there
/// is nothing between it and the floor.
proof fn lemma_lowered(q0: int, a: int, m: int)
    requires
        m <= MAX_QUALITY,
        preset_of(q0).0 == q0,
        a < q0,
        m < q0,
    ensures
        chosen(a, m).0 <= q0,
        preset_of(m).0 == m ==> chosen(a, m).0 < q0,
{
    let h = held_quality(a, m);
    let j = lemma_own_quality(q0);
    lemma_preset_found(h, 0);
    let (e, i) = preset_of(h);
    assert(e <= h < q0);
    if e < m && i > 0 {
        if q0 >= 36 {
            assert(QUALITY@[j] < 100 - h);
            assert(j < i);
            if j < i - 1 {
                lemma_multipliers_grow(j, i - 1);
            }
        }
        if preset_of(m).0 == m {
            let k = lemma_own_quality(m);
            if m >= 36 {
                lemma_preset_greatest(h, k);
            } else {
                lemma_preset_gaps(i);
            }
        }
    }
}

/// Asking for as much as the next step raises the quality, but for the coarsest
/// preset, which the step does not leave.
proof fn lemma_raised(q0: int, a: int, m: int)
    requires
        m <= q0 < MAX_QUALITY,
        preset_of(q0).0 == q0,
        a == q0 + (if q0 < 76 {
            4int
        } else if q0 < 92 {
            2
        } else {
            1
        }),
    ensures
        chosen(a, m).0 >= q0,
        q0 != 36 ==> chosen(a, m).0 > q0,
{
    let j = lemma_own_quality(q0);
    let h = held_quality(a, m);
    assert(h == a);
    lemma_preset_found(h, 0);
    let (e, i) = preset_of(h);
    if q0 < 36 {
        lemma_preset_gaps(24);
        if h >= 36 {
            lemma_preset_greatest(h, 24);
        } else {
            assert(preset_of(h).0 == h) by {
                if !(e == h && i == 0) {
                    if i > 0 {
                        lemma_preset_gaps(i);
                    }
                }
            }
        }
    } else {
        lemma_preset_greatest(h, j);
        if q0 != 36 {
            if j == 0 {
                assert(QUALITY@[0] == 1);
            }
            lemma_preset_gaps(j);
            lemma_preset_greatest(h, j - 1);
        }
    }
    if e < m && i > 0 {
        lemma_preset_gaps(i);
    }
}

/// How the rate control moves a quality that the encoder selected. Within the
/// window the quality stays. A smaller frame raises it until the ceiling is
/// reached, except that the coarsest preset is kept: the step from there ends
/// at the same preset. A larger frame lowers it until the floor is reached; a
/// floor that is no preset may keep it at the next preset above.
pub proof fn law_rate_control(st: EncoderState, f: Frame)
    requires
        0 < st.params.frame_min <= st.params.frame_max,
        st.params.min_quality <= st.quality.0,
        st.params.min_quality <= MAX_QUALITY,
        preset_of(st.quality.0) == st.quality,
        st.packet(f).len() <= i32::MAX,
    ensures
        ({
            let (len, p) = (st.packet(f).len(), st.params);
            let (before, after) = (st.quality.0, st.after(f).quality.0);
            &&& p.frame_min <= len <= p.frame_max ==> st.after(f).quality == st.quality
            &&& len < p.frame_min ==> after >= before
            &&& len < p.frame_min && before < MAX_QUALITY && before != 36 ==> after > before
            &&& len > p.frame_max ==> after <= before
            &&& len > p.frame_max && before > p.min_quality && preset_of(p.min_quality as int).0
                == p.min_quality ==> after < before
        }),
{
    let len = st.packet(f).len() as int;
    let (q, m) = (st.quality.0, st.params.min_quality as int);
    assert(wrap32(len) == len);
    assert(len > 0);
    if len < st.params.frame_min {
        if q < MAX_QUALITY {
            lemma_raised(q, adjusted(st.params, q, len)->0, m);
        } else if q == MAX_QUALITY {
            assert(chosen(q + 1, m) == chosen(q, m));
        }
    } else if len > st.params.frame_max {
        if q > m {
            lemma_lowered(q, adjusted(st.params, q, len)->0, m);
        }
    }
}

/// The state of a new encoder.
pub open spec fn fresh(config: EncoderConfig, l: Layout) -> EncoderState {
    EncoderState {
        layout: l,
        params: default_parameters(config.profile, config.height as int),
        quality: (0, 0),
        threads: if config.threads == 0 {
            1
        } else {
            config.threads as int
        },
        planes8: filled(l, FILL8@),
        planes16: filled(l, FILL16@),
    }.with_quality(80)
}

/// Compresses frames into VMX.
pub struct Encoder {
    layout: Layout,
    params: EncodingParameters,
    quality: i32,
    preset: usize,
    presets: Vec<QuantTables>,
    threads: usize,
    planes8: Option<Planes>,
    planes16: Option<Planes>,
}

impl View for Encoder {
    type V = EncoderState;

    closed spec fn view(&self) -> EncoderState {
        EncoderState {
            layout: self.layout,
            params: self.params,
            quality: (self.quality as int, self.preset as int),
            threads: self.threads as int,
            planes8: match self.planes8 {
                Some(p) => p@,
                None => filled(self.layout, FILL8@),
            },
            planes16: match self.planes16 {
                Some(p) => p@,
                None => filled(self.layout, FILL16@),
            },
        }
    }
}

/// Planes filled with 8-bit values hold 8-bit values.
proof fn lemma_filled_narrow(l: Layout)
    ensures
        all_narrow(filled(l, FILL8@)),
{
}

/// Builds the tables of every preset.
pub fn all_presets() -> (r: Vec<QuantTables>)
    ensures
        r@.len() == QUALITY_COUNT,
        forall|i: int| 0 <= i < r@.len() ==> (#[trigger] r@[i]).of_preset(i),
{
    let mut v: Vec<QuantTables> = Vec::new();
    let mut i: usize = 0;
    while i < QUALITY_COUNT
        invariant
            i <= QUALITY_COUNT,
            v@.len() == i,
            forall|k: int| 0 <= k < i ==> (#[trigger] v@[k]).of_preset(k),
        decreases QUALITY_COUNT - i,
    {
        v.push(QuantTables::new(i));
        i = i + 1;
    }
    v
}

/// The low 32 bits of a length, as a signed number.
fn low_word(n: usize) -> (r: i32)
    ensures
        r == wrap32(n as int),
{
    let m: u64 = n as u64 % 0x1_0000_0000;
    if m >= 0x8000_0000 {
        (m as i64 - 0x1_0000_0000) as i32
    } else {
        m as i32
    }
}

impl Encoder {
    /// The tables and planes are those of the layout.
    pub closed spec fn wf(self) -> bool {
        &&& self.layout.wf()
        &&& self.params.dc_shift <= 15
        &&& self.preset < QUALITY_COUNT
        &&& self.presets@.len() == QUALITY_COUNT
        &&& forall|i: int| 0 <= i < QUALITY_COUNT ==> (#[trigger] self.presets@[i]).of_preset(i)
        &&& match self.planes8 {
            Some(p) => planes_fit(p@, self.layout) && all_narrow(p@),
            None => true,
        }
        &&& match self.planes16 {
            Some(p) => planes_fit(p@, self.layout),
            None => true,
        }
    }

    /// Creates an encoder.
    pub fn new(config: EncoderConfig) -> (r: Result<Self, Error>)
        ensures
            match r {
                Ok(e) => {
                    &&& e.wf()
                    &&& e@.layout.wf()
                    &&& e@.layout.width == config.width
                    &&& e@.layout.height == config.height
                    &&& e@ == fresh(config, e@.layout)
                },
                Err(e) => {
                    &&& !super::layout::codable(config.width as int, config.height as int)
                    &&& e == (Error::InvalidDimensions {
                        width: config.width,
                        height: config.height,
                    })
                },
            },
    {
        let layout: Layout = match Layout::new(config.width, config.height) {
            Ok(l) => l,
            Err(e) => {
                return Err(e);
            },
        };
        let params: EncodingParameters = find_parameters(config.profile, config.height);
        let mut e = Encoder {
            layout,
            params,
            quality: 0,
            preset: 0,
            presets: all_presets(),
            threads: if config.threads == 0 {
                1
            } else {
                config.threads
            },
            planes8: None,
            planes16: None,
        };
        e.set_quality(80);
        Ok(e)
    }

    /// Sets the quality (0..=100, clamped to `min_quality..=98`) for the next
    /// frame, overriding the rate control for that frame.
    pub fn set_quality(&mut self, q: i32)
        requires
            old(self).wf(),
        ensures
            final(self).wf(),
            final(self)@ == old(self)@.with_quality(q as int),
            old(self)@.params.min_quality <= MAX_QUALITY
                ==> old(self)@.params.min_quality <= final(self)@.quality.0 <= MAX_QUALITY,
    {
        proof {
            if self.params.min_quality <= MAX_QUALITY {
                law_quality_floor(q as int, self.params.min_quality as int);
            }
        }
        self.choose_quality(q as i64);
    }

    fn choose_quality(&mut self, q: i64)
        requires
            old(self).wf(),
        ensures
            final(self).wf(),
            final(self)@ == old(self)@.with_quality(q as int),
    {
        let q: i64 = if q > MAX_QUALITY as i64 {
            MAX_QUALITY as i64
        } else {
            q
        };
        let q: i32 = if q < self.params.min_quality as i64 {
            self.params.min_quality
        } else {
            q as i32
        };
        let (e, i): (i32, usize) = quality_preset(q);
        if e < self.params.min_quality && i > 0 {
            self.quality = 100 - QUALITY[i - 1] as i32;
            self.preset = i - 1;
        } else {
            self.quality = e;
            self.preset = i;
        }
    }

    /// Quality that will be used for the next frame.
    pub fn quality(&self) -> (r: i32)
        ensures
            r == self@.quality.0,
    {
        self.quality
    }

    /// Current rate-control parameters.
    pub fn encoding_parameters(&self) -> (r: EncodingParameters)
        ensures
            r == self@.params,
    {
        self.params
    }

    /// Replaces the rate-control parameters from the next frame on.
    pub fn set_encoding_parameters(&mut self, p: EncodingParameters)
        requires
            old(self).wf(),
        ensures
            final(self).wf(),
            final(self)@ == (EncoderState {
                params: EncodingParameters {
                    dc_shift: if p.dc_shift > 15 {
                        15
                    } else {
                        p.dc_shift
                    },
                    ..p
                },
                ..old(self)@
            }),
    {
        let shift: u32 = if p.dc_shift > 15 {
            15
        } else {
            p.dc_shift
        };
        self.params = EncodingParameters { dc_shift: shift, ..p };
    }

    /// Changes the number of worker threads (output is unaffected).
    pub fn set_threads(&mut self, threads: usize)
        requires
            old(self).wf(),
        ensures
            final(self).wf(),
            final(self)@ == (EncoderState {
                threads: if threads == 0 {
                    1
                } else {
                    threads as int
                },
                ..old(self)@
            }),
    {
        self.threads = if threads == 0 {
            1
        } else {
            threads
        };
    }

    /// Encodes one frame and returns the compressed VMX frame.
    ///
    /// After each frame the quality is nudged towards the profile's bitrate
    /// window.
    pub fn encode(&mut self, frame: &Frame) -> (r: Result<Vec<u8>, Error>)
        requires
            old(self).wf(),
        ensures
            final(self).wf(),
            match old(self)@.refuses(*frame) {
                Some(e) => r == Err::<Vec<u8>, Error>(e) && final(self)@ == old(self)@,
                None => {
                    &&& r is Ok
                    &&& r->Ok_0@ == old(self)@.packet(*frame)
                    &&& final(self)@ == old(self)@.after(*frame)
                },
            },
    {
        let mut out: Vec<u8> = Vec::new();
        match self.encode_into(frame, &mut out) {
            Ok(()) => {
                assert(out@ =~= old(self)@.packet(*frame));
                Ok(out)
            },
            Err(e) => Err(e),
        }
    }

    /// Like [`Encoder::encode`], appending to `out`.
    pub fn encode_into(&mut self, frame: &Frame, out: &mut Vec<u8>) -> (r: Result<(), Error>)
        requires
            old(self).wf(),
        ensures
            final(self).wf(),
            match old(self)@.refuses(*frame) {
                Some(e) => {
                    &&& r == Err::<(), Error>(e)
                    &&& final(self)@ == old(self)@
                    &&& final(out)@ == old(out)@
                },
                None => {
                    &&& r is Ok
                    &&& final(out)@ == old(out)@ + old(self)@.packet(*frame)
                    &&& final(self)@ == old(self)@.after(*frame)
                },
            },
    {
        let l: Layout = self.layout;
        if frame.width != l.width || frame.height != l.height {
            return Err(Error::FrameSizeMismatch);
        }
        match frame.validate() {
            Ok(()) => {},
            Err(e) => {
                return Err(e);
            },
        }
        let halved: bool = !frame.format.can_decode();
        if halved && frame.height % 2 != 0 {
            return Err(Error::InvalidFrame("4:2:0 input needs an even height"));
        }
        let interlaced: bool = frame.interlaced && l.interlace_capable();
        if halved && interlaced {
            return Err(Error::Unsupported("interlaced 4:2:0 input"));
        }
        let n: usize = if frame.format.has_alpha() {
            4
        } else {
            3
        };
        let deep: bool = frame.format.is_10bit();
        let depth: Depth = if deep {
            Depth::Ten
        } else {
            Depth::Eight
        };
        let dc_shift: u32 = self.params.dc_shift;
        let ghost st = self@;

        let kept: Option<Planes> = if deep {
            self.planes16.take()
        } else {
            self.planes8.take()
        };
        let mut pl: Planes = match kept {
            Some(p) => p,
            None => if deep {
                Planes::new(&l, &FILL16)
            } else {
                Planes::new(&l, &FILL8)
            },
        };
        proof {
            lemma_filled_narrow(l);
        }
        frame_to_planes(frame, &l, interlaced, &mut pl);
        let (dc, ac): (Vec<Vec<u8>>, Vec<Vec<u8>>) = encode_slices(
            &pl,
            &l,
            n,
            depth,
            &self.presets[self.preset].encode,
            dc_shift,
        );
        assert(self.presets@[self.preset as int].of_preset(self.preset as int));
        if deep {
            self.planes16 = Some(pl);
        } else {
            self.planes8 = Some(pl);
        }
        let start: usize = out.len();
        crate::vmx::layout::write(out, &l, interlaced, self.quality, dc_shift, &dc, &ac);
        assert(out@ == old(out)@ + st.packet(*frame));
        self.adjust_bitrate(low_word(out.len() - start));
        Ok(())
    }

    /// Moves the quality after a frame of `len` bytes.
    fn adjust_bitrate(&mut self, len: i32)
        requires
            old(self).wf(),
        ensures
            final(self).wf(),
            final(self)@ == (match adjusted(old(self)@.params, old(self)@.quality.0, len as int) {
                Some(q) => old(self)@.with_quality(q),
                None => old(self)@,
            }),
    {
        let min: i32 = self.params.frame_min;
        let max: i32 = self.params.frame_max;
        if len == 0 || min == 0 || max == 0 {
            return ;
        }
        let q: i64 = self.quality as i64;
        let floor: i64 = self.params.min_quality as i64;
        if len < min {
            if q < floor {
                self.choose_quality(floor);
            } else if q < 76 {
                self.choose_quality(q + 4);
            } else if q < 92 {
                self.choose_quality(q + 2);
            } else if q < 99 {
                self.choose_quality(q + 1);
            }
        } else if len > max {
            if q > 92 {
                self.choose_quality(q - 1);
            } else if q > floor {
                self.choose_quality(q - 2);
            } else {
                self.choose_quality(floor);
            }
        }
    }
}

} // verus!
