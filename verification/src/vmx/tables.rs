//! Constant tables of the format.

use vstd::prelude::*;

verus! {

/// Rows of one slice. Every plane is coded in horizontal slices of 16 lines.
pub const SLICE_HEIGHT: usize = 16;

/// Number of quality presets.
pub const QUALITY_COUNT: usize = 25;

/// Quantiser multipliers, indexed by quality preset (`100 - quality`).
pub const QUALITY: [u16; 25] = [
    1, 2, 3, 4, 5, 6, 7, 8, 10, 12, 14, 16, 18, 20, 22, 24, 28, 32, 36, 40, 44, 48, 52, 56, 64,
];

/// Minimum quality of the OMT profiles.
pub const OMT_MIN_QUALITY: i32 = 52;

/// Upper bound accepted by `set_quality`.
pub const MAX_QUALITY: i32 = 98;

/// Base quantisation matrix (natural order).
pub const DEFAULT_QUANTIZATION_MATRIX: [u16; 64] = [
    16, 16, 19, 22, 26, 27, 29, 34,
    16, 16, 22, 24, 27, 29, 34, 37,
    19, 22, 26, 27, 29, 34, 34, 38,
    22, 22, 26, 27, 29, 34, 37, 40,
    22, 26, 27, 29, 32, 35, 40, 48,
    26, 27, 29, 32, 35, 40, 48, 58,
    26, 27, 29, 34, 38, 46, 56, 69,
    27, 29, 35, 38, 46, 56, 69, 83,
];

/// Zig-zag scan: `ZIGZAG[i]` is the natural index of the i-th coefficient.
pub const ZIGZAG: [usize; 64] = [
    0, 1, 8, 16, 9, 2, 3, 10,
    17, 24, 32, 25, 18, 11, 4, 5,
    12, 19, 26, 33, 40, 48, 41, 34,
    27, 20, 13, 6, 7, 14, 21, 28,
    35, 42, 49, 56, 57, 50, 43, 36,
    29, 22, 15, 23, 30, 37, 44, 51,
    58, 59, 52, 45, 38, 31, 39, 46,
    53, 60, 61, 54, 47, 55, 62, 63,
];

/// The bitrate table, one row per profile and size class: profile, minimum
/// height, target Mbit/s, DC shift, minimum quality, and the smallest and
/// largest frame in bytes that keep the quality as it is (5 % either side of
/// the target at 60 frames a second).
///
/// Highest resolutions first; the first row whose profile matches and whose
/// minimum height is at most the frame height wins.
pub const BITRATE_TABLE: [[i32; 7]; 36] = [
    [99, 4320, 1320, 0, 80, 2739404, 3027763],
    [199, 4320, 1200, 0, 52, 2490368, 2752512],
    [66, 4320, 660, 3, 60, 1369702, 1513881],
    [166, 4320, 600, 3, 52, 1245184, 1376256],
    [33, 4320, 440, 3, 60, 913134, 1009254],
    [133, 4320, 400, 3, 52, 830122, 917504],
    [99, 2160, 800, 0, 80, 1660245, 1835008],
    [199, 2160, 600, 0, 52, 1245184, 1376256],
    [66, 2160, 400, 3, 60, 830122, 917504],
    [166, 2160, 300, 3, 52, 622592, 688128],
    [33, 2160, 266, 3, 60, 552031, 610140],
    [133, 2160, 200, 3, 52, 415061, 458752],
    [99, 1440, 504, 0, 80, 1045954, 1156055],
    [199, 1440, 450, 0, 52, 933888, 1032192],
    [66, 1440, 252, 3, 60, 522977, 578027],
    [166, 1440, 300, 0, 52, 622592, 688128],
    [33, 1440, 168, 3, 60, 348651, 385351],
    [133, 1440, 120, 3, 52, 249036, 275251],
    [99, 1080, 260, 0, 80, 539579, 596377],
    [199, 1080, 260, 0, 52, 539579, 596377],
    [66, 1080, 130, 3, 60, 269789, 298188],
    [166, 1080, 200, 0, 52, 415061, 458752],
    [33, 1080, 86, 3, 60, 178476, 197263],
    [133, 1080, 86, 3, 52, 178476, 197263],
    [99, 720, 136, 0, 80, 282241, 311951],
    [199, 720, 136, 0, 52, 282241, 311951],
    [66, 720, 68, 3, 60, 141120, 155975],
    [166, 720, 68, 3, 52, 141120, 155975],
    [33, 720, 45, 3, 60, 93388, 103219],
    [133, 720, 45, 3, 52, 93388, 103219],
    [99, 0, 72, 0, 80, 149422, 165150],
    [199, 0, 72, 0, 52, 149422, 165150],
    [66, 0, 36, 3, 60, 74711, 82575],
    [166, 0, 36, 3, 52, 74711, 82575],
    [33, 0, 24, 3, 60, 49807, 55050],
    [133, 0, 24, 3, 52, 49807, 55050],
];

// ---------------------------------------------------------------------------
// Forward transform (fixed point) constants.
// ---------------------------------------------------------------------------

pub const FDCT_TAN1: i16 = 13036;

pub const FDCT_TAN2: i16 = 27146;

/// `tan(3 pi / 16)` less one, in 16-bit fixed point.
pub const FDCT_TAN3: i16 = -21746;

pub const FDCT_SQRT2: i16 = 23170;

pub const FTAB1: [i16; 32] = [
    16384, 16384, 22725, 19266, -8867, -21407, -22725, -12873,
    16384, 16384, 12873, 4520, 21407, 8867, 19266, -4520,
    16384, -16384, 12873, -22725, 21407, -8867, 19266, -22725,
    -16384, 16384, 4520, 19266, 8867, -21407, 4520, -12873,
];

pub const FTAB2: [i16; 32] = [
    22725, 22725, 31521, 26722, -12299, -29692, -31521, -17855,
    22725, 22725, 17855, 6270, 29692, 12299, 26722, -6270,
    22725, -22725, 17855, -31521, 29692, -12299, 26722, -31521,
    -22725, 22725, 6270, 26722, 12299, -29692, 6270, -17855,
];

pub const FTAB3: [i16; 32] = [
    21407, 21407, 29692, 25172, -11585, -27969, -29692, -16819,
    21407, 21407, 16819, 5906, 27969, 11585, 25172, -5906,
    21407, -21407, 16819, -29692, 27969, -11585, 25172, -29692,
    -21407, 21407, 5906, 25172, 11585, -27969, 5906, -16819,
];

pub const FTAB4: [i16; 32] = [
    19266, 19266, 26722, 22654, -10426, -25172, -26722, -15137,
    19266, 19266, 15137, 5315, 25172, 10426, 22654, -5315,
    19266, -19266, 15137, -26722, 25172, -10426, 22654, -26722,
    -19266, 19266, 5315, 22654, 10426, -25172, 5315, -15137,
];

// ---------------------------------------------------------------------------
// Inverse transform constants.
// ---------------------------------------------------------------------------

pub const TG_1_16: i16 = 13036;

pub const TG_2_16: i16 = 27146;

pub const TG_3_16: i16 = -21746;

pub const COS_4_16: i16 = -19195;

pub const TAB_I_04: [i16; 32] = [
    16384, 21407, 16384, 8867, 16384, -8867, 16384, -21407,
    16384, 8867, -16384, -21407, -16384, 21407, 16384, -8867,
    22725, 19266, 19266, -4520, 12873, -22725, 4520, -12873,
    12873, 4520, -22725, -12873, 4520, 19266, 19266, -22725,
];

pub const TAB_I_17: [i16; 32] = [
    22725, 29692, 22725, 12299, 22725, -12299, 22725, -29692,
    22725, 12299, -22725, -29692, -22725, 29692, 22725, -12299,
    31521, 26722, 26722, -6270, 17855, -31521, 6270, -17855,
    17855, 6270, -31521, -17855, 6270, 26722, 26722, -31521,
];

pub const TAB_I_26: [i16; 32] = [
    21407, 27969, 21407, 11585, 21407, -11585, 21407, -27969,
    21407, 11585, -21407, -27969, -21407, 27969, 21407, -11585,
    29692, 25172, 25172, -5906, 16819, -29692, 5906, -16819,
    16819, 5906, -29692, -16819, 5906, 25172, 25172, -29692,
];

pub const TAB_I_35: [i16; 32] = [
    19266, 25172, 19266, 10426, 19266, -10426, 19266, -25172,
    19266, 10426, -19266, -25172, -19266, 25172, 19266, -10426,
    26722, 22654, 22654, -5315, 15137, -26722, 5315, -15137,
    15137, 5315, -26722, -15137, 5315, 22654, 22654, -26722,
];

} // verus!
