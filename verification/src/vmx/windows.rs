//! What encoding profiles and qualities ask for.

use super::encoder::{default_parameters, parameters_from, profile_id, EncodingParameters, Profile};
use super::dct::quantiser;
use super::layout::{law_preset_stable, lemma_preset_found, lemma_preset_greatest, preset_of};
use super::tables::{BITRATE_TABLE, DEFAULT_QUANTIZATION_MATRIX, QUALITY, QUALITY_COUNT};
use vstd::prelude::*;

verus! {

/// The parameters in a row of the bitrate table.
spec fn row_parameters(i: int) -> EncodingParameters {
    let row = BITRATE_TABLE@[i]@;
    EncodingParameters { frame_min: row[5], frame_max: row[6], min_quality: row[4], dc_shift: row[3] as u32 }
}

/// The first of the six rows for a height.
spec fn first_row(height: int) -> int {
    if height >= 4320 {
        0
    } else if height >= 2160 {
        6
    } else if height >= 1440 {
        12
    } else if height >= 1080 {
        18
    } else if height >= 720 {
        24
    } else {
        30
    }
}

/// The place of a profile among the six rows.
spec fn row_of(p: Profile) -> int {
    match p {
        Profile::Hq => 0,
        Profile::OmtHq => 1,
        Profile::Sq => 2,
        Profile::OmtSq => 3,
        Profile::Lq => 4,
        Profile::OmtLq => 5,
    }
}

proof fn lemma_found(p: Profile, height: int, i: int)
    requires
        height >= 0,
        0 <= i <= first_row(height) + row_of(p),
    ensures
        parameters_from(profile_id(p), height, i) == row_parameters(first_row(height) + row_of(p)),
    decreases 36 - i,
{
    if i < first_row(height) + row_of(p) {
        let row = BITRATE_TABLE@[i]@;
        assert(!(row[0] == profile_id(p) && height >= row[1]));
        lemma_found(p, height, i + 1);
    }
}

/// A finer profile aims at larger frames: at every height the bitrate window
/// of low quality lies below that of standard quality, and that below the one
/// of high quality. It keeps no less DC precision. Every window spans five
/// percent to either side of its middle.
pub proof fn law_profiles_ordered(height: int)
    requires
        height >= 0,
    ensures
        wider(default_parameters(Profile::Lq, height), default_parameters(Profile::Sq, height)),
        wider(default_parameters(Profile::Sq, height), default_parameters(Profile::Hq, height)),
        wider(default_parameters(Profile::OmtLq, height), default_parameters(Profile::OmtSq, height)),
        wider(default_parameters(Profile::OmtSq, height), default_parameters(Profile::OmtHq, height)),
        forall|p: Profile| spans(#[trigger] default_parameters(p, height)),
{
    lemma_found(Profile::Lq, height, 0);
    lemma_found(Profile::Sq, height, 0);
    lemma_found(Profile::Hq, height, 0);
    lemma_found(Profile::OmtLq, height, 0);
    lemma_found(Profile::OmtSq, height, 0);
    lemma_found(Profile::OmtHq, height, 0);
    assert forall|p: Profile| spans(#[trigger] default_parameters(p, height)) by {
        lemma_found(p, height, 0);
    }
}

/// The second window lies above the first.
pub open spec fn wider(a: EncodingParameters, b: EncodingParameters) -> bool {
    &&& a.frame_min < b.frame_min
    &&& a.frame_max < b.frame_max
    &&& b.dc_shift <= a.dc_shift
}

/// The window is five percent to either side of its middle.
pub open spec fn spans(a: EncodingParameters) -> bool {
    &&& 0 < a.frame_min < a.frame_max
    &&& -200 <= 105 * a.frame_min - 95 * a.frame_max <= 200
    &&& 52 <= a.min_quality <= 80
    &&& a.dc_shift <= 3
}

/// A taller frame gets no fewer bytes.
pub proof fn law_taller_frames_get_more(p: Profile, low: int, high: int)
    requires
        0 <= low <= high,
    ensures
        default_parameters(p, low).frame_min <= default_parameters(p, high).frame_min,
        default_parameters(p, low).frame_max <= default_parameters(p, high).frame_max,
{
    lemma_found(p, low, 0);
    lemma_found(p, high, 0);
}

/// A higher quality quantises no coefficient more coarsely. The step of each AC
/// coefficient is its base step times what the quality in force is short of
/// 100, and that quality is the best preset that is not above what was asked
/// for. The DC step is the same at every quality.
pub proof fn law_quality_sets_the_steps(q: int, q2: int, i: int)
    requires
        36 <= q <= q2 <= 99,
        0 <= i < 64,
    ensures
        ({
            let (e, j) = preset_of(q);
            let (e2, j2) = preset_of(q2);
            &&& e <= q
            &&& e <= e2
            &&& forall|k: int| 0 <= k < QUALITY_COUNT && 100 - #[trigger] QUALITY@[k] <= q ==> 100 - QUALITY@[k] <= e
            &&& 0 < i ==> quantiser(j, i) == DEFAULT_QUANTIZATION_MATRIX@[i] * (100 - e)
            &&& quantiser(j2, i) <= quantiser(j, i)
            &&& quantiser(j, 0) == 16
        }),
{
    reveal(quantiser);
    law_preset_stable(q);
    law_preset_stable(q2);
    lemma_preset_found(q, 0);
    lemma_preset_found(q2, 0);
    let (e, j) = preset_of(q);
    let (e2, j2) = preset_of(q2);
    assert(QUALITY@[24] == 64);
    assert(0 <= j < QUALITY_COUNT && e == 100 - QUALITY@[j]);
    assert(0 <= j2 < QUALITY_COUNT && e2 == 100 - QUALITY@[j2]);
    lemma_preset_greatest(q2, j);
    assert forall|k: int| 0 <= k < QUALITY_COUNT && 100 - #[trigger] QUALITY@[k] <= q implies 100 - QUALITY@[k] <= e by {
        lemma_preset_greatest(q, k);
    }
    let b = DEFAULT_QUANTIZATION_MATRIX@[i] as int;
    let (u, v) = (QUALITY@[j2] as int, QUALITY@[j] as int);
    assert(b * u <= b * v) by (nonlinear_arith)
        requires
            u <= v,
            b >= 0,
    ;
}

} // verus!
