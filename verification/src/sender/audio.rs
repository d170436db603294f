//! Packing audio for the wire.

use crate::frame::{AudioHeader, CODEC_FPA1};
use crate::media::audio::{active_count, audio_samples, channel_samples, is_active};
use crate::wire::{law_le32, le32, lemma_le32_len, put_u32};
use vstd::prelude::*;

verus! {

/// The plane of a channel.
pub open spec fn plane_of(samples: Seq<u32>, spc: int, ch: int) -> Seq<u32> {
    samples.subrange(ch * spc, ch * spc + spc)
}

/// A channel is left out when every bit of it is zero, so that a negative zero
/// counts as sound.
pub open spec fn is_silent(plane: Seq<u32>) -> bool {
    forall|i: int| 0 <= i < plane.len() ==> #[trigger] plane[i] == 0
}

/// Bit `ch` is set for each of the first `n` channels that is not silent.
pub open spec fn active_mask(samples: Seq<u32>, spc: int, n: int) -> u32
    decreases n,
{
    if n <= 0 {
        0
    } else if is_silent(plane_of(samples, spc, n - 1)) {
        active_mask(samples, spc, n - 1)
    } else {
        active_mask(samples, spc, n - 1) | (1u32 << ((n - 1) as u32))
    }
}

/// The bytes of samples.
pub open spec fn sample_bytes(s: Seq<u32>) -> Seq<u8>
    decreases s.len(),
{
    if s.len() == 0 {
        Seq::empty()
    } else {
        sample_bytes(s.drop_last()) + le32(s.last() as int)
    }
}

/// The bytes of those of the first `n` channels that are not silent.
pub open spec fn packed(samples: Seq<u32>, spc: int, n: int) -> Seq<u8>
    decreases n,
{
    if n <= 0 {
        Seq::empty()
    } else if is_silent(plane_of(samples, spc, n - 1)) {
        packed(samples, spc, n - 1)
    } else {
        packed(samples, spc, n - 1) + sample_bytes(plane_of(samples, spc, n - 1))
    }
}

/// Whether a plane is silent.
fn silent(plane: &[u32]) -> (r: bool)
    ensures
        r == is_silent(plane@),
{
    let mut i: usize = 0;
    while i < plane.len()
        invariant
            i <= plane@.len(),
            forall|k: int| 0 <= k < i ==> #[trigger] plane@[k] == 0,
        decreases plane@.len() - i,
    {
        if plane[i] != 0 {
            assert(plane@[i as int] != 0);
            return false;
        }
        i = i + 1;
    }
    true
}

/// Appends the bytes of samples.
fn push_samples(plane: &[u32], out: &mut Vec<u8>)
    ensures
        final(out)@ == old(out)@ + sample_bytes(plane@),
{
    let mut i: usize = 0;
    assert(plane@.take(0) =~= Seq::empty());
    assert(out@ =~= old(out)@ + sample_bytes(plane@.take(0)));
    while i < plane.len()
        invariant
            i <= plane@.len(),
            out@ == old(out)@ + sample_bytes(plane@.take(i as int)),
        decreases plane@.len() - i,
    {
        put_u32(out, plane[i]);
        proof {
            assert(plane@.take(i + 1).drop_last() =~= plane@.take(i as int));
            assert(out@ =~= old(out)@ + sample_bytes(plane@.take(i + 1)));
        }
        i = i + 1;
    }
    assert(plane@.take(i as int) =~= plane@);
}

/// Which channels are not silent, and their bytes.
pub fn pack_audio(samples: &[u32], channels: usize) -> (r: (u32, Vec<u8>))
    requires
        1 <= channels <= 32,
        samples@.len() % channels as nat == 0,
    ensures
        r.0 == active_mask(samples@, samples@.len() as int / channels as int, channels as int),
        r.1@ == packed(samples@, samples@.len() as int / channels as int, channels as int),
{
    let n: usize = samples.len();
    let spc: usize = n / channels;
    proof {
        assert(spc * channels == n) by (nonlinear_arith)
            requires
                spc == n / channels,
                n % channels == 0,
                channels >= 1,
        ;
    }
    let mut active: u32 = 0;
    let mut data: Vec<u8> = Vec::new();
    let mut ch: usize = 0;
    while ch < channels
        invariant
            ch <= channels <= 32,
            n == samples@.len(),
            spc * channels == n,
            active == active_mask(samples@, spc as int, ch as int),
            data@ == packed(samples@, spc as int, ch as int),
        decreases channels - ch,
    {
        proof {
            assert(0 <= ch * spc && ch * spc + spc <= spc * channels) by (nonlinear_arith)
                requires
                    0 <= ch,
                    ch + 1 <= channels,
                    0 <= spc,
            ;
        }
        let plane: &[u32] = vstd::slice::slice_subrange(samples, ch * spc, ch * spc + spc);
        if !silent(plane) {
            active = active | (1u32 << (ch as u32));
            push_samples(plane, &mut data);
        }
        ch = ch + 1;
    }
    (active, data)
}

/// The header of packed audio.
pub open spec fn audio_header(channels: int, spc: int, sample_rate: i32, active: u32) -> AudioHeader {
    AudioHeader {
        codec: CODEC_FPA1,
        sample_rate,
        samples_per_channel: spc as i32,
        channels: channels as i32,
        active_channels: active,
        reserved: 0,
    }
}

// ---------------------------------------------------------------------------
// What is packed is unpacked
// ---------------------------------------------------------------------------

/// Setting a bit sets that bit and no other.
proof fn lemma_set_bit(m: u32, k: u32, j: u32)
    by (bit_vector)
    requires
        k < 32,
        j < 32,
    ensures
        (((m | (1u32 << k)) >> j) & 1u32 == 1u32) == (j == k || ((m >> j) & 1u32 == 1u32)),
{
}

/// No bit of zero is set.
proof fn lemma_no_bit(j: u32)
    by (bit_vector)
    requires
        j < 32,
    ensures
        (0u32 >> j) & 1u32 == 0u32,
{
}

/// A bit tells whether its channel is silent.
proof fn lemma_mask(samples: Seq<u32>, spc: int, n: int, ch: int)
    requires
        0 <= ch < 32,
        0 <= n <= 32,
    ensures
        is_active(active_mask(samples, spc, n), ch) == (ch < n && !is_silent(plane_of(samples, spc, ch))),
    decreases n,
{
    if n <= 0 {
        lemma_no_bit(ch as u32);
    } else {
        lemma_mask(samples, spc, n - 1, ch);
        lemma_set_bit(active_mask(samples, spc, n - 1), (n - 1) as u32, ch as u32);
    }
}

/// Counts that agree on every bit agree.
proof fn lemma_same_count(a: u32, b: u32, n: int)
    requires
        0 <= n <= 32,
        forall|ch: int| 0 <= ch < n ==> #[trigger] is_active(a, ch) == is_active(b, ch),
    ensures
        active_count(a, n) == active_count(b, n),
    decreases n,
{
    if n > 0 {
        lemma_same_count(a, b, n - 1);
        assert(is_active(a, n - 1) == is_active(b, n - 1));
    }
}

/// Bytes of samples, and where each stands.
proof fn lemma_sample_bytes(s: Seq<u32>)
    ensures
        sample_bytes(s).len() == 4 * s.len(),
        forall|j: int|
            0 <= j < s.len() ==> #[trigger] sample_bytes(s).subrange(4 * j, 4 * j + 4) == le32(s[j] as int),
    decreases s.len(),
{
    if s.len() > 0 {
        let t = s.drop_last();
        lemma_sample_bytes(t);
        lemma_le32_len(s.last() as int);
        let b = sample_bytes(s);
        assert forall|j: int| 0 <= j < s.len() implies #[trigger] b.subrange(4 * j, 4 * j + 4) == le32(s[j] as int) by {
            if j < t.len() {
                assert(b.subrange(4 * j, 4 * j + 4) =~= sample_bytes(t).subrange(4 * j, 4 * j + 4));
                assert(t[j] == s[j]);
            } else {
                assert(b.subrange(4 * j, 4 * j + 4) =~= le32(s.last() as int));
            }
        }
    }
}

/// How long packed audio is.
proof fn lemma_packed_len(samples: Seq<u32>, spc: int, n: int)
    requires
        0 <= n <= 32,
        0 <= spc,
        n * spc <= samples.len(),
    ensures
        packed(samples, spc, n).len() == 4 * active_count(active_mask(samples, spc, n), n) * spc,
        0 <= active_count(active_mask(samples, spc, n), n) <= n,
    decreases n,
{
    if n > 0 {
        assert((n - 1) * spc + spc == n * spc && (n - 1) * spc >= 0) by (nonlinear_arith)
            requires
                n >= 1,
                spc >= 0,
        ;
        lemma_packed_len(samples, spc, n - 1);
        let m = active_mask(samples, spc, n);
        let m0 = active_mask(samples, spc, n - 1);
        assert forall|ch: int| 0 <= ch < n - 1 implies #[trigger] is_active(m, ch) == is_active(m0, ch) by {
            lemma_mask(samples, spc, n, ch);
            lemma_mask(samples, spc, n - 1, ch);
        }
        lemma_same_count(m, m0, n - 1);
        lemma_mask(samples, spc, n, n - 1);
        let c = active_count(m0, n - 1);
        if !is_silent(plane_of(samples, spc, n - 1)) {
            lemma_sample_bytes(plane_of(samples, spc, n - 1));
            assert(4 * c * spc + 4 * spc == 4 * (c + 1) * spc) by (nonlinear_arith);
        }
    } else {
        assert(4 * 0 * spc == 0) by (nonlinear_arith);
    }
}

/// The samples of a channel are those that were packed.
proof fn lemma_channel(samples: Seq<u32>, spc: int, n: int, ch: int)
    requires
        0 <= ch < n <= 32,
        0 <= spc,
        n * spc <= samples.len(),
    ensures
        channel_samples(packed(samples, spc, n), active_mask(samples, spc, n), spc, ch) == plane_of(
            samples,
            spc,
            ch,
        ),
    decreases n,
{
    let m = active_mask(samples, spc, n);
    let data = packed(samples, spc, n);
    assert((n - 1) * spc + spc == n * spc && (n - 1) * spc >= 0) by (nonlinear_arith)
        requires
            n >= 1,
            spc >= 0,
    ;
    assert(0 <= ch * spc && ch * spc + spc <= n * spc) by (nonlinear_arith)
        requires
            0 <= ch,
            ch + 1 <= n,
            0 <= spc,
    ;
    let plane = plane_of(samples, spc, ch);
    lemma_mask(samples, spc, n, ch);
    if is_silent(plane) {
        assert(channel_samples(data, m, spc, ch) =~= plane);
    } else if ch < n - 1 {
        lemma_channel(samples, spc, n - 1, ch);
        let m0 = active_mask(samples, spc, n - 1);
        let data0 = packed(samples, spc, n - 1);
        lemma_mask(samples, spc, n - 1, ch);
        assert forall|k: int| 0 <= k < ch implies #[trigger] is_active(m, k) == is_active(m0, k) by {
            lemma_mask(samples, spc, n, k);
            lemma_mask(samples, spc, n - 1, k);
        }
        lemma_same_count(m, m0, ch);
        lemma_packed_len(samples, spc, n - 1);
        crate::media::audio::lemma_active_count(m0, ch + 1, n - 1);
        crate::media::audio::lemma_active_count(m0, ch, ch);
        let c = active_count(m0, ch);
        let all = active_count(m0, n - 1);
        assert(4 * (c * spc) + 4 * spc <= 4 * all * spc && c * spc >= 0) by (nonlinear_arith)
            requires
                0 <= c,
                c + 1 <= all,
                0 <= spc,
        ;
        assert forall|j: int| 0 <= j < spc implies channel_samples(data, m, spc, ch)[j] == plane[j] by {
            assert(channel_samples(data0, m0, spc, ch)[j] == plane[j]);
            let at = 4 * (c * spc + j);
            assert(data[at] == data0[at] && data[at + 1] == data0[at + 1] && data[at + 2] == data0[at + 2] && data[at
                + 3] == data0[at + 3]);
        }
        assert(channel_samples(data, m, spc, ch) =~= plane);
    } else {
        let m0 = active_mask(samples, spc, n - 1);
        let data0 = packed(samples, spc, n - 1);
        assert forall|k: int| 0 <= k < ch implies #[trigger] is_active(m, k) == is_active(m0, k) by {
            lemma_mask(samples, spc, n, k);
            lemma_mask(samples, spc, n - 1, k);
        }
        lemma_same_count(m, m0, ch);
        lemma_packed_len(samples, spc, n - 1);
        lemma_sample_bytes(plane);
        let c = active_count(m0, ch);
        assert(4 * (c * spc) == 4 * c * spc) by (nonlinear_arith);
        assert(c * spc >= 0) by (nonlinear_arith)
            requires
                c >= 0,
                spc >= 0,
        ;
        assert forall|j: int| 0 <= j < spc implies channel_samples(data, m, spc, ch)[j] == plane[j] by {
            let at = 4 * (c * spc + j);
            assert(data.subrange(at, at + 4) =~= sample_bytes(plane).subrange(4 * j, 4 * j + 4));
            law_le32(plane[j] as int, data, at);
        }
        assert(channel_samples(data, m, spc, ch) =~= plane);
    }
}

/// The first `k` channels are unpacked as they were.
proof fn lemma_unpacked(samples: Seq<u32>, spc: int, n: int, k: int)
    requires
        0 <= k <= n <= 32,
        0 <= spc,
        n * spc <= samples.len(),
    ensures
        0 <= k * spc <= samples.len(),
        audio_samples(packed(samples, spc, n), active_mask(samples, spc, n), spc, k) == samples.take(k * spc),
    decreases k,
{
    assert(0 <= k * spc <= n * spc) by (nonlinear_arith)
        requires
            0 <= k <= n,
            0 <= spc,
    ;
    if k > 0 {
        lemma_unpacked(samples, spc, n, k - 1);
        lemma_channel(samples, spc, n, k - 1);
        assert((k - 1) * spc + spc == k * spc) by (nonlinear_arith);
        assert(samples.take(k * spc) =~= samples.take((k - 1) * spc) + plane_of(samples, spc, k - 1));
    } else {
        assert(0 * spc == 0) by (nonlinear_arith);
        assert(samples.take(0) =~= Seq::empty());
    }
}

/// Audio that is packed is unpacked bit for bit: the channels that were left
/// out come back as silence.
pub proof fn law_audio_round_trip(samples: Seq<u32>, channels: int, spc: int)
    requires
        0 <= channels <= 32,
        0 <= spc,
        samples.len() == channels * spc,
    ensures
        audio_samples(
            packed(samples, spc, channels),
            active_mask(samples, spc, channels),
            spc,
            channels,
        ) == samples,
        packed(samples, spc, channels).len() == 4 * active_count(
            active_mask(samples, spc, channels),
            channels,
        ) * spc,
{
    lemma_unpacked(samples, spc, channels, channels);
    lemma_packed_len(samples, spc, channels);
    assert(samples.take(channels * spc) =~= samples);
}

/// A channel is sent exactly when some bit of some of its samples is set.
pub proof fn law_only_sound_is_sent(samples: Seq<u32>, channels: int, spc: int, ch: int)
    requires
        0 <= ch < channels <= 32,
        0 <= spc,
        samples.len() == channels * spc,
    ensures
        (active_mask(samples, spc, channels) >> (ch as u32)) & 1 == 1 <==> exists|j: int|
            ch * spc <= j < ch * spc + spc && #[trigger] samples[j] != 0,
{
    lemma_mask(samples, spc, channels, ch);
    let plane = plane_of(samples, spc, ch);
    assert(0 <= ch * spc && ch * spc + spc <= channels * spc) by (nonlinear_arith)
        requires
            0 <= ch,
            ch + 1 <= channels,
            0 <= spc,
    ;
    if !is_silent(plane) {
        let i = choose|i: int| 0 <= i < plane.len() && #[trigger] plane[i] != 0;
        assert(samples[ch * spc + i] != 0);
    } else {
        assert forall|j: int| ch * spc <= j < ch * spc + spc implies #[trigger] samples[j] == 0 by {
            assert(plane[j - ch * spc] == samples[j]);
        }
    }
}

} // verus!
