//! Audio frames.

use crate::deframer::{FrameView, OwnedFrame};
use crate::frame::{AudioHeader, ExtendedHeader, CODEC_FPA1};
use crate::media::error::DecodeError;
use crate::wire::{le32_at, read_u32};
use vstd::prelude::*;

verus! {

/// Largest decoded audio frame: samples per channel, times channels, times 4.
pub const MAX_AUDIO_BYTES: usize = 1_048_576;

/// A decoded audio frame: 32-bit float, planar.
#[derive(Clone, Debug, PartialEq, Eq)]
pub struct AudioFrame {
    /// In 100 ns units, as sent.
    pub timestamp: i64,
    /// Samples per second.
    pub sample_rate: i32,
    /// Number of channels, including silent ones.
    pub channels: usize,
    /// Samples in each channel.
    pub samples_per_channel: usize,
    /// The bits of `channels` planes of `samples_per_channel` samples each;
    /// channels the sender left out as silent are zeros.
    pub samples: Vec<u32>,
    /// Bit `i` set when channel `i` was sent, clear when it was silent.
    pub active_channels: u32,
    /// Per-frame XML, exactly as sent; empty if none.
    pub metadata: Vec<u8>,
}

impl Default for AudioFrame {
    fn default() -> (r: Self)
        ensures
            r.timestamp == 0,
            r.sample_rate == 0,
            r.channels == 0,
            r.samples_per_channel == 0,
            r.samples@ == Seq::<u32>::empty(),
            r.active_channels == 0,
            r.metadata@ == Seq::<u8>::empty(),
    {
        AudioFrame {
            timestamp: 0,
            sample_rate: 0,
            channels: 0,
            samples_per_channel: 0,
            samples: Vec::new(),
            active_channels: 0,
            metadata: Vec::new(),
        }
    }
}

impl AudioFrame {
    /// The bits of the samples of channel `ch`.
    pub fn channel(&self, ch: usize) -> (r: &[u32])
        requires
            ch < self.channels,
            self.channels * self.samples_per_channel <= self.samples@.len(),
        ensures
            r@ == self.samples@.subrange(
                ch * self.samples_per_channel,
                ch * self.samples_per_channel + self.samples_per_channel,
            ),
    {
        let n: usize = self.samples_per_channel;
        let len: usize = self.samples.len();
        proof {
            assert(0 <= ch * n && ch * n + n <= self.channels * n) by (nonlinear_arith)
                requires
                    0 <= ch,
                    ch + 1 <= self.channels,
                    0 <= n,
            ;
            assert(ch * n + n <= len);
        }
        vstd::slice::slice_subrange(self.samples.as_slice(), ch * n, ch * n + n)
    }
}

/// Whether a channel was sent.
pub open spec fn is_active(mask: u32, ch: int) -> bool {
    (mask >> (ch as u32)) & 1 == 1
}

/// How many of the first `n` channels were sent.
pub open spec fn active_count(mask: u32, n: int) -> int
    decreases n,
{
    if n <= 0 {
        0
    } else if is_active(mask, n - 1) {
        active_count(mask, n - 1) + 1
    } else {
        active_count(mask, n - 1)
    }
}

/// The samples of a channel: those that were sent stand behind those of the
/// channels before it, and a silent channel has zeros.
pub open spec fn channel_samples(data: Seq<u8>, mask: u32, spc: int, ch: int) -> Seq<u32> {
    let from = active_count(mask, ch) * spc;
    Seq::new(
        spc as nat,
        |j: int|
            if is_active(mask, ch) {
                le32_at(data, 4 * (from + j)) as u32
            } else {
                0u32
            },
    )
}

/// The samples of the first `n` channels.
pub open spec fn audio_samples(data: Seq<u8>, mask: u32, spc: int, n: int) -> Seq<u32>
    decreases n,
{
    if n <= 0 {
        Seq::empty()
    } else {
        audio_samples(data, mask, spc, n - 1) + channel_samples(data, mask, spc, n - 1)
    }
}

/// Why an audio frame cannot be decoded.
pub open spec fn audio_fault(a: AudioHeader, len: int) -> Option<DecodeError> {
    let (channels, spc) = (a.channels as int, a.samples_per_channel as int);
    if a.codec != CODEC_FPA1 {
        Some(DecodeError::UnsupportedCodec(a.codec))
    } else if channels < 0 || spc < 0 || channels > 32 {
        Some(DecodeError::InvalidAudioHeader)
    } else if channels * spc * 4 > MAX_AUDIO_BYTES {
        Some(DecodeError::AudioTooLarge((channels * spc * 4) as u64))
    } else if len < active_count(a.active_channels, channels) * spc * 4 {
        Some(
            DecodeError::AudioTruncated {
                needed: (active_count(a.active_channels, channels) * spc * 4) as usize,
                got: len as usize,
            },
        )
    } else {
        None
    }
}

/// `out` is the audio of a frame.
pub open spec fn is_audio_of(out: AudioFrame, f: FrameView, a: AudioHeader) -> bool {
    &&& out.timestamp == f.header.timestamp
    &&& out.sample_rate == a.sample_rate
    &&& out.channels == a.channels
    &&& out.samples_per_channel == a.samples_per_channel
    &&& out.samples@ == audio_samples(
        f.data,
        a.active_channels,
        a.samples_per_channel as int,
        a.channels as int,
    )
    &&& out.active_channels == a.active_channels
    &&& out.metadata@ == f.metadata
}

/// Counts the channels that were sent.
fn count_active(mask: u32, n: usize) -> (r: usize)
    requires
        n <= 32,
    ensures
        r == active_count(mask, n as int),
        r <= n,
{
    let mut i: usize = 0;
    let mut c: usize = 0;
    while i < n
        invariant
            i <= n <= 32,
            c == active_count(mask, i as int),
            c <= i,
        decreases n - i,
    {
        if (mask >> (i as u32)) & 1 == 1 {
            c = c + 1;
        }
        i = i + 1;
    }
    c
}

/// Counts go up by at most one per channel.
pub proof fn lemma_active_count(mask: u32, k: int, n: int)
    requires
        0 <= k <= n,
    ensures
        0 <= active_count(mask, k) <= k,
        active_count(mask, k) <= active_count(mask, n) <= active_count(mask, k) + (n - k),
    decreases n,
{
    if n > 0 {
        if k < n {
            lemma_active_count(mask, k, n - 1);
        } else {
            lemma_active_count(mask, k - 1, n - 1);
        }
    }
}

/// Appends the samples of one channel.
fn push_channel(data: &[u8], active: bool, from: usize, spc: usize, out: &mut Vec<u32>)
    requires
        active ==> 4 * (from + spc) <= data@.len(),
        from + spc <= 0x2000_0000,
    ensures
        final(out)@ == old(out)@ + Seq::new(
            spc as nat,
            |j: int|
                if active {
                    le32_at(data@, 4 * (from + j)) as u32
                } else {
                    0u32
                },
        ),
{
    let ghost want = Seq::new(
        spc as nat,
        |j: int|
            if active {
                le32_at(data@, 4 * (from + j)) as u32
            } else {
                0u32
            },
    );
    let mut j: usize = 0;
    assert(out@ =~= old(out)@ + want.take(0));
    while j < spc
        invariant
            j <= spc,
            active ==> 4 * (from + spc) <= data@.len(),
            from + spc <= 0x2000_0000,
            want == Seq::new(
                spc as nat,
                |j: int|
                    if active {
                        le32_at(data@, 4 * (from + j)) as u32
                    } else {
                        0u32
                    },
            ),
            out@ == old(out)@ + want.take(j as int),
        decreases spc - j,
    {
        if active {
            out.push(read_u32(data, 4 * (from + j)));
        } else {
            out.push(0);
        }
        assert(out@ =~= old(out)@ + want.take(j + 1));
        j = j + 1;
    }
    assert(want.take(spc as int) =~= want);
}

/// Decodes an audio frame into `out`, reusing its buffers.
pub fn decode_audio(frame: &OwnedFrame, out: &mut AudioFrame) -> (r: Result<(), DecodeError>)
    ensures
        match frame.ext {
            ExtendedHeader::Audio(a) => match audio_fault(a, frame.data@.len() as int) {
                Some(e) => r == Err::<(), DecodeError>(e) && *final(out) == *old(out),
                None => r is Ok && is_audio_of(*final(out), frame@, a),
            },
            _ => r == Err::<(), DecodeError>(DecodeError::NotMedia) && *final(out) == *old(out),
        },
{
    let a: AudioHeader = match frame.ext {
        ExtendedHeader::Audio(a) => a,
        _ => {
            return Err(DecodeError::NotMedia);
        },
    };
    if a.codec != CODEC_FPA1 {
        return Err(DecodeError::UnsupportedCodec(a.codec));
    }
    if a.channels < 0 || a.samples_per_channel < 0 || a.channels > 32 {
        return Err(DecodeError::InvalidAudioHeader);
    }
    let (channels, spc): (usize, usize) = (a.channels as usize, a.samples_per_channel as usize);
    proof {
        assert(0 <= channels * spc <= 32 * 0x7FFF_FFFF) by (nonlinear_arith)
            requires
                0 <= channels <= 32,
                0 <= spc <= 0x7FFF_FFFF,
        ;
    }
    let bytes: u64 = channels as u64 * spc as u64 * 4;
    if bytes > MAX_AUDIO_BYTES as u64 {
        return Err(DecodeError::AudioTooLarge(bytes));
    }
    let active: usize = count_active(a.active_channels, channels);
    proof {
        assert(0 <= active * spc <= channels * spc) by (nonlinear_arith)
            requires
                0 <= active <= channels,
                0 <= spc,
        ;
    }
    let needed: usize = active * spc * 4;
    if frame.data.len() < needed {
        return Err(DecodeError::AudioTruncated { needed, got: frame.data.len() });
    }
    out.samples.clear();
    let mut ch: usize = 0;
    let mut sent: usize = 0;
    while ch < channels
        invariant
            ch <= channels <= 32,
            sent == active_count(a.active_channels, ch as int),
            0 <= sent <= ch,
            needed == active_count(a.active_channels, channels as int) * spc * 4,
            needed <= frame.data@.len(),
            channels * spc * 4 <= MAX_AUDIO_BYTES,
            out.samples@ == audio_samples(frame.data@, a.active_channels, spc as int, ch as int),
        decreases channels - ch,
    {
        let on: bool = (a.active_channels >> (ch as u32)) & 1 == 1;
        proof {
            lemma_active_count(a.active_channels, ch + 1, channels as int);
            let all = active_count(a.active_channels, channels as int);
            assert(sent * spc + spc <= channels * spc && 0 <= sent * spc) by (nonlinear_arith)
                requires
                    0 <= sent,
                    sent + 1 <= channels,
                    0 <= spc,
            ;
            if on {
                assert(sent * spc + spc <= all * spc) by (nonlinear_arith)
                    requires
                        0 <= sent,
                        sent + 1 <= all,
                        0 <= spc,
                ;
            }
        }
        push_channel(frame.data.as_slice(), on, sent * spc, spc, &mut out.samples);
        proof {
            let mask = a.active_channels;
            assert(out.samples@ =~= audio_samples(frame.data@, mask, spc as int, ch + 1));
        }
        if on {
            sent = sent + 1;
        }
        ch = ch + 1;
    }
    out.timestamp = frame.header.timestamp;
    out.sample_rate = a.sample_rate;
    out.channels = channels;
    out.samples_per_channel = spc;
    out.active_channels = a.active_channels;
    out.metadata.clear();
    out.metadata.extend_from_slice(frame.metadata.as_slice());
    assert(out.metadata@ =~= frame.metadata@);
    Ok(())
}

/// Sample `j` of channel `ch` stands behind the samples of the channels before
/// it, whatever was sent; in the data it stands behind those of the channels
/// that were sent before it, four bytes each, the least significant first. A
/// channel whose bit is clear is silent.
pub proof fn law_audio_places(data: Seq<u8>, mask: u32, spc: int, n: int, ch: int, j: int)
    requires
        0 <= ch < n <= 32,
        0 <= j < spc,
    ensures
        ({
            let s = audio_samples(data, mask, spc, n);
            let at = 4 * (active_count(mask, ch) * spc + j);
            &&& s.len() == n * spc
            &&& 0 <= ch * spc + j < s.len()
            &&& s[ch * spc + j] == (if (mask >> (ch as u32)) & 1 == 1 {
                (data[at] + 0x100 * data[at + 1] + 0x1_0000 * data[at + 2] + 0x100_0000 * data[at + 3]) as u32
            } else {
                0
            })
        }),
    decreases n,
{
    assert(n * spc == (n - 1) * spc + spc) by (nonlinear_arith);
    assert(0 <= ch * spc && (ch < n - 1 ==> ch * spc + spc <= (n - 1) * spc)) by (nonlinear_arith)
        requires
            0 <= ch < n,
            spc > 0,
    ;
    if n > 1 {
        law_audio_places(data, mask, spc, n - 1, if ch < n - 1 {
            ch
        } else {
            0
        }, j);
    } else {
        assert(audio_samples(data, mask, spc, 0) =~= Seq::empty());
        assert(0 * spc == 0);
    }
}

} // verus!
