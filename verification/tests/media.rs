//! Decoding received frames.
//!
//! No second codec is run here, whatever the names of the tests say: BGRA is
//! compared with each pixel of the decoded UYVY converted on its own, and
//! previews with those of the codec alone.

use PreferredVideoFormat as P;
use VideoFormat as F;

use open_media_transport::command::Command;
use open_media_transport::frame::{
    fourcc, AudioHeader, ExtendedHeader, FrameHeader, FrameType, VideoFlags, VideoHeader, CODEC_FPA1,
    CODEC_VMX1,
};
use open_media_transport::media::pixels::{yuv_to_bgra, YUV_RGB_601, YUV_RGB_709};
use open_media_transport::media::{
    decode_audio, AudioFrame, DecodeError, Media, MediaDecoder, PreferredVideoFormat, VideoFormat, VideoFrame,
};
use open_media_transport::sender::audio::pack_audio;
use open_media_transport::vmx::decoder::Decoder;
use open_media_transport::vmx::encoder::{Encoder, EncoderConfig, Profile};
use open_media_transport::vmx::frame::{Frame, PixelFormat};
use open_media_transport::OwnedFrame;

fn owned(ext: ExtendedHeader, data: Vec<u8>, metadata: &[u8]) -> OwnedFrame {
    OwnedFrame {
        header: FrameHeader {
            frame_type: ext.frame_type(),
            timestamp: 1234,
            metadata_length: metadata.len() as u16,
            data_length: 0,
        },
        ext,
        data,
        metadata: metadata.to_vec(),
    }
}

fn video_header(w: i32, h: i32, flags: u32) -> VideoHeader {
    VideoHeader {
        codec: CODEC_VMX1,
        width: w,
        height: h,
        frame_rate_n: 60000,
        frame_rate_d: 1001,
        aspect_ratio: (16.0f32 / 9.0).to_bits(),
        flags: VideoFlags(flags),
        color_space: 709,
    }
}

fn encode(f: &Frame) -> Vec<u8> {
    let mut cfg = EncoderConfig::new(f.width, f.height);
    cfg.profile = Profile::OmtHq;
    Encoder::new(cfg).unwrap().encode(f).unwrap()
}

fn ramp(w: usize, h: usize, format: PixelFormat) -> Frame {
    let mut f = Frame::new(w, h, format);
    for (p, plane) in f.planes.iter_mut().enumerate() {
        for (i, b) in plane.data.iter_mut().enumerate() {
            *b = ((i * (3 + p) / 5 + 20) % 200) as u8 + 16;
        }
    }
    f
}

#[test]
fn select_follows_libomtnet() {
    let (a, hi, pv) = (VideoFlags::ALPHA, VideoFlags::HIGH_BIT_DEPTH, VideoFlags::PREVIEW);
    let s = |p: P, f: u32| p.select(VideoFlags(f));
    // Full frames.
    assert_eq!(s(P::Uyvy, a | hi), Some(F::Uyvy));
    assert_eq!(s(P::UyvyOrBgra, hi), Some(F::Uyvy));
    assert_eq!(s(P::UyvyOrBgra, a), Some(F::Bgra));
    assert_eq!(s(P::Bgra, 0), Some(F::Bgra));
    assert_eq!(s(P::UyvyOrUyva, a | hi), Some(F::Uyva));
    assert_eq!(s(P::UyvyOrUyvaOrP216OrPa16, 0), Some(F::Uyvy));
    assert_eq!(s(P::UyvyOrUyvaOrP216OrPa16, a), Some(F::Uyva));
    assert_eq!(s(P::UyvyOrUyvaOrP216OrPa16, hi), Some(F::P216));
    assert_eq!(s(P::UyvyOrUyvaOrP216OrPa16, a | hi), Some(F::Pa16));
    assert_eq!(s(P::P216, a), Some(F::P216));
    // Previews: never 10-bit.
    assert_eq!(s(P::UyvyOrUyvaOrP216OrPa16, pv | hi), Some(F::Uyvy));
    assert_eq!(s(P::UyvyOrUyvaOrP216OrPa16, pv | hi | a), Some(F::Uyva));
    assert_eq!(s(P::UyvyOrBgra, pv | a), Some(F::Bgra));
    assert_eq!(s(P::P216, pv), None);
}

#[test]
fn uyvy_and_p216_match_vmx_codec() {
    let src = ramp(64, 32, PixelFormat::P216);
    let packet = encode(&src);
    let mut vmx = Decoder::new(64, 32).unwrap();
    let mut d = MediaDecoder::new(PreferredVideoFormat::UyvyOrUyvaOrP216OrPa16);
    let flags = VideoFlags::HIGH_BIT_DEPTH;
    let f = owned(ExtendedHeader::Video(video_header(64, 32, flags)), packet.clone(), b"<m/>\0");
    let Some(Media::Video(v)) = d.decode(&f).unwrap() else { panic!("video") };
    let expected = vmx.decode(&packet, PixelFormat::P216).unwrap();
    assert_eq!(v.format, VideoFormat::P216);
    assert_eq!(v.planes(), [&expected.planes[0].data[..], &expected.planes[1].data[..]]);
    assert_eq!((v.timestamp, v.stride, v.frame_rate_n), (1234, 128, 60000));
    assert_eq!(v.metadata, b"<m/>\0");
    assert!(v.is_high_bit_depth() && !v.is_bt601());

    // The same frame for a UYVY receiver goes through the 8-bit path.
    d.set_preferred(PreferredVideoFormat::Uyvy);
    let mut out = VideoFrame::default();
    d.decode_video(&f, &mut out).unwrap();
    let expected = vmx.decode(&packet, PixelFormat::Uyvy).unwrap();
    assert_eq!(out.data, expected.planes[0].data);
    // And the buffer is reused.
    let ptr = out.data.as_ptr();
    d.decode_video(&f, &mut out).unwrap();
    assert_eq!(out.data.as_ptr(), ptr);
}

#[test]
fn uyva_and_pa16_are_planes_back_to_back() {
    let src = ramp(32, 16, PixelFormat::Uyva);
    let packet = encode(&src);
    let mut d = MediaDecoder::new(PreferredVideoFormat::UyvyOrUyva);
    let f = owned(ExtendedHeader::Video(video_header(32, 16, VideoFlags::ALPHA)), packet.clone(), b"");
    let Some(Media::Video(v)) = d.decode(&f).unwrap() else { panic!() };
    let e = Decoder::new(32, 16).unwrap().decode(&packet, PixelFormat::Uyva).unwrap();
    assert_eq!(v.data.len(), 32 * 2 * 16 + 32 * 16);
    assert_eq!(v.planes(), [&e.planes[0].data[..], &e.planes[1].data[..]]);
}

#[test]
fn bgra_white_black_and_alpha() {
    let t = &YUV_RGB_709;
    assert_eq!(yuv_to_bgra(235, 128, 128, 7, t), [255, 255, 255, 7]);
    assert_eq!(yuv_to_bgra(16, 128, 128, 255, t), [0, 0, 0, 255]);
    let red = yuv_to_bgra(63, 102, 240, 255, t);
    assert!(red[2] > 250 && red[0] < 5 && red[1] < 5, "{red:?}");
}

#[test]
fn previews_have_the_preview_size() {
    let src = ramp(128, 64, PixelFormat::Uyva);
    let packet = encode(&src);
    let flags = VideoFlags::PREVIEW | VideoFlags::ALPHA;
    let f = owned(ExtendedHeader::Video(video_header(128, 64, flags)), packet, b"");
    for (pref, format, len) in [
        (PreferredVideoFormat::Uyvy, VideoFormat::Uyvy, 16 * 2 * 8),
        (PreferredVideoFormat::UyvyOrUyva, VideoFormat::Uyva, 16 * 3 * 8),
        (PreferredVideoFormat::Bgra, VideoFormat::Bgra, 16 * 4 * 8),
    ] {
        let mut d = MediaDecoder::new(pref);
        let Some(Media::Video(v)) = d.decode(&f).unwrap() else { panic!() };
        assert_eq!((v.width, v.height, v.format), (16, 8, format));
        assert_eq!(v.data.len(), len);
    }
    let mut d = MediaDecoder::new(PreferredVideoFormat::P216);
    assert_eq!(d.decode(&f).unwrap_err(), DecodeError::NoMatchingFormat);
}

#[test]
fn bad_video_is_an_error_not_a_panic() {
    let mut d = MediaDecoder::new(PreferredVideoFormat::Uyvy);
    let f = owned(ExtendedHeader::Video(video_header(64, 32, 0)), vec![1, 2, 3], b"");
    assert!(matches!(d.decode(&f), Err(DecodeError::Video(_))));
    let f = owned(ExtendedHeader::Video(video_header(-1, 32, 0)), vec![], b"");
    assert!(matches!(d.decode(&f), Err(DecodeError::InvalidSize { .. })));
    let mut h = video_header(64, 32, 0);
    h.codec = fourcc(b"UYVY");
    let f = owned(ExtendedHeader::Video(h), vec![], b"");
    assert_eq!(d.decode(&f).unwrap_err(), DecodeError::UnsupportedCodec(fourcc(b"UYVY")));
}

#[test]
fn a_failed_decode_leaves_the_rest_of_the_frame() {
    let good = encode(&ramp(64, 32, PixelFormat::Uyvy));
    let mut out = VideoFrame::default();
    let f = owned(ExtendedHeader::Video(video_header(64, 32, 0)), good.clone(), b"<m/>");
    MediaDecoder::new(PreferredVideoFormat::Bgra).decode_video(&f, &mut out).unwrap();
    let before = out.clone();
    let bad = |w, h, flags| owned(ExtendedHeader::Video(video_header(w, h, flags)), vec![1, 2, 3], b"");
    for (preferred, flags) in [
        (PreferredVideoFormat::Bgra, 0),
        (PreferredVideoFormat::P216, 0),
        (PreferredVideoFormat::UyvyOrUyva, VideoFlags::ALPHA),
        (PreferredVideoFormat::Uyvy, VideoFlags::PREVIEW),
    ] {
        let mut d = MediaDecoder::new(preferred);
        assert!(matches!(d.decode_video(&bad(64, 32, flags), &mut out), Err(DecodeError::Video(_))));
        assert_eq!(out, before);
    }
    let mut d = MediaDecoder::new(PreferredVideoFormat::Uyvy);
    assert!(matches!(d.decode_video(&bad(48, 16, 0), &mut out), Err(DecodeError::Video(_))));
    assert_eq!(out, VideoFrame { data: vec![0; 2 * 48 * 16], ..before });
}

#[test]
fn decoded_bytes_fill_the_planes() {
    let packet = encode(&ramp(64, 32, PixelFormat::Uyva));
    for preferred in [
        PreferredVideoFormat::Uyvy,
        PreferredVideoFormat::Bgra,
        PreferredVideoFormat::UyvyOrUyva,
        PreferredVideoFormat::UyvyOrUyvaOrP216OrPa16,
    ] {
        for flags in [0, VideoFlags::ALPHA, VideoFlags::PREVIEW, VideoFlags::PREVIEW | VideoFlags::ALPHA] {
            let f = owned(ExtendedHeader::Video(video_header(64, 32, flags)), packet.clone(), b"");
            let mut out = VideoFrame::default();
            MediaDecoder::new(preferred).decode_video(&f, &mut out).unwrap();
            assert_eq!(Some(out.format), preferred.select(VideoFlags(flags)));
            assert_eq!(out.stride, out.format.stride(out.width));
            let sizes = out.format.plane_sizes(out.width, out.height);
            assert_eq!(out.data.len(), sizes.iter().sum::<usize>(), "{preferred:?} {flags}");
        }
    }
}

#[test]
fn codec_errors_become_decode_errors() {
    let e = Decoder::new(15, 16).err().unwrap();
    assert_eq!(DecodeError::from(e), DecodeError::Video(e));
}

fn audio(channels: i32, spc: i32, active: u32, data: &[f32]) -> OwnedFrame {
    let bytes = data.iter().flat_map(|s| s.to_le_bytes()).collect();
    owned(
        ExtendedHeader::Audio(AudioHeader {
            codec: CODEC_FPA1,
            sample_rate: 48000,
            samples_per_channel: spc,
            channels,
            active_channels: active,
            reserved: 0,
        }),
        bytes,
        b"<a/>",
    )
}

fn floats(bits: &[u32]) -> Vec<f32> {
    bits.iter().map(|b| f32::from_bits(*b)).collect()
}

#[test]
fn audio_reinserts_silent_channels() {
    // Channels 0 and 2 of 3 sent; channel 1 silent.
    let f = audio(3, 2, 0b101, &[1.0, 2.0, 5.0, 6.0]);
    let mut out = AudioFrame::default();
    decode_audio(&f, &mut out).unwrap();
    assert_eq!(floats(&out.samples), [1.0, 2.0, 0.0, 0.0, 5.0, 6.0]);
    assert_eq!(floats(out.channel(2)), [5.0, 6.0]);
    assert_eq!((out.sample_rate, out.timestamp), (48000, 1234));
    assert_eq!(out.metadata, b"<a/>");
}

#[test]
fn silent_channels_are_left_out_and_come_back() {
    let samples = [0.25f32, -0.5, 0.0, 0.0, 1.5, 2.5];
    let bits: Vec<u32> = samples.iter().map(|s| s.to_bits()).collect();
    let (active, bytes) = pack_audio(&bits, 3);
    assert_eq!((active, bytes.len()), (0b101, 16));
    let mut f = audio(3, 2, active, &[]);
    f.data = bytes;
    let mut out = AudioFrame::default();
    decode_audio(&f, &mut out).unwrap();
    assert_eq!(floats(&out.samples), samples);
}

#[test]
fn audio_limits() {
    let mut out = AudioFrame::default();
    let f = audio(2, 2, 0b11, &[1.0, 2.0, 3.0]);
    assert_eq!(
        decode_audio(&f, &mut out),
        Err(DecodeError::AudioTruncated { needed: 16, got: 12 })
    );
    // Exactly 1 MiB is accepted, one more sample per channel is not.
    let f = audio(2, 131072, 0, &[]);
    assert!(decode_audio(&f, &mut out).is_ok());
    let f = audio(2, 131073, 0, &[]);
    assert_eq!(decode_audio(&f, &mut out), Err(DecodeError::AudioTooLarge(1_048_584)));
    let f = audio(33, 1, 0, &[]);
    assert_eq!(decode_audio(&f, &mut out), Err(DecodeError::InvalidAudioHeader));
    let f = owned(ExtendedHeader::Absent, vec![], b"");
    assert_eq!(decode_audio(&f, &mut out), Err(DecodeError::NotMedia));
}

#[test]
fn decode_errors_in_words() {
    for (e, text) in [
        (DecodeError::UnsupportedCodec(fourcc(b"UYVY")), "unsupported codec UYVY"),
        (
            DecodeError::UnsupportedCodec(fourcc(&[b'A', 0xFF, b'B', b'C'])),
            "unsupported codec A\u{FFFD}BC",
        ),
        (DecodeError::NoMatchingFormat, "the preferred video format has no layout for this frame"),
        (DecodeError::InvalidSize { width: -1, height: 32 }, "invalid video size -1x32"),
        (
            DecodeError::Video(open_media_transport::vmx::error::Error::Truncated),
            "VMX1: compressed frame is truncated",
        ),
        (DecodeError::InvalidAudioHeader, "invalid audio header"),
        (DecodeError::AudioTooLarge(2_000_000), "audio frame of 2000000 bytes exceeds 1048576"),
        (
            DecodeError::AudioTruncated { needed: 16, got: 12 },
            "audio data has 12 bytes, active channels need 16",
        ),
        (DecodeError::NotMedia, "not a media frame"),
    ] {
        assert_eq!(e.to_string(), text);
    }
}

#[test]
fn metadata_passes_application_xml_and_sender_info_only() {
    let mut d = MediaDecoder::new(PreferredVideoFormat::Uyvy);
    let meta = |xml: &[u8]| {
        let mut f = owned(ExtendedHeader::Absent, xml.to_vec(), b"");
        f.header.frame_type = FrameType::Metadata;
        f
    };
    let f = meta(b"<Hello />\0");
    let Some(Media::Metadata(m)) = d.decode(&f).unwrap() else { panic!() };
    assert_eq!((m.text().as_str(), m.sender_info), ("<Hello />", false));
    let f = meta("<Grüße />\0\0".as_bytes());
    let Some(Media::Metadata(m)) = d.decode(&f).unwrap() else { panic!() };
    assert_eq!(m.text(), "<Grüße />");
    let f = meta(b"<\xff/>\0");
    let Some(Media::Metadata(m)) = d.decode(&f).unwrap() else { panic!() };
    assert_eq!(m.text(), "<\u{FFFD}/>");
    let f = meta(br#"<OMTInfo ProductName="x" />"#);
    assert!(matches!(d.decode(&f).unwrap(), Some(Media::Metadata(m)) if m.sender_info));
    let f = meta(Command::SubscribeVideo.as_bytes());
    assert!(d.decode(&f).unwrap().is_none());
}

// ---------------------------------------------------------------------------
// BGRA
// ---------------------------------------------------------------------------

/// Noise with a slow gradient, so both smooth areas and clipping occur.
fn picture(w: usize, h: usize, format: PixelFormat, interlaced: bool) -> Frame {
    let mut f = Frame::new(w, h, format);
    f.interlaced = interlaced;
    let mut seed = 0x2545_f491u32;
    for plane in &mut f.planes {
        for (i, b) in plane.data.iter_mut().enumerate() {
            seed = seed.wrapping_mul(1_664_525).wrapping_add(1_013_904_223);
            *b = ((i / 7 % 256) as u32 / 2 + (seed >> 25)) as u8;
        }
    }
    f
}

fn decode_as(
    pref: PreferredVideoFormat,
    data: &[u8],
    w: usize,
    h: usize,
    flags: u32,
    color_space: i32,
) -> VideoFrame {
    let mut header = video_header(w as i32, h as i32, flags);
    header.color_space = color_space;
    let f = owned(ExtendedHeader::Video(header), data.to_vec(), b"");
    let mut out = VideoFrame::default();
    MediaDecoder::new(pref).decode_video(&f, &mut out).unwrap();
    out
}

/// A UYVY picture and its alpha as BGRA, pixel by pixel.
fn as_bgra(uyvy: &[u8], alpha: Option<&[u8]>, bt601: bool) -> Vec<u8> {
    let t = if bt601 { &YUV_RGB_601 } else { &YUV_RGB_709 };
    let mut out = Vec::new();
    for (i, q) in uyvy.chunks_exact(4).enumerate() {
        for k in 0..2 {
            let a = alpha.map_or(255, |p| p[2 * i + k]);
            out.extend_from_slice(&yuv_to_bgra(q[1 + 2 * k], q[0], q[2], a, t));
        }
    }
    out
}

#[test]
fn bgra_matches_libvmx() {
    // (size, source, interlaced, colour space): 709 by default at 720 lines,
    // 601 by default below, explicit 709 below 720, interlaced 601.
    let cases = [
        (1280, 720, PixelFormat::Uyva, false, 0, false),
        (640, 360, PixelFormat::Uyva, false, 0, true),
        (640, 360, PixelFormat::Uyvy, false, 709, false),
        (720, 480, PixelFormat::Uyvy, true, 601, true),
        (1920, 1080, PixelFormat::Uyva, true, 0, false),
    ];
    for (w, h, fmt, interlaced, cs, bt601) in cases {
        let data = encode(&picture(w, h, fmt, interlaced));
        let mut flags = if interlaced { VideoFlags::INTERLACED } else { 0 };
        let alpha = fmt.has_alpha();
        if alpha {
            flags |= VideoFlags::ALPHA;
        }
        let ours = decode_as(PreferredVideoFormat::Bgra, &data, w, h, flags, cs);
        assert_eq!((ours.format, ours.stride), (VideoFormat::Bgra, 4 * w));
        assert_eq!(ours.is_bt601(), bt601);
        let planar = Decoder::new(w, h).unwrap().decode(&data, fmt).unwrap();
        let a = if alpha { Some(&planar.planes[1].data[..]) } else { None };
        assert!(
            ours.data == as_bgra(&planar.planes[0].data, a, bt601),
            "BGRA {w}x{h} cs={cs} alpha={alpha}"
        );
        if alpha {
            // The same stream for a receiver that ignores alpha: BGRX.
            let ours =
                decode_as(PreferredVideoFormat::Bgra, &data, w, h, flags & !VideoFlags::ALPHA, cs);
            assert!(ours.data == as_bgra(&planar.planes[0].data, None, bt601), "BGRX {w}x{h} cs={cs}");
        }
    }
}

#[test]
fn previews_match_libvmx() {
    for (w, h, cs, bt601) in [(1280, 720, 0, false), (640, 360, 0, true), (632, 360, 709, false)] {
        let data = encode(&picture(w, h, PixelFormat::Uyva, false));
        let flags = VideoFlags::PREVIEW | VideoFlags::ALPHA;
        let p = Decoder::new(w, h).unwrap().decode_preview(&data, true).unwrap();
        let (pw, ph) = (p.width, p.height);
        let mut uyvy = Vec::new();
        let mut alpha = Vec::new();
        for y in 0..ph {
            for i in 0..pw / 2 {
                uyvy.push(p.planes[1].data[y * p.planes[1].stride + i]);
                uyvy.push(p.planes[0].data[y * p.planes[0].stride + 2 * i]);
                uyvy.push(p.planes[2].data[y * p.planes[2].stride + i]);
                uyvy.push(p.planes[0].data[y * p.planes[0].stride + 2 * i + 1]);
            }
            alpha.extend_from_slice(&p.planes[3].data[y * p.planes[3].stride..][..pw]);
        }
        let uyva: Vec<u8> = uyvy.iter().chain(&alpha).copied().collect();
        for (pref, expected, flags) in [
            (PreferredVideoFormat::UyvyOrUyva, uyva, flags),
            (PreferredVideoFormat::Bgra, as_bgra(&uyvy, Some(&alpha), bt601), flags),
            (PreferredVideoFormat::Bgra, as_bgra(&uyvy, None, bt601), flags & !VideoFlags::ALPHA),
        ] {
            let ours = decode_as(pref, &data, w, h, flags, cs);
            assert_eq!((ours.width, ours.height), (pw, ph));
            assert!(ours.data == expected, "{pref:?} preview {w}x{h} cs={cs}");
        }
    }
}
