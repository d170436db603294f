//! Transform, tables, layout and decoder.

use open_media_transport::vmx::dct::{fdct_quant_zig, idct, reciprocal, Depth, QuantTables};
use open_media_transport::vmx::decoder::Decoder;
use open_media_transport::vmx::encoder::{Encoder, EncoderConfig, EncodingParameters};
use open_media_transport::vmx::error::Error;
use open_media_transport::vmx::frame::{Frame, PixelFormat, Plane};
use open_media_transport::vmx::layout::{quality_preset, Layout};

#[test]
fn reciprocal_of_16() {
    assert_eq!(reciprocal(16), [8, 32768, 8192]);
}

#[test]
fn flat_block_roundtrip() {
    let q = QuantTables::new(0);
    let rows = [[200i16; 8]; 8];
    let zz = fdct_quant_zig(&rows, Depth::Eight, &q.encode, -128);
    assert!(zz[1..].iter().all(|&c| c == 0));
    let mut out = vec![vec![0u16; 8]; 8];
    idct(&zz, Depth::Eight, &q.decode, &mut out, 0, 0, 128);
    assert!(out.iter().flatten().all(|&p| p == 200), "{out:?}");
}

/// An extended header with a DC shift of 0: the preview prefix must cover the
/// 5-byte header, or it decodes differently from the whole frame.
#[test]
fn preview_len_counts_extended_header_with_zero_shift() {
    let stream = [0x03, 0x00, 0x00, 0x00, 0x01, 0x00, 0x00, 0x00, 0x00];
    let mut d = Decoder::new(32, 16).unwrap();
    let n = d.preview_len(&stream).unwrap();
    assert!(n <= stream.len());
    let full = d.decode_preview(&stream, false);
    let prefix = d.decode_preview(&stream[..n], false);
    assert_eq!(full.is_ok(), prefix.is_ok(), "{full:?} / {prefix:?}");
    if let (Ok(a), Ok(b)) = (full, prefix) {
        assert_eq!(a.planes, b.planes);
    }
}

#[test]
fn quality_presets_match_libvmx() {
    assert_eq!(quality_preset(80), (80, 13));
    assert_eq!(quality_preset(99), (99, 0));
    assert_eq!(quality_preset(98), (98, 1));
    assert_eq!(quality_preset(81), (80, 13));
    assert_eq!(quality_preset(52), (52, 21));
    assert_eq!(quality_preset(30), (30, 0));
}

#[test]
fn interlaced_rows() {
    let l = Layout::new(1920, 1080).unwrap();
    assert_eq!(l.aligned_height, 1088);
    assert_eq!(l.image_row(0, true), Some(0));
    assert_eq!(l.image_row(539, true), Some(1078));
    assert_eq!(l.image_row(540, true), None);
    assert_eq!(l.image_row(544, true), Some(1));
    assert_eq!(l.image_row(1083, true), Some(1079));
    assert_eq!(l.image_row(1084, true), None);
}

#[test]
fn grey_comes_back_grey() {
    let mut enc = Encoder::new(EncoderConfig::new(64, 32)).unwrap();
    let mut frame = Frame::new(64, 32, PixelFormat::Uyvy);
    for b in frame.planes[0].data.iter_mut() {
        *b = 128;
    }
    let packet = enc.encode(&frame).unwrap();
    let mut dec = Decoder::new(64, 32).unwrap();
    let back = dec.decode(&packet, PixelFormat::Uyvy).unwrap();
    assert_eq!(back.planes, frame.planes);
}

#[test]
fn sizes_that_cannot_be_coded() {
    for (w, h) in [(15, 16), (16, 15), (17, 16), (7682, 16), (16, 4321), (0, 0)] {
        let e = Layout::new(w, h).unwrap_err();
        assert_eq!(e, Error::InvalidDimensions { width: w, height: h });
        assert_eq!(e.to_string(), format!("invalid VMX frame size {w}x{h}"));
        assert!(Encoder::new(EncoderConfig::new(w, h)).is_err());
        assert!(Decoder::new(w, h).is_err());
    }
    assert!(Layout::new(16, 16).is_ok());
    assert!(Layout::new(7680, 4320).is_ok());
}

#[test]
fn each_codec_error() {
    let mut enc = Encoder::new(EncoderConfig::new(64, 32)).unwrap();
    let small = Frame::new(32, 32, PixelFormat::Uyvy);
    assert_eq!(enc.encode(&small), Err(Error::FrameSizeMismatch));
    let short = Plane { data: vec![0; 10], stride: 128 };
    let e = Frame::from_planes(64, 32, PixelFormat::Uyvy, vec![short]).unwrap_err();
    assert!(matches!(e, Error::InvalidFrame(_)), "{e:?}");
    assert!(e.to_string().starts_with("invalid frame: "));

    let frame = Frame::new(64, 32, PixelFormat::Uyvy);
    let packet = enc.encode(&frame).unwrap();
    let mut dec = Decoder::new(64, 32).unwrap();
    let e = dec.decode(&packet, PixelFormat::Nv12).unwrap_err();
    assert!(matches!(e, Error::Unsupported(_)), "{e:?}");
    assert!(e.to_string().starts_with("unsupported: "));
    assert_eq!(dec.decode(&packet[..3], PixelFormat::Uyvy), Err(Error::Truncated));
    let mut tall = Decoder::new(64, 64).unwrap();
    let e = tall.decode(&packet, PixelFormat::Uyvy).unwrap_err();
    assert_eq!(e, Error::SliceCountMismatch { expected: 4, found: 2 });
    assert_eq!(e.to_string(), "compressed frame has 2 slices, expected 4");
    let mut bad = packet.clone();
    bad[0] = 9;
    let e = dec.decode(&bad, PixelFormat::Uyvy).unwrap_err();
    assert!(matches!(e, Error::InvalidBitstream(_) | Error::Unsupported(_)), "{e:?}");
}

#[test]
fn slice_counts_are_their_low_eight_bits() {
    let d = Decoder::new(7680, 4320).unwrap();
    let e = d.info(&[1, 80, 15, 0, 0]).unwrap_err();
    assert_eq!(e, Error::SliceCountMismatch { expected: 14, found: 15 });
    assert_eq!(e.to_string(), "compressed frame has 15 slices, expected 14");
}

#[test]
fn quality_stays_between_floor_and_ceiling() {
    let mut e = Encoder::new(EncoderConfig::new(64, 32)).unwrap();
    let p = e.encoding_parameters();
    e.set_encoding_parameters(EncodingParameters { min_quality: 81, ..p });
    e.set_quality(50);
    assert_eq!(e.quality(), 82);
    for min_quality in -3..=98 {
        e.set_encoding_parameters(EncodingParameters { min_quality, ..p });
        for q in -10..=110 {
            e.set_quality(q);
            assert!((min_quality..=98).contains(&e.quality()), "{q} over {min_quality}: {}", e.quality());
        }
    }
    // A floor above every preset is out of reach.
    e.set_encoding_parameters(EncodingParameters { min_quality: 100, ..p });
    e.set_quality(50);
    assert_eq!(e.quality(), 99);
}

#[test]
fn the_bitrate_does_not_break_the_floor() {
    let mut e = Encoder::new(EncoderConfig::new(64, 32)).unwrap();
    let p = e.encoding_parameters();
    e.set_encoding_parameters(EncodingParameters { frame_min: 1, frame_max: 1, min_quality: 81, ..p });
    e.set_quality(90);
    let frame = Frame::new(64, 32, PixelFormat::Uyvy);
    let mut seen = Vec::new();
    for _ in 0..6 {
        e.encode(&frame).unwrap();
        seen.push(e.quality());
    }
    assert_eq!(seen, [88, 86, 84, 82, 82, 82]);
}

#[test]
fn the_quality_follows_the_size_of_the_frames() {
    let mut e = Encoder::new(EncoderConfig::new(64, 32)).unwrap();
    let p = EncodingParameters { min_quality: 36, ..e.encoding_parameters() };
    let frame = Frame::new(64, 32, PixelFormat::Uyvy);
    let small = EncodingParameters { frame_min: 1_000_000, frame_max: 2_000_000, ..p };
    let large = EncodingParameters { frame_min: 1, frame_max: 2, ..p };
    let within = EncodingParameters { frame_min: 1, frame_max: 1_000_000, ..p };
    let mut next = |p, q| {
        e.set_encoding_parameters(p);
        e.set_quality(q);
        assert_eq!(e.quality(), q);
        e.encode(&frame).unwrap();
        e.quality()
    };
    for q in [98, 97, 92, 90, 76, 72, 44, 36] {
        assert_eq!(next(within, q), q);
        let up = next(small, q);
        // The step from the coarsest preset ends there again.
        assert!(if q == 98 || q == 36 { up == q } else { up > q }, "{q} to {up}");
        let down = next(large, q);
        assert!(if q == 36 { down == q } else { down < q }, "{q} to {down}");
    }
}

#[test]
fn any_depth_and_fewer_planes_can_be_decoded() {
    let mut e = Encoder::new(EncoderConfig::new(64, 32)).unwrap();
    let mut i420 = Frame::new(64, 32, PixelFormat::I420);
    let mut uyva = Frame::new(64, 32, PixelFormat::Uyva);
    for b in i420.planes.iter_mut().chain(uyva.planes.iter_mut()).flat_map(|p| p.data.iter_mut()) {
        *b = 128;
    }
    let mut d = Decoder::new(64, 32).unwrap();
    for frame in [i420, uyva] {
        let packet = e.encode(&frame).unwrap();
        let eight = d.decode(&packet, PixelFormat::Yuv422p).unwrap();
        assert!(eight.planes.iter().all(|p| p.data.iter().all(|&b| b == 128)));
        let ten = d.decode(&packet, PixelFormat::P216).unwrap();
        let luma: Vec<u16> = ten.planes[0].data.chunks(2).map(|b| u16::from_le_bytes([b[0], b[1]])).collect();
        assert!(luma.iter().all(|&y| y == 512 << 6), "{:?}", luma[0]);
    }
}
