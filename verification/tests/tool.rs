//! The test pattern, snapshots and arguments of the command-line tool.

use open_media_transport::cli::{
    has_flag, is_flag, is_named_source, is_png_path, opt, parse_fps, parse_port, parse_seconds, parse_size, verb,
    Monitor, Verb, Window,
};
use open_media_transport::frame::{AudioHeader, ExtendedHeader, FrameHeader, VideoFlags, VideoHeader, CODEC_VMX1};
use open_media_transport::image::{fill_test_pattern, fill_test_pattern_p216, write_bmp, write_png, Rgb};
use open_media_transport::media::{VideoFormat, VideoFrame};
use open_media_transport::picture::{has_opacity, holds_whole, pixel, scale_of, Pixel, Scale};
use open_media_transport::OwnedFrame;

/// Where the box is and whether it flashes, at a frame.
fn box_at(w: usize, frame: u64, fps: f64) -> (bool, usize) {
    let t = frame as f64 / fps;
    let box_w = (w / 12).max(2) & !1;
    (t.fract() < 0.1, (((t / 2.0).fract() * (w - box_w) as f64) as usize) & !1)
}

/// Limited-range BT.709 to RGB, each sample from 0 to `max`.
fn rgb709(y: f32, cb: f32, cr: f32, max: f32) -> [u16; 3] {
    let (kr, kb) = (0.2126f32, 0.0722f32);
    let r = y + 2.0 * (1.0 - kr) * cr;
    let b = y + 2.0 * (1.0 - kb) * cb;
    let g = (y - kr * r - kb * b) / (1.0 - kr - kb);
    [r, g, b].map(|v| (v.clamp(0.0, 1.0) * max).round() as u16)
}

fn white(w: usize, h: usize, alpha: Option<u16>) -> Rgb {
    let uyvy: Vec<u8> = [128, 235, 128, 235].repeat(w / 2 * h);
    let mut samples = Vec::new();
    for q in uyvy.chunks_exact(4) {
        for k in 0..2 {
            let y = (q[1 + 2 * k] as f32 - 16.0) / 219.0;
            let (cb, cr) = ((q[0] as f32 - 128.0) / 224.0, (q[2] as f32 - 128.0) / 224.0);
            samples.extend_from_slice(&rgb709(y, cb, cr, 255.0));
            samples.extend(alpha);
        }
    }
    Rgb { width: w, height: h, alpha: alpha.is_some(), high_bit_depth: false, samples }
}

#[test]
fn bmp_of_white_is_white() {
    let (w, h) = (4, 2);
    let out = write_bmp(&white(w, h, None));
    assert_eq!(&out[..2], b"BM");
    assert_eq!(out.len(), 54 + 12 * 2);
    assert!(out[54..54 + 12].iter().all(|&b| b == 255));
}

#[test]
fn bmp_rows_go_from_the_bottom_up_in_bgr() {
    let img = Rgb {
        width: 1,
        height: 2,
        alpha: true,
        high_bit_depth: false,
        samples: vec![1, 2, 3, 99, 4, 5, 6, 99],
    };
    let out = write_bmp(&img);
    assert_eq!(out.len(), 54 + 8);
    assert_eq!(&out[2..6], &62u32.to_le_bytes());
    assert_eq!(&out[18..26], &[1, 0, 0, 0, 2, 0, 0, 0]);
    assert_eq!(&out[54..], &[6, 5, 4, 0, 3, 2, 1, 0]);
}

#[test]
fn pattern_has_bars_and_a_moving_box() {
    let (w, h) = (320, 180);
    let mut a = vec![0u8; w * 2 * h];
    let mut b = a.clone();
    let (flash, x0) = box_at(w, 5, 30.0);
    fill_test_pattern(&mut a, w, h, flash, x0);
    let (flash, x0) = box_at(w, 20, 30.0);
    fill_test_pattern(&mut b, w, h, flash, x0);
    assert_eq!(a[1], 180, "white bar at top left");
    assert_ne!(a, b, "the box moves");
}

#[test]
fn ten_bit_pattern_and_png_keep_more_than_eight_bits() {
    let (w, h) = (1024, 48);
    let mut luma = vec![0u8; w * 2 * h];
    let mut chroma = luma.clone();
    let (flash, x0) = box_at(w, 0, 30.0);
    fill_test_pattern_p216(&mut luma, &mut chroma, w, h, flash, x0);
    assert_eq!(u16::from_le_bytes([luma[0], luma[1]]) >> 6, 720, "white bar");
    let le10 = |p: &[u8], i: usize| (u16::from_le_bytes([p[2 * i], p[2 * i + 1]]) >> 6) as f32;
    let mut samples = Vec::new();
    for y in 0..h {
        for x in 0..w {
            let c = y * w + (x & !1);
            samples.extend_from_slice(&rgb709(
                (le10(&luma, y * w + x) - 64.0) / 876.0,
                (le10(&chroma, c) - 512.0) / 896.0,
                (le10(&chroma, c + 1) - 512.0) / 896.0,
                65535.0,
            ));
        }
    }
    let img = Rgb { width: w, height: h, alpha: false, high_bit_depth: true, samples };
    let png_bytes = write_png(&img).unwrap();
    let mut reader = png::Decoder::new(std::io::Cursor::new(png_bytes)).read_info().unwrap();
    let mut buf = vec![0; reader.output_buffer_size().unwrap()];
    let info = reader.next_frame(&mut buf).unwrap();
    assert_eq!((info.width, info.height), (w as u32, h as u32));
    assert_eq!(
        (info.color_type, info.bit_depth),
        (png::ColorType::Rgb, png::BitDepth::Sixteen)
    );
    // The ramp in the last row: more distinct grey levels than 8 bits hold.
    let row = &buf[(h - 1) * w * 6..h * w * 6];
    let mut greens: Vec<u16> = row.chunks_exact(6).map(|p| u16::from_be_bytes([p[2], p[3]])).collect();
    greens.dedup();
    assert!(greens.len() > 256, "{} levels", greens.len());
}

#[test]
fn png_is_eight_bit_rgba_for_uyva() {
    let (w, h) = (4, 2);
    let out = write_png(&white(w, h, Some(128))).unwrap();
    let mut reader = png::Decoder::new(std::io::Cursor::new(out)).read_info().unwrap();
    assert_eq!(
        (reader.info().color_type, reader.info().bit_depth),
        (png::ColorType::Rgba, png::BitDepth::Eight)
    );
    let mut buf = vec![0; reader.output_buffer_size().unwrap()];
    reader.next_frame(&mut buf).unwrap();
    assert_eq!(buf, [255, 255, 255, 128].repeat(w * h));
}

#[test]
fn a_png_needs_pixels() {
    let none = Rgb { width: 0, height: 0, alpha: false, high_bit_depth: false, samples: vec![] };
    assert!(write_png(&none).is_err());
}

#[test]
fn arguments() {
    let args: Vec<String> =
        ["--size", "640x480", "--10bit", "--fps", "29.97", "--name"].iter().map(|s| s.to_string()).collect();
    assert_eq!(opt(&args, "--size").as_deref(), Some("640x480"));
    assert_eq!(opt(&args, "--fps").as_deref(), Some("29.97"));
    assert_eq!(opt(&args, "--name"), None, "no value");
    assert_eq!(opt(&args, "--port"), None);
    assert!(has_flag(&args, "--10bit") && !has_flag(&args, "--preview"));

    assert_eq!(verb("list"), Some(Verb::List));
    assert_eq!(verb("discovery-server"), Some(Verb::DiscoveryServer));
    assert_eq!(verb("-V"), Some(Verb::Version));
    assert_eq!(verb("help"), None);

    assert_eq!(parse_fps("23.976"), Some((24000, 1001)));
    assert_eq!(parse_fps("23.98"), Some((24000, 1001)));
    assert_eq!(parse_fps("29.97"), Some((30000, 1001)));
    assert_eq!(parse_fps("59.94"), Some((60000, 1001)));
    assert_eq!(parse_fps("25"), Some((25, 1)));
    assert_eq!(parse_fps("-5"), Some((-5, 1)));
    assert_eq!(parse_fps("x"), None);
    assert_eq!(parse_size("1280x720"), Some((1280, 720)));
    assert_eq!(parse_size("1280"), None);
    assert_eq!(parse_size("x720"), None);
    assert_eq!(parse_seconds("18446744073709551615"), Some(u64::MAX));
    assert_eq!(parse_seconds("18446744073709551616"), None);
    assert_eq!(parse_port("65535"), Some(65535));
    assert_eq!(parse_port("65536"), None);

    assert!(is_named_source("HOST (Cam)") && is_named_source("OMT://h:1"));
    assert!(!is_named_source("host:6400"));
    assert!(is_flag("--seconds") && !is_flag("HOST (Cam)"));
    assert!(is_png_path("a.PNG") && !is_png_path("a.bmp") && !is_png_path("png"));
}

/// A frame of two by two pixels.
fn small(format: VideoFormat, data: &[u8]) -> VideoFrame {
    VideoFrame { width: 2, height: 2, format, data: data.to_vec(), ..VideoFrame::default() }
}

#[test]
fn pixels_of_each_layout() {
    let bytes: Vec<u8> = (0..24).map(|i| i * 10).collect();
    let v = small(VideoFormat::Uyvy, &bytes[..8]);
    assert!(holds_whole(&v) && !has_opacity(v.format));
    assert_eq!(pixel(&v, 0, 0), Pixel::Yuv { y: 10, cb: 0, cr: 20, alpha: 255 });
    assert_eq!(pixel(&v, 1, 1), Pixel::Yuv { y: 70, cb: 40, cr: 60, alpha: 255 });
    let v = small(VideoFormat::Uyva, &bytes[..12]);
    assert!(holds_whole(&v) && has_opacity(v.format));
    assert_eq!(pixel(&v, 1, 0), Pixel::Yuv { y: 30, cb: 0, cr: 20, alpha: 90 });
    assert_eq!(pixel(&v, 0, 1), Pixel::Yuv { y: 50, cb: 40, cr: 60, alpha: 100 });
    let v = small(VideoFormat::Bgra, &bytes[..16]);
    assert!(holds_whole(&v) && has_opacity(v.format));
    assert_eq!(pixel(&v, 1, 1), Pixel::Rgb { r: 140, g: 130, b: 120, alpha: 150 });
    // The words 0x0a00, 0x1e14 and so on, without their lowest six bits.
    let word = |i: usize| u16::from_le_bytes([bytes[i], bytes[i + 1]]) >> 6;
    let v = small(VideoFormat::P216, &bytes[..16]);
    assert!(holds_whole(&v) && !has_opacity(v.format));
    assert_eq!(pixel(&v, 1, 0), Pixel::Yuv { y: word(2), cb: word(8), cr: word(10), alpha: 1023 });
    assert_eq!(pixel(&v, 1, 0), Pixel::Yuv { y: 120, cb: 361, cr: 441, alpha: 1023 });
    let v = small(VideoFormat::Pa16, &bytes);
    assert!(holds_whole(&v) && has_opacity(v.format));
    assert_eq!(pixel(&v, 1, 1), Pixel::Yuv { y: word(6), cb: word(12), cr: word(14), alpha: word(22) });
}

#[test]
fn frames_that_are_cut_short() {
    for (format, bytes) in [
        (VideoFormat::Uyvy, 8),
        (VideoFormat::Uyva, 12),
        (VideoFormat::Bgra, 16),
        (VideoFormat::P216, 16),
        (VideoFormat::Pa16, 24),
    ] {
        assert!(holds_whole(&small(format, &vec![0; bytes])));
        assert!(!holds_whole(&small(format, &vec![0; bytes - 1])));
        let odd = VideoFrame { width: 1, ..small(format, &[0; 24]) };
        assert_eq!(holds_whole(&odd), format == VideoFormat::Bgra);
        let huge = VideoFrame { width: usize::MAX - 1, height: 3, ..small(format, &[0; 24]) };
        assert!(!holds_whole(&huge));
    }
}

#[test]
fn scales_of_both_depths() {
    let eight = Scale { black: 16, luma: 219, neutral: 128, chroma: 224, full: 255 };
    let ten = Scale { black: 64, luma: 876, neutral: 512, chroma: 896, full: 1023 };
    for f in [VideoFormat::Uyvy, VideoFormat::Uyva, VideoFormat::Bgra] {
        assert_eq!(scale_of(f), eight);
    }
    for f in [VideoFormat::P216, VideoFormat::Pa16] {
        assert_eq!(scale_of(f), ten);
    }
}

fn arrived(ext: ExtendedHeader, len: usize) -> OwnedFrame {
    let header =
        FrameHeader { frame_type: ext.frame_type(), timestamp: 0, metadata_length: 0, data_length: len as i32 };
    OwnedFrame { header, ext, data: vec![0; len], metadata: Vec::new() }
}

fn video_of(len: usize) -> OwnedFrame {
    let v = VideoHeader {
        codec: CODEC_VMX1,
        width: 64,
        height: 32,
        frame_rate_n: 30,
        frame_rate_d: 1,
        aspect_ratio: 0,
        flags: VideoFlags(0),
        color_space: 709,
    };
    arrived(ExtendedHeader::Video(v), len)
}

fn audio_of(len: usize, active_channels: u32) -> OwnedFrame {
    let a = AudioHeader {
        codec: 0,
        sample_rate: 48000,
        samples_per_channel: 100,
        channels: 2,
        active_channels,
        reserved: 0,
    };
    arrived(ExtendedHeader::Audio(a), len)
}

#[test]
fn one_frame_is_decoded_between_reports() {
    let mut m = Monitor::new();
    assert!(!m.frame(&audio_of(10, 3)));
    assert!(!m.frame(&arrived(ExtendedHeader::Absent, 99)));
    assert!(m.frame(&video_of(1000)));
    m.decoded(false);
    assert!(!m.frame(&video_of(500)));
    assert!(!m.frame(&audio_of(20, 0)));
    assert_eq!((m.decode_errors, m.have_frame), (1, false));
    let w = Window { video: 2, audio: 2, audio_with_sound: 1, bytes: 1530 };
    assert_eq!(m.report(), w);
    assert_eq!(m.report(), Window { video: 0, audio: 0, audio_with_sound: 0, bytes: 0 });
    assert!(m.frame(&video_of(1)));
    m.decoded(true);
    assert!(!m.frame(&video_of(1)));
    assert_eq!((m.decode_errors, m.have_frame), (1, true));
}
