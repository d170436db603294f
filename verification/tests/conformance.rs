//! Whole frames through the encoder and the decoder.
//!
//! No second codec is at hand here, so these tests compare no output with that
//! of another codec, whatever their names say: each packet is held to its own
//! headers, to its preview and to the picture it was made from. Exact bytes and
//! samples are in `exact.rs`.

use open_media_transport::vmx::decoder::Decoder;
use open_media_transport::vmx::encoder::{Encoder, EncoderConfig, EncodingParameters, Profile};
use open_media_transport::vmx::frame::{Frame, PixelFormat, Plane};

#[derive(Clone, Copy, Debug)]
enum Pattern {
    Gradient,
    Noise,
    Bars,
    Mixed,
}

/// 10-bit Y, U, V, A sample at (x, y) for chroma column `x / 2`.
fn sample(p: Pattern, x: usize, y: usize, w: usize, h: usize, seed: &mut u64) -> [u16; 4] {
    let mut rnd = || {
        *seed = seed.wrapping_mul(6364136223846793005).wrapping_add(1442695040888963407);
        (*seed >> 33) as u32
    };
    match p {
        Pattern::Gradient => {
            let yv = (x * 1023 / w.max(1) + y * 511 / h.max(1)).min(1023);
            let u = (y * 1023 / h.max(1)) as u16;
            let v = (1023 - x * 1023 / w.max(1)) as u16;
            let a = ((x + y) * 1023 / (w + h)) as u16;
            [yv as u16, u, v, a]
        }
        Pattern::Noise => [
            (rnd() % 1024) as u16,
            (rnd() % 1024) as u16,
            (rnd() % 1024) as u16,
            (rnd() % 1024) as u16,
        ],
        Pattern::Bars => {
            // 75% colour bars (BT.709, 10-bit): white yellow cyan green magenta red blue black
            const BARS: [[u16; 3]; 8] = [
                [721, 512, 512],
                [674, 176, 543],
                [581, 589, 176],
                [534, 253, 207],
                [251, 771, 817],
                [204, 435, 848],
                [111, 848, 481],
                [64, 512, 512],
            ];
            let b = BARS[(x * 8 / w).min(7)];
            let a = if y < h / 2 { 1023 } else { 0 };
            [b[0], b[1], b[2], a]
        }
        Pattern::Mixed => {
            let checker = ((x / 3) + (y / 5)) % 2 == 0;
            let n = (rnd() % 64) as usize;
            let yv = if x % 16 < 8 { (x * 7 + y * 3 + n) % 1024 } else if checker { 1023 } else { 0 };
            [yv as u16, ((y * 13 + n) % 1024) as u16, ((x * 11) % 1024) as u16, (n * 16) as u16]
        }
    }
}

/// Builds a tightly packed buffer.
fn make_buffer(fmt: PixelFormat, p: Pattern, w: usize, h: usize, seed: u64) -> Vec<u8> {
    let mut s = seed;
    let mut img = vec![[0u16; 4]; w * h];
    for y in 0..h {
        for x in 0..w {
            img[y * w + x] = sample(p, x, y, w, h, &mut s);
        }
    }
    let at = |x: usize, y: usize| img[y * w + x];
    let mut out = Vec::new();
    match fmt {
        PixelFormat::Uyvy | PixelFormat::Uyva | PixelFormat::Yuy2 => {
            for y in 0..h {
                for x in (0..w).step_by(2) {
                    let a = at(x, y);
                    let b = at(x + 1, y);
                    let q = [(a[1] >> 2) as u8, (a[0] >> 2) as u8, (a[2] >> 2) as u8, (b[0] >> 2) as u8];
                    if fmt == PixelFormat::Yuy2 {
                        out.extend_from_slice(&[q[1], q[0], q[3], q[2]]);
                    } else {
                        out.extend_from_slice(&q);
                    }
                }
            }
            if fmt == PixelFormat::Uyva {
                for y in 0..h {
                    for x in 0..w {
                        out.push((at(x, y)[3] >> 2) as u8);
                    }
                }
            }
        }
        _ => {
            for y in 0..h {
                for x in 0..w {
                    out.extend_from_slice(&(at(x, y)[0] << 6).to_le_bytes());
                }
            }
            for y in 0..h {
                for x in (0..w).step_by(2) {
                    out.extend_from_slice(&(at(x, y)[1] << 6).to_le_bytes());
                    out.extend_from_slice(&(at(x, y)[2] << 6).to_le_bytes());
                }
            }
            if fmt == PixelFormat::Pa16 {
                for y in 0..h {
                    for x in 0..w {
                        out.extend_from_slice(&(at(x, y)[3] << 6).to_le_bytes());
                    }
                }
            }
        }
    }
    out
}

/// Splits a tight buffer into a [`Frame`].
fn to_frame(buf: &[u8], pf: PixelFormat, w: usize, h: usize) -> Frame {
    let mut off = 0;
    let planes = pf
        .plane_sizes(w, h)
        .into_iter()
        .map(|(row, rows)| {
            let p = Plane { data: buf[off..off + row * rows].to_vec(), stride: row };
            off += row * rows;
            p
        })
        .collect();
    Frame::from_planes(w, h, pf, planes).unwrap()
}

fn concat(f: &Frame) -> Vec<u8> {
    f.planes.iter().flat_map(|p| p.data.iter().copied()).collect()
}

/// The mean error of a decoded buffer, in 8-bit levels.
fn mean_error(fmt: PixelFormat, a: &[u8], b: &[u8]) -> f64 {
    assert_eq!(a.len(), b.len());
    let deep = fmt.is_10bit();
    let mut sum = 0f64;
    let mut n = 0usize;
    if deep {
        for (x, y) in a.chunks_exact(2).zip(b.chunks_exact(2)) {
            let (x, y) = (u16::from_le_bytes([x[0], x[1]]), u16::from_le_bytes([y[0], y[1]]));
            sum += (x as f64 - y as f64).abs() / 256.0;
            n += 1;
        }
    } else {
        for (x, y) in a.iter().zip(b) {
            sum += (*x as f64 - *y as f64).abs();
            n += 1;
        }
    }
    sum / n as f64
}

struct Case {
    w: usize,
    h: usize,
    fmt: PixelFormat,
    pattern: Pattern,
    profile: Profile,
    quality: i32,
    interlaced: bool,
}

fn run_case(c: &Case) {
    let label = format!(
        "{}x{} {:?} {:?} profile {:?} q {} interlaced {}",
        c.w, c.h, c.fmt, c.pattern, c.profile, c.quality, c.interlaced
    );
    let src = make_buffer(c.fmt, c.pattern, c.w, c.h, (c.w * 31 + c.h) as u64);
    let mut cfg = EncoderConfig::new(c.w, c.h);
    cfg.profile = c.profile;
    let mut enc = Encoder::new(cfg).unwrap();
    enc.set_quality(c.quality);
    let coded_with = enc.quality();
    let mut frame = to_frame(&src, c.fmt, c.w, c.h);
    frame.interlaced = c.interlaced;
    let bytes = enc.encode(&frame).unwrap();

    let mut dec = Decoder::new(c.w, c.h).unwrap();
    let info = dec.info(&bytes).unwrap();
    let fields = c.interlaced && matches!(c.h, 480 | 576 | 1080);
    assert_eq!(info.interlaced, fields, "{label}");
    assert_eq!(info.quality, coded_with, "{label}");
    assert!(info.has_ac, "{label}");
    let out = dec.decode(&bytes, c.fmt).unwrap();
    assert_eq!(out.interlaced, fields, "{label}");
    let out = concat(&out);
    let error = mean_error(c.fmt, &src, &out);
    let bound = match c.pattern {
        Pattern::Gradient | Pattern::Bars => 8.0,
        Pattern::Noise | Pattern::Mixed => 40.0,
    };
    assert!(error < bound, "{label}: mean error {error}");

    // The preview is in the prefix.
    let n = dec.preview_len(&bytes).unwrap();
    let alpha = c.fmt.has_alpha();
    assert_eq!(
        dec.decode_preview(&bytes, alpha).unwrap(),
        dec.decode_preview(&bytes[..n], alpha).unwrap(),
        "{label}"
    );
}

const SIZES: [(usize, usize); 6] = [(16, 16), (48, 32), (64, 40), (128, 72), (320, 240), (256, 144)];
const PATTERNS: [Pattern; 4] = [Pattern::Gradient, Pattern::Noise, Pattern::Bars, Pattern::Mixed];

#[test]
fn eight_bit_uyvy_matches_libvmx() {
    for &(w, h) in &SIZES {
        for &pattern in &PATTERNS {
            for &(profile, quality) in &[
                (Profile::Hq, 80),
                (Profile::Hq, 98),
                (Profile::OmtHq, 52),
                (Profile::OmtSq, 70),
                (Profile::Lq, 60),
            ] {
                run_case(&Case { w, h, fmt: PixelFormat::Uyvy, pattern, profile, quality, interlaced: false });
            }
        }
    }
}

#[test]
fn eight_bit_yuy2_and_alpha_match_libvmx() {
    for &(w, h) in &[(64, 40), (128, 72), (320, 240)] {
        for &pattern in &PATTERNS {
            for fmt in [PixelFormat::Yuy2, PixelFormat::Uyva] {
                for &(profile, quality) in &[(Profile::OmtHq, 90), (Profile::Sq, 60)] {
                    run_case(&Case { w, h, fmt, pattern, profile, quality, interlaced: false });
                }
            }
        }
    }
}

#[test]
fn ten_bit_matches_libvmx() {
    for &(w, h) in &[(16, 16), (64, 40), (128, 72), (320, 240)] {
        for &pattern in &PATTERNS {
            for fmt in [PixelFormat::P216, PixelFormat::Pa16] {
                for &(profile, quality) in &[(Profile::Hq, 98), (Profile::OmtHq, 60), (Profile::OmtLq, 75)] {
                    run_case(&Case { w, h, fmt, pattern, profile, quality, interlaced: false });
                }
            }
        }
    }
}

#[test]
fn interlaced_matches_libvmx() {
    for fmt in [PixelFormat::Uyvy, PixelFormat::P216, PixelFormat::Uyva] {
        for pattern in [Pattern::Mixed, Pattern::Gradient] {
            run_case(&Case { w: 640, h: 480, fmt, pattern, profile: Profile::OmtHq, quality: 80, interlaced: true });
        }
    }
    run_case(&Case {
        w: 1920,
        h: 1080,
        fmt: PixelFormat::Uyvy,
        pattern: Pattern::Mixed,
        profile: Profile::OmtSq,
        quality: 75,
        interlaced: true,
    });
    // Interlacing requested at an unsupported height is coded progressive.
    run_case(&Case {
        w: 128,
        h: 72,
        fmt: PixelFormat::Uyvy,
        pattern: Pattern::Bars,
        profile: Profile::Hq,
        quality: 80,
        interlaced: true,
    });
}

#[test]
fn full_hd_matches_libvmx() {
    for fmt in [PixelFormat::Uyvy, PixelFormat::P216] {
        run_case(&Case {
            w: 1920,
            h: 1080,
            fmt,
            pattern: Pattern::Mixed,
            profile: Profile::OmtHq,
            quality: 80,
            interlaced: false,
        });
    }
}

/// The qualities of the presets, finest first.
const QUALITIES: [i32; 25] = [
    99, 98, 97, 96, 95, 94, 93, 92, 90, 88, 86, 84, 82, 80, 78, 76, 72, 68, 64, 60, 56, 52, 48, 44, 36,
];

/// The quality after a frame of `n` bytes at quality `q`, for a floor that is a
/// preset.
fn next_quality(p: &EncodingParameters, q: i32, n: i32) -> i32 {
    let asked = if n < p.frame_min {
        q + if q < 76 { 4 } else if q < 92 { 2 } else { 1 }
    } else if n > p.frame_max {
        if q > 92 { q - 1 } else { q - 2 }
    } else {
        return q;
    };
    let held = asked.min(98).max(p.min_quality);
    *QUALITIES.iter().find(|&&c| c <= held).unwrap()
}

/// Several frames without forcing the quality: the rate control follows the
/// sizes of the frames. The expected quality is worked out by the rules above.
#[test]
fn rate_control_matches_libvmx() {
    for &(w, h, profile) in &[(320, 240, Profile::OmtHq), (128, 72, Profile::Lq), (256, 144, Profile::Hq)] {
        let mut cfg = EncoderConfig::new(w, h);
        cfg.profile = profile;
        let mut enc = Encoder::new(cfg).unwrap();
        let p = enc.encoding_parameters();
        assert!(0 < p.frame_min && p.frame_min < p.frame_max);
        // Tight window so the quality actually moves.
        enc.set_encoding_parameters(EncodingParameters { frame_min: 2000, frame_max: 4000, ..p });
        for i in 0..12 {
            let pattern = PATTERNS[i % 4];
            let src = make_buffer(PixelFormat::Uyvy, pattern, w, h, i as u64);
            let before = enc.quality();
            let bytes = enc.encode(&to_frame(&src, PixelFormat::Uyvy, w, h)).unwrap();
            let want = next_quality(&enc.encoding_parameters(), before, bytes.len() as i32);
            assert_eq!(enc.quality(), want, "{w}x{h} frame {i}: {} bytes at {before}", bytes.len());
        }
    }
}

#[test]
fn four_two_zero_input_matches_libvmx() {
    for &(w, h) in &[(64, 40), (320, 240)] {
        for &pattern in &PATTERNS {
            let yuyv = make_buffer(PixelFormat::Uyvy, pattern, w, h, 7);
            // Derive 4:2:0 planes from the UYVY image (chroma from even rows).
            let mut y = vec![0u8; w * h];
            let mut u = vec![0u8; w / 2 * h / 2];
            let mut v = vec![0u8; w / 2 * h / 2];
            for r in 0..h {
                for i in 0..w / 2 {
                    let q = &yuyv[r * 2 * w + 4 * i..r * 2 * w + 4 * i + 4];
                    y[r * w + 2 * i] = q[1];
                    y[r * w + 2 * i + 1] = q[3];
                    if r % 2 == 0 {
                        u[r / 2 * w / 2 + i] = q[0];
                        v[r / 2 * w / 2 + i] = q[2];
                    }
                }
            }
            let uv: Vec<u8> = u.iter().zip(&v).flat_map(|(a, b)| [*a, *b]).collect();
            let mut cfg = EncoderConfig::new(w, h);
            cfg.profile = Profile::OmtHq;
            let mut r = Encoder::new(cfg).unwrap();
            r.set_quality(85);
            let nv12 = Frame::from_planes(
                w,
                h,
                PixelFormat::Nv12,
                vec![Plane { data: y.clone(), stride: w }, Plane { data: uv.clone(), stride: w }],
            )
            .unwrap();
            let r_nv12 = r.encode(&nv12).unwrap();
            r.set_quality(85);
            let i420 = Frame::from_planes(
                w,
                h,
                PixelFormat::I420,
                vec![
                    Plane { data: y.clone(), stride: w },
                    Plane { data: u.clone(), stride: w / 2 },
                    Plane { data: v.clone(), stride: w / 2 },
                ],
            )
            .unwrap();
            let r_i420 = r.encode(&i420).unwrap();
            assert!(r_nv12 == r_i420, "{w}x{h} {pattern:?}: the same picture in both layouts");

            // The same picture with its chroma rows doubled.
            let mut full = vec![0u8; w * 2 * h];
            for row in 0..h {
                for i in 0..w / 2 {
                    let o = row * 2 * w + 4 * i;
                    full[o] = u[row / 2 * w / 2 + i];
                    full[o + 1] = y[row * w + 2 * i];
                    full[o + 2] = v[row / 2 * w / 2 + i];
                    full[o + 3] = y[row * w + 2 * i + 1];
                }
            }
            r.set_quality(85);
            let r_full = r.encode(&to_frame(&full, PixelFormat::Uyvy, w, h)).unwrap();
            assert!(r_full == r_i420, "{w}x{h} {pattern:?}: chroma rows are doubled");
        }
    }
}

#[test]
fn preview_matches_libvmx() {
    for &(w, h) in &[(128, 72), (320, 240), (256, 144)] {
        for &pattern in &PATTERNS {
            let src = make_buffer(PixelFormat::Uyvy, pattern, w, h, 3);
            let mut cfg = EncoderConfig::new(w, h);
            cfg.profile = Profile::OmtSq;
            let mut enc = Encoder::new(cfg).unwrap();
            let bytes = enc.encode(&to_frame(&src, PixelFormat::Uyvy, w, h)).unwrap();
            let mut d = Decoder::new(w, h).unwrap();
            let plen = d.preview_len(&bytes).unwrap();
            let p = d.decode_preview(&bytes[..plen], false).unwrap();
            let (pw, ph) = ((w / 8 + 1) / 2 * 2, h / 8);
            assert_eq!((p.width, p.height), (pw, ph));
            assert_eq!(p, d.decode_preview(&bytes, false).unwrap(), "{w}x{h} {pattern:?}");
            // A preview pixel is the mean of its block, as the full picture
            // has it.
            let full = d.decode(&bytes, PixelFormat::Uyvy).unwrap();
            let mut sum = 0f64;
            for yy in 0..ph {
                for xx in 0..w / 8 {
                    let mut mean = 0f64;
                    for dy in 0..8 {
                        for dx in 0..8 {
                            let (x, y) = (xx * 8 + dx, yy * 8 + dy);
                            mean += full.planes[0].data[y * 2 * w + 2 * x + 1] as f64 / 64.0;
                        }
                    }
                    sum += (mean - p.planes[0].data[yy * p.planes[0].stride + xx] as f64).abs();
                }
            }
            let error = sum / (ph * (w / 8)) as f64;
            assert!(error < 12.0, "{w}x{h} {pattern:?}: mean error {error}");
        }
    }
}

#[test]
fn threaded_rust_is_deterministic() {
    let (w, h) = (320, 240);
    let src = make_buffer(PixelFormat::Pa16, Pattern::Mixed, w, h, 9);
    let frame = to_frame(&src, PixelFormat::Pa16, w, h);
    let mut one = Encoder::new(EncoderConfig::new(w, h)).unwrap();
    let mut cfg = EncoderConfig::new(w, h);
    cfg.threads = 3;
    let mut many = Encoder::new(cfg).unwrap();
    let a = one.encode(&frame).unwrap();
    let b = many.encode(&frame).unwrap();
    assert_eq!(a, b);
    let mut d1 = Decoder::new(w, h).unwrap();
    let mut d3 = Decoder::new(w, h).unwrap();
    d3.set_threads(4);
    assert_eq!(d1.decode(&a, PixelFormat::Pa16).unwrap(), d3.decode(&a, PixelFormat::Pa16).unwrap());
}
