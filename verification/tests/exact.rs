//! Exact values of the codec on pseudo-random input, as checksums.

use open_media_transport::vmx::dct::{fdct_quant_zig, idct, Depth, QuantTables};
use open_media_transport::vmx::decoder::Decoder;
use open_media_transport::vmx::encoder::{Encoder, EncoderConfig, EncodingParameters, Profile};
use open_media_transport::vmx::frame::{Frame, PixelFormat, Plane};

const FNV: u64 = 0xcbf2_9ce4_8422_2325;

fn fnv(mut h: u64, bytes: &[u8]) -> u64 {
    for &b in bytes {
        h = (h ^ b as u64).wrapping_mul(0x100_0000_01b3);
    }
    h
}

const EDGES: [i16; 10] = [i16::MIN, i16::MIN + 1, -16384, -1024, -1, 0, 1, 1023, 16383, i16::MAX];

struct Rng(u64);

impl Rng {
    fn next(&mut self) -> u64 {
        self.0 ^= self.0 << 13;
        self.0 ^= self.0 >> 7;
        self.0 ^= self.0 << 17;
        self.0
    }

    /// A 16-bit value that is often near the ends of the range.
    fn edgy(&mut self) -> i16 {
        match self.next() % 4 {
            0 => EDGES[(self.next() % 10) as usize],
            1 => (self.next() % 1024) as i16,
            2 => (self.next() % 256) as i16,
            _ => self.next() as i16,
        }
    }
}

#[test]
fn forward_transform_of_random_blocks() {
    let presets: Vec<QuantTables> = (0..25).map(QuantTables::new).collect();
    let mut rng = Rng(0x9E37_79B9_7F4A_7C15);
    let mut h = FNV;
    for i in 0..3000 {
        let depth = if i % 2 == 0 { Depth::Eight } else { Depth::Ten };
        let add = match i % 5 {
            0 => -128,
            1 => -512,
            2 => 0,
            _ => rng.edgy(),
        };
        let mut matrix = presets[i % 25].encode;
        if i % 7 == 0 {
            for m in matrix.iter_mut() {
                *m = rng.next() as u16;
            }
        }
        let mode = rng.next() % 3;
        let mut rows = [[0i16; 8]; 8];
        for v in rows.iter_mut().flatten() {
            *v = match mode {
                0 => (rng.next() % 256) as i16,
                1 => (rng.next() % 1024) as i16,
                _ => rng.edgy(),
            };
        }
        for c in fdct_quant_zig(&rows, depth, &matrix, add) {
            h = fnv(h, &c.to_le_bytes());
        }
    }
    assert_eq!(h, 0xc901_7f03_5e44_0ad0);
}

#[test]
fn inverse_transform_of_random_blocks() {
    let presets: Vec<QuantTables> = (0..25).map(QuantTables::new).collect();
    let mut rng = Rng(0x2545_F491_4F6C_DD1D);
    let mut h = FNV;
    for i in 0..3000 {
        let add = match i % 4 {
            0 => 128,
            1 => 512,
            2 => 0,
            _ => rng.edgy(),
        };
        let mut matrix = presets[i % 25].decode;
        if i % 7 == 0 {
            for m in matrix.iter_mut() {
                *m = rng.next() as u16;
            }
        }
        let dense = rng.next() % 2 == 0;
        let mut zz = [0i16; 64];
        for z in zz.iter_mut() {
            if dense {
                *z = rng.edgy();
            } else if rng.next() % 4 == 0 {
                *z = (rng.next() % 64) as i16 - 32;
            }
        }
        for depth in [Depth::Eight, Depth::Ten] {
            let mut out = vec![vec![0u16; 8]; 8];
            idct(&zz, depth, &matrix, &mut out, 0, 0, add);
            for v in out.iter().flatten() {
                h = fnv(h, &v.to_le_bytes());
            }
        }
    }
    assert_eq!(h, 0xed00_808c_90eb_b728);
}

/// The planes (Y, U, V and perhaps A) of a picture that is smooth in places
/// and noise in others.
fn picture(w: usize, h: usize, ten: bool, planes: usize, seed: u64) -> Vec<Vec<u16>> {
    let mut rng = Rng(seed.wrapping_mul(0x9E37_79B9_7F4A_7C15));
    let mut out = Vec::new();
    for p in 0..planes {
        let pw = if p == 0 || p == 3 { w } else { w / 2 };
        let mut samples = Vec::new();
        for y in 0..h {
            for x in 0..pw {
                let n = rng.next();
                let smooth = (x * 7 + y * 5 + p * 40) % 256;
                let v = if (x / 8 + y / 8) % 3 != 0 { smooth } else { (n % 256) as usize };
                samples.push(if ten { v as u16 * 256 + ((n >> 8) % 256) as u16 } else { v as u16 });
            }
        }
        out.push(samples);
    }
    out
}

fn words(samples: &[u16]) -> Vec<u8> {
    samples.iter().flat_map(|v| v.to_le_bytes()).collect()
}

fn to_frame(planes: &[Vec<u16>], w: usize, h: usize, format: PixelFormat) -> Frame {
    let data: Vec<Plane> = match format {
        PixelFormat::Yuv422p | PixelFormat::Yuva422p => planes
            .iter()
            .enumerate()
            .map(|(p, s)| Plane {
                data: s.iter().map(|&v| v as u8).collect(),
                stride: if p == 1 || p == 2 { w / 2 } else { w },
            })
            .collect(),
        _ => {
            let chroma: Vec<u16> = planes[1].iter().zip(&planes[2]).flat_map(|(&u, &v)| [u, v]).collect();
            let mut all = vec![words(&planes[0]), words(&chroma)];
            if let Some(a) = planes.get(3) {
                all.push(words(a));
            }
            all.into_iter().map(|data| Plane { data, stride: 2 * w }).collect()
        }
    };
    Frame::from_planes(w, h, format, data).unwrap()
}

/// The samples of a tightly packed frame, plane by plane, as words.
fn samples(f: &Frame) -> Vec<u8> {
    match f.format {
        PixelFormat::Yuv422p | PixelFormat::Yuva422p => {
            f.planes.iter().flat_map(|p| p.data.iter().flat_map(|&b| [b, 0])).collect()
        }
        _ => {
            let chroma = &f.planes[1].data;
            let mut out = f.planes[0].data.clone();
            for first in [0, 2] {
                for pair in chroma.chunks(4) {
                    out.extend_from_slice(&pair[first..first + 2]);
                }
            }
            if let Some(a) = f.planes.get(2) {
                out.extend_from_slice(&a.data);
            }
            out
        }
    }
}

struct Case {
    w: usize,
    h: usize,
    format: PixelFormat,
    interlaced: bool,
    quality: i32,
    dc_shift: u32,
    seed: u64,
}

/// Checksums of the packet and of the decoded samples, with the packet's
/// length.
fn code(c: &Case) -> (usize, u64, u64) {
    let planes = if c.format.has_alpha() { 4 } else { 3 };
    let source = picture(c.w, c.h, c.format.is_10bit(), planes, c.seed);
    let mut frame = to_frame(&source, c.w, c.h, c.format);
    frame.interlaced = c.interlaced;
    let mut enc = Encoder::new(EncoderConfig::new(c.w, c.h)).unwrap();
    enc.set_encoding_parameters(EncodingParameters { frame_min: 0, frame_max: 0, min_quality: 0, dc_shift: c.dc_shift });
    enc.set_quality(c.quality);
    let packet = enc.encode(&frame).unwrap();
    let mut dec = Decoder::new(c.w, c.h).unwrap();
    let back = dec.decode(&packet, c.format).unwrap();
    (packet.len(), fnv(FNV, &packet), fnv(FNV, &samples(&back)))
}

#[test]
fn packets_and_what_they_decode_to() {
    let case = Case {
        w: 40,
        h: 24,
        format: PixelFormat::Yuv422p,
        interlaced: false,
        quality: 98,
        dc_shift: 0,
        seed: 1,
    };
    assert_eq!(code(&case), (1434, 0x33b6_8106_f1f9_2840, 0xc7df_310a_b790_396b));
    let case = Case { format: PixelFormat::Yuva422p, quality: 80, dc_shift: 2, seed: 2, ..case };
    assert_eq!(code(&case), (945, 0xd24f_128f_b987_d4a5, 0x6c06_5b84_b73c_a18d));
    let case = Case { format: PixelFormat::P216, quality: 90, dc_shift: 0, seed: 3, ..case };
    assert_eq!(code(&case), (860, 0x5688_67ac_add1_339e, 0x1031_2ade_eee4_efb0));
    let case = Case { w: 38, h: 20, format: PixelFormat::Pa16, quality: 60, dc_shift: 3, seed: 4, ..case };
    assert_eq!(code(&case), (713, 0x7a40_d3f1_5da5_a1ad, 0xf0c1_278a_7697_56ae));
    let case = Case {
        w: 24,
        h: 480,
        format: PixelFormat::Yuv422p,
        interlaced: true,
        quality: 70,
        dc_shift: 1,
        seed: 5,
    };
    assert_eq!(code(&case), (8630, 0xcc8b_4bb6_edb1_1abf, 0xce8d_4a24_2dd4_3fe3));
}

/// Profile, height, smallest and largest frame, least quality, DC shift.
const RATES: [(Profile, usize, i32, i32, i32, u32); 36] = [
    (Profile::Hq, 4320, 2739404, 3027763, 80, 0),
    (Profile::OmtHq, 4320, 2490368, 2752512, 52, 0),
    (Profile::Sq, 4320, 1369702, 1513881, 60, 3),
    (Profile::OmtSq, 4320, 1245184, 1376256, 52, 3),
    (Profile::Lq, 4320, 913134, 1009254, 60, 3),
    (Profile::OmtLq, 4320, 830122, 917504, 52, 3),
    (Profile::Hq, 2160, 1660245, 1835008, 80, 0),
    (Profile::OmtHq, 2160, 1245184, 1376256, 52, 0),
    (Profile::Sq, 2160, 830122, 917504, 60, 3),
    (Profile::OmtSq, 2160, 622592, 688128, 52, 3),
    (Profile::Lq, 2160, 552031, 610140, 60, 3),
    (Profile::OmtLq, 2160, 415061, 458752, 52, 3),
    (Profile::Hq, 1440, 1045954, 1156055, 80, 0),
    (Profile::OmtHq, 1440, 933888, 1032192, 52, 0),
    (Profile::Sq, 1440, 522977, 578027, 60, 3),
    (Profile::OmtSq, 1440, 622592, 688128, 52, 0),
    (Profile::Lq, 1440, 348651, 385351, 60, 3),
    (Profile::OmtLq, 1440, 249036, 275251, 52, 3),
    (Profile::Hq, 1080, 539579, 596377, 80, 0),
    (Profile::OmtHq, 1080, 539579, 596377, 52, 0),
    (Profile::Sq, 1080, 269789, 298188, 60, 3),
    (Profile::OmtSq, 1080, 415061, 458752, 52, 0),
    (Profile::Lq, 1080, 178476, 197263, 60, 3),
    (Profile::OmtLq, 1080, 178476, 197263, 52, 3),
    (Profile::Hq, 720, 282241, 311951, 80, 0),
    (Profile::OmtHq, 720, 282241, 311951, 52, 0),
    (Profile::Sq, 720, 141120, 155975, 60, 3),
    (Profile::OmtSq, 720, 141120, 155975, 52, 3),
    (Profile::Lq, 720, 93388, 103219, 60, 3),
    (Profile::OmtLq, 720, 93388, 103219, 52, 3),
    (Profile::Hq, 16, 149422, 165150, 80, 0),
    (Profile::OmtHq, 16, 149422, 165150, 52, 0),
    (Profile::Sq, 16, 74711, 82575, 60, 3),
    (Profile::OmtSq, 16, 74711, 82575, 52, 3),
    (Profile::Lq, 16, 49807, 55050, 60, 3),
    (Profile::OmtLq, 16, 49807, 55050, 52, 3),
];

#[test]
fn rates_of_each_profile_and_height() {
    for (profile, height, frame_min, frame_max, min_quality, dc_shift) in RATES {
        let mut config = EncoderConfig::new(16, height);
        config.profile = profile;
        let got = Encoder::new(config).unwrap().encoding_parameters();
        assert_eq!(
            got,
            EncodingParameters { frame_min, frame_max, min_quality, dc_shift },
            "{profile:?} at {height}"
        );
    }
}
