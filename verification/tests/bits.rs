//! Bit-level reading and writing.

use open_media_transport::vmx::bits::{from_code, to_code, AcSymbol, BitReader, BitWriter, Corrupt};

struct Rng(u64);

impl Rng {
    fn next(&mut self) -> u64 {
        self.0 ^= self.0 << 13;
        self.0 ^= self.0 >> 7;
        self.0 ^= self.0 << 17;
        self.0
    }
}

#[test]
fn code_mapping_roundtrip() {
    for v in -3000i32..3000 {
        if v == 0 {
            continue;
        }
        assert_eq!(from_code(to_code(v) as u64) as i32, v);
    }
}

#[test]
fn writer_matches_bitwise_reference() {
    let mut rng = Rng(0x1234_5678_9ABC_DEF1u64);
    for _ in 0..200 {
        let mut w = BitWriter::default();
        let mut bits: Vec<bool> = Vec::new();
        for _ in 0..(rng.next() % 500) {
            match rng.next() % 8 {
                0 => {
                    w.align();
                    while bits.len() % 8 != 0 {
                        bits.push(false);
                    }
                }
                k => {
                    let n = if k == 1 { (rng.next() % 65) as u32 } else { (rng.next() % 34) as u32 };
                    let v = rng.next();
                    w.put(v, n);
                    bits.extend((0..n).rev().map(|i| (v >> i) & 1 == 1));
                }
            }
        }
        while bits.len() % 8 != 0 {
            bits.push(false);
        }
        let want: Vec<u8> =
            bits.chunks(8).map(|c| c.iter().fold(0u8, |acc, &b| (acc << 1) | b as u8)).collect();
        assert_eq!(w.into_bytes(), want);
    }
}

#[test]
fn combined_run_value_matches_separate_codes() {
    let mut rng = Rng(0x0DDB_1A5E_5BAD_5EEDu64);
    let (mut a, mut b) = (BitWriter::default(), BitWriter::default());
    for _ in 0..100_000 {
        // Runs up to a whole 8K slice plane; value codes up to 2 * 32768 + 1.
        let run = match rng.next() % 3 {
            0 => 0,
            1 => (rng.next() % 64) as u32,
            _ => (rng.next() % 200_000) as u32,
        };
        let v = (((rng.next() % 65_537) as u32) >> (rng.next() % 17)).max(1);
        a.put_run_value(run, v);
        b.put_run(run);
        b.put_value(v);
    }
    assert!(a.into_bytes() == b.into_bytes());
}

/// A symbol read one bit at a time.
fn ac_symbol_bitwise(r: &mut BitReader) -> Result<AcSymbol, Corrupt> {
    if r.bit() == 1 {
        if r.bit() == 1 {
            Ok(AcSymbol::Run(1))
        } else {
            Ok(AcSymbol::Run(r.code_tail()?))
        }
    } else {
        Ok(AcSymbol::Value(r.code_tail()?))
    }
}

#[test]
fn ac_symbol_matches_bitwise_reader() {
    let mut rng = Rng(0xA5A5_5A5A_1234_4321u64);
    for case in 0..3000 {
        // Real code sequences, sparse bits (long zero prefixes, corrupt
        // codes), and random bytes, each possibly truncated.
        let data: Vec<u8> = match case % 3 {
            0 => {
                let mut w = BitWriter::default();
                for _ in 0..(rng.next() % 300) {
                    let v = (((rng.next() % 65_537) as u32) >> (rng.next() % 17)).max(1);
                    w.put_run_value((rng.next() % 100_000) as u32 >> (rng.next() % 17), v);
                }
                w.into_bytes()
            }
            1 => (0..rng.next() % 64).map(|_| if rng.next() % 16 == 0 { rng.next() as u8 } else { 0 }).collect(),
            _ => (0..rng.next() % 64).map(|_| rng.next() as u8).collect(),
        };
        let cut = if data.is_empty() { 0 } else { (rng.next() as usize) % (data.len() + 1) };
        let data = if case % 2 == 0 { &data[..] } else { &data[..cut] };
        let (mut a, mut b) = (BitReader::new(data), BitReader::new(data));
        for _ in 0..2000 {
            let (x, y) = (a.ac_symbol(), ac_symbol_bitwise(&mut b));
            assert_eq!(x, y, "case {case}");
            if x.is_err() {
                break;
            }
            assert_eq!(a.position(), b.position(), "case {case}");
        }
    }
}

#[test]
fn run_and_value_codes() {
    let mut w = BitWriter::default();
    w.put_run(1); // 11
    w.put_run(2); // 1010
    w.put_value(2); // 010
    w.put_value(2049); // 11 zeros + 12 bits
    let b = w.into_bytes();
    let mut r = BitReader::new(&b);
    assert_eq!(r.bit(), 1);
    assert_eq!(r.bit(), 1);
    assert_eq!(r.bit(), 1);
    assert_eq!(r.bit(), 0);
    assert_eq!(r.code_tail().unwrap(), 2);
    assert_eq!(r.bit(), 0);
    assert_eq!(r.code_tail().unwrap(), 2);
    assert_eq!(r.bit(), 0);
    assert_eq!(r.code_tail().unwrap(), 2049);
}

#[test]
fn bits_past_the_end_are_set() {
    let mut r = BitReader::new(&[0u8]);
    for _ in 0..8 {
        assert_eq!(r.bit(), 0);
    }
    for _ in 0..8 {
        assert_eq!(r.bit(), 1);
    }
}
