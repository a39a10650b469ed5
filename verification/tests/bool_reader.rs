use bitreader::BitReader;
use vp9_parser::BoolReader;
use vp9_parser::Vp9ParserError;
use vp9_parser::inv_remap_prob;

/// A boolean encoder producing what the decoder reads (the scheme of libvpx's writer).
struct BoolEncoder {
    low: u32,
    range: u32,
    count: i32,
    buffer: Vec<u8>,
}

impl BoolEncoder {
    fn new() -> Self {
        let mut e = BoolEncoder { low: 0, range: 255, count: -24, buffer: Vec::new() };
        e.write(false, 128);
        e
    }

    fn write(&mut self, bit: bool, prob: u8) {
        let split = 1 + (((self.range - 1) * prob as u32) >> 8);
        let mut range = split;
        if bit {
            self.low += split;
            range = self.range - split;
        }
        let mut shift = 0;
        while (range << shift) < 128 {
            shift += 1;
        }
        range <<= shift;
        self.count += shift;
        if self.count >= 0 {
            let offset = shift - self.count;
            if (self.low << (offset - 1)) & 0x8000_0000 != 0 {
                let mut x = self.buffer.len() as isize - 1;
                while x >= 0 && self.buffer[x as usize] == 0xff {
                    self.buffer[x as usize] = 0;
                    x -= 1;
                }
                self.buffer[x as usize] += 1;
            }
            self.buffer.push(((self.low >> (24 - offset)) & 0xff) as u8);
            self.low <<= offset;
            shift = self.count;
            self.low &= 0xff_ffff;
            self.count -= 8;
        }
        self.low <<= shift;
        self.range = range;
    }

    fn write_literal(&mut self, value: u32, bits: u32) {
        for i in (0..bits).rev() {
            self.write((value >> i) & 1 == 1, 128);
        }
    }

    fn write_term_subexp(&mut self, d: u32) {
        if d < 16 {
            self.write_literal(0, 1);
            self.write_literal(d, 4);
        } else if d < 32 {
            self.write_literal(1, 1);
            self.write_literal(0, 1);
            self.write_literal(d - 16, 4);
        } else if d < 64 {
            self.write_literal(1, 1);
            self.write_literal(1, 1);
            self.write_literal(0, 1);
            self.write_literal(d - 32, 5);
        } else {
            self.write_literal(1, 1);
            self.write_literal(1, 1);
            self.write_literal(1, 1);
            if d - 64 < 65 {
                self.write_literal(d - 64, 7);
            } else {
                self.write_literal((d + 1) >> 1, 7);
                self.write_literal((d + 1) & 1, 1);
            }
        }
    }

    fn finish(mut self) -> Vec<u8> {
        for _ in 0..32 {
            self.write(false, 128);
        }
        if let Some(&last) = self.buffer.last() {
            if last & 0xe0 == 0xc0 {
                self.buffer.push(0);
            }
        }
        self.buffer
    }
}

/// A small deterministic generator for test inputs.
struct Lcg(u64);

impl Lcg {
    fn next(&mut self) -> u32 {
        self.0 = self.0.wrapping_mul(6364136223846793005).wrapping_add(1442695040888963407);
        (self.0 >> 33) as u32
    }
}

#[test]
fn init_rejects_empty_partition() {
    let bytes = [0u8; 4];
    let mut br = BitReader::new(&bytes);
    let res = BoolReader::init(&mut br, 0);
    assert!(matches!(res, Err(Vp9ParserError::InvalidPadding)));
    assert_eq!(br.position(), 0);
}

#[test]
fn init_reports_missing_data() {
    let bytes: [u8; 0] = [];
    let mut br = BitReader::new(&bytes);
    let res = BoolReader::init(&mut br, 1);
    assert!(matches!(res, Err(Vp9ParserError::BitReader(_))));
    assert_eq!(br.position(), 0);
}

#[test]
fn init_rejects_set_marker() {
    // A first byte of 0xFF puts the value above the cut of the marker.
    let bytes = [0xFFu8, 0x00];
    let mut br = BitReader::new(&bytes);
    let res = BoolReader::init(&mut br, 2);
    assert!(matches!(res, Err(Vp9ParserError::InvalidPadding)));
}

#[test]
fn zero_partition_decodes_zeros() {
    let bytes = [0u8; 8];
    let mut br = BitReader::new(&bytes);
    {
        let mut r = BoolReader::init(&mut br, 8).unwrap();
        assert_eq!(r.read_bool(128).unwrap(), false);
        assert_eq!(r.read_bool(1).unwrap(), false);
        assert_eq!(r.read_literal(8).unwrap(), 0);
        assert_eq!(r.decode_term_subexp().unwrap(), 0);
        assert_eq!(r.diff_update_prob(77).unwrap(), 77);
        r.exit().unwrap();
    }
    assert_eq!(br.position(), 64);
}

#[test]
fn decodes_what_was_encoded() {
    let mut rng = Lcg(7);
    let mut enc = BoolEncoder::new();
    let mut expected = Vec::new();
    for _ in 0..2000 {
        let prob = (rng.next() % 255 + 1) as u8;
        let bit = rng.next() % 256 >= prob as u32;
        enc.write(bit, prob);
        expected.push((bit, prob));
    }
    let bytes = enc.finish();
    let mut br = BitReader::new(&bytes);
    {
        let mut r = BoolReader::init(&mut br, bytes.len() as u32).unwrap();
        for &(bit, prob) in &expected {
            assert_eq!(r.read_bool(prob).unwrap(), bit);
        }
        r.exit().unwrap();
    }
    assert_eq!(br.position(), 8 * bytes.len() as u64);
}

#[test]
fn decodes_literals() {
    let values: [(u32, u8); 6] = [(0, 1), (1, 1), (5, 3), (200, 8), (0xABCD, 16), (0xDEAD_BEEF, 32)];
    let mut enc = BoolEncoder::new();
    for &(v, n) in &values {
        enc.write_literal(v, n as u32);
    }
    let bytes = enc.finish();
    let mut br = BitReader::new(&bytes);
    let mut r = BoolReader::init(&mut br, bytes.len() as u32).unwrap();
    for &(v, n) in &values {
        assert_eq!(r.read_literal(n).unwrap(), v);
    }
    assert_eq!(r.read_literal(0).unwrap(), 0);
}

#[test]
fn decodes_term_subexp_deltas() {
    let mut enc = BoolEncoder::new();
    for d in 0..255 {
        enc.write_term_subexp(d);
    }
    let bytes = enc.finish();
    let mut br = BitReader::new(&bytes);
    let mut r = BoolReader::init(&mut br, bytes.len() as u32).unwrap();
    for d in 0..255u32 {
        assert_eq!(r.decode_term_subexp().unwrap() as u32, d);
    }
}

#[test]
fn decodes_probability_updates() {
    let mut rng = Lcg(11);
    let mut enc = BoolEncoder::new();
    let mut cases = Vec::new();
    for i in 0..600u32 {
        let prob = (rng.next() % 256) as u8;
        if i % 3 == 0 {
            enc.write(false, 252);
            cases.push((prob, prob));
        } else {
            let d = rng.next() % 255;
            enc.write(true, 252);
            enc.write_term_subexp(d);
            cases.push((prob, inv_remap_prob(d as u8, prob)));
        }
    }
    let bytes = enc.finish();
    let mut br = BitReader::new(&bytes);
    let mut r = BoolReader::init(&mut br, bytes.len() as u32).unwrap();
    for &(prob, expected) in &cases {
        let got = r.diff_update_prob(prob).unwrap();
        assert_eq!(got, expected);
        assert!(got == prob || got >= 1);
    }
}

#[test]
fn partition_is_read_exactly() {
    // A 3-byte partition followed by one more byte: after exit the reader stands at
    // the byte after the partition, however much was decoded.
    let bytes = [0x00u8, 0x12, 0x34, 0xA5];
    let mut br = BitReader::new(&bytes);
    {
        let mut r = BoolReader::init(&mut br, 3).unwrap();
        let _ = r.read_bool(200).unwrap();
        let _ = r.read_literal(3).unwrap();
        r.exit().unwrap();
    }
    assert_eq!(br.position(), 24);
    assert_eq!(br.read_u8(8).unwrap(), 0xA5);
}

#[test]
fn exit_fails_when_partition_is_cut_short() {
    // The partition claims 20 bytes but only 10 are there: exit moves on by whole
    // 64-bit chunks as far as they fit, then fails.
    let bytes = [0u8; 10];
    let mut br = BitReader::new(&bytes);
    {
        let mut r = BoolReader::init(&mut br, 20).unwrap();
        assert!(matches!(r.exit(), Err(Vp9ParserError::BitReader(_))));
    }
    assert_eq!(br.position(), 8 + 64);
}

#[test]
fn reading_past_the_data_fails() {
    // Partition of 2 bytes but only 1 byte of data: the first boolean that needs a
    // fresh bit fails.
    let bytes = [0x00u8];
    let mut br = BitReader::new(&bytes);
    let mut r = BoolReader::init(&mut br, 2).unwrap();
    assert!(matches!(r.read_bool(128), Err(Vp9ParserError::BitReader(_))));
}

#[test]
fn zeros_after_budget() {
    // A one-byte partition has no budget: renormalization shifts in zeros and the
    // bytes after it are not touched.
    let bytes = [0x00u8, 0xFF];
    let mut br = BitReader::new(&bytes);
    {
        let mut r = BoolReader::init(&mut br, 1).unwrap();
        for _ in 0..20 {
            assert_eq!(r.read_bool(128).unwrap(), false);
        }
    }
    assert_eq!(br.position(), 8);
}
