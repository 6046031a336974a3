//! Tests for the bit sequence and the arithmetic coder.

use fvq::arithmetic::{BitReader, BitWriter, Interval, Reader, Split, Writer, SCALE};
use fvq::bits::BitString;

#[test]
fn split() {
    let model = Split::new_inner((SCALE / 8) as u32);
    let middle = Interval::new((SCALE / 4) as u32, (SCALE / 4) as u32);
    let (i0, i1) = middle.split(model);
    println!("i0 = {:x?}", i0);
    println!("i1 = {:x?}", i1);
    assert_eq!(i0.below, middle.below);
    assert_eq!(i0.above, (SCALE * 5 / 16) as u32);
    assert_eq!(i1.below, (SCALE * 11 / 16) as u32);
    assert_eq!(i1.above, middle.above);
}

#[test]
pub fn vec() {
    // Make a `BitString` and a matching `Vec<bool>`.
    let mut bs = BitString::default();
    let mut bv = Vec::<bool>::default();
    let mut seed: u32 = 1;
    for _ in 0..1000 {
        seed = seed.wrapping_mul(3141592653);
        seed = seed.wrapping_add(2718281845);
        let bit = (seed >> 31) != 0;
        bs.push(bit);
        bv.push(bit);
    }
    // Check iterator behaviour matches.
    let mut bsi = bs.iter();
    let mut bvi = bv.iter().copied();
    for _ in 0..1000 {
        let bit1 = bsi.next().unwrap();
        let bit2 = bvi.next().unwrap();
        assert_eq!(bit1, bit2);
    }
    assert!(bsi.next().is_none());
    assert!(bvi.next().is_none());
    // Check `pop()` behaviour matches.
    for _ in 0..1000 {
        let bit1 = bs.pop().unwrap();
        let bit2 = bv.pop().unwrap();
        assert_eq!(bit1, bit2);
    }
    assert!(bs.pop().is_none());
    assert!(bv.pop().is_none());
}

#[test]
fn bit_string_pop_is_lifo() {
    let mut bs = BitString::default();
    assert_eq!(bs.pop(), None);
    bs.push(true);
    bs.push(false);
    bs.push(true);
    assert_eq!(bs.len(), 3);
    assert_eq!(bs.pop(), Some(true));
    assert_eq!(bs.pop(), Some(false));
    assert_eq!(bs.pop(), Some(true));
    assert_eq!(bs.pop(), None);
    assert_eq!(bs.len(), 0);
}

/// Encode `data` with `model`, then decode it again, returning the
/// decoded bits and the total number of coded bits.
fn round_trip(model: Split, data: &[bool]) -> (Vec<bool>, usize) {
    let mut writer = Writer::new(BitWriter::new(BitString::default()));
    for &bit in data {
        writer.write(model, bit);
    }
    let bits = writer.close().close();
    let coded = bits.len();
    let mut reader = Reader::new(BitReader::new(bits));
    let mut decoded = Vec::new();
    for _ in 0..data.len() {
        decoded.push(reader.read(model).expect("decode fell short"));
    }
    reader.close();
    (decoded, coded)
}

#[test]
fn coder_fair_round_trip() {
    let fair = Split::new_ratio(1, 1);
    let data = [true, false, true, false];
    let mut writer = Writer::new(BitWriter::new(BitString::default()));
    for &bit in &data {
        writer.write(fair, bit);
    }
    let bits = writer.close().close();
    let mut reader = Reader::new(BitReader::new(bits));
    for &bit in &data {
        assert_eq!(reader.read(fair), Some(bit));
    }
    // The reader's stream is exhausted.
    let mut raw = reader.close();
    assert_eq!(raw.read(), None);
}

#[test]
fn coder_biased_round_trip() {
    let model = Split::new_ratio(6, 1);
    let mut data = [false; 11];
    data[10] = true;
    let (decoded, _) = round_trip(model, &data);
    assert_eq!(decoded, data);
}

#[test]
fn coder_short_strings_round_trip() {
    let models = [
        Split::new_ratio(1, 1),
        Split::new_ratio(2, 5),
        Split::new_ratio(6, 1),
    ];
    for model in models {
        for len in 0..=8usize {
            for pattern in 0u32..(1 << len) {
                let data: Vec<bool> = (0..len).map(|i| (pattern >> i) & 1 != 0).collect();
                let (decoded, _) = round_trip(model, &data);
                assert_eq!(decoded, data, "len {} pattern {:b}", len, pattern);
            }
        }
    }
}

#[test]
fn interval_grow_doubles() {
    let mut i = Interval::new(0x4000_0005, 0x4000_0000);
    let middle = Interval::new(0x4000_0000, 0x4000_0000);
    assert!(middle.contains(i));
    i.grow(middle);
    assert_eq!(i.below, 10);
    assert_eq!(i.above, 0);
}
