use bitsets::bitstore::Bits;
use bitsets::rleplus::{decode, encode, DecodeError};
use rand::{Rng, RngCore, SeedableRng};
use rand_xorshift::XorShiftRng;

fn bits(v: &[u8]) -> Bits {
    let b: Vec<bool> = v.iter().map(|&x| x == 1).collect();
    Bits::from_bools(&b)
}

fn bits_of_bytes(bytes: &[u8]) -> Bits {
    let mut b = Vec::with_capacity(bytes.len() * 8);
    for &byte in bytes {
        for j in 0..8 {
            b.push((byte >> j) & 1 == 1);
        }
    }
    Bits::from_bools(&b)
}

#[test]
fn test_rle_plus_basics() {
    let cases = vec![
        (
            bits(&[0; 8]),
            bits(&[
                0, // starts with 0
                0, 1, // fits into 4 bits
                0, 0, 0, 1, // 8
            ]),
        ),
        (
            bits(&[0, 0, 0, 0, 1, 0, 0, 0]),
            bits(&[
                0, // starts with 0
                0, 1, // fits into 4 bits
                0, 0, 1, 0, // 4 - 0
                1, // 1 - 1
                0, 1, // fits into 4 bits
                1, 1, 0, 0, // 3 - 0
            ]),
        ),
    ];

    for (i, case) in cases.into_iter().enumerate() {
        assert_eq!(encode(&case.0).to_bools(), case.1.to_bools(), "case: {}", i);
    }
}

#[test]
fn test_rle_plus_roundtrip_small() {
    let mut rng = XorShiftRng::from_seed([1u8; 16]);

    for _i in 0..10000 {
        let len: usize = rng.gen_range(0..1000);

        let mut src = vec![0u8; len];
        rng.fill_bytes(&mut src);

        let input = bits_of_bytes(&src);

        let encoded = encode(&input);
        let decoded = decode(&encoded).unwrap();

        assert_eq!(input.to_bools(), decoded.to_bools());
    }
}

#[test]
fn test_rle_plus_roundtrip_large() {
    let mut rng = XorShiftRng::from_seed([2u8; 16]);

    for _i in 0..100 {
        let len: usize = rng.gen_range(0..100000);

        let mut src = vec![0u8; len];
        rng.fill_bytes(&mut src);

        let input = bits_of_bytes(&src);

        let encoded = encode(&input);
        let decoded = decode(&encoded).unwrap();

        assert_eq!(input.to_bools(), decoded.to_bools());
    }
}

#[test]
fn empty_encodes_and_decodes_to_empty() {
    let empty = bits(&[]);
    assert_eq!(encode(&empty).len(), 0);
    assert_eq!(decode(&empty).unwrap().len(), 0);
}

#[test]
fn all_zeros_of_length_twenty() {
    // Run of 20: prefix 00, varint byte 20 = 0b0001_0100 LSB first.
    let out = encode(&bits(&[0; 20])).to_bools();
    let expected = bits(&[0, 0, 0, 0, 0, 1, 0, 1, 0, 0, 0]).to_bools();
    assert_eq!(out, expected);
}

#[test]
fn all_ones_of_length_three_hundred() {
    // 300 = 0xAC 0x02 in LEB128.
    let input = bits(&[1; 300]);
    let out = encode(&input).to_bools();
    let mut expected = vec![true, false, false];
    for byte in [0xACu8, 0x02] {
        for j in 0..8 {
            expected.push((byte >> j) & 1 == 1);
        }
    }
    assert_eq!(out, expected);
    assert_eq!(decode(&encode(&input)).unwrap().to_bools(), input.to_bools());
}

#[test]
fn run_of_fifteen_uses_four_bits() {
    let out = encode(&bits(&[1; 15])).to_bools();
    let expected = bits(&[1, 0, 1, 1, 1, 1, 1]).to_bools();
    assert_eq!(out, expected);
}

#[test]
fn run_of_sixteen_uses_varint() {
    let out = encode(&bits(&[0; 16])).to_bools();
    let expected = bits(&[0, 0, 0, 0, 0, 0, 0, 1, 0, 0, 0]).to_bools();
    assert_eq!(out, expected);
}

#[test]
fn single_bit_runs() {
    let input = bits(&[1, 0, 1]);
    assert_eq!(encode(&input).to_bools(), bits(&[1, 1, 1, 1]).to_bools());
    assert_eq!(decode(&bits(&[1, 1, 1, 1])).unwrap().to_bools(), input.to_bools());
}

#[test]
fn decode_four_bit_length_of_zero_or_one() {
    // The decoder accepts any 4-bit length.
    assert_eq!(decode(&bits(&[1, 0, 1, 0, 0, 0, 0])).unwrap().len(), 0);
    assert_eq!(decode(&bits(&[1, 0, 1, 1, 0, 0, 0])).unwrap().to_bools(), vec![true]);
}

#[test]
fn decode_dangling_zero_is_malformed() {
    assert_eq!(decode(&bits(&[0, 0])).err(), Some(DecodeError::MalformedStream));
}

#[test]
fn decode_truncated_four_bit_length_is_malformed() {
    assert_eq!(decode(&bits(&[0, 0, 1, 0, 1])).err(), Some(DecodeError::MalformedStream));
}

#[test]
fn decode_truncated_varint_is_malformed() {
    // Prefix 00, then one byte with its high bit set and nothing after it.
    assert_eq!(
        decode(&bits(&[0, 0, 0, 1, 0, 0, 0, 0, 0, 0, 1])).err(),
        Some(DecodeError::MalformedStream)
    );
    // Prefix 00 and fewer than eight bits.
    assert_eq!(decode(&bits(&[0, 0, 0, 1, 0])).err(), Some(DecodeError::MalformedStream));
}
