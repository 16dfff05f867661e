use bitsets::bitstore::Bits;
use bitsets::rle::rle;

fn bits(v: &[u8]) -> Bits {
    let b: Vec<bool> = v.iter().map(|&x| x == 1).collect();
    Bits::from_bools(&b)
}

#[test]
fn test_rle_basics() {
    let cases = vec![
        (
            bits(&[0; 8]),
            bits(&[
                0, 0, 0, 1, 0, 0, 0, 0, //
                0,
            ]),
        ),
        (
            bits(&[0, 0, 0, 0, 1, 0, 0, 0]),
            bits(&[
                0, 0, 1, 0, 0, 0, 0, 0, //
                0, 1, 0, 0, 0, 0, 0, 0, //
                0, 1, 1, 1, 0, 0, 0, 0, //
                0, 0, 0,
            ]),
        ),
    ];

    for case in cases.into_iter() {
        assert_eq!(rle(&case.0).to_bools(), case.1.to_bools());
    }
}

#[test]
fn rle_last_bit_joins_final_run() {
    // [0, 0, 1]: the final 1 is counted into the run of zeros.
    let out = rle(&bits(&[0, 0, 1])).to_bools();
    let expected = bits(&[1, 1, 0, 0, 0, 0, 0, 0, 0]).to_bools();
    assert_eq!(out, expected);
}

#[test]
fn rle_short_inputs_are_empty() {
    assert_eq!(rle(&bits(&[])).len(), 0);
    assert_eq!(rle(&bits(&[1])).len(), 0);
}

#[test]
fn rle_long_run_takes_two_varint_bytes() {
    // 200 ones: 200 = 0xC8 0x01 in LEB128.
    let out = rle(&bits(&[1; 200])).to_bools();
    let mut expected = Vec::new();
    for byte in [0xC8u8, 0x01] {
        for j in 0..8 {
            expected.push((byte >> j) & 1 == 1);
        }
    }
    expected.push(true);
    assert_eq!(out, expected);
}
