use bitsets::concise::{AppendError, Concise};

fn build(positions: &[i32]) -> Concise {
    let mut concise = Concise::new();
    for &p in positions {
        concise.append(p).unwrap();
    }
    concise
}

#[test]
fn word_iterator_next1() {
    let mut concise = Concise::new();
    for i in 1..=5 {
        concise.append(i).unwrap();
    }

    let words = concise.words_view();
    assert_eq!(words.len(), 1);
    assert_eq!(words[0], 0x8000003E);
}

#[test]
fn word_iterator_next2() {
    let mut concise = Concise::new();
    for i in 0..100000 {
        concise.append(i).unwrap();
    }

    let words = concise.words_view();
    assert_eq!(words.len(), 2);
    assert_eq!(words[0], 0x40000C98);
    assert_eq!(words[1], 0x81FFFFFF);
}

#[test]
fn append_one_to_five_counts() {
    let concise = build(&[1, 2, 3, 4, 5]);
    assert_eq!(concise.cardinality(), 5);
    assert_eq!(concise.size(), 4);
}

#[test]
fn empty_builder_has_no_words() {
    let concise = Concise::new();
    assert_eq!(concise.words_view().len(), 0);
    assert_eq!(concise.size(), 0);
    assert_eq!(concise.cardinality(), 0);
}

#[test]
fn single_bit_at_zero_is_one_word() {
    let concise = build(&[0]);
    assert_eq!(concise.words_view(), &[0x8000_0001u32][..]);
}

#[test]
fn bits_31_apart_make_two_literals() {
    let concise = build(&[0, 31]);
    assert_eq!(concise.words_view(), &[0x8000_0001u32, 0x8000_0001][..]);
    let concise = build(&[5, 36]);
    assert_eq!(concise.words_view(), &[0x8000_0020u32, 0x8000_0020][..]);
}

#[test]
fn thirty_two_consecutive_bits() {
    let positions: Vec<i32> = (0..32).collect();
    let concise = build(&positions);
    assert_eq!(concise.words_view(), &[0xFFFF_FFFFu32, 0x8000_0001][..]);
}

#[test]
fn first_append_in_second_block() {
    let concise = build(&[40]);
    assert_eq!(concise.words_view(), &[0x8000_0000u32, 0x8000_0200][..]);
}

#[test]
fn first_append_after_zero_fill() {
    // 100 = 3 * 31 + 7: three zero blocks, then bit 7.
    let concise = build(&[100]);
    assert_eq!(concise.words_view(), &[0x0000_0002u32, 0x8000_0080][..]);
}

#[test]
fn single_bit_literal_absorbed_into_zero_fill() {
    // Bit 3 alone in block 0, then a gap of two zero blocks, then bit 0 of block 3.
    let concise = build(&[3, 93]);
    assert_eq!(concise.words_view(), &[0x0800_0002u32, 0x8000_0001][..]);
}

#[test]
fn single_bit_literal_and_one_zero_block() {
    // Bit 3 in block 0, block 1 empty, bit 0 of block 2.
    let concise = build(&[3, 62]);
    assert_eq!(concise.words_view(), &[0x0800_0001u32, 0x8000_0001][..]);
}

#[test]
fn fill_then_flipped_fill() {
    // Three zero blocks, bit 7 of block 3, block 4 empty, bit 7 of block 5.
    let concise = build(&[100, 162]);
    assert_eq!(concise.words_view(), &[0x0000_0002u32, 0x1000_0001, 0x8000_0080][..]);
}

#[test]
fn full_blocks_merge_into_one_fill() {
    let positions: Vec<i32> = (0..93).collect();
    let concise = build(&positions);
    assert_eq!(concise.words_view(), &[0x4000_0002u32][..]);
    assert_eq!(concise.size(), 4);
}

#[test]
fn literal_missing_one_bit_absorbed_into_one_fill() {
    // Block 0 holds every bit but bit 4, block 1 is full.
    let positions: Vec<i32> = (0..62).filter(|&p| p != 4).collect();
    let concise = build(&positions);
    assert_eq!(concise.words_view(), &[0x4A00_0001u32][..]);
}

#[test]
fn cardinality_counts_appends() {
    let positions = [0, 7, 31, 32, 200, 201, 5000, 5001, 5002, 100_000];
    let concise = build(&positions);
    assert_eq!(concise.cardinality(), positions.len() as u32);
    assert_eq!(concise.size(), concise.words_view().len() * 4);
}

#[test]
fn append_rejects_negative_position() {
    let mut concise = Concise::new();
    assert_eq!(concise.append(-1), Err(AppendError::NegativePosition));
    assert_eq!(concise.words_view().len(), 0);
}

#[test]
fn append_rejects_non_increasing_position() {
    let mut concise = build(&[10]);
    assert_eq!(concise.append(10), Err(AppendError::NonMonotonicAppend));
    assert_eq!(concise.append(3), Err(AppendError::NonMonotonicAppend));
    assert_eq!(concise.words_view(), &[0x8000_0400u32][..]);
    assert_eq!(concise.cardinality(), 1);
}

#[test]
fn append_rejects_position_past_limit() {
    let mut concise = Concise::new();
    assert_eq!(concise.append(1_040_187_392), Err(AppendError::PositionTooLarge));
    assert_eq!(concise.append(1_040_187_391), Ok(()));
    assert_eq!(concise.words_view(), &[0x01FF_FFFEu32, 0x8000_0000 | (1 << 30)][..]);
}
