use core::array;
use kvdb::{
    Accumulator, Buffer, BufferedData, Bytes, Hasher, Lanes, State, BYTES_IN_LANE, PRIME32_1,
    PRIME32_2,
};
use std::mem;

const EMPTY_BYTES: [u8; 0] = [];

#[test]
fn test_buffered_data_size_and_alignment() {
    assert_eq!(mem::size_of::<BufferedData>(), mem::size_of::<Lanes>());
    assert_eq!(mem::size_of::<Bytes>(), 16);
    assert!(mem::align_of::<u8>() <= mem::align_of::<u32>());
}

#[test]
fn test_debug_format() {
    let buf = BufferedData::from_lanes([1, 2, 3, 4]);
    let debug_str = buf.debug_string();

    assert_eq!(debug_str, "[1, 2, 3, 4]");
}

#[test]
fn test_set_and_remaining() {
    let mut buf = Buffer::new();
    let input = &[10, 20, 30];

    buf.set(input);

    assert_eq!(buf.offset, input.len());
    assert_eq!(buf.remaining(), input);
}

#[test]
fn test_set_empty_does_nothing() {
    let mut buf = Buffer::new();
    buf.set(&[]);
    assert_eq!(buf.offset, 0);
    assert_eq!(buf.remaining(), &[]);
}

#[test]
fn test_extend_with_offset_zero_returns_all() {
    let mut buf = Buffer::new();
    let data = &[1, 2, 3, 4];
    let (opt, rest) = buf.extend(data);

    assert!(opt.is_none());
    assert_eq!(rest, data);
    assert_eq!(buf.offset, 0);
}

#[test]
fn test_extend_filling_buffer_and_emitting() {
    let mut buf = Buffer::new();

    // Pre-set offset to simulate partial fill
    buf.set(&[100; 8]);
    let data = &[1u8; 16];

    // should fill remaining 8 bytes, then emit full lane and rest
    let (opt, rest) = buf.extend(data);
    assert!(opt.is_some());

    let lanes = opt.unwrap();

    assert_eq!(lanes[0], u32::from_le_bytes([100; 4]));
    assert_eq!(lanes[1], u32::from_le_bytes([100; 4]));
    assert_eq!(lanes[2], u32::from_le_bytes([1; 4]));
    assert_eq!(lanes[3], u32::from_le_bytes([1; 4]));
    assert_eq!(rest.len(), 8);
    assert_eq!(buf.offset, 0);
}

#[test]
fn test_extend_partial_fill_no_emit() {
    let mut buf = Buffer::new();
    let data = &[2u8; 2];

    buf.set(&[50; 10]);
    let (opt, rest) = buf.extend(data);

    assert!(opt.is_none());
    assert_eq!(rest.len(), 0);
    assert_eq!(buf.offset, 12);
    assert_eq!(buf.remaining().len(), 12);
}

#[test]
fn test_accumulator_new() {
    let seed = 42;
    let acc = Accumulator::new(seed);

    assert_eq!(
        acc.0[0],
        seed.wrapping_add(PRIME32_1).wrapping_add(PRIME32_2)
    );
    assert_eq!(acc.0[1], seed.wrapping_add(PRIME32_2));
    assert_eq!(acc.0[2], seed);
    assert_eq!(acc.0[3], seed.wrapping_sub(PRIME32_1));
}

#[test]
fn test_round_consistency() {
    let acc = Accumulator::round(1, 2);
    let mut exp = 1u32.wrapping_add(2u32.wrapping_mul(PRIME32_2));
    exp = exp.rotate_left(13).wrapping_mul(PRIME32_1);

    assert_eq!(acc, exp);
}

#[test]
fn test_write_and_finish() {
    let mut acc = Accumulator::new(0);
    acc.write([1, 2, 3, 4]);
    let hash = acc.finish();

    assert!(hash <= u32::MAX);
}

#[test]
fn test_write_many_exact_chunks() {
    let mut acc = Accumulator::new(0);
    let mut data = vec![];

    for i in 0..32u8 {
        data.push(i);
    }

    let rest = acc.write_many(&data);

    assert!(rest.is_empty());
}

#[test]
fn test_write_many_with_remainder() {
    let mut acc = Accumulator::new(0);
    let mut data = vec![];

    for i in 0..(BYTES_IN_LANE as u8 + 3) {
        data.push(i);
    }

    let rest = acc.write_many(&data);

    assert_eq!(rest.len(), 3);
}

#[test]
fn ingesting_byte_by_byte_is_equivalent_to_large_chunks() {
    let bytes = [0; 32];

    let mut byte_by_byte = Hasher::with_seed(0);
    for byte in bytes.chunks(1) {
        byte_by_byte.write(byte);
    }
    let byte_by_byte = byte_by_byte.finish();

    let mut one_chunk = Hasher::with_seed(0);
    one_chunk.write(&bytes);
    let one_chunk = one_chunk.finish();

    assert_eq!(byte_by_byte, one_chunk);
}

#[test]
fn hash_of_nothing_matches_c_implementation() {
    let mut hasher = Hasher::with_seed(0);
    hasher.write(&EMPTY_BYTES);
    assert_eq!(hasher.finish(), 0x02cc_5d05);
}

#[test]
fn hash_of_single_byte_matches_c_implementation() {
    let mut hasher = Hasher::with_seed(0);
    hasher.write(&[42]);
    assert_eq!(hasher.finish(), 0xe0fe_705f);
}

#[test]
fn hash_of_multiple_bytes_matches_c_implementation() {
    let mut hasher = Hasher::with_seed(0);
    hasher.write(b"Hello, world!\0");
    assert_eq!(hasher.finish(), 0x9e5e_7e93);
}

#[test]
fn hash_of_multiple_chunks_matches_c_implementation() {
    let bytes: [u8; 100] = array::from_fn(|i| i as u8);
    let mut hasher = Hasher::with_seed(0);
    hasher.write(&bytes);
    assert_eq!(hasher.finish(), 0x7f89_ba44);
}

#[test]
fn hash_with_different_seed_matches_c_implementation() {
    let mut hasher = Hasher::with_seed(0x42c9_1977);
    hasher.write(&EMPTY_BYTES);
    assert_eq!(hasher.finish(), 0xd6bf_8459);
}

#[test]
fn hash_with_different_seed_and_multiple_chunks_matches_c_implementation() {
    let bytes: [u8; 100] = array::from_fn(|i| i as u8);
    let mut hasher = Hasher::with_seed(0x42c9_1977);
    hasher.write(&bytes);
    assert_eq!(hasher.finish(), 0x6d2f_6c17);
}

#[test]
fn hashes_with_different_offsets_are_the_same() {
    let bytes = [0x7c; 4096];
    let expected = Hasher::oneshot(0, &[0x7c; 64]);

    let the_same = bytes
        .windows(64)
        .map(|w| {
            let mut hasher = Hasher::with_seed(0);
            hasher.write(w);
            hasher.finish_32()
        })
        .all(|h| h == expected);
    assert!(the_same);
}

#[test]
fn oneshot_matches_streaming_in_uneven_pieces() {
    let bytes: [u8; 100] = array::from_fn(|i| (i * 7) as u8);
    let mut hasher = Hasher::with_seed(7);
    hasher.write(&bytes[..5]);
    hasher.write(&bytes[5..37]);
    hasher.write(&bytes[37..]);
    assert_eq!(hasher.finish_32(), Hasher::oneshot(7, &bytes));
    assert_eq!(hasher.total_len(), 100);
    assert_eq!(hasher.total_len_32(), 100);
    assert_eq!(hasher.seed(), 7);
}

#[test]
fn oneshot_of_nothing_matches_c_implementation() {
    assert_eq!(Hasher::oneshot(0, &EMPTY_BYTES), 0x02cc_5d05);
}

#[test]
fn fresh_buffered_data_is_zero() {
    assert_eq!(BufferedData::new().bytes(), &[0u8; 16]);
    assert_eq!(BufferedData::new().lanes(), [0u32; 4]);
}

#[test]
fn state_builds_seeded_hashers() {
    let state = State::with_seed(0x42c9_1977);
    let mut hasher = state.build_hasher();
    hasher.write(&EMPTY_BYTES);
    assert_eq!(hasher.finish(), 0xd6bf_8459);
    let default: Hasher = Default::default();
    assert_eq!(default.finish(), 0x02cc_5d05);
}
