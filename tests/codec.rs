use ioqp_codec::{ioqp_decode, ioqp_encode, CodecError, Compressor, SimdBPandStreamVbyte, BLOCK_LEN};

fn ascending(n: u32) -> Vec<u32> {
    (0..n).map(|i| i * 3 + (i % 2)).collect()
}

#[test]
fn empty_sequence_writes_nothing() {
    let e = ioqp_encode(&[]).unwrap();
    assert!(e.bytes.is_empty());
    assert_eq!(e.tail_start, 0);
    assert_eq!(e.tail_baseline, 0);
    let d = ioqp_decode(0, &[]).unwrap();
    assert!(d.values.is_empty());
    assert_eq!(d.tail_offset, 0);
    assert_eq!(d.tail_len, 0);
}

#[test]
fn exact_block_goes_through_full_path() {
    let s: Vec<u32> = (0..32).collect();
    let e = ioqp_encode(&s).unwrap();
    // deltas are 0, 1, 1, ...: one bit each, 32 bits = 4 bytes after the header
    assert_eq!(e.bytes.len(), 5);
    assert_eq!(e.bytes[0], 1);
    assert_eq!(e.tail_start, 32);
    assert_eq!(e.tail_baseline, 31);
    let d = ioqp_decode(32, &e.bytes).unwrap();
    assert_eq!(d.values, s);
    assert_eq!(d.tail_len, 0);
    assert_eq!(d.tail_offset, 5);
    assert_eq!(d.tail_baseline, 31);
}

#[test]
fn single_remainder_takes_last_of_second_block() {
    let s = ascending(BLOCK_LEN as u32 * 2 + 1);
    let e = ioqp_encode(&s).unwrap();
    assert_eq!(e.tail_start, 64);
    assert_eq!(e.tail_baseline, s[63]);
    let d = ioqp_decode(s.len(), &e.bytes).unwrap();
    assert_eq!(d.values, s[..64].to_vec());
    assert_eq!(d.tail_len, 1);
    assert_eq!(d.tail_baseline, s[63]);
    assert_eq!(d.tail_offset, e.bytes.len());
}

#[test]
fn round_trip_over_many_lengths() {
    for n in [0u32, 1, 31, 32, 33, 63, 64, 65, 96, 100, 200] {
        let s = ascending(n);
        let e = ioqp_encode(&s).unwrap();
        let d = ioqp_decode(s.len(), &e.bytes).unwrap();
        let full = (s.len() / BLOCK_LEN) * BLOCK_LEN;
        assert_eq!(d.values, s[..full].to_vec());
        assert_eq!(d.tail_offset, e.bytes.len());
        assert_eq!(d.tail_baseline, e.tail_baseline);
        assert_eq!(d.tail_len, s.len() - full);
        assert_eq!(e.tail_start, full);
    }
}

#[test]
fn round_trip_with_trailing_bytes() {
    let s = ascending(64);
    let mut bytes = ioqp_encode(&s).unwrap().bytes;
    let len = bytes.len();
    bytes.extend_from_slice(&[7, 7, 7]);
    let d = ioqp_decode(64, &bytes).unwrap();
    assert_eq!(d.values, s);
    assert_eq!(d.tail_offset, len);
}

#[test]
fn encoding_is_deterministic() {
    let s = ascending(100);
    let a = ioqp_encode(&s).unwrap();
    let b = ioqp_encode(&s).unwrap();
    assert_eq!(a.bytes, b.bytes);
    assert_eq!(a.tail_start, b.tail_start);
    assert_eq!(a.tail_baseline, b.tail_baseline);
}

#[test]
fn duplicate_values_round_trip() {
    let s = vec![5u32; 64];
    let e = ioqp_encode(&s).unwrap();
    // first block: delta 5 then zeros, three bits; second block: all zero deltas
    assert_eq!(e.bytes[0], 3);
    assert_eq!(e.bytes.len(), 1 + 12 + 1);
    assert_eq!(e.bytes[13], 0);
    let d = ioqp_decode(64, &e.bytes).unwrap();
    assert_eq!(d.values, s);
}

#[test]
fn short_sequence_is_all_tail() {
    let s = vec![10u32, 20, 20, 35];
    let e = ioqp_encode(&s).unwrap();
    assert!(e.bytes.is_empty());
    assert_eq!(e.tail_start, 0);
    assert_eq!(e.tail_baseline, 0);
    let d = ioqp_decode(4, &e.bytes).unwrap();
    assert!(d.values.is_empty());
    assert_eq!(d.tail_len, 4);
    assert_eq!(d.tail_offset, 0);
}

#[test]
fn full_block_from_zero_baseline() {
    // deltas 10, 10, 0, 15, then zeros: the largest needs four bits
    let mut block = vec![10u32, 20, 20, 35];
    block.resize(BLOCK_LEN, 35);
    let mut out = vec![9u8];
    let n = SimdBPandStreamVbyte::compress_sorted_full(0, &block, &mut out);
    assert_eq!(n, 1 + 16);
    assert_eq!(out.len(), 1 + n);
    assert_eq!(out[0], 9);
    assert_eq!(out[1], 4);
    let mut back = vec![1u32];
    let used = SimdBPandStreamVbyte::decompress_sorted_full(0, &out[1..], &mut back).unwrap();
    assert_eq!(used, n);
    assert_eq!(back[0], 1);
    assert_eq!(back[1..].to_vec(), block);
}

#[test]
fn packed_payload_is_not_the_input() {
    let block: Vec<u32> = (1..=32).collect();
    let mut out = Vec::new();
    SimdBPandStreamVbyte::compress_sorted_full(0, &block, &mut out);
    // all deltas are 1: one bit each, every payload byte is all ones
    assert_eq!(out, vec![1u8, 0xff, 0xff, 0xff, 0xff]);
}

#[test]
fn full_block_against_nonzero_baseline() {
    let block: Vec<u32> = (0..32).map(|i| 1000 + i * 2).collect();
    let mut out = Vec::new();
    let n = SimdBPandStreamVbyte::compress_sorted_full(1000, &block, &mut out);
    assert_eq!(out[0], 2);
    assert_eq!(n, 1 + 8);
    let mut back = Vec::new();
    SimdBPandStreamVbyte::decompress_sorted_full(1000, &out, &mut back).unwrap();
    assert_eq!(back, block);
}

#[test]
fn widest_block_stays_within_bound() {
    let mut block = vec![0u32; BLOCK_LEN];
    block[BLOCK_LEN - 1] = u32::MAX;
    let e = ioqp_encode(&block).unwrap();
    assert_eq!(e.bytes[0], 32);
    assert_eq!(e.bytes.len(), 1 + 4 * BLOCK_LEN);
    let d = ioqp_decode(BLOCK_LEN, &e.bytes).unwrap();
    assert_eq!(d.values, block);
}

#[test]
fn unsorted_input_is_refused() {
    assert!(matches!(ioqp_encode(&[3, 2]), Err(CodecError::NotSorted)));
    let mut s = ascending(70);
    s[40] = 0;
    assert!(matches!(ioqp_encode(&s), Err(CodecError::NotSorted)));
}

#[test]
fn truncated_buffer_is_a_size_mismatch() {
    let s = ascending(64);
    let e = ioqp_encode(&s).unwrap();
    let cut = &e.bytes[..e.bytes.len() - 1];
    assert!(matches!(ioqp_decode(64, cut), Err(CodecError::SizeMismatch)));
    assert!(matches!(ioqp_decode(32, &[]), Err(CodecError::SizeMismatch)));
}

#[test]
fn oversized_bit_width_is_refused() {
    let bytes = vec![33u8; 200];
    assert!(matches!(ioqp_decode(32, &bytes), Err(CodecError::BadBitWidth)));
    let mut out = Vec::new();
    assert!(matches!(
        SimdBPandStreamVbyte::decompress_sorted_full(0, &bytes, &mut out),
        Err(CodecError::BadBitWidth)
    ));
    assert!(out.is_empty());
}
