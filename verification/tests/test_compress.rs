use rsnappy::compress::{compress_block, compress_buffer};
use rsnappy::dict::{common_prefix_length, Dict, LossyHashTable, PositionQueue};
use rsnappy::emit::{do_emit_copy, emit_copy, emit_literal, write_u16_le, write_varint};
use rsnappy::{compress, compress_with_options, decompress, CompressorOptions, SliceReader};
use rsnappy::MAX_BLOCK_SIZE;

fn roundtrip_check(inp: &[u8]) {
    let mut out = Vec::new();
    match compress(&mut SliceReader::new(inp), &mut out) {
        Err(e) => {
            println!("failed: {:?}", e);
            println!("remaining input: {:?}", inp);
            println!("written ouput: {:?}", &out[..]);
            panic!("failed: {:?}", e)
        }
        Ok(_) => {}
    };
    println!("compressed {} => {}", inp.len(), out.len());
    let mut roundtrip = Vec::new();
    match decompress(&mut SliceReader::new(&out[..]), &mut roundtrip) {
        Err(e) => {
            println!("failed: {:?}", e);
            println!("remaining input: {:?}", &out[..]);
            panic!("failed: {:?}", e)
        }
        Ok(_) => {}
    };
    let n = std::cmp::min(inp.len(), 384);
    assert_eq!(&inp[..n], &roundtrip[..n]);
    assert_eq!(inp, &roundtrip[..]);
}

/// A long English-like text: sentences drawn from a small vocabulary.
fn sample_text(len: usize) -> Vec<u8> {
    let words: [&str; 24] = [
        "the", "moonstone", "diamond", "house", "sergeant", "evening", "shivering", "sand",
        "of", "and", "was", "in", "to", "lady", "verinder", "betteredge", "rachel", "franklin",
        "indian", "yellow", "night", "birthday", "that", "it",
    ];
    let mut state: u32 = 0x2545_F491;
    let mut text = Vec::with_capacity(len + 16);
    let mut in_sentence = 0;
    while text.len() < len {
        state = state.wrapping_mul(1_103_515_245).wrapping_add(12_345);
        let w = words[((state >> 16) % 24) as usize];
        text.extend_from_slice(w.as_bytes());
        in_sentence += 1;
        if in_sentence > 5 + (state >> 28) {
            text.extend_from_slice(b".\n");
            in_sentence = 0;
        } else {
            text.push(b' ');
        }
    }
    text.truncate(len);
    text
}

#[test]
fn test_write_varint_short() {
    let mut v = Vec::new();
    write_varint(&mut v, 64).unwrap();
    assert_eq!(&v[..], &[64])
}

#[test]
fn test_write_varint_long() {
    let mut v = Vec::new();
    write_varint(&mut v, 2097150).unwrap();
    assert_eq!(&v[..], &[0xFE, 0xFF, 0x7F])
}

#[test]
fn test_emit_literal_small() {
    let mut out = Vec::new();
    let literal = &[1, 2, 3, 4, 5, 6, 7];
    emit_literal(&mut out, literal).unwrap();
    assert_eq!(out[0], 0b000110_00);
    assert_eq!(&out[1..], literal);
}

#[test]
fn test_emit_literal_medium() {
    let mut out = Vec::new();
    let literal: Vec<u8> = (0..100).collect();
    emit_literal(&mut out, &literal[..]).unwrap();
    assert_eq!(&out[..2], &[0b111100_00, (literal.len() - 1) as u8]);
    assert_eq!(&out[2..], &literal[..]);
}

#[test]
fn test_emit_literal_large() {
    let mut out = Vec::new();
    let literal: Vec<u8> = (0..16_777_218).map(|i| (i % 100) as u8).collect();
    emit_literal(&mut out, &literal[..]).unwrap();
    assert_eq!(&out[..5], &[0b111111_00, 0x01, 0x00, 0x00, 0x01]);
    assert_eq!(&out[5..], &literal[..]);
}

#[test]
fn test_emit_copy_large() {
    let mut out = Vec::new();
    emit_copy(&mut out, 60_000, 40).unwrap();
    assert_eq!(&out[..], &[0b100111_10, 0x60, 0xEA]);
}

#[test]
fn test_common_prefix_length() {
    assert_eq!(common_prefix_length(&[1, 2, 3, 4, 5, 3, 4, 5], 2, 5), 3);
    assert_eq!(
        common_prefix_length(
            &[1, 2, 3, 4, 5, 6, 7, 8, 9, 10, 11, 3, 4, 5, 6, 7, 8, 9, 10, 11, 12],
            2,
            11
        ),
        9
    );
    assert_eq!(
        common_prefix_length(
            &[1, 2, 3, 4, 5, 6, 7, 8, 9, 10, 11, 3, 4, 5, 6, 0, 8, 9, 10, 11, 12],
            2,
            11
        ),
        4
    );
}

#[test]
fn test_big_roundtrip() {
    let text = sample_text(300_000);
    roundtrip_check(&text[..]);
}

#[test]
fn test_small_roundtrip() {
    let inp: Vec<u8> = (0..80).collect();
    roundtrip_check(&inp[..]);
}

#[test]
fn test_tiny_roundtrip() {
    roundtrip_check(&[1]);
}

#[test]
fn test_empty_roundtrip() {
    roundtrip_check(&[]);
}

// ---------------------------------------------------------------------
// The length prefix
// ---------------------------------------------------------------------

#[test]
fn varint_has_one_to_five_bytes() {
    let cases: [(u32, &[u8]); 10] = [
        (0, &[0x00]),
        (1, &[0x01]),
        (127, &[0x7F]),
        (128, &[0x80, 0x01]),
        (16_383, &[0xFF, 0x7F]),
        (16_384, &[0x80, 0x80, 0x01]),
        (1_000_000, &[0xC0, 0x84, 0x3D]),
        (2_097_152, &[0x80, 0x80, 0x80, 0x01]),
        (268_435_456, &[0x80, 0x80, 0x80, 0x80, 0x01]),
        (u32::MAX, &[0xFF, 0xFF, 0xFF, 0xFF, 0x0F]),
    ];
    for (n, expected) in cases.iter() {
        let mut v = Vec::new();
        write_varint(&mut v, *n).unwrap();
        assert_eq!(&v[..], *expected);
    }
}

#[test]
fn varint_is_appended_to_the_sink() {
    let mut v = vec![9u8, 9];
    write_varint(&mut v, 300).unwrap();
    assert_eq!(&v[..], &[9, 9, 0xAC, 0x02]);
}

#[test]
fn u16_is_written_low_byte_first() {
    let mut v = Vec::new();
    write_u16_le(&mut v, 0xEA60).unwrap();
    assert_eq!(&v[..], &[0x60, 0xEA]);
}

// ---------------------------------------------------------------------
// Literals
// ---------------------------------------------------------------------

#[test]
fn literal_of_one_byte() {
    let mut out = Vec::new();
    emit_literal(&mut out, &[0xAB]).unwrap();
    assert_eq!(&out[..], &[0x00, 0xAB]);
}

#[test]
fn literal_header_grows_with_the_length() {
    let lengths: [(usize, &[u8]); 7] = [
        (60, &[59 << 2]),
        (61, &[60 << 2, 60]),
        (256, &[60 << 2, 255]),
        (257, &[61 << 2, 0x00, 0x01]),
        (65_536, &[61 << 2, 0xFF, 0xFF]),
        (65_537, &[62 << 2, 0x00, 0x00, 0x01]),
        (1_000_000, &[62 << 2, 0x3F, 0x42, 0x0F]),
    ];
    for (len, header) in lengths.iter() {
        let literal: Vec<u8> = (0..*len).map(|i| (i % 251) as u8).collect();
        let mut out = Vec::new();
        emit_literal(&mut out, &literal[..]).unwrap();
        assert_eq!(&out[..header.len()], *header);
        assert_eq!(&out[header.len()..], &literal[..]);
    }
}

// ---------------------------------------------------------------------
// Copies
// ---------------------------------------------------------------------

#[test]
fn copy_with_small_length_and_offset_takes_two_bytes() {
    let mut out = Vec::new();
    do_emit_copy(&mut out, 6, 5).unwrap();
    assert_eq!(&out[..], &[0b000_001_01, 6]);
    let mut out = Vec::new();
    do_emit_copy(&mut out, 2047, 11).unwrap();
    assert_eq!(&out[..], &[0b111_111_01, 0xFF]);
    let mut out = Vec::new();
    do_emit_copy(&mut out, 0x123, 4).unwrap();
    assert_eq!(&out[..], &[0b001_000_01, 0x23]);
}

#[test]
fn copy_with_large_length_or_offset_takes_three_bytes() {
    let mut out = Vec::new();
    do_emit_copy(&mut out, 2048, 4).unwrap();
    assert_eq!(&out[..], &[(3 << 2) | 2, 0x00, 0x08]);
    let mut out = Vec::new();
    do_emit_copy(&mut out, 5, 12).unwrap();
    assert_eq!(&out[..], &[(11 << 2) | 2, 5, 0]);
    let mut out = Vec::new();
    do_emit_copy(&mut out, 65_535, 64).unwrap();
    assert_eq!(&out[..], &[(63 << 2) | 2, 0xFF, 0xFF]);
}

#[test]
fn long_run_is_split_into_several_copies() {
    // 64 bytes fit in one tag.
    let mut out = Vec::new();
    emit_copy(&mut out, 100, 64).unwrap();
    assert_eq!(&out[..], &[254, 100, 0]);
    // 65 bytes: 60, then 5.
    let mut out = Vec::new();
    emit_copy(&mut out, 100, 65).unwrap();
    assert_eq!(&out[..], &[(59 << 2) | 2, 100, 0, (1 << 2) | 1, 100]);
    // 67 bytes: 60, then 7.
    let mut out = Vec::new();
    emit_copy(&mut out, 100, 67).unwrap();
    assert_eq!(&out[..], &[(59 << 2) | 2, 100, 0, (3 << 2) | 1, 100]);
    // 68 bytes: 64, then 4.
    let mut out = Vec::new();
    emit_copy(&mut out, 100, 68).unwrap();
    assert_eq!(&out[..], &[254, 100, 0, 1, 100]);
    // 200 bytes: 64, 64, 64, then 8.
    let mut out = Vec::new();
    emit_copy(&mut out, 3000, 200).unwrap();
    assert_eq!(
        &out[..],
        &[254, 0xB8, 0x0B, 254, 0xB8, 0x0B, 254, 0xB8, 0x0B, (7 << 2) | 2, 0xB8, 0x0B]
    );
    // 193 bytes: 64, 64, then 65 as 60 and 5.
    let mut out = Vec::new();
    emit_copy(&mut out, 1, 193).unwrap();
    assert_eq!(&out[..], &[254, 1, 0, 254, 1, 0, (59 << 2) | 2, 1, 0, (1 << 2) | 1, 1]);
}

#[test]
fn common_prefix_stops_at_64_and_at_the_end() {
    let block = vec![7u8; 200];
    assert_eq!(common_prefix_length(&block[..], 0, 10), 64);
    assert_eq!(common_prefix_length(&block[..], 0, 190), 10);
    assert_eq!(common_prefix_length(&block[..], 0, 200), 0);
    assert_eq!(common_prefix_length(&block[..], 195, 100), 5);
    let mut block = vec![7u8; 200];
    block[117] = 8;
    // The difference lies in the third word of eight bytes.
    assert_eq!(common_prefix_length(&block[..], 0, 100), 17);
    block[100] = 9;
    assert_eq!(common_prefix_length(&block[..], 0, 100), 0);
}

#[test]
fn common_prefix_finds_each_byte_of_a_word() {
    for d in 0..24usize {
        let mut block = vec![3u8; 64];
        block[32 + d] = 4;
        assert_eq!(common_prefix_length(&block[..], 0, 32), d as u16);
    }
}

// ---------------------------------------------------------------------
// The queue and the table
// ---------------------------------------------------------------------

#[test]
fn queue_keeps_the_three_newest_positions() {
    let mut q = PositionQueue::new();
    assert_eq!(q.len(), 0);
    assert_eq!(q.iter(), &[] as &[u16]);
    q.push(10);
    assert_eq!(q.iter(), &[10]);
    q.push(20);
    assert_eq!(q.iter(), &[20, 10]);
    q.push(30);
    assert_eq!(q.iter(), &[30, 20, 10]);
    q.push(40);
    assert_eq!(q.iter(), &[40, 30, 20]);
    assert_eq!(q.len(), 3);
    q.push(50);
    assert_eq!(q.iter(), &[50, 40, 30]);
}

#[test]
fn table_size_is_a_power_of_two_of_at_least_16() {
    let capacities: [(u32, usize); 9] = [
        (0, 16),
        (1, 16),
        (16, 16),
        (17, 32),
        (100, 128),
        (1000, 1024),
        (1024, 1024),
        (8191, 8192),
        (8192, 8192),
    ];
    for (capacity, size) in capacities.iter() {
        let t = LossyHashTable::new(*capacity);
        assert_eq!(t.len(), *size);
        assert_eq!(t.len() & (t.len() - 1), 0);
        assert!(t.len() >= 16);
        let d = Dict::new(*capacity);
        assert_eq!(d.len(), *size);
    }
}

#[test]
fn hash_mixes_and_masks() {
    let t = LossyHashTable::new(16);
    for key in [0u32, 1, 61, 0x0403_0201, 0xFFFF_FFFF, 0x1234_5678].iter() {
        let k = *key;
        let mut a = (k ^ 61) ^ (k >> 16);
        a = a.wrapping_add(a << 3);
        a ^= a >> 4;
        a = a.wrapping_mul(0x27d4_eb2d);
        a ^= a >> 15;
        assert_eq!(t.hash(k), (a & 15) as usize);
    }
    // One value worked out by hand: 61, 549, 519, 3232286779, and that
    // exclusive-or 98641 ends in the four bits 1010.
    assert_eq!(t.hash(0), 10);
}

#[test]
fn table_slot_is_taken_over_by_another_prefix() {
    let mut t = LossyHashTable::new(16);
    assert!(t.get_or_insert(&[1, 2, 3, 4], 7).is_none());
    {
        let q = t.get_or_insert(&[1, 2, 3, 4], 9).unwrap();
        assert_eq!(q.iter(), &[7]);
        q.push(9);
    }
    {
        let q = t.get_or_insert(&[1, 2, 3, 4], 11).unwrap();
        assert_eq!(q.iter(), &[9, 7]);
    }
    // Find a prefix that shares the slot, and insert it.
    let slot = t.hash(0x0403_0201);
    let mut other: u32 = 0;
    while t.hash(other) != slot || other == 0x0403_0201 {
        other += 1;
    }
    assert!(t.get_or_insert(&other.to_le_bytes(), 20).is_none());
    // The first prefix is forgotten.
    assert!(t.get_or_insert(&[1, 2, 3, 4], 30).is_none());
    t.clear();
    assert!(t.get_or_insert(&[1, 2, 3, 4], 31).is_none());
    assert_eq!(t.len(), 16);
}

#[test]
fn dict_finds_the_longest_of_the_recorded_matches() {
    //            0           4           8              12
    let block = [1u8, 2, 3, 4, 1, 2, 3, 4, 5, 9, 9, 9, 1, 2, 3, 4, 5, 6, 0, 0];
    let mut d = Dict::new(4);
    assert_eq!(d.find_best_match_or_add(&block[..], 0), None);
    // Position 4 matches position 0 for four bytes only.
    assert_eq!(d.find_best_match_or_add(&block[..], 4), Some((0, 4)));
    // Position 12 matches position 4 for five bytes, position 0 for four.
    assert_eq!(d.find_best_match_or_add(&block[..], 12), Some((4, 5)));
    d.clear();
    assert_eq!(d.find_best_match_or_add(&block[..], 12), None);
}

#[test]
fn dict_prefers_the_newest_of_equal_matches() {
    let mut block = Vec::new();
    for _ in 0..4 {
        block.extend_from_slice(&[1u8, 2, 3, 4, 5, 6, 7, 8]);
    }
    block.extend_from_slice(&[0u8; 8]);
    let mut d = Dict::new(4);
    assert_eq!(d.find_best_match_or_add(&block[..], 0), None);
    assert_eq!(d.find_best_match_or_add(&block[..], 8), Some((0, 24)));
    // From 24 the match with 16 and the match with 8 are both 8 long: the
    // newer position is found first and is kept.
    assert_eq!(d.find_best_match_or_add(&block[..], 16), Some((8, 16)));
    assert_eq!(d.find_best_match_or_add(&block[..], 24), Some((16, 8)));
}

#[test]
fn dict_match_is_at_most_68_bytes() {
    let block = vec![5u8; 300];
    let mut d = Dict::new(4);
    assert_eq!(d.find_best_match_or_add(&block[..], 0), None);
    assert_eq!(d.find_best_match_or_add(&block[..], 1), Some((0, 68)));
    assert_eq!(d.find_best_match_or_add(&block[..], 250), Some((1, 50)));
}

// ---------------------------------------------------------------------
// Blocks and whole streams
// ---------------------------------------------------------------------

#[test]
fn short_block_is_one_literal() {
    let block = [1u8, 1, 1, 1, 1, 1, 1, 1, 1, 1, 1, 1, 1, 1, 1];
    let mut out = Vec::new();
    let mut d = Dict::new(2);
    compress_block(&block[..], &mut out, &mut d).unwrap();
    assert_eq!(out[0], 14 << 2);
    assert_eq!(&out[1..], &block[..]);
}

#[test]
fn block_with_a_run_is_a_literal_and_copies() {
    let block = vec![9u8; 100];
    let mut out = Vec::new();
    let mut d = Dict::new(12);
    compress_block(&block[..], &mut out, &mut d).unwrap();
    // One byte as a literal, then 68 bytes from one back as 64 and 4, then
    // the last 31 bytes from position 1, which is 68 back.
    assert_eq!(&out[..], &[0x00, 9, 254, 1, 0, 1, 1, (30 << 2) | 2, 68, 0]);
}

#[test]
fn empty_input_is_a_single_zero_byte() {
    let mut out = Vec::new();
    compress(&mut SliceReader::new(&[]), &mut out).unwrap();
    assert_eq!(&out[..], &[0x00]);
    let mut back = vec![0xEEu8];
    decompress(&mut SliceReader::new(&out[..]), &mut back).unwrap();
    assert_eq!(&back[..], &[0xEE]);
}

#[test]
fn one_byte_input_is_a_single_literal() {
    let mut out = Vec::new();
    compress(&mut SliceReader::new(&[0x5A]), &mut out).unwrap();
    assert_eq!(&out[..], &[0x01, 0x00, 0x5A]);
}

#[test]
fn short_input_is_a_length_and_a_literal() {
    let mut out = Vec::new();
    compress(&mut SliceReader::new(&[1, 2, 3, 4, 5, 6, 7]), &mut out).unwrap();
    assert_eq!(&out[..], &[0x07, 0x18, 0x01, 0x02, 0x03, 0x04, 0x05, 0x06, 0x07]);
}

#[test]
fn default_options_hold_the_largest_block_size() {
    let options = CompressorOptions::default();
    assert_eq!(options.block_size as usize, MAX_BLOCK_SIZE);
    assert_eq!(MAX_BLOCK_SIZE, 65_535);
    let text = sample_text(5_000);
    let mut a = Vec::new();
    compress(&mut SliceReader::new(&text[..]), &mut a).unwrap();
    let mut b = Vec::new();
    compress_with_options(&mut SliceReader::new(&text[..]), &mut b, &options).unwrap();
    assert_eq!(a, b);
}

fn roundtrip_with(inp: &[u8], block_size: u16, window: usize) -> Vec<u8> {
    let mut out = Vec::new();
    let options = CompressorOptions { block_size: block_size };
    compress_with_options(&mut SliceReader::with_window(inp, window), &mut out, &options).unwrap();
    let mut back = Vec::new();
    decompress(&mut SliceReader::new(&out[..]), &mut back).unwrap();
    assert_eq!(inp, &back[..]);
    out
}

#[test]
fn input_that_ends_at_a_block_boundary_roundtrips() {
    let text = sample_text(4_096);
    for block_size in [16u16, 32, 64, 1024, 2048, 4096].iter() {
        roundtrip_with(&text[..], *block_size, usize::MAX);
    }
    let exact = sample_text(65_535 * 2);
    roundtrip_with(&exact[..], 65_535, usize::MAX);
}

#[test]
fn every_block_size_and_window_roundtrips() {
    let text = sample_text(3_000);
    for block_size in [1u16, 2, 5, 6, 15, 16, 17, 100, 1000, 65_535].iter() {
        for window in [1usize, 3, 16, 17, 1000, 5000].iter() {
            roundtrip_with(&text[..], *block_size, *window);
        }
    }
}

#[test]
fn repetitive_input_shrinks() {
    let inp = vec![0u8; 100_000];
    let out = roundtrip_with(&inp[..], 65_535, usize::MAX);
    assert!(out.len() < 8_000);
    let text = sample_text(100_000);
    let out = roundtrip_with(&text[..], 65_535, usize::MAX);
    assert!(out.len() < text.len());
}

#[test]
fn output_starts_with_the_length_of_the_input() {
    for len in [0usize, 1, 127, 128, 300, 16_384, 70_000].iter() {
        let text = sample_text(*len);
        let mut out = Vec::new();
        compress(&mut SliceReader::new(&text[..]), &mut out).unwrap();
        let mut value: u64 = 0;
        let mut shift = 0;
        for b in out.iter() {
            value |= ((b & 0x7F) as u64) << shift;
            if b & 0x80 == 0 {
                break;
            }
            shift += 7;
        }
        assert_eq!(value, *len as u64);
    }
}

#[test]
fn output_is_at_most_a_sixth_longer_than_the_input() {
    // Bytes without any repeated prefix: nothing but literals.
    let mut noise = Vec::new();
    let mut state: u32 = 12345;
    for _ in 0..200_000 {
        state = state.wrapping_mul(1_664_525).wrapping_add(1_013_904_223);
        noise.push((state >> 24) as u8);
    }
    for len in [0usize, 1, 5, 6, 15, 16, 17, 60, 61, 1000, 65_535, 65_536, 200_000].iter() {
        for block_size in [6u16, 16, 100, 65_535].iter() {
            let out = roundtrip_with(&noise[..*len], *block_size, usize::MAX);
            assert!(out.len() <= 32 + len + len / 6);
        }
    }
    let text = sample_text(50_000);
    for block_size in [6u16, 7, 16, 100, 65_535].iter() {
        let out = roundtrip_with(&text[..], *block_size, usize::MAX);
        assert!(out.len() <= 32 + text.len() + text.len() / 6);
    }
}

#[test]
fn blocks_of_one_byte_double_the_input() {
    let text = sample_text(100);
    let out = roundtrip_with(&text[..], 1, usize::MAX);
    assert_eq!(out.len(), 1 + 200);
    // The same happens with a source that hands out one byte at a time.
    let out = roundtrip_with(&text[..], 65_535, 1);
    assert_eq!(out.len(), 1 + 200);
}

/// Walks the tags of `stream` and checks every copy against the number of
/// bytes that precede it in the output. Returns the number of copies.
fn check_copies(stream: &[u8]) -> usize {
    let mut i = 0;
    while stream[i] & 0x80 != 0 {
        i += 1;
    }
    i += 1;
    let mut produced: usize = 0;
    let mut copies = 0;
    while i < stream.len() {
        let c = stream[i];
        match c & 3 {
            0 => {
                let n = (c >> 2) as usize;
                let (len, size) = if n < 60 {
                    (n + 1, 1)
                } else {
                    let count = n - 59;
                    let mut v = 0usize;
                    for k in 0..count {
                        v |= (stream[i + 1 + k] as usize) << (8 * k);
                    }
                    (v + 1, 1 + count)
                };
                assert!(len >= 1);
                i += size + len;
                produced += len;
            }
            1 => {
                let len = 4 + ((c >> 2) & 7) as usize;
                let offset = (((c >> 5) as usize) << 8) | stream[i + 1] as usize;
                assert!(1 <= offset && offset <= produced);
                assert!(4 <= len && len <= 11);
                i += 2;
                produced += len;
                copies += 1;
            }
            2 => {
                let len = 1 + (c >> 2) as usize;
                let offset = stream[i + 1] as usize | (stream[i + 2] as usize) << 8;
                assert!(1 <= offset && offset <= produced);
                assert!(4 <= len && len <= 64);
                i += 3;
                produced += len;
                copies += 1;
            }
            _ => panic!("the encoder wrote a copy with a four-byte offset"),
        }
    }
    assert_eq!(i, stream.len());
    copies
}

#[test]
fn every_copy_reaches_into_the_output_and_holds_4_to_64_bytes() {
    let text = sample_text(150_000);
    for block_size in [16u16, 100, 4096, 65_535].iter() {
        let out = roundtrip_with(&text[..], *block_size, usize::MAX);
        assert!(check_copies(&out[..]) > 0 || *block_size == 16);
    }
    let run = vec![1u8; 70_000];
    let out = roundtrip_with(&run[..], 65_535, usize::MAX);
    assert!(check_copies(&out[..]) > 1000);
}

#[test]
fn buffer_is_compressed_block_by_block() {
    let text = sample_text(1_000);
    // The blocks one by one, each with a clear dictionary.
    let mut expected = Vec::new();
    for chunk in text.chunks(300) {
        let mut d = Dict::new(37);
        compress_block(chunk, &mut expected, &mut d).unwrap();
    }
    let mut out = Vec::new();
    let mut d = Dict::new(37);
    let mut written: u32 = 0;
    compress_buffer(&text[..], &mut out, &mut d, 300, &mut written, 1_000).unwrap();
    assert_eq!(written, 1_000);
    assert_eq!(out, expected);
    // In two buffers, with more to come after the first.
    let mut out = Vec::new();
    let mut d = Dict::new(37);
    let mut written: u32 = 0;
    compress_buffer(&text[..600], &mut out, &mut d, 300, &mut written, 1_000).unwrap();
    assert_eq!(written, 600);
    compress_buffer(&text[600..], &mut out, &mut d, 300, &mut written, 1_000).unwrap();
    assert_eq!(written, 1_000);
    assert_eq!(out, expected);
}
