use rsnappy::decompress::{get_tag_size, parse_tag, read_u16_le, read_u32_le, read_uncompressed_length, Tag};
use rsnappy::stream::{reservation, MAX_RESERVE};
use rsnappy::{
    compress, decompress, ByteSink, LimitedSink, SliceReader, SnappyError, SnappyRead, SnappyWrite,
};

fn decompress_all(input: &[u8], output: &mut Vec<u8>) {
    match decompress(&mut SliceReader::new(input), output) {
        Err(e) => {
            println!("failed: {:?}", e);
            let (ellipsis, len) = if input.len() > 16 { ("...", 16) } else { ("", input.len()) };
            println!("remaining input: {:?}{}", &input[..len], ellipsis);
            panic!("failed: {:?}", e)
        }
        Ok(_) => {}
    };
}

fn format_error(input: &[u8], output: &mut Vec<u8>) -> &'static str {
    match decompress(&mut SliceReader::new(input), output) {
        Err(SnappyError::FormatError(m)) => m,
        Err(SnappyError::IoError(e)) => panic!("I/O error: {:?}", e),
        Ok(()) => panic!("no error"),
    }
}

#[test]
fn test_read_uncompressed_length_long() {
    let inp = [0xFE, 0xFF, 0x7F];
    assert_eq!(read_uncompressed_length(&mut SliceReader::new(&inp[..])).unwrap(), 2097150);
}

#[test]
fn test_read_uncompressed_length_short() {
    let inp = [64];
    assert_eq!(read_uncompressed_length(&mut SliceReader::new(&inp[..])).unwrap(), 64);
}

#[test]
fn test_vec_write_from_self() {
    let mut xs = vec![1, 2, 3, 4];
    xs.write_from_self(3, 2).unwrap();
    assert_eq!(&xs[..], &[1, 2, 3, 4, 2, 3]);
}

#[test]
fn test_vec_write_from_self_long() {
    let mut xs = vec![1, 2, 3];
    xs.write_from_self(2, 4).unwrap();
    assert_eq!(&xs[..], &[1, 2, 3, 2, 3, 2, 3]);
}

#[test]
fn test_vec_write_from_self_fast_path() {
    let mut xs = vec![1, 2, 3, 4, 5, 6, 7, 8, 9, 10];
    xs.reserve(30);
    xs.write_from_self(9, 4).unwrap();
    assert_eq!(&xs[..], &[1, 2, 3, 4, 5, 6, 7, 8, 9, 10, 2, 3, 4, 5]);
}

#[test]
fn test_vec_write_from_self_fast_path_bug() {
    let n = 273;
    let mut xs = Vec::with_capacity(n + 30);
    for i in 0..n {
        xs.push((i % 100) as u8);
    }
    let offset = 207;
    let len = 10;
    let start = xs.len() - offset as usize;
    xs.write_from_self(offset, len).unwrap();

    assert_eq!(xs.len(), n + len as usize);
    assert_eq!(&xs[start..start + len as usize], &xs[xs.len() - len as usize..]);
}

#[test]
fn test_small_literal() {
    let input = vec![7u8 /* uncompressed length */, 6 << 2 /* 7-byte literal */, 1, 2, 3, 4, 5, 6, 7];
    let mut output = vec![];
    decompress_all(&input, &mut output);
    assert_eq!(&output[..], &[1, 2, 3, 4, 5, 6, 7]);
}

#[test]
fn test_two_small_literals() {
    let input = vec![
        7u8, /* uncompressed length */
        2 << 2, /* 3-byte literal */
        1,
        2,
        3,
        3 << 2, /* 4-byte literal */
        4,
        5,
        6,
        7,
    ];
    let mut output = vec![];
    decompress_all(&input, &mut output);
    assert_eq!(&output[..], &[1, 2, 3, 4, 5, 6, 7]);
}

#[test]
fn test_big_literal() {
    let mut expected_out = vec![];
    for i in 0..1_000_000 {
        expected_out.push((i % 10) as u8);
    }
    let mut input = vec![
        64 | 0x80,
        4 | 0x80,
        61, /* uncompressed length */
        63 << 2, /* long 4-byte literal */
        0x3F,
        0x42,
        0x0F,
        0x00, /* 999_999 in little endian */
    ];
    for &i in expected_out.iter() {
        input.push(i);
    }
    let mut output = vec![];
    decompress_all(&input, &mut output);
    assert_eq!(&output[..], &expected_out[..]);
}

#[test]
fn test_1byte_copy() {
    let input = vec![
        11u8, /* uncompressed length */
        5 << 2, /* 6-byte literal */
        1,
        2,
        3,
        4,
        5,
        6,
        0b00000101, /* 1-byte offset copy, 5 bytes */
        6, /* 6-byte offset */
    ];
    let mut output = vec![];
    decompress_all(&input, &mut output);
    assert_eq!(&output[..], &[1, 2, 3, 4, 5, 6, 1, 2, 3, 4, 5]);
}

#[test]
fn test_2byte_copy() {
    let input = vec![
        9u8, /* uncompressed length */
        5 << 2, /* 6-byte literal */
        1,
        2,
        3,
        4,
        5,
        6,
        0b00001010, /* 2-byte offset copy, 3 bytes */
        5,
        0, /* 5-byte offset */
    ];
    let mut output = vec![];
    decompress_all(&input, &mut output);
    assert_eq!(&output[..], &[1, 2, 3, 4, 5, 6, 2, 3, 4]);
}

#[test]
fn test_4byte_copy() {
    let input = vec![
        9u8, /* uncompressed length */
        5 << 2, /* 6-byte literal */
        1,
        2,
        3,
        4,
        5,
        6,
        0b00001011, /* 5-byte offset copy, 3 bytes */
        5,
        0,
        0,
        0, /* 5-byte offset */
    ];
    let mut output = vec![];
    decompress_all(&input, &mut output);
    assert_eq!(&output[..], &[1, 2, 3, 4, 5, 6, 2, 3, 4]);
}

#[test]
fn test_repeat_copy() {
    let input = vec![
        7u8, /* uncompressed length */
        2 << 2, /* 3-byte literal */
        1,
        2,
        3,
        0b00000001, /* 1-byte offset copy, 4 bytes */
        2, /* 4-byte offset */
    ];
    let mut output = vec![];
    decompress_all(&input, &mut output);
    assert_eq!(&output[..], &[1, 2, 3, 2, 3, 2, 3]);
}

#[test]
fn test_decompress_malformed() {
    let n = 114045;
    let mut input = vec![250, 134, 252, 255, 255, 0, 0, 84, 104, 101, 32];
    input.reserve(n);
    while input.len() < n {
        input.push(0);
    }
    let mut out = Vec::new();
    let _ = decompress(&mut SliceReader::new(&input[..]), &mut out);
}

// ---------------------------------------------------------------------
// The length prefix
// ---------------------------------------------------------------------

#[test]
fn length_prefix_is_consumed_and_nothing_more() {
    let inp = [0xFE, 0xFF, 0x7F, 0x80, 0x01];
    let mut reader = SliceReader::new(&inp[..]);
    assert_eq!(read_uncompressed_length(&mut reader).unwrap(), 2097150);
    assert_eq!(read_uncompressed_length(&mut reader).unwrap(), 128);
    match read_uncompressed_length(&mut reader) {
        Err(SnappyError::FormatError(m)) => assert_eq!(m, "premature EOF"),
        _ => panic!("expected a format error"),
    }
}

#[test]
fn length_prefix_may_straddle_buffers() {
    let inp = [0xFF, 0xFF, 0xFF, 0xFF, 0x0F, 0x00];
    for window in 1..7 {
        let mut reader = SliceReader::with_window(&inp[..], window);
        assert_eq!(read_uncompressed_length(&mut reader).unwrap(), u32::MAX);
    }
}

fn length_error(inp: &[u8], window: usize) -> &'static str {
    match read_uncompressed_length(&mut SliceReader::with_window(inp, window)) {
        Err(SnappyError::FormatError(m)) => m,
        _ => panic!("expected a format error"),
    }
}

#[test]
fn length_prefix_faults() {
    for window in [1usize, 2, 100].iter() {
        assert_eq!(length_error(&[], *window), "premature EOF");
        assert_eq!(length_error(&[0x80], *window), "unterminated uncompressed length");
        assert_eq!(
            length_error(&[0x80, 0x80, 0x80, 0x80, 0x80], *window),
            "unterminated uncompressed length"
        );
        // A sixth byte.
        assert_eq!(
            length_error(&[0x80, 0x80, 0x80, 0x80, 0x80, 0x00], *window),
            "uncompressed length exceeds u32::MAX"
        );
        // Five bytes that spell 33 bits.
        assert_eq!(
            length_error(&[0xFF, 0xFF, 0xFF, 0xFF, 0x10], *window),
            "uncompressed length exceeds u32::MAX"
        );
        assert_eq!(
            length_error(&[0x80, 0x80, 0x80, 0x80, 0x7F], *window),
            "uncompressed length exceeds u32::MAX"
        );
    }
}

// ---------------------------------------------------------------------
// Tags
// ---------------------------------------------------------------------

#[test]
fn tag_size_follows_the_first_byte() {
    for c in 0..=255u8 {
        let expected = match c & 3 {
            0 => {
                if (c >> 2) < 60 {
                    1
                } else {
                    (c >> 2) as usize - 58
                }
            }
            1 => 2,
            2 => 3,
            _ => 5,
        };
        assert_eq!(get_tag_size(c), expected);
    }
    assert_eq!(get_tag_size(59 << 2), 1);
    assert_eq!(get_tag_size(60 << 2), 2);
    assert_eq!(get_tag_size(63 << 2), 5);
}

#[test]
fn little_endian_reads() {
    let bytes = [0x78, 0x56, 0x34, 0x12, 0xFF];
    assert_eq!(read_u32_le(&bytes[..], 0), 0);
    assert_eq!(read_u32_le(&bytes[..], 1), 0x78);
    assert_eq!(read_u32_le(&bytes[..], 2), 0x5678);
    assert_eq!(read_u32_le(&bytes[..], 3), 0x34_5678);
    assert_eq!(read_u32_le(&bytes[..], 4), 0x1234_5678);
    assert_eq!(read_u16_le(&bytes[..]), 0x5678);
    assert_eq!(read_u32_le(&[0xFF, 0xFF, 0xFF, 0xFF], 4), u32::MAX);
}

#[test]
fn tags_say_what_they_hold() {
    match parse_tag(&[6 << 2]) {
        Tag::Literal { size } => assert_eq!(size, 7),
        _ => panic!("not a literal"),
    }
    match parse_tag(&[63 << 2, 0x3F, 0x42, 0x0F, 0x00]) {
        Tag::Literal { size } => assert_eq!(size, 1_000_000),
        _ => panic!("not a literal"),
    }
    match parse_tag(&[63 << 2, 0xFF, 0xFF, 0xFF, 0xFF]) {
        Tag::Literal { size } => assert_eq!(size, 0x1_0000_0000),
        _ => panic!("not a literal"),
    }
    match parse_tag(&[0b111_010_01, 0x34]) {
        Tag::Copy { len, offset } => {
            assert_eq!(len, 6);
            assert_eq!(offset, 0x734);
        }
        _ => panic!("not a copy"),
    }
    match parse_tag(&[(63 << 2) | 2, 0x60, 0xEA]) {
        Tag::Copy { len, offset } => {
            assert_eq!(len, 64);
            assert_eq!(offset, 60_000);
        }
        _ => panic!("not a copy"),
    }
    match parse_tag(&[(0 << 2) | 3, 0x01, 0x00, 0x00, 0x80]) {
        Tag::Copy { len, offset } => {
            assert_eq!(len, 1);
            assert_eq!(offset, 0x8000_0001);
        }
        _ => panic!("not a copy"),
    }
}

// ---------------------------------------------------------------------
// The sink
// ---------------------------------------------------------------------

#[test]
fn self_copy_repeats_a_run() {
    let mut xs = vec![b'A', b'B'];
    xs.write_from_self(2, 6).unwrap();
    assert_eq!(&xs[..], b"ABABABAB");
    let mut xs = vec![7u8];
    xs.write_from_self(1, 64).unwrap();
    assert_eq!(xs, vec![7u8; 65]);
}

#[test]
fn self_copy_in_two_blocks_equals_byte_by_byte() {
    // With room in the vector, offsets from 8 on and lengths up to 16 go
    // the fast way.
    for room in [0usize, 15, 16, 100].iter() {
        for offset in 1..40u32 {
            for len in 0..40u8 {
                let mut xs: Vec<u8> = Vec::with_capacity(50 + room);
                for i in 0..50u8 {
                    xs.push(i);
                }
                let mut expected = xs.clone();
                for _ in 0..len {
                    let c = expected[expected.len() - offset as usize];
                    expected.push(c);
                }
                xs.write_from_self(offset, len).unwrap();
                assert_eq!(xs, expected);
            }
        }
    }
}

#[test]
fn self_copy_with_room_copies_the_second_block_from_the_first() {
    // Offset 8, length 16: the second eight bytes repeat the first.
    let mut xs: Vec<u8> = Vec::with_capacity(64);
    xs.extend_from_slice(&[0, 0, 1, 2, 3, 4, 5, 6, 7, 8]);
    xs.write_from_self(8, 16).unwrap();
    assert_eq!(
        &xs[..],
        &[0, 0, 1, 2, 3, 4, 5, 6, 7, 8, 1, 2, 3, 4, 5, 6, 7, 8, 1, 2, 3, 4, 5, 6, 7, 8]
    );
}

#[test]
fn length_hint_leaves_the_contents() {
    let mut xs = vec![1u8, 2, 3];
    xs.set_uncompressed_length(1000);
    assert_eq!(&xs[..], &[1, 2, 3]);
    assert!(xs.capacity() >= 1003);
    xs.set_uncompressed_length(u32::MAX);
    assert_eq!(&xs[..], &[1, 2, 3]);
}

// ---------------------------------------------------------------------
// Whole streams
// ---------------------------------------------------------------------

#[test]
fn announced_length_is_not_held_against_the_output() {
    // Announces 7 bytes, holds 11.
    let input = [0x07, 0x14, 0x01, 0x02, 0x03, 0x04, 0x05, 0x06, 0x05, 0x06];
    let mut output = vec![];
    decompress_all(&input, &mut output);
    assert_eq!(&output[..], &[1, 2, 3, 4, 5, 6, 1, 2, 3, 4, 5]);
}

#[test]
fn output_is_appended_to_the_sink() {
    let input = [3u8, 2 << 2, 1, 2, 3];
    let mut output = vec![9u8, 9];
    decompress_all(&input, &mut output);
    assert_eq!(&output[..], &[9, 9, 1, 2, 3]);
}

#[test]
fn zero_offset_is_rejected() {
    let input = [0x02, 0x04, 0x01, 0x02, 0x01, 0x00, 0x00];
    let mut output = vec![];
    assert_eq!(format_error(&input, &mut output), "zero-length offset");
    assert_eq!(&output[..], &[1, 2]);
    // The same with two and with four offset bytes.
    let mut output = vec![];
    assert_eq!(format_error(&[2, 0x04, 1, 2, 0x0E, 0, 0], &mut output), "zero-length offset");
    let mut output = vec![];
    assert_eq!(
        format_error(&[2, 0x04, 1, 2, 0x0F, 0, 0, 0, 0], &mut output),
        "zero-length offset"
    );
    assert_eq!(&output[..], &[1, 2]);
}

#[test]
fn offset_beyond_the_output_is_rejected() {
    let mut output = vec![];
    assert_eq!(
        format_error(&[6, 0x04, 1, 2, 0x01, 0x03], &mut output),
        "offset exceeds output length"
    );
    assert_eq!(&output[..], &[1, 2]);
    // What the sink held before does not count.
    let mut output = vec![0u8; 100];
    assert_eq!(
        format_error(&[6, 0x04, 1, 2, 0x01, 0x03], &mut output),
        "offset exceeds output length"
    );
    assert_eq!(output.len(), 102);
    // A copy as the first tag, with a huge offset.
    let mut output = vec![];
    assert_eq!(
        format_error(&[4, 0x0F, 0xFF, 0xFF, 0xFF, 0xFF], &mut output),
        "offset exceeds output length"
    );
    assert!(output.is_empty());
}

#[test]
fn truncated_streams_are_rejected() {
    let mut output = vec![];
    assert_eq!(format_error(&[], &mut output), "premature EOF");
    let mut output = vec![];
    assert_eq!(format_error(&[0x80], &mut output), "unterminated uncompressed length");
    // A copy tag without its offset byte.
    let mut output = vec![];
    assert_eq!(format_error(&[5, 0x00, 7, 0x01], &mut output), "EOF while reading tag");
    assert_eq!(&output[..], &[7]);
    // A literal tag without its length bytes.
    let mut output = vec![];
    assert_eq!(format_error(&[5, 61 << 2, 0x00], &mut output), "EOF while reading tag");
    // A literal that announces more bytes than there are: what is there
    // is written.
    let mut output = vec![];
    assert_eq!(format_error(&[5, 4 << 2, 1, 2, 3], &mut output), "EOF while reading literal");
    assert_eq!(&output[..], &[1, 2, 3]);
    let mut output = vec![];
    assert_eq!(format_error(&[5, 4 << 2], &mut output), "EOF while reading literal");
    assert!(output.is_empty());
}

#[test]
fn no_tags_decode_to_nothing() {
    let mut output = vec![];
    decompress_all(&[0x00], &mut output);
    assert!(output.is_empty());
    let mut output = vec![];
    decompress_all(&[0x05], &mut output);
    assert!(output.is_empty());
}

#[test]
fn tags_may_straddle_buffers() {
    let mut stream = vec![0xC0u8, 0x84, 0x3D];
    // A literal of 300 bytes with two length bytes.
    stream.extend_from_slice(&[61 << 2, 0x2B, 0x01]);
    let literal: Vec<u8> = (0..300).map(|i| (i % 7) as u8).collect();
    stream.extend_from_slice(&literal[..]);
    // Copies of all three kinds.
    stream.extend_from_slice(&[0b001_011_01, 0x2C]);
    stream.extend_from_slice(&[(63 << 2) | 2, 0x07, 0x00]);
    stream.extend_from_slice(&[(9 << 2) | 3, 0x2C, 0x01, 0x00, 0x00]);
    stream.extend_from_slice(&[61 << 2, 0x2B, 0x01]);
    stream.extend_from_slice(&literal[..]);
    stream.extend_from_slice(&[(2 << 2) | 3, 0x01, 0x00, 0x00, 0x00]);

    let mut expected = vec![];
    decompress_all(&stream[..], &mut expected);
    assert_eq!(expected.len(), 300 + 7 + 64 + 10 + 300 + 3);
    assert_eq!(&expected[..300], &literal[..]);
    assert_eq!(&expected[300..307], &literal[..7]);

    for window in 1..12 {
        let mut output = vec![];
        decompress(&mut SliceReader::with_window(&stream[..], window), &mut output).unwrap();
        assert_eq!(output, expected);
    }
}

#[test]
fn faults_do_not_depend_on_the_buffers() {
    let streams: [&[u8]; 6] = [
        &[5, 0x00, 7, 0x01],
        &[5, 61 << 2, 0x00],
        &[5, 4 << 2, 1, 2, 3],
        &[2, 0x04, 1, 2, 0x0F, 0, 0, 0, 0],
        &[6, 0x04, 1, 2, 0x0E, 0x03, 0x00],
        &[9, 63 << 2, 0x02, 0x00, 0x00],
    ];
    for stream in streams.iter() {
        let mut whole = vec![];
        let expected = format_error(stream, &mut whole);
        for window in 1..6 {
            let mut output = vec![];
            match decompress(&mut SliceReader::with_window(stream, window), &mut output) {
                Err(SnappyError::FormatError(m)) => assert_eq!(m, expected),
                _ => panic!("expected a format error"),
            }
            assert_eq!(output, whole);
        }
    }
}

// ---------------------------------------------------------------------
// The source over a slice
// ---------------------------------------------------------------------

#[test]
fn slice_reader_hands_out_everything_at_once() {
    let data = [1u8, 2, 3, 4, 5];
    let mut r = SliceReader::new(&data[..]);
    assert_eq!(r.available().unwrap(), 5);
    assert_eq!(r.fill_buf().unwrap(), &[1, 2, 3, 4, 5]);
    r.consume(2);
    assert_eq!(r.available().unwrap(), 3);
    assert_eq!(r.fill_buf().unwrap(), &[3, 4, 5]);
    r.consume(3);
    assert_eq!(r.available().unwrap(), 0);
    assert!(r.fill_buf().unwrap().is_empty());
}

#[test]
fn slice_reader_with_a_window_hands_out_pieces() {
    let data = [1u8, 2, 3, 4, 5];
    let mut r = SliceReader::with_window(&data[..], 2);
    assert_eq!(r.available().unwrap(), 5);
    assert_eq!(r.fill_buf().unwrap(), &[1, 2]);
    r.consume(1);
    assert_eq!(r.fill_buf().unwrap(), &[2, 3]);
    r.consume(2);
    assert_eq!(r.fill_buf().unwrap(), &[4, 5]);
    r.consume(2);
    assert!(r.fill_buf().unwrap().is_empty());
    // A window of nothing counts as a window of one byte.
    let mut r = SliceReader::with_window(&data[..], 0);
    assert_eq!(r.fill_buf().unwrap(), &[1]);
}

#[test]
fn vector_takes_what_is_written() {
    let mut v = vec![1u8];
    v.write_all(&[2, 3]).unwrap();
    v.write_all(&[]).unwrap();
    v.write_all(&[4]).unwrap();
    assert_eq!(&v[..], &[1, 2, 3, 4]);
}

// ---------------------------------------------------------------------
// A sink that fails
// ---------------------------------------------------------------------

#[test]
fn limited_sink_refuses_what_does_not_fit() {
    let mut sink = LimitedSink::new(4);
    sink.write_all(&[1, 2, 3]).unwrap();
    let e = sink.write_all(&[4, 5]).unwrap_err();
    assert_eq!(e.kind(), std::io::ErrorKind::WriteZero);
    assert_eq!(sink.as_slice(), &[1, 2, 3]);
    sink.write_all(&[4]).unwrap();
    assert_eq!(sink.as_slice(), &[1, 2, 3, 4]);
    assert!(sink.write_from_self(1, 1).is_err());
    let mut sink = LimitedSink::new(8);
    sink.write_all(&[1, 2]).unwrap();
    sink.write_from_self(2, 6).unwrap();
    assert_eq!(sink.as_slice(), &[1, 2, 1, 2, 1, 2, 1, 2]);
    assert!(sink.write_all(&[0]).is_err());
}

#[test]
fn error_of_the_sink_ends_the_decompression() {
    // A literal of 3 bytes, then a copy of 4: 7 bytes.
    let stream = [7u8, 2 << 2, 1, 2, 3, 0b00000001, 2];
    let mut sink = LimitedSink::new(7);
    decompress(&mut SliceReader::new(&stream[..]), &mut sink).unwrap();
    assert_eq!(sink.as_slice(), &[1, 2, 3, 2, 3, 2, 3]);
    // The copy does not fit.
    let mut sink = LimitedSink::new(6);
    match decompress(&mut SliceReader::new(&stream[..]), &mut sink) {
        Err(SnappyError::IoError(e)) => assert_eq!(e.kind(), std::io::ErrorKind::WriteZero),
        _ => panic!("expected an I/O error"),
    }
    assert_eq!(sink.as_slice(), &[1, 2, 3]);
    // The literal does not fit.
    let mut sink = LimitedSink::new(2);
    match decompress(&mut SliceReader::new(&stream[..]), &mut sink) {
        Err(SnappyError::IoError(e)) => assert_eq!(e.kind(), std::io::ErrorKind::WriteZero),
        _ => panic!("expected an I/O error"),
    }
    assert!(sink.as_slice().is_empty());
}

#[test]
fn error_of_the_sink_ends_the_compression() {
    let data: Vec<u8> = (0..200u8).collect();
    let mut whole = Vec::new();
    compress(&mut SliceReader::new(&data[..]), &mut whole).unwrap();
    let mut sink = LimitedSink::new(whole.len());
    compress(&mut SliceReader::new(&data[..]), &mut sink).unwrap();
    assert_eq!(sink.as_slice(), &whole[..]);
    for limit in [0usize, 1, 2, 100, whole.len() - 1].iter() {
        let mut sink = LimitedSink::new(*limit);
        let e = compress(&mut SliceReader::new(&data[..]), &mut sink).unwrap_err();
        assert_eq!(e.kind(), std::io::ErrorKind::WriteZero);
    }
}

#[test]
fn room_is_asked_for_up_to_a_cap() {
    assert_eq!(reservation(0, 100), 0);
    assert_eq!(reservation(99, 100), 99);
    assert_eq!(reservation(100, 100), 100);
    assert_eq!(reservation(101, 100), 100);
    assert_eq!(reservation(u32::MAX, MAX_RESERVE), MAX_RESERVE);
    assert_eq!(MAX_RESERVE, 64 * 1024 * 1024);
    // A vector makes the room where the length is below the cap.
    let mut xs: Vec<u8> = Vec::new();
    xs.set_uncompressed_length(5000);
    assert!(xs.capacity() >= 5000);
    assert!(xs.is_empty());
    let mut sink = LimitedSink::new(10);
    sink.write_all(&[1, 2]).unwrap();
    sink.set_uncompressed_length(1_000_000);
    assert_eq!(sink.as_slice(), &[1, 2]);
    sink.write_all(&[0; 8]).unwrap();
    assert!(sink.write_all(&[0]).is_err());
}
