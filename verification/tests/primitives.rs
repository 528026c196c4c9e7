use strawberride::error::{StoreError, StreamError};
use strawberride::ext::{decode_varint, rle_decode, rle_encode, ReadExt, Reader, WriteExt};

fn varint(n: u64) -> Vec<u8> {
    let mut out = Vec::new();
    out.write_variable_length_int(n);
    out
}

#[test]
fn varint_small_values_take_one_byte() {
    assert_eq!(varint(0), vec![0x00]);
    assert_eq!(varint(1), vec![0x01]);
    assert_eq!(varint(127), vec![0x7f]);
}

#[test]
fn varint_groups_are_least_significant_first() {
    assert_eq!(varint(128), vec![0x80, 0x01]);
    assert_eq!(varint(300), vec![0xac, 0x02]);
    assert_eq!(varint(16384), vec![0x80, 0x80, 0x01]);
}

#[test]
fn varint_largest_value_takes_ten_bytes() {
    let bytes = varint(u64::MAX);
    assert_eq!(bytes, vec![0xff, 0xff, 0xff, 0xff, 0xff, 0xff, 0xff, 0xff, 0xff, 0x01]);
    assert_eq!(decode_varint(&bytes), Ok((u64::MAX, 10)));
}

#[test]
fn varint_round_trips() {
    let mut n: u64 = 1;
    for _ in 0..64 {
        for value in [n - 1, n, n + 1, n.wrapping_mul(3) / 2] {
            let mut bytes = varint(value);
            let len = bytes.len();
            bytes.extend_from_slice(&[0xaa, 0x55]);
            assert_eq!(decode_varint(&bytes), Ok((value, len)));
        }
        n = n.wrapping_mul(2);
    }
    assert_eq!(decode_varint(&varint(u64::MAX - 1)), Ok((u64::MAX - 1, 10)));
}

#[test]
fn varint_that_ends_early_is_an_error() {
    assert_eq!(decode_varint(&[]), Err(StreamError::UnexpectedEof));
    assert_eq!(decode_varint(&[0x80]), Err(StreamError::UnexpectedEof));
    assert_eq!(decode_varint(&[0xff, 0xff, 0xff]), Err(StreamError::UnexpectedEof));
}

#[test]
fn varint_beyond_sixty_four_bits_is_an_error() {
    let too_many_bits = [0xff, 0xff, 0xff, 0xff, 0xff, 0xff, 0xff, 0xff, 0xff, 0x02];
    assert_eq!(decode_varint(&too_many_bits), Err(StreamError::OversizedInteger));
    let too_many_bytes = [0x80, 0x80, 0x80, 0x80, 0x80, 0x80, 0x80, 0x80, 0x80, 0x80, 0x00];
    assert_eq!(decode_varint(&too_many_bytes), Err(StreamError::OversizedInteger));
}

#[test]
fn varint_with_padding_zero_groups_is_read() {
    assert_eq!(decode_varint(&[0x85, 0x80, 0x00]), Ok((5, 3)));
}

#[test]
fn reader_moves_forward_only_on_success() {
    let bytes = [0x05, 0x80];
    let mut reader = Reader::new(&bytes);
    assert_eq!(reader.read_variable_length_int(), Ok(5));
    assert_eq!(reader.remaining(), 1);
    assert_eq!(reader.read_variable_length_int(), Err(StreamError::UnexpectedEof));
    assert_eq!(reader.remaining(), 1);
    assert_eq!(reader.read_u8(), Ok(0x80));
    assert_eq!(reader.read_u8(), Err(StreamError::UnexpectedEof));
}

#[test]
fn reader_reads_little_endian_integers() {
    let bytes = [0x34, 0x12, 0xfe, 0xff, 0x78, 0x56, 0x34, 0x12, 0xff, 0xff, 0xff, 0xff, 0x00, 0x00, 0x80, 0x3f];
    let mut reader = Reader::new(&bytes);
    assert_eq!(reader.read_u16(), Ok(0x1234));
    assert_eq!(reader.read_i16(), Ok(-2));
    assert_eq!(reader.read_i32(), Ok(0x12345678));
    assert_eq!(reader.read_i32(), Ok(-1));
    assert_eq!(reader.read_u32(), Ok(0x3f80_0000));
    assert_eq!(reader.read_u16(), Err(StreamError::UnexpectedEof));
}

#[test]
fn string_is_length_prefixed_utf8() {
    let mut out = Vec::new();
    out.write_string("héllo");
    assert_eq!(out, vec![6, b'h', 0xc3, 0xa9, b'l', b'l', b'o']);
    let mut reader = Reader::new(&out);
    assert_eq!(reader.read_string(), Ok("héllo".to_string()));
    assert_eq!(reader.remaining(), 0);
}

#[test]
fn string_of_two_hundred_bytes_has_a_two_byte_prefix() {
    let text = "x".repeat(200);
    let mut out = Vec::new();
    out.write_string(&text);
    assert_eq!(&out[..2], &[0xc8, 0x01]);
    assert_eq!(out.len(), 202);
    let mut reader = Reader::new(&out);
    assert_eq!(reader.read_string(), Ok(text));
}

#[test]
fn string_errors() {
    let mut short = Reader::new(&[5, b'a', b'b']);
    assert_eq!(short.read_string(), Err(StreamError::UnexpectedEof));
    assert_eq!(short.remaining(), 3);
    let mut invalid = Reader::new(&[2, 0xff, 0xfe]);
    assert_eq!(invalid.read_string(), Err(StreamError::InvalidUtf8));
    let mut huge = Reader::new(&[0xff, 0xff, 0xff, 0xff, 0xff, 0xff, 0xff, 0xff, 0xff, 0x01, b'a']);
    assert_eq!(huge.read_string(), Err(StreamError::UnexpectedEof));
}

#[test]
fn lookup_string_reads_an_index() {
    let table = vec!["zero".to_string(), "one".to_string()];
    let mut reader = Reader::new(&[1, 0, 2, 0, 7]);
    assert_eq!(reader.lookup_string(&table).unwrap(), "one");
    let error = reader.lookup_string(&table).unwrap_err();
    assert!(matches!(error, strawberride::LoadError::InvalidString(2)));
    let mut end = Reader::new(&[1]);
    assert!(matches!(
        end.lookup_string(&table).unwrap_err(),
        strawberride::LoadError::IoError(StreamError::UnexpectedEof)
    ));
}

#[test]
fn rle_collapses_runs() {
    assert_eq!(rle_encode(b"aaabcc"), Some(vec![3, b'a', 1, b'b', 2, b'c']));
    assert_eq!(rle_encode(b""), Some(vec![]));
    assert_eq!(rle_encode(b"z"), Some(vec![1, b'z']));
}

#[test]
fn rle_of_256_identical_bytes_is_two_pairs() {
    let bytes = vec![b'0'; 256];
    assert_eq!(rle_encode(&bytes), Some(vec![255, b'0', 1, b'0']));
    let longer = vec![b'0'; 255 * 2 + 7];
    assert_eq!(rle_encode(&longer), Some(vec![255, b'0', 255, b'0', 7, b'0']));
    assert_eq!(rle_encode(&vec![b'q'; 255]), Some(vec![255, b'q']));
}

#[test]
fn rle_round_trips() {
    let samples: Vec<Vec<u8>> = vec![
        b"".to_vec(),
        b"abc".to_vec(),
        b"aaaaaaaaaabbbbbbbbbbbbbcd".to_vec(),
        vec![7; 1000],
        (0..=255u8).collect(),
        "0000\n0110\n0000".as_bytes().to_vec(),
    ];
    for sample in samples {
        let pairs = rle_encode(&sample).unwrap();
        assert_eq!(pairs.len() % 2, 0);
        assert_eq!(rle_decode(&pairs), sample);
    }
}

#[test]
fn rle_decode_expands_pairs() {
    assert_eq!(rle_decode(&[2, b'a', 0, b'b', 1, b'c']), b"aac".to_vec());
    assert_eq!(rle_decode(&[2, b'a', 9]), b"aa".to_vec());
    assert_eq!(rle_decode(&[]), Vec::<u8>::new());
}

#[test]
fn rle_too_long_is_refused() {
    let text: String = "ab".repeat(16384);
    assert_eq!(rle_encode(text.as_bytes()), None);
    let mut out = vec![1, 2, 3];
    assert_eq!(out.write_rle_string(&text), Err(StoreError::TextTooLong));
    assert_eq!(out, vec![1, 2, 3]);
    let fits: String = "ab".repeat(16383) + "a";
    assert_eq!(rle_encode(fits.as_bytes()).unwrap().len(), 65534);
}

#[test]
fn rle_string_has_a_byte_count_prefix() {
    let mut out = Vec::new();
    assert_eq!(out.write_rle_string("aaab"), Ok(()));
    assert_eq!(out, vec![4, 0, 3, b'a', 1, b'b']);
    let mut reader = Reader::new(&out);
    assert_eq!(reader.read_rle_string(), Ok("aaab".to_string()));
    assert_eq!(reader.remaining(), 0);
}

#[test]
fn rle_string_with_odd_count_leaves_a_byte() {
    let bytes = [3, 0, 2, b'x', 9, 9];
    let mut reader = Reader::new(&bytes);
    assert_eq!(reader.read_rle_string(), Ok("xx".to_string()));
    assert_eq!(reader.remaining(), 2);
}

#[test]
fn rle_string_errors() {
    let mut none = Reader::new(&[4]);
    assert_eq!(none.read_rle_string(), Err(StreamError::UnexpectedEof));
    let mut short = Reader::new(&[4, 0, 1, b'a']);
    assert_eq!(short.read_rle_string(), Err(StreamError::UnexpectedEof));
    let mut invalid = Reader::new(&[2, 0, 1, 0xff]);
    assert_eq!(invalid.read_rle_string(), Err(StreamError::InvalidUtf8));
}
