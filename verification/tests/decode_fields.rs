use samsa::decode::{
    decode_as_array, decode_bool, decode_bytes, decode_i16, decode_i32, decode_i64, decode_i8,
    decode_nullable, decode_nullable_bytes, decode_nullable_string, decode_string, decode_u32,
    decode_varint,
};
use samsa::encode::SentinelWidth;
use samsa::error::Error;

#[test]
fn decode_bool_reads_one_byte() {
    assert_eq!(decode_bool(&[0]), Ok((false, 1)));
    assert_eq!(decode_bool(&[1]), Ok((true, 1)));
    assert_eq!(decode_bool(&[2, 9]), Ok((true, 1)));
    assert_eq!(decode_bool(&[]), Err(Error::DecodingError));
}

#[test]
fn decode_i8_reads_twos_complement() {
    assert_eq!(decode_i8(&[5]), Ok((5, 1)));
    assert_eq!(decode_i8(&[0xff]), Ok((-1, 1)));
    assert_eq!(decode_i8(&[0x80, 1]), Ok((i8::MIN, 1)));
    assert_eq!(decode_i8(&[]), Err(Error::DecodingError));
}

#[test]
fn decode_i16_reads_big_endian() {
    assert_eq!(decode_i16(&[0, 5]), Ok((5, 2)));
    assert_eq!(decode_i16(&[1, 2, 3]), Ok((258, 2)));
    assert_eq!(decode_i16(&[0xff, 0xfe]), Ok((-2, 2)));
    assert_eq!(decode_i16(&[0x80, 0]), Ok((i16::MIN, 2)));
    assert_eq!(decode_i16(&[0x7f, 0xff]), Ok((i16::MAX, 2)));
    assert_eq!(decode_i16(&[0]), Err(Error::DecodingError));
}

#[test]
fn decode_i32_reads_big_endian() {
    assert_eq!(decode_i32(&[0, 0, 0, 5]), Ok((5, 4)));
    assert_eq!(decode_i32(&[1, 2, 3, 4, 5]), Ok((0x01020304, 4)));
    assert_eq!(decode_i32(&[0xff, 0xff, 0xff, 0xff]), Ok((-1, 4)));
    assert_eq!(decode_i32(&[0x80, 0, 0, 0]), Ok((i32::MIN, 4)));
    assert_eq!(decode_i32(&[0, 0, 0]), Err(Error::DecodingError));
}

#[test]
fn decode_u32_reads_big_endian() {
    assert_eq!(decode_u32(&[0, 0, 0, 5]), Ok((5, 4)));
    assert_eq!(decode_u32(&[0xde, 0xad, 0xbe, 0xef]), Ok((0xdeadbeef, 4)));
    assert_eq!(decode_u32(&[0xff, 0xff, 0xff, 0xff, 0]), Ok((u32::MAX, 4)));
    assert_eq!(decode_u32(&[0, 0, 0]), Err(Error::DecodingError));
}

#[test]
fn decode_i64_reads_big_endian() {
    assert_eq!(decode_i64(&[0, 0, 0, 0, 0, 0, 0, 5]), Ok((5, 8)));
    assert_eq!(
        decode_i64(&[1, 2, 3, 4, 5, 6, 7, 8, 9]),
        Ok((0x0102030405060708, 8))
    );
    assert_eq!(decode_i64(&[0xff; 8]), Ok((-1, 8)));
    assert_eq!(decode_i64(&[0x80, 0, 0, 0, 0, 0, 0, 0]), Ok((i64::MIN, 8)));
    assert_eq!(
        decode_i64(&[0x7f, 0xff, 0xff, 0xff, 0xff, 0xff, 0xff, 0xff]),
        Ok((i64::MAX, 8))
    );
    assert_eq!(decode_i64(&[0; 7]), Err(Error::DecodingError));
}

#[test]
fn decode_varint_reads_the_fixed_vectors() {
    assert_eq!(decode_varint(&[22]), Ok((11, 1)));
    assert_eq!(decode_varint(&[136, 4]), Ok((260, 2)));
    assert_eq!(
        decode_varint(&[254, 255, 255, 255, 255, 255, 255, 255, 255, 1]),
        Ok((9223372036854775807, 10))
    );
}

#[test]
fn decode_varint_stops_at_the_first_byte_without_continuation_bit() {
    assert_eq!(decode_varint(&[0, 99]), Ok((0, 1)));
    assert_eq!(decode_varint(&[128, 1, 128]), Ok((64, 2)));
}

#[test]
fn decode_varint_takes_padded_groups() {
    assert_eq!(decode_varint(&[0x80, 0x00]), Ok((0, 2)));
    assert_eq!(decode_varint(&[0x96, 0x80, 0x80, 0x00]), Ok((11, 4)));
    let mut long = vec![0x80u8; 20];
    long.push(0);
    assert_eq!(decode_varint(&long), Ok((0, 21)));
}

#[test]
fn decode_varint_fails_without_a_last_byte() {
    assert_eq!(decode_varint(&[]), Err(Error::DecodingError));
    assert_eq!(decode_varint(&[0x80]), Err(Error::DecodingError));
    assert_eq!(decode_varint(&[0xff, 0xff]), Err(Error::DecodingError));
}

#[test]
fn decode_varint_fails_beyond_64_bits() {
    assert_eq!(
        decode_varint(&[254, 255, 255, 255, 255, 255, 255, 255, 255, 2]),
        Err(Error::DecodingError)
    );
    assert_eq!(
        decode_varint(&[128, 128, 128, 128, 128, 128, 128, 128, 128, 128, 1]),
        Err(Error::DecodingError)
    );
}

#[test]
fn decode_varint_fails_on_a_negative_number() {
    assert_eq!(decode_varint(&[1]), Err(Error::DecodingError));
    assert_eq!(decode_varint(&[3]), Err(Error::DecodingError));
    assert_eq!(
        decode_varint(&[255, 255, 255, 255, 255, 255, 255, 255, 255, 1]),
        Err(Error::DecodingError)
    );
}

#[test]
fn decode_string_reads_length_and_text() {
    assert_eq!(decode_string(&[0, 4, 116, 101, 115, 116]), Ok(("test", 6)));
    assert_eq!(decode_string(&[0, 0]), Ok(("", 2)));
    assert_eq!(decode_string(&[0, 2, 0xc3, 0xa9, 7, 7]), Ok(("\u{e9}", 4)));
}

#[test]
fn decode_string_fails_on_truncated_input() {
    assert_eq!(decode_string(&[]), Err(Error::DecodingError));
    assert_eq!(decode_string(&[0]), Err(Error::DecodingError));
    assert_eq!(decode_string(&[0, 4, 116, 101, 115]), Err(Error::DecodingError));
}

#[test]
fn decode_string_fails_on_a_negative_length() {
    assert_eq!(decode_string(&[0xff, 0xff]), Err(Error::DecodingError));
    assert_eq!(decode_string(&[0x80, 0x00, 1, 2]), Err(Error::DecodingError));
}

#[test]
fn decode_string_fails_on_bytes_that_are_no_text() {
    assert_eq!(decode_string(&[0, 1, 0xff]), Err(Error::DecodingError));
    assert_eq!(decode_string(&[0, 2, 0xc3, 0x28]), Err(Error::DecodingError));
    assert_eq!(decode_string(&[0, 1, 0xc3, 0xa9]), Err(Error::DecodingError));
}

#[test]
fn decode_bytes_reads_length_and_payload() {
    let expected: &[u8] = &[1, 2, 3];
    assert_eq!(decode_bytes(&[0, 0, 0, 3, 1, 2, 3, 4]), Ok((expected, 7)));
    let empty: &[u8] = &[];
    assert_eq!(decode_bytes(&[0, 0, 0, 0]), Ok((empty, 4)));
}

#[test]
fn decode_bytes_fails_on_truncated_input() {
    assert_eq!(decode_bytes(&[0, 0, 0]), Err(Error::DecodingError));
    assert_eq!(decode_bytes(&[0, 0, 0, 3, 1, 2]), Err(Error::DecodingError));
    assert_eq!(decode_bytes(&[0x7f, 0xff, 0xff, 0xff, 1]), Err(Error::DecodingError));
}

#[test]
fn decode_bytes_fails_on_a_negative_length() {
    assert_eq!(decode_bytes(&[0xff, 0xff, 0xff, 0xff]), Err(Error::DecodingError));
    assert_eq!(decode_bytes(&[0x80, 0, 0, 0, 1]), Err(Error::DecodingError));
}

#[test]
fn decode_nullable_string_tells_absent_from_empty() {
    assert_eq!(decode_nullable_string(&[0xff, 0xff, 9]), Ok((None, 2)));
    assert_eq!(decode_nullable_string(&[0, 0, 9]), Ok((Some(""), 2)));
    assert_eq!(decode_nullable_string(&[0, 1, b'x']), Ok((Some("x"), 3)));
}

#[test]
fn decode_nullable_string_fails_like_the_string() {
    assert_eq!(decode_nullable_string(&[0xff]), Err(Error::DecodingError));
    assert_eq!(decode_nullable_string(&[0xff, 0xfe]), Err(Error::DecodingError));
    assert_eq!(decode_nullable_string(&[0, 2, b'x']), Err(Error::DecodingError));
}

#[test]
fn decode_nullable_bytes_tells_absent_from_empty() {
    let empty: &[u8] = &[];
    let one: &[u8] = &[7];
    assert_eq!(decode_nullable_bytes(&[0xff, 0xff, 0xff, 0xff, 9]), Ok((None, 4)));
    assert_eq!(decode_nullable_bytes(&[0, 0, 0, 0, 9]), Ok((Some(empty), 4)));
    assert_eq!(decode_nullable_bytes(&[0, 0, 0, 1, 7]), Ok((Some(one), 5)));
}

#[test]
fn decode_nullable_bytes_fails_like_the_byte_array() {
    assert_eq!(decode_nullable_bytes(&[0xff, 0xff, 0xff]), Err(Error::DecodingError));
    assert_eq!(
        decode_nullable_bytes(&[0xff, 0xff, 0xff, 0xfe]),
        Err(Error::DecodingError)
    );
    assert_eq!(decode_nullable_bytes(&[0, 0, 0, 2, 7]), Err(Error::DecodingError));
}

#[test]
fn decode_nullable_looks_at_the_sentinel_in_the_given_width() {
    let input: &[u8] = &[0xff, 0xff, 0, 1];
    assert_eq!(decode_nullable(input, SentinelWidth::Two, decode_i32), Ok((None, 2)));
    assert_eq!(
        decode_nullable(input, SentinelWidth::Four, decode_i32),
        Ok((Some(-65535), 4))
    );
}

#[test]
fn decode_nullable_hands_the_failure_of_the_decoder_on() {
    let input: &[u8] = &[0, 0, 0, 1];
    let res: Result<(Option<i8>, usize), Error> =
        decode_nullable(input, SentinelWidth::Two, |_s: &[u8]| Err(Error::EncodingError));
    assert_eq!(res, Err(Error::EncodingError));
    let short: &[u8] = &[0xff];
    assert_eq!(
        decode_nullable(short, SentinelWidth::Two, decode_i8),
        Err(Error::DecodingError)
    );
}

#[test]
fn decode_as_array_reads_count_and_elements() {
    let input: &[u8] = &[0, 0, 0, 3, 0, 1, 0xff, 0xff, 1, 0, 42];
    assert_eq!(decode_as_array(input, decode_i16), Ok((vec![1i16, -1, 256], 10)));
    let empty: &[u8] = &[0, 0, 0, 0, 42];
    assert_eq!(decode_as_array(empty, decode_i16), Ok((vec![], 4)));
}

#[test]
fn decode_as_array_reads_strings() {
    let input: &[u8] = &[0, 0, 0, 2, 0, 3, b'a', b'b', b'c', 0, 4, b'd', b'e', b'f', b'g'];
    assert_eq!(decode_as_array(input, decode_string), Ok((vec!["abc", "defg"], 15)));
}

#[test]
fn decode_as_array_fails_on_a_negative_count() {
    let input: &[u8] = &[0xff, 0xff, 0xff, 0xff, 0, 1];
    assert_eq!(decode_as_array(input, decode_i16), Err(Error::DecodingError));
}

#[test]
fn decode_as_array_fails_on_a_truncated_count() {
    let input: &[u8] = &[0, 0, 1];
    assert_eq!(decode_as_array(input, decode_i16), Err(Error::DecodingError));
}

#[test]
fn decode_as_array_fails_fast_on_the_first_bad_element() {
    let input: &[u8] = &[0, 0, 0, 3, 0, 1, 0xff];
    assert_eq!(decode_as_array(input, decode_i16), Err(Error::DecodingError));
    let res: Result<(Vec<u8>, usize), Error> = decode_as_array(&[0, 0, 0, 2, 5, 6], |s: &[u8]| {
        if s[0] == 6 {
            Err(Error::EncodingError)
        } else {
            Ok((s[0], 1))
        }
    });
    assert_eq!(res, Err(Error::EncodingError));
}

#[test]
fn decode_as_array_refuses_a_decoder_that_claims_too_much() {
    let res: Result<(Vec<u8>, usize), Error> =
        decode_as_array(&[0, 0, 0, 1, 5], |_s: &[u8]| Ok((0u8, 2)));
    assert_eq!(res, Err(Error::DecodingError));
}
