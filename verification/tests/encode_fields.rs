use bytes::Bytes;
use samsa::encode::{
    encode_as_array, encode_nullable, try_usize_to_i16, try_usize_to_i32, zigzag_encode,
    AsStrings, SentinelWidth, StrLike, ToByte, MSB,
};
use samsa::error::Error;

fn encoded<T: ToByte + ?Sized>(value: &T) -> Vec<u8> {
    let mut buf = Vec::new();
    value.encode(&mut buf).unwrap();
    buf
}

#[test]
fn bool_is_one_byte() {
    assert_eq!(encoded(&true), [1]);
    assert_eq!(encoded(&false), [0]);
}

#[test]
fn negative_integers_are_twos_complement() {
    assert_eq!(encoded(&-1i8), [0xff]);
    assert_eq!(encoded(&i8::MIN), [0x80]);
    assert_eq!(encoded(&-2i16), [0xff, 0xfe]);
    assert_eq!(encoded(&i16::MIN), [0x80, 0x00]);
    assert_eq!(encoded(&-1i32), [0xff, 0xff, 0xff, 0xff]);
    assert_eq!(encoded(&i32::MAX), [0x7f, 0xff, 0xff, 0xff]);
    assert_eq!(encoded(&i64::MIN), [0x80, 0, 0, 0, 0, 0, 0, 0]);
    assert_eq!(encoded(&-256i64), [0xff, 0xff, 0xff, 0xff, 0xff, 0xff, 0xff, 0x00]);
}

#[test]
fn integers_are_big_endian() {
    assert_eq!(encoded(&0x0102i16), [1, 2]);
    assert_eq!(encoded(&0x01020304i32), [1, 2, 3, 4]);
    assert_eq!(encoded(&0x0102030405060708i64), [1, 2, 3, 4, 5, 6, 7, 8]);
}

#[test]
fn u32_is_four_unsigned_bytes() {
    assert_eq!(encoded(&5u32), [0, 0, 0, 5]);
    assert_eq!(encoded(&0xdeadbeefu32), [0xde, 0xad, 0xbe, 0xef]);
    assert_eq!(encoded(&u32::MAX), [0xff, 0xff, 0xff, 0xff]);
}

#[test]
fn encode_appends_behind_what_is_there() {
    let mut buf = vec![9u8, 8, 7];
    5i16.encode(&mut buf).unwrap();
    true.encode(&mut buf).unwrap();
    assert_eq!(buf, [9, 8, 7, 0, 5, 1]);
}

#[test]
fn borrowed_value_encodes_as_its_target() {
    let v: i32 = 5;
    let r: &i32 = &v;
    assert_eq!(encoded(&r), [0, 0, 0, 5]);
    let s: &str = "ab";
    assert_eq!(encoded(&s), [0, 2, b'a', b'b']);
}

#[test]
fn msb_is_the_high_bit() {
    assert_eq!(MSB, 128);
}

#[test]
fn zigzag_doubles_small_sizes() {
    assert_eq!(zigzag_encode(0), 0);
    assert_eq!(zigzag_encode(1), 2);
    assert_eq!(zigzag_encode(11), 22);
    assert_eq!(zigzag_encode(260), 520);
    assert_eq!(zigzag_encode(isize::MAX as usize), u64::MAX - 1);
}

#[test]
fn zigzag_folds_large_sizes_onto_odd_numbers() {
    let half = isize::MAX as usize + 1;
    assert_eq!(zigzag_encode(half), 1);
    assert_eq!(zigzag_encode(half + 1), 3);
    assert_eq!(zigzag_encode(usize::MAX), u64::MAX);
}

#[test]
fn varint_group_boundaries() {
    assert_eq!(encoded(&0usize), [0]);
    assert_eq!(encoded(&1usize), [2]);
    assert_eq!(encoded(&63usize), [126]);
    assert_eq!(encoded(&64usize), [128, 1]);
    assert_eq!(encoded(&8191usize), [254, 127]);
    assert_eq!(encoded(&8192usize), [128, 128, 1]);
}

#[test]
fn varint_of_the_largest_size() {
    assert_eq!(
        encoded(&usize::MAX),
        [255, 255, 255, 255, 255, 255, 255, 255, 255, 1]
    );
}

#[test]
fn narrowing_to_i16() {
    assert_eq!(try_usize_to_i16(0), Ok(0));
    assert_eq!(try_usize_to_i16(32767), Ok(i16::MAX));
    assert_eq!(try_usize_to_i16(32768), Err(Error::EncodingError));
    assert_eq!(try_usize_to_i16(usize::MAX), Err(Error::EncodingError));
}

#[test]
fn narrowing_to_i32() {
    assert_eq!(try_usize_to_i32(0), Ok(0));
    assert_eq!(try_usize_to_i32(2147483647), Ok(i32::MAX));
    assert_eq!(try_usize_to_i32(2147483648), Err(Error::EncodingError));
    assert_eq!(try_usize_to_i32(usize::MAX), Err(Error::EncodingError));
}

#[test]
fn empty_string_is_a_bare_length() {
    assert_eq!(encoded(""), [0, 0]);
}

#[test]
fn string_length_counts_bytes_not_characters() {
    assert_eq!(encoded("\u{e9}"), [0, 2, 0xc3, 0xa9]);
    assert_eq!(encoded("\u{20ac}a"), [0, 4, 0xe2, 0x82, 0xac, b'a']);
}

#[test]
fn longest_string_that_fits() {
    let s = "a".repeat(i16::MAX as usize);
    let buf = encoded(s.as_str());
    assert_eq!(buf.len(), 2 + 32767);
    assert_eq!(&buf[..2], [0x7f, 0xff]);
    assert!(buf[2..].iter().all(|b| *b == b'a'));
}

#[test]
fn string_too_long_leaves_the_buffer_as_it_was() {
    let s = "a".repeat(i16::MAX as usize + 1);
    let mut buf = vec![1u8, 2, 3];
    assert_eq!(s.encode(&mut buf), Err(Error::EncodingError));
    assert_eq!(buf, [1, 2, 3]);
}

#[test]
fn empty_byte_array_is_a_bare_length() {
    let empty: &[u8] = &[];
    assert_eq!(encoded(empty), [0, 0, 0, 0]);
}

#[test]
fn byte_array_keeps_its_bytes() {
    let bytes: &[u8] = &[0, 255, 128, 127];
    assert_eq!(encoded(bytes), [0, 0, 0, 4, 0, 255, 128, 127]);
}

#[test]
fn absent_string_is_a_two_byte_minus_one() {
    let borrowed: Option<&str> = None;
    assert_eq!(encoded(&borrowed), [0xff, 0xff]);
    let owned: Option<String> = None;
    assert_eq!(encoded(&owned), [0xff, 0xff]);
}

#[test]
fn absent_byte_array_is_a_four_byte_minus_one() {
    let borrowed: Option<&[u8]> = None;
    assert_eq!(encoded(&borrowed), [0xff, 0xff, 0xff, 0xff]);
    let shared: Option<Bytes> = None;
    assert_eq!(encoded(&shared), [0xff, 0xff, 0xff, 0xff]);
}

#[test]
fn present_string_is_a_string_field() {
    let borrowed: Option<&str> = Some("test");
    assert_eq!(encoded(&borrowed), [0, 4, 116, 101, 115, 116]);
    let owned: Option<String> = Some("test".to_owned());
    assert_eq!(encoded(&owned), [0, 4, 116, 101, 115, 116]);
}

#[test]
fn present_byte_array_is_a_byte_array_field() {
    let data: &[u8] = &[1, 2, 3];
    let borrowed: Option<&[u8]> = Some(data);
    assert_eq!(encoded(&borrowed), [0, 0, 0, 3, 1, 2, 3]);
}

#[test]
fn present_bytes_value_writes_what_it_holds() {
    let shared: Option<Bytes> = Some(Bytes::from_static(b"0123456789"));
    assert_eq!(
        encoded(&shared),
        [0, 0, 0, 10, b'0', b'1', b'2', b'3', b'4', b'5', b'6', b'7', b'8', b'9']
    );
    let sliced: Option<Bytes> = Some(Bytes::from(vec![9u8, 8, 7, 6]).slice(1..3));
    assert_eq!(encoded(&sliced), [0, 0, 0, 2, 8, 7]);
}

#[test]
fn present_string_too_long_fails_like_the_string() {
    let s = "a".repeat(i16::MAX as usize + 1);
    let value: Option<&str> = Some(s.as_str());
    let mut buf = Vec::new();
    assert_eq!(value.encode(&mut buf), Err(Error::EncodingError));
    assert!(buf.is_empty());
}

#[test]
fn encode_nullable_writes_the_sentinel_in_the_given_width() {
    let absent: Option<&i8> = None;
    let mut buf = Vec::new();
    encode_nullable(&mut buf, absent, |b: &mut Vec<u8>, x: &i8| x.encode(b), SentinelWidth::Two)
        .unwrap();
    assert_eq!(buf, [0xff, 0xff]);
    let mut buf = Vec::new();
    encode_nullable(&mut buf, absent, |b: &mut Vec<u8>, x: &i8| x.encode(b), SentinelWidth::Four)
        .unwrap();
    assert_eq!(buf, [0xff, 0xff, 0xff, 0xff]);
}

#[test]
fn encode_nullable_leaves_a_present_value_to_the_encoder() {
    let v: i8 = 7;
    let mut buf = Vec::new();
    encode_nullable(&mut buf, Some(&v), |b: &mut Vec<u8>, x: &i8| x.encode(b), SentinelWidth::Four)
        .unwrap();
    assert_eq!(buf, [7]);
    let mut buf = Vec::new();
    let res = encode_nullable(
        &mut buf,
        Some(&v),
        |_b: &mut Vec<u8>, _x: &i8| Err(Error::DecodingError),
        SentinelWidth::Two,
    );
    assert_eq!(res, Err(Error::DecodingError));
    assert!(buf.is_empty());
}

#[test]
fn array_of_integers() {
    let xs: &[i16] = &[1, -1, 256];
    assert_eq!(encoded(xs), [0, 0, 0, 3, 0, 1, 0xff, 0xff, 1, 0]);
    let ys: Vec<i32> = vec![7];
    assert_eq!(encoded(ys.as_slice()), [0, 0, 0, 1, 0, 0, 0, 7]);
}

#[test]
fn empty_array_is_a_bare_count() {
    let xs: &[i64] = &[];
    assert_eq!(encoded(xs), [0, 0, 0, 0]);
    let none: &[&str] = &[];
    assert_eq!(encoded(&AsStrings(none)), [0, 0, 0, 0]);
}

#[test]
fn array_of_arrays() {
    let inner_a: &[i8] = &[1, 2];
    let inner_b: &[i8] = &[];
    let outer: &[&[i8]] = &[inner_a, inner_b];
    assert_eq!(encoded(outer), [0, 0, 0, 2, 0, 0, 0, 2, 1, 2, 0, 0, 0, 0]);
}

#[test]
fn array_of_strings_as_elements_of_their_own() {
    let xs: Vec<String> = vec!["abc".to_owned(), "defg".to_owned()];
    assert_eq!(
        encoded(xs.as_slice()),
        [0, 0, 0, 2, 0, 3, b'a', b'b', b'c', 0, 4, b'd', b'e', b'f', b'g']
    );
}

#[test]
fn array_stops_behind_the_first_failure_and_keeps_what_was_written() {
    let long = "a".repeat(i16::MAX as usize + 1);
    let xs: Vec<&str> = vec!["ab", long.as_str(), "cd"];
    let mut buf = vec![0x55u8];
    assert_eq!(AsStrings(&xs).encode(&mut buf), Err(Error::EncodingError));
    assert_eq!(buf, [0x55, 0, 0, 0, 3, 0, 2, b'a', b'b']);

    let ys: Vec<String> = vec!["ab".to_owned(), long.clone(), "cd".to_owned()];
    let mut buf = Vec::new();
    assert_eq!(ys.as_slice().encode(&mut buf), Err(Error::EncodingError));
    assert_eq!(buf, [0, 0, 0, 3, 0, 2, b'a', b'b']);
}

#[test]
fn encode_as_array_hands_each_element_to_the_encoder_in_order() {
    let xs: &[u8] = &[3, 1, 2];
    let mut buf = Vec::new();
    encode_as_array(&mut buf, xs, |b: &mut Vec<u8>, x: &u8| {
        b.push(*x);
        b.push(*x + 10);
        Ok(())
    })
    .unwrap();
    assert_eq!(buf, [0, 0, 0, 3, 3, 13, 1, 11, 2, 12]);
}

#[test]
fn encode_as_array_returns_the_first_failure_as_it_is() {
    let xs: &[u8] = &[1, 2, 3, 4];
    let mut buf = Vec::new();
    let res = encode_as_array(&mut buf, xs, |b: &mut Vec<u8>, x: &u8| {
        b.push(*x);
        if *x == 3 {
            Err(Error::DecodingError)
        } else {
            Ok(())
        }
    });
    assert_eq!(res, Err(Error::DecodingError));
    assert_eq!(buf, [0, 0, 0, 4, 1, 2, 3]);
}

#[test]
fn as_strings_takes_owned_and_borrowed_alike() {
    let borrowed: Vec<&str> = vec!["", "x"];
    let owned: Vec<String> = vec![String::new(), "x".to_owned()];
    assert_eq!(encoded(&AsStrings(&borrowed)), [0, 0, 0, 2, 0, 0, 0, 1, b'x']);
    assert_eq!(encoded(&AsStrings(&owned)), encoded(&AsStrings(&borrowed)));
}

#[test]
fn string_like_values_hand_out_their_text() {
    let owned = "abc".to_owned();
    assert_eq!(owned.as_text(), "abc");
    let borrowed: &str = "defg";
    assert_eq!(borrowed.as_text(), "defg");
}

#[test]
fn sentinel_widths_differ() {
    assert_ne!(SentinelWidth::Two, SentinelWidth::Four);
    assert_eq!(SentinelWidth::Two, SentinelWidth::Two);
}
