//! What holds between the two directions.
//!
//! The laws are stated over the grammar of [`crate::wire`], the same
//! functions that the contracts of the encoders and decoders speak of.

use crate::encode::ToByte;
use crate::wire::{
    absent, be_bytes, be_int, be_nat, bytes_fit, bytes_frame, groups_value, parse_bool,
    parse_bytes, parse_int, parse_nullable_bytes, parse_nullable_string, parse_string,
    parse_array, parse_elements, parse_uint, parse_varint, pieces_outcome, pieces_written,
    array_outcome, array_written, string_fits, string_frame, varint_groups, varint_len, zigzag,
    Piece,
};
use vstd::prelude::*;
use vstd::utf8::{encode_utf8, encode_utf8_decode_utf8, encode_utf8_valid_utf8};

verus! {

/// Whether `value` has a two's-complement form of `width` bytes.
pub open spec fn fits_signed(value: int, width: nat) -> bool
    decreases width,
{
    if width == 0 {
        false
    } else if width == 1 {
        -128 <= value < 128
    } else {
        fits_signed(value / 256, (width - 1) as nat)
    }
}

/// Whether `value` has an unsigned form of `width` bytes.
pub open spec fn fits_unsigned(value: int, width: nat) -> bool
    decreases width,
{
    if width == 0 {
        value == 0
    } else {
        fits_unsigned(value / 256, (width - 1) as nat)
    }
}

/// An integer written in `width` bytes takes `width` bytes.
pub proof fn lemma_be_bytes_len(value: int, width: nat)
    ensures
        be_bytes(value, width).len() == width,
    decreases width,
{
    if width > 0 {
        lemma_be_bytes_len(value / 256, (width - 1) as nat);
    }
}

/// A signed integer that fits `width` bytes is read back from them.
pub proof fn lemma_be_int_of_be_bytes(value: int, width: nat)
    requires
        fits_signed(value, width),
    ensures
        be_int(be_bytes(value, width)) == value,
    decreases width,
{
    let head = be_bytes(value / 256, (width - 1) as nat);
    lemma_be_bytes_len(value / 256, (width - 1) as nat);
    assert(be_bytes(value, width).drop_last() =~= head);
    if width == 1 {
    } else {
        lemma_be_int_of_be_bytes(value / 256, (width - 1) as nat);
    }
}

/// An unsigned integer that fits `width` bytes is read back from them.
pub proof fn lemma_be_nat_of_be_bytes(value: int, width: nat)
    requires
        fits_unsigned(value, width),
    ensures
        be_nat(be_bytes(value, width)) == value,
    decreases width,
{
    if width > 0 {
        let head = be_bytes(value / 256, (width - 1) as nat);
        lemma_be_bytes_len(value / 256, (width - 1) as nat);
        assert(be_bytes(value, width).drop_last() =~= head);
        lemma_be_nat_of_be_bytes(value / 256, (width - 1) as nat);
    }
}

/// Round trip of a signed integer in `width` bytes, whatever follows it.
pub proof fn lemma_int_round_trip(value: int, width: nat, rest: Seq<u8>)
    requires
        fits_signed(value, width),
    ensures
        parse_int(be_bytes(value, width) + rest, width) == Some((value, width)),
{
    lemma_be_bytes_len(value, width);
    lemma_be_int_of_be_bytes(value, width);
    assert((be_bytes(value, width) + rest).take(width as int) =~= be_bytes(value, width));
}

/// Round trip of a boolean: what the decoder reads from the encoding of
/// `v`, whatever follows it, is `v`.
pub proof fn lemma_bool_round_trip(v: bool, rest: Seq<u8>)
    ensures
        parse_bool(v.written() + rest) == Some((v, 1nat)),
{
}

/// Round trip of a signed 8-bit integer.
pub proof fn lemma_i8_round_trip(v: i8, rest: Seq<u8>)
    ensures
        parse_int(v.written() + rest, 1) == Some((v as int, 1nat)),
{
    lemma_int_round_trip(v as int, 1, rest);
}

/// Round trip of a signed 16-bit integer.
pub proof fn lemma_i16_round_trip(v: i16, rest: Seq<u8>)
    ensures
        parse_int(v.written() + rest, 2) == Some((v as int, 2nat)),
{
    reveal_with_fuel(fits_signed, 2);
    lemma_int_round_trip(v as int, 2, rest);
}

/// Round trip of a signed 32-bit integer.
pub proof fn lemma_i32_round_trip(v: i32, rest: Seq<u8>)
    ensures
        parse_int(v.written() + rest, 4) == Some((v as int, 4nat)),
{
    reveal_with_fuel(fits_signed, 4);
    lemma_int_round_trip(v as int, 4, rest);
}

/// Round trip of a signed 64-bit integer.
pub proof fn lemma_i64_round_trip(v: i64, rest: Seq<u8>)
    ensures
        parse_int(v.written() + rest, 8) == Some((v as int, 8nat)),
{
    reveal_with_fuel(fits_signed, 8);
    lemma_int_round_trip(v as int, 8, rest);
}

/// Round trip of an unsigned 32-bit integer.
pub proof fn lemma_u32_round_trip(v: u32, rest: Seq<u8>)
    ensures
        parse_uint(v.written() + rest, 4) == Some((v as nat, 4nat)),
{
    reveal_with_fuel(fits_unsigned, 5);
    lemma_be_bytes_len(v as int, 4);
    lemma_be_nat_of_be_bytes(v as int, 4);
    assert((v.written() + rest).take(4) =~= v.written());
}

/// The groups of a number end with the first byte that has no
/// continuation bit, and spell the number.
pub proof fn lemma_varint_groups(n: nat, rest: Seq<u8>)
    ensures
        varint_len(varint_groups(n) + rest) == Some(varint_groups(n).len()),
        groups_value(varint_groups(n)) == n,
    decreases n,
{
    let groups = varint_groups(n);
    if n >= 128 {
        let tail = varint_groups(n / 128);
        lemma_varint_groups(n / 128, rest);
        assert(groups.skip(1) =~= tail);
        assert((groups + rest).skip(1) =~= tail + rest);
    } else {
        assert(groups_value(groups.skip(1)) == 0);
    }
}

/// Round trip of a variable-length size: a size up to `isize::MAX` is
/// read back from its encoding, whatever follows it. A larger size is
/// written as an odd number, which the decoder takes for a negative one
/// and refuses.
pub proof fn lemma_varint_round_trip(v: usize, rest: Seq<u8>)
    requires
        v <= isize::MAX,
    ensures
        parse_varint(v.written() + rest) == Some((v, v.written().len())),
{
    let groups = varint_groups(zigzag(v));
    lemma_varint_groups(zigzag(v), rest);
    assert((groups + rest).take(groups.len() as int) =~= groups);
}

/// The encoding of a size above `isize::MAX` is one that the decoder
/// refuses.
pub proof fn lemma_varint_folded(v: usize, rest: Seq<u8>)
    requires
        v > isize::MAX,
    ensures
        parse_varint(v.written() + rest) is None,
{
    lemma_varint_groups(zigzag(v), rest);
}

/// The length prefix of a string field is exact: it holds the number of
/// payload bytes, the payload follows it and ends the field, and the
/// decoder takes the prefix and exactly that many bytes.
pub proof fn lemma_string_length_prefix_exact(chars: Seq<char>, rest: Seq<u8>)
    requires
        string_fits(chars),
    ensures
        string_frame(chars).len() == 2 + encode_utf8(chars).len(),
        be_int(string_frame(chars).take(2)) == encode_utf8(chars).len(),
        string_frame(chars).skip(2) == encode_utf8(chars),
        parse_string(string_frame(chars) + rest) matches Some((_, n)) && n == 2 + encode_utf8(
            chars,
        ).len(),
{
    lemma_string_round_trip(chars, rest);
    let payload = encode_utf8(chars);
    let len = payload.len() as int;
    reveal_with_fuel(fits_signed, 2);
    lemma_be_bytes_len(len, 2);
    lemma_be_int_of_be_bytes(len, 2);
    assert(string_frame(chars).take(2) =~= be_bytes(len, 2));
}

/// Round trip of a string: a string that fits a string field is read back
/// from it, whatever follows it.
pub proof fn lemma_string_round_trip(chars: Seq<char>, rest: Seq<u8>)
    requires
        string_fits(chars),
    ensures
        parse_string(string_frame(chars) + rest) == Some((chars, string_frame(chars).len())),
{
    let payload = encode_utf8(chars);
    let len = payload.len() as int;
    let s = string_frame(chars) + rest;
    reveal_with_fuel(fits_signed, 2);
    lemma_be_bytes_len(len, 2);
    lemma_int_round_trip(len, 2, payload + rest);
    assert(s =~= be_bytes(len, 2) + (payload + rest));
    assert(s.subrange(2, 2 + len) =~= payload);
    encode_utf8_valid_utf8(chars);
    encode_utf8_decode_utf8(chars);
}

/// The length prefix of a byte-array field is exact: it holds the number
/// of payload bytes, the payload follows it and ends the field, and the
/// decoder takes the prefix and exactly that many bytes.
pub proof fn lemma_bytes_length_prefix_exact(payload: Seq<u8>, rest: Seq<u8>)
    requires
        bytes_fit(payload),
    ensures
        bytes_frame(payload).len() == 4 + payload.len(),
        be_int(bytes_frame(payload).take(4)) == payload.len(),
        bytes_frame(payload).skip(4) == payload,
        parse_bytes(bytes_frame(payload) + rest) matches Some((_, n)) && n == 4 + payload.len(),
{
    lemma_bytes_round_trip(payload, rest);
    let len = payload.len() as int;
    reveal_with_fuel(fits_signed, 4);
    lemma_be_bytes_len(len, 4);
    lemma_be_int_of_be_bytes(len, 4);
    assert(bytes_frame(payload).take(4) =~= be_bytes(len, 4));
}

/// Round trip of a byte array: one that fits a byte-array field is read
/// back from it, whatever follows it.
pub proof fn lemma_bytes_round_trip(payload: Seq<u8>, rest: Seq<u8>)
    requires
        bytes_fit(payload),
    ensures
        parse_bytes(bytes_frame(payload) + rest) == Some((payload, bytes_frame(payload).len())),
{
    let len = payload.len() as int;
    let s = bytes_frame(payload) + rest;
    reveal_with_fuel(fits_signed, 4);
    lemma_be_bytes_len(len, 4);
    lemma_int_round_trip(len, 4, payload + rest);
    assert(s =~= be_bytes(len, 4) + (payload + rest));
}

/// Round trip of a string that may be absent: the field of an absent one
/// is read back as absent, that of a present one as the string.
pub proof fn lemma_nullable_string_round_trip(value: Option<Seq<char>>, rest: Seq<u8>)
    requires
        value matches Some(chars) ==> string_fits(chars),
    ensures
        match value {
            Some(chars) => parse_nullable_string(string_frame(chars) + rest) == Some(
                (Some(chars), string_frame(chars).len()),
            ),
            None => parse_nullable_string(absent(2) + rest) == Some((None::<Seq<char>>, 2nat)),
        },
{
    reveal_with_fuel(fits_signed, 2);
    match value {
        Some(chars) => {
            let len = encode_utf8(chars).len() as int;
            lemma_string_round_trip(chars, rest);
            lemma_int_round_trip(len, 2, encode_utf8(chars) + rest);
        },
        None => {
            lemma_int_round_trip(-1, 2, rest);
        },
    }
}

/// Round trip of a byte array that may be absent.
pub proof fn lemma_nullable_bytes_round_trip(value: Option<Seq<u8>>, rest: Seq<u8>)
    requires
        value matches Some(payload) ==> bytes_fit(payload),
    ensures
        match value {
            Some(payload) => parse_nullable_bytes(bytes_frame(payload) + rest) == Some(
                (Some(payload), bytes_frame(payload).len()),
            ),
            None => parse_nullable_bytes(absent(4) + rest) == Some((None::<Seq<u8>>, 4nat)),
        },
{
    reveal_with_fuel(fits_signed, 4);
    match value {
        Some(payload) => {
            let len = payload.len() as int;
            lemma_bytes_round_trip(payload, rest);
            lemma_int_round_trip(len, 4, payload + rest);
        },
        None => {
            lemma_int_round_trip(-1, 4, rest);
        },
    }
}

/// The elements of a sequence that all succeed are written one behind the
/// other.
pub proof fn lemma_pieces_all_ok(pieces: Seq<Piece>)
    requires
        forall|i: int| 0 <= i < pieces.len() ==> (#[trigger] pieces[i]).outcome is Ok,
    ensures
        pieces_outcome(pieces) is Ok,
        pieces.len() > 0 ==> pieces_written(pieces) == pieces_written(pieces.drop_last())
            + pieces.last().bytes,
    decreases pieces.len(),
{
    if pieces.len() > 0 {
        lemma_pieces_all_ok(pieces.drop_last());
    }
}

/// Round trip of the elements of a sequence: where each element is read
/// back from its own bytes, whatever follows them, all are read back from
/// the bytes of the sequence, whatever follows them.
pub proof fn lemma_elements_round_trip<T>(
    parse: spec_fn(Seq<u8>) -> Option<(T, nat)>,
    items: Seq<T>,
    pieces: Seq<Piece>,
    rest: Seq<u8>,
)
    requires
        items.len() == pieces.len(),
        forall|i: int| 0 <= i < pieces.len() ==> (#[trigger] pieces[i]).outcome is Ok,
        forall|i: int, tail: Seq<u8>|
            0 <= i < pieces.len() ==> #[trigger] parse(pieces[i].bytes + tail) == Some(
                (items[i], pieces[i].bytes.len()),
            ),
    ensures
        parse_elements(parse, pieces_written(pieces) + rest, pieces.len()) == Some(
            (items, pieces_written(pieces).len()),
        ),
    decreases pieces.len(),
{
    if pieces.len() > 0 {
        let head = pieces.drop_last();
        let last = pieces.last().bytes;
        let s = pieces_written(pieces) + rest;
        lemma_pieces_all_ok(pieces);
        assert forall|i: int, tail: Seq<u8>| 0 <= i < head.len() implies #[trigger] parse(
            head[i].bytes + tail,
        ) == Some((items.drop_last()[i], head[i].bytes.len())) by {
            assert(parse(pieces[i].bytes + tail) == Some((items[i], pieces[i].bytes.len())));
        }
        lemma_elements_round_trip(parse, items.drop_last(), head, last + rest);
        assert(s =~= pieces_written(head) + (last + rest));
        assert(s.skip(pieces_written(head).len() as int) =~= last + rest);
        assert(parse(pieces[pieces.len() - 1].bytes + rest) == Some(
            (items[pieces.len() - 1], pieces[pieces.len() - 1].bytes.len()),
        ));
    }
}

/// Round trip of a sequence: where each element is read back from its own
/// bytes, whatever follows them, the sequence is read back from its wire
/// form, whatever follows it.
pub proof fn lemma_array_round_trip<T>(
    parse: spec_fn(Seq<u8>) -> Option<(T, nat)>,
    items: Seq<T>,
    pieces: Seq<Piece>,
    rest: Seq<u8>,
)
    requires
        items.len() == pieces.len(),
        pieces.len() <= i32::MAX,
        forall|i: int| 0 <= i < pieces.len() ==> (#[trigger] pieces[i]).outcome is Ok,
        forall|i: int, tail: Seq<u8>|
            0 <= i < pieces.len() ==> #[trigger] parse(pieces[i].bytes + tail) == Some(
                (items[i], pieces[i].bytes.len()),
            ),
    ensures
        array_outcome(pieces) is Ok,
        parse_array(parse, array_written(pieces) + rest) == Some(
            (items, array_written(pieces).len()),
        ),
{
    let count = pieces.len() as int;
    let body = pieces_written(pieces);
    let s = array_written(pieces) + rest;
    reveal_with_fuel(fits_signed, 4);
    lemma_pieces_all_ok(pieces);
    lemma_be_bytes_len(count, 4);
    lemma_int_round_trip(count, 4, body + rest);
    assert(s =~= be_bytes(count, 4) + (body + rest));
    assert(s.skip(4) =~= body + rest);
    lemma_elements_round_trip(parse, items, pieces, rest);
}

} // verus!
