//! The wire grammar, as mathematics.
//!
//! Every function here is a specification: it says which bytes stand for a
//! value, or which value a run of bytes stands for. The executable encoders
//! and decoders are stated against these.

use crate::error::Error;
use vstd::prelude::*;
use vstd::utf8::{decode_utf8, encode_utf8, valid_utf8};

verus! {

/// The `width` lowest base-256 digits of `value`, most significant first.
///
/// Quotient and remainder are Euclidean, so a negative `value` yields its
/// two's-complement digits: `be_bytes(-1, 2)` is `[255, 255]`.
pub open spec fn be_bytes(value: int, width: nat) -> Seq<u8>
    decreases width,
{
    if width == 0 {
        Seq::empty()
    } else {
        be_bytes(value / 256, (width - 1) as nat).push((value % 256) as u8)
    }
}

/// The unsigned number whose base-256 digits, most significant first, are
/// `bytes`.
pub open spec fn be_nat(bytes: Seq<u8>) -> nat
    decreases bytes.len(),
{
    if bytes.len() == 0 {
        0
    } else {
        be_nat(bytes.drop_last()) * 256 + bytes.last() as nat
    }
}

/// The signed number whose two's-complement digits, most significant first,
/// are `bytes`: the first byte carries the sign.
pub open spec fn be_int(bytes: Seq<u8>) -> int
    decreases bytes.len(),
{
    if bytes.len() == 0 {
        0
    } else if bytes.len() == 1 {
        if bytes[0] >= 128 {
            bytes[0] - 256
        } else {
            bytes[0] as int
        }
    } else {
        be_int(bytes.drop_last()) * 256 + bytes.last()
    }
}

/// The ZigZag image of a size.
///
/// A size up to `isize::MAX` is doubled. A larger one, which a signed
/// reading would take for negative, lands on the odd numbers.
pub open spec fn zigzag(v: usize) -> nat {
    if v <= isize::MAX {
        2 * (v as nat)
    } else {
        (2 * (v - isize::MAX - 1) + 1) as nat
    }
}

/// The size that a ZigZag image stands for, if it stands for one: an even
/// image is halved, an odd one stands for a negative number and for no
/// size.
pub open spec fn unzigzag(n: nat) -> Option<usize> {
    if n % 2 == 0 && n / 2 <= usize::MAX {
        Some((n / 2) as usize)
    } else {
        None
    }
}

/// `n` in groups of seven bits, least significant group first, each byte
/// but the last with its high bit set.
pub open spec fn varint_groups(n: nat) -> Seq<u8>
    decreases n,
{
    if n < 128 {
        seq![n as u8]
    } else {
        seq![(128 + n % 128) as u8] + varint_groups(n / 128)
    }
}

/// How many bytes the variable-length integer at the front of `s` takes:
/// up to and including the first byte whose high bit is clear.
pub open spec fn varint_len(s: Seq<u8>) -> Option<nat>
    decreases s.len(),
{
    if s.len() == 0 {
        None
    } else if s[0] < 128 {
        Some(1)
    } else {
        match varint_len(s.skip(1)) {
            Some(n) => Some(n + 1),
            None => None,
        }
    }
}

/// The number spelled by the low seven bits of each byte of `s`, least
/// significant group first.
pub open spec fn groups_value(s: Seq<u8>) -> nat
    decreases s.len(),
{
    if s.len() == 0 {
        0
    } else {
        (s[0] % 128) as nat + 128 * groups_value(s.skip(1))
    }
}

/// Whether a string of these characters fits a string field: its UTF-8
/// form takes no more bytes than a signed 16-bit length can count.
pub open spec fn string_fits(chars: Seq<char>) -> bool {
    encode_utf8(chars).len() <= i16::MAX
}

/// A string field: the byte length of the UTF-8 form as a signed 16-bit
/// integer, then the UTF-8 bytes.
pub open spec fn string_frame(chars: Seq<char>) -> Seq<u8> {
    be_bytes(encode_utf8(chars).len() as int, 2) + encode_utf8(chars)
}

/// What encoding a string appends: its field, or nothing where it does not
/// fit one.
pub open spec fn string_written(chars: Seq<char>) -> Seq<u8> {
    if string_fits(chars) {
        string_frame(chars)
    } else {
        Seq::empty()
    }
}

/// What encoding a string returns.
pub open spec fn string_outcome(chars: Seq<char>) -> Result<(), Error> {
    if string_fits(chars) {
        Ok(())
    } else {
        Err(Error::EncodingError)
    }
}

/// Whether a run of bytes fits a byte-array field: a signed 32-bit length
/// can count it.
pub open spec fn bytes_fit(payload: Seq<u8>) -> bool {
    payload.len() <= i32::MAX
}

/// A byte-array field: the length as a signed 32-bit integer, then the
/// bytes.
pub open spec fn bytes_frame(payload: Seq<u8>) -> Seq<u8> {
    be_bytes(payload.len() as int, 4) + payload
}

/// What encoding a byte array appends: its field, or nothing where it does
/// not fit one.
pub open spec fn bytes_written(payload: Seq<u8>) -> Seq<u8> {
    if bytes_fit(payload) {
        bytes_frame(payload)
    } else {
        Seq::empty()
    }
}

/// What encoding a byte array returns.
pub open spec fn bytes_outcome(payload: Seq<u8>) -> Result<(), Error> {
    if bytes_fit(payload) {
        Ok(())
    } else {
        Err(Error::EncodingError)
    }
}

/// The length field that stands for an absent value: -1 in `width` bytes.
pub open spec fn absent(width: nat) -> Seq<u8> {
    be_bytes(-1, width)
}

/// What the encoder of one element of a sequence does: the bytes it
/// appends and what it returns.
pub struct Piece {
    pub bytes: Seq<u8>,
    pub outcome: Result<(), Error>,
}

/// The first failure among the elements, or success.
pub open spec fn pieces_outcome(pieces: Seq<Piece>) -> Result<(), Error>
    decreases pieces.len(),
{
    if pieces.len() == 0 {
        Ok(())
    } else if pieces_outcome(pieces.drop_last()) is Err {
        pieces_outcome(pieces.drop_last())
    } else {
        pieces.last().outcome
    }
}

/// What handing the elements to their encoder in order appends: an element
/// adds its bytes where all before it succeeded, so the bytes of the first
/// one that fails are the last.
pub open spec fn pieces_written(pieces: Seq<Piece>) -> Seq<u8>
    decreases pieces.len(),
{
    if pieces.len() == 0 {
        Seq::empty()
    } else if pieces_outcome(pieces.drop_last()) is Err {
        pieces_written(pieces.drop_last())
    } else {
        pieces_written(pieces.drop_last()) + pieces.last().bytes
    }
}

/// What encoding a sequence appends: the element count as a signed 32-bit
/// integer, then the elements; nothing where the count does not fit.
pub open spec fn array_written(pieces: Seq<Piece>) -> Seq<u8> {
    if pieces.len() <= i32::MAX {
        be_bytes(pieces.len() as int, 4) + pieces_written(pieces)
    } else {
        Seq::empty()
    }
}

/// What encoding a sequence returns.
pub open spec fn array_outcome(pieces: Seq<Piece>) -> Result<(), Error> {
    if pieces.len() <= i32::MAX {
        pieces_outcome(pieces)
    } else {
        Err(Error::EncodingError)
    }
}

/// Reading a boolean: one byte, and any byte but 0 is `true`.
pub open spec fn parse_bool(s: Seq<u8>) -> Option<(bool, nat)> {
    if s.len() < 1 {
        None
    } else {
        Some((s[0] != 0, 1))
    }
}

/// Reading a signed integer of `width` bytes: its value and `width`, or
/// nothing where fewer bytes are left.
pub open spec fn parse_int(s: Seq<u8>, width: nat) -> Option<(int, nat)> {
    if s.len() < width {
        None
    } else {
        Some((be_int(s.take(width as int)), width))
    }
}

/// Reading an unsigned integer of `width` bytes.
pub open spec fn parse_uint(s: Seq<u8>, width: nat) -> Option<(nat, nat)> {
    if s.len() < width {
        None
    } else {
        Some((be_nat(s.take(width as int)), width))
    }
}

/// Reading a variable-length size: the bytes up to the first one without
/// a continuation bit spell a number, which has to fit 64 bits and to be
/// the ZigZag image of a size.
pub open spec fn parse_varint(s: Seq<u8>) -> Option<(usize, nat)> {
    match varint_len(s) {
        None => None,
        Some(k) => {
            let n = groups_value(s.take(k as int));
            if n > u64::MAX {
                None
            } else {
                match unzigzag(n) {
                    Some(v) => Some((v, k)),
                    None => None,
                }
            }
        },
    }
}

/// Reading a string field: a length that is not negative, then as many
/// bytes, which have to be UTF-8.
pub open spec fn parse_string(s: Seq<u8>) -> Option<(Seq<char>, nat)> {
    match parse_int(s, 2) {
        None => None,
        Some((len, _)) => {
            if len < 0 || s.len() < 2 + len || !valid_utf8(s.subrange(2, 2 + len)) {
                None
            } else {
                Some((decode_utf8(s.subrange(2, 2 + len)), (2 + len) as nat))
            }
        },
    }
}

/// Reading a byte-array field: a length that is not negative, then as
/// many bytes.
pub open spec fn parse_bytes(s: Seq<u8>) -> Option<(Seq<u8>, nat)> {
    match parse_int(s, 4) {
        None => None,
        Some((len, _)) => {
            if len < 0 || s.len() < 4 + len {
                None
            } else {
                Some((s.subrange(4, 4 + len), (4 + len) as nat))
            }
        },
    }
}

/// Reading a string field that may be absent: a length of -1 stands for
/// no string and ends the field.
pub open spec fn parse_nullable_string(s: Seq<u8>) -> Option<(Option<Seq<char>>, nat)> {
    if parse_int(s, 2) == Some((-1int, 2nat)) {
        Some((None, 2))
    } else {
        match parse_string(s) {
            Some((chars, n)) => Some((Some(chars), n)),
            None => None,
        }
    }
}

/// Reading a byte-array field that may be absent: a length of -1 stands
/// for no array and ends the field.
pub open spec fn parse_nullable_bytes(s: Seq<u8>) -> Option<(Option<Seq<u8>>, nat)> {
    if parse_int(s, 4) == Some((-1int, 4nat)) {
        Some((None, 4))
    } else {
        match parse_bytes(s) {
            Some((payload, n)) => Some((Some(payload), n)),
            None => None,
        }
    }
}

/// Reading `count` elements one behind the other, each by the grammar
/// `parse` from all the bytes that are left at its place: the elements and
/// the number of bytes they take together.
pub open spec fn parse_elements<T>(
    parse: spec_fn(Seq<u8>) -> Option<(T, nat)>,
    s: Seq<u8>,
    count: nat,
) -> Option<(Seq<T>, nat)>
    decreases count,
{
    if count == 0 {
        Some((Seq::empty(), 0nat))
    } else {
        match parse_elements(parse, s, (count - 1) as nat) {
            None => None,
            Some((items, used)) => match parse(s.skip(used as int)) {
                None => None,
                Some((item, n)) => if used + n <= s.len() {
                    Some((items.push(item), used + n))
                } else {
                    None
                },
            },
        }
    }
}

/// Reading a protocol array: a count that is not negative, then as many
/// elements, each by the grammar `parse`.
pub open spec fn parse_array<T>(parse: spec_fn(Seq<u8>) -> Option<(T, nat)>, s: Seq<u8>) -> Option<
    (Seq<T>, nat),
> {
    match parse_int(s, 4) {
        None => None,
        Some((count, _)) => {
            if count < 0 {
                None
            } else {
                match parse_elements(parse, s.skip(4), count as nat) {
                    Some((items, used)) => Some((items, 4 + used)),
                    None => None,
                }
            }
        },
    }
}

} // verus!
