//! Reading values off the wire.
//!
//! Each decoder takes the bytes that are left and returns the value at
//! their front together with the number of bytes it took. On failure the
//! caller gives the attempt up.

use crate::error::Error;
use crate::encode::{SentinelWidth, MSB};
use crate::wire::{
    be_int, be_nat, groups_value, parse_bool, parse_bytes, parse_int, parse_nullable_bytes,
    parse_array, parse_elements, parse_nullable_string, parse_string, parse_uint, parse_varint,
    varint_len,
};
use vstd::prelude::*;
use vstd::slice::slice_subrange;
use vstd::utf8::encode_utf8_decode_utf8;

verus! {

/// The value of the first `k` bytes, from that of the first `k - 1`.
proof fn lemma_be_int_step(s: Seq<u8>, k: int)
    requires
        1 <= k <= s.len(),
    ensures
        k == 1 ==> be_int(s.take(k)) == if s[0] >= 128 {
            s[0] - 256
        } else {
            s[0] as int
        },
        k > 1 ==> be_int(s.take(k)) == be_int(s.take(k - 1)) * 256 + s[k - 1],
{
    if k > 1 {
        assert(s.take(k).drop_last() =~= s.take(k - 1));
    }
}

/// The unsigned value of the first `k` bytes, from that of the first
/// `k - 1`, which is 0 where there are none.
proof fn lemma_be_nat_step(s: Seq<u8>, k: int)
    requires
        1 <= k <= s.len(),
    ensures
        k == 1 ==> be_nat(s.take(k)) == s[0],
        k > 1 ==> be_nat(s.take(k)) == be_nat(s.take(k - 1)) * 256 + s[k - 1],
{
    assert(s.take(k).drop_last() =~= s.take(k - 1));
}

/// Reads a boolean: one byte, `false` for 0 and `true` for anything else.
pub fn decode_bool(input: &[u8]) -> (res: Result<(bool, usize), Error>)
    ensures
        match parse_bool(input@) {
            Some((x, n)) => res matches Ok((v, used)) && v == x && used == n,
            None => res matches Err(e) && e == Error::DecodingError,
        },
{
    if input.len() < 1 {
        return Err(Error::DecodingError);
    }
    Ok((input[0] != 0, 1))
}

/// Reads a signed 8-bit integer.
pub fn decode_i8(input: &[u8]) -> (res: Result<(i8, usize), Error>)
    ensures
        match parse_int(input@, 1) {
            Some((x, n)) => res matches Ok((v, used)) && v == x && used == n,
            None => res matches Err(e) && e == Error::DecodingError,
        },
{
    if input.len() < 1 {
        return Err(Error::DecodingError);
    }
    let b0: u8 = input[0];
    let v: i8 = if b0 >= 128 {
        (b0 as i16 - 256) as i8
    } else {
        b0 as i8
    };
    proof {
        lemma_be_int_step(input@, 1);
    }
    Ok((v, 1))
}

/// Reads a signed 16-bit integer, big-endian.
pub fn decode_i16(input: &[u8]) -> (res: Result<(i16, usize), Error>)
    ensures
        match parse_int(input@, 2) {
            Some((x, n)) => res matches Ok((v, used)) && v == x && used == n,
            None => res matches Err(e) && e == Error::DecodingError,
        },
{
    if input.len() < 2 {
        return Err(Error::DecodingError);
    }
    let b0: u8 = input[0];
    let top: i16 = if b0 >= 128 {
        b0 as i16 - 256
    } else {
        b0 as i16
    };
    let v: i16 = top * 256 + input[1] as i16;
    proof {
        lemma_be_int_step(input@, 1);
        lemma_be_int_step(input@, 2);
    }
    Ok((v, 2))
}

/// Reads a signed 32-bit integer, big-endian.
pub fn decode_i32(input: &[u8]) -> (res: Result<(i32, usize), Error>)
    ensures
        match parse_int(input@, 4) {
            Some((x, n)) => res matches Ok((v, used)) && v == x && used == n,
            None => res matches Err(e) && e == Error::DecodingError,
        },
{
    if input.len() < 4 {
        return Err(Error::DecodingError);
    }
    let b0: u8 = input[0];
    let top: i32 = if b0 >= 128 {
        b0 as i32 - 256
    } else {
        b0 as i32
    };
    let v: i32 = ((top * 256 + input[1] as i32) * 256 + input[2] as i32) * 256 + input[3] as i32;
    proof {
        lemma_be_int_step(input@, 1);
        lemma_be_int_step(input@, 2);
        lemma_be_int_step(input@, 3);
        lemma_be_int_step(input@, 4);
    }
    Ok((v, 4))
}

/// Reads an unsigned 32-bit integer, big-endian.
pub fn decode_u32(input: &[u8]) -> (res: Result<(u32, usize), Error>)
    ensures
        match parse_uint(input@, 4) {
            Some((x, n)) => res matches Ok((v, used)) && v == x && used == n,
            None => res matches Err(e) && e == Error::DecodingError,
        },
{
    if input.len() < 4 {
        return Err(Error::DecodingError);
    }
    let v: u32 = ((input[0] as u32 * 256 + input[1] as u32) * 256 + input[2] as u32) * 256
        + input[3] as u32;
    proof {
        lemma_be_nat_step(input@, 1);
        lemma_be_nat_step(input@, 2);
        lemma_be_nat_step(input@, 3);
        lemma_be_nat_step(input@, 4);
    }
    Ok((v, 4))
}

/// Reads a signed 64-bit integer, big-endian.
pub fn decode_i64(input: &[u8]) -> (res: Result<(i64, usize), Error>)
    ensures
        match parse_int(input@, 8) {
            Some((x, n)) => res matches Ok((v, used)) && v == x && used == n,
            None => res matches Err(e) && e == Error::DecodingError,
        },
{
    if input.len() < 8 {
        return Err(Error::DecodingError);
    }
    let b0: u8 = input[0];
    let top: i64 = if b0 >= 128 {
        b0 as i64 - 256
    } else {
        b0 as i64
    };
    let v2: i64 = top * 256 + input[1] as i64;
    let v3: i64 = v2 * 256 + input[2] as i64;
    let v4: i64 = v3 * 256 + input[3] as i64;
    let v5: i64 = v4 * 256 + input[4] as i64;
    let v6: i64 = v5 * 256 + input[5] as i64;
    let v7: i64 = v6 * 256 + input[6] as i64;
    let v: i64 = v7 * 256 + input[7] as i64;
    proof {
        lemma_be_int_step(input@, 1);
        lemma_be_int_step(input@, 2);
        lemma_be_int_step(input@, 3);
        lemma_be_int_step(input@, 4);
        lemma_be_int_step(input@, 5);
        lemma_be_int_step(input@, 6);
        lemma_be_int_step(input@, 7);
        lemma_be_int_step(input@, 8);
    }
    Ok((v, 8))
}

/// Where the first `k` bytes all carry the continuation bit, the length
/// of the integer at the front is `k` more than that of the one behind
/// them.
proof fn lemma_varint_len_skip(s: Seq<u8>, k: int)
    requires
        0 <= k <= s.len(),
        forall|j: int| 0 <= j < k ==> s[j] >= 128,
    ensures
        varint_len(s) == match varint_len(s.skip(k)) {
            Some(n) => Some((n + k) as nat),
            None => None,
        },
    decreases k,
{
    if k == 0 {
        assert(s.skip(0) =~= s);
    } else {
        lemma_varint_len_skip(s.skip(1), k - 1);
        assert(s.skip(1).skip(k - 1) =~= s.skip(k));
    }
}

/// Groups further to the front only add to the number: what the groups
/// from `i` on spell is at most what those from `j` on spell, for `j`
/// before `i`.
proof fn lemma_groups_value_grows(s: Seq<u8>, j: int, i: int)
    requires
        0 <= j <= i <= s.len(),
    ensures
        groups_value(s.skip(j)) >= groups_value(s.skip(i)),
    decreases i - j,
{
    if j < i {
        lemma_groups_value_grows(s, j + 1, i);
        assert(s.skip(j).skip(1) =~= s.skip(j + 1));
    }
}

/// The low seven bits of a byte, read as arithmetic.
proof fn lemma_low_seven(b: u8)
    by (bit_vector)
    ensures
        (b & 0x7f) == b % 128,
{
}

/// Reads a variable-length size: groups of seven bits up to the first
/// byte without a continuation bit, then the ZigZag mapping undone.
///
/// It fails where the input ends before such a byte, where the groups
/// spell more than 64 bits hold, and where the number stands for no size:
/// for a negative number, or for one beyond `usize`.
pub fn decode_varint(input: &[u8]) -> (res: Result<(usize, usize), Error>)
    ensures
        match parse_varint(input@) {
            Some((x, n)) => res matches Ok((v, used)) && v == x && used == n,
            None => res matches Err(e) && e == Error::DecodingError,
        },
{
    let mut k: usize = 0;
    while k < input.len() && input[k] >= MSB
        invariant
            k <= input.len(),
            forall|j: int| 0 <= j < k ==> input@[j] >= 128,
        decreases input.len() - k,
    {
        k += 1;
    }
    proof {
        lemma_varint_len_skip(input@, k as int);
    }
    if k == input.len() {
        return Err(Error::DecodingError);
    }
    let ghost groups = input@.take(k + 1);
    let mut n: u64 = 0;
    let mut i: usize = k + 1;
    while i > 0
        invariant
            i <= k + 1,
            k < input.len(),
            groups == input@.take(k + 1),
            varint_len(input@) == Some((k + 1) as nat),
            n == groups_value(groups.skip(i as int)),
        decreases i,
    {
        i -= 1;
        let payload: u64 = (input[i] & 0x7f) as u64;
        proof {
            lemma_low_seven(input[i as int]);
            assert(groups.skip(i as int).skip(1) =~= groups.skip(i + 1));
        }
        if n > (u64::MAX - payload) / 128 {
            proof {
                lemma_groups_value_grows(groups, 0, i as int);
                assert(groups.skip(0) =~= groups);
            }
            return Err(Error::DecodingError);
        }
        n = n * 128 + payload;
    }
    assert(groups.skip(0) =~= groups);
    if n % 2 == 1 {
        return Err(Error::DecodingError);
    }
    let half: u64 = n / 2;
    if half > usize::MAX as u64 {
        return Err(Error::DecodingError);
    }
    Ok((half as usize, k + 1))
}

/// Reads a string field: a 16-bit length, then as many bytes of UTF-8.
///
/// A negative length belongs to the nullable form and is an error here, as
/// are fewer bytes than the length announces and bytes that are no UTF-8.
pub fn decode_string(input: &[u8]) -> (res: Result<(&str, usize), Error>)
    ensures
        match parse_string(input@) {
            Some((chars, n)) => res matches Ok((text, used)) && text@ == chars && used == n,
            None => res matches Err(e) && e == Error::DecodingError,
        },
{
    let (len, _) = match decode_i16(input) {
        Ok(p) => p,
        Err(e) => {
            return Err(e);
        },
    };
    if len < 0 {
        return Err(Error::DecodingError);
    }
    let end: usize = 2 + len as usize;
    if input.len() < end {
        return Err(Error::DecodingError);
    }
    let payload = slice_subrange(input, 2, end);
    match core::str::from_utf8(payload) {
        Ok(text) => {
            proof {
                encode_utf8_decode_utf8(text@);
            }
            Ok((text, end))
        },
        Err(_) => Err(Error::DecodingError),
    }
}

/// Reads a byte-array field: a 32-bit length, then as many bytes.
///
/// A negative length belongs to the nullable form and is an error here, as
/// are fewer bytes than the length announces.
pub fn decode_bytes(input: &[u8]) -> (res: Result<(&[u8], usize), Error>)
    ensures
        match parse_bytes(input@) {
            Some((payload, n)) => res matches Ok((bytes, used)) && bytes@ == payload && used == n,
            None => res matches Err(e) && e == Error::DecodingError,
        },
{
    let (len, _) = match decode_i32(input) {
        Ok(p) => p,
        Err(e) => {
            return Err(e);
        },
    };
    if len < 0 {
        return Err(Error::DecodingError);
    }
    if input.len() - 4 < len as usize {
        return Err(Error::DecodingError);
    }
    let end: usize = 4 + len as usize;
    Ok((slice_subrange(input, 4, end), end))
}

/// Reads a value that may be absent.
///
/// The length field at the front is looked at in the given width: -1
/// stands for an absent value and ends the field. Any other value leaves
/// the whole input, length field included, to `present`, whose result is
/// handed on as it is.
pub fn decode_nullable<'a, T, F>(input: &'a [u8], width: SentinelWidth, present: F) -> (res: Result<
    (Option<T>, usize),
    Error,
>) where F: Fn(&'a [u8]) -> Result<(T, usize), Error>
    requires
        call_requires(present, (input,)),
    ensures
        match parse_int(input@, width.bytes()) {
            None => res matches Err(e) && e == Error::DecodingError,
            Some((len, n)) => if len == -1 {
                res matches Ok((v, used)) && v is None && used == n
            } else {
                exists|r: Result<(T, usize), Error>| #[trigger]
                    call_ensures(present, (input,), r) && match r {
                        Ok((v, used)) => res == Ok::<(Option<T>, usize), Error>((Some(v), used)),
                        Err(e) => res == Err::<(Option<T>, usize), Error>(e),
                    }
            },
        },
{
    let (absent, taken) = match width {
        SentinelWidth::Two => match decode_i16(input) {
            Ok((len, taken)) => (len == -1, taken),
            Err(e) => {
                return Err(e);
            },
        },
        SentinelWidth::Four => match decode_i32(input) {
            Ok((len, taken)) => (len == -1, taken),
            Err(e) => {
                return Err(e);
            },
        },
    };
    if absent {
        return Ok((None, taken));
    }
    match present(input) {
        Ok((v, used)) => Ok((Some(v), used)),
        Err(e) => Err(e),
    }
}

/// Reads a string field that may be absent.
pub fn decode_nullable_string(input: &[u8]) -> (res: Result<(Option<&str>, usize), Error>)
    ensures
        match parse_nullable_string(input@) {
            Some((Some(chars), n)) => res matches Ok((Some(text), used)) && text@ == chars && used
                == n,
            Some((None, n)) => res matches Ok((None, used)) && used == n,
            None => res matches Err(e) && e == Error::DecodingError,
        },
{
    decode_nullable(input, SentinelWidth::Two, decode_string)
}

/// Reads a byte-array field that may be absent.
pub fn decode_nullable_bytes(input: &[u8]) -> (res: Result<(Option<&[u8]>, usize), Error>)
    ensures
        match parse_nullable_bytes(input@) {
            Some((Some(payload), n)) => res matches Ok((Some(bytes), used)) && bytes@ == payload
                && used == n,
            Some((None, n)) => res matches Ok((None, used)) && used == n,
            None => res matches Err(e) && e == Error::DecodingError,
        },
{
    decode_nullable(input, SentinelWidth::Four, decode_bytes)
}

/// `f` may answer `r` to an input that holds the bytes `s`.
pub open spec fn decodes<'a, T, F: Fn(&'a [u8]) -> Result<(T, usize), Error>>(
    f: F,
    s: Seq<u8>,
    r: Result<(T, usize), Error>,
) -> bool {
    exists|input: &'a [u8]| input@ == s && #[trigger] call_ensures(f, (input,), r)
}

/// `f` has read `items` one behind the other out of `s`, the first at
/// offset 4, each from all the bytes that were left and within them, and
/// the byte behind the last is at `end`.
pub open spec fn elements_decoded<'a, T, F: Fn(&'a [u8]) -> Result<(T, usize), Error>>(
    f: F,
    s: Seq<u8>,
    items: Seq<T>,
    end: nat,
) -> bool
    decreases items.len(),
{
    if items.len() == 0 {
        end == 4
    } else {
        exists|mid: nat, used: usize|
            {
                &&& mid + used == end <= s.len()
                &&& elements_decoded(f, s, items.drop_last(), mid)
                &&& #[trigger] decodes(f, s.skip(mid as int), Ok((items.last(), used)))
            }
    }
}

/// `f`, handed the bytes of `s` from `at` on, ends the array with the
/// error `e`: it fails with `e`, or it claims more bytes than it was given.
pub open spec fn element_refused<'a, T, F: Fn(&'a [u8]) -> Result<(T, usize), Error>>(
    f: F,
    s: Seq<u8>,
    at: nat,
    e: Error,
) -> bool {
    ||| decodes(f, s.skip(at as int), Err::<(T, usize), Error>(e))
    ||| e == Error::DecodingError && exists|item: T, used: usize|
        at + used > s.len() && #[trigger] decodes(f, s.skip(at as int), Ok((item, used)))
}

/// What `decode_as_array` does with the decoder `f` on the bytes `s`.
///
/// A count that is missing or negative is an error. Otherwise success
/// means that `f` has read as many elements as the count says, and failure
/// that it has read fewer and that the next call ended the array.
pub open spec fn array_decoding<'a, T, F: Fn(&'a [u8]) -> Result<(T, usize), Error>>(
    f: F,
    s: Seq<u8>,
    res: Result<(Vec<T>, usize), Error>,
) -> bool {
    match parse_int(s, 4) {
        None => res matches Err(e) && e == Error::DecodingError,
        Some((count, _)) => if count < 0 {
            res matches Err(e) && e == Error::DecodingError
        } else {
            match res {
                Ok((items, end)) => items@.len() == count && elements_decoded(
                    f,
                    s,
                    items@,
                    end as nat,
                ),
                Err(e) => exists|done: Seq<T>, at: nat|
                    done.len() < count && #[trigger] elements_decoded(f, s, done, at)
                        && element_refused(f, s, at, e),
            }
        },
    }
}

/// Reads a protocol array: a 32-bit element count, then as many elements,
/// each read by `f` from the bytes that are left.
///
/// A negative count is an error. The first failure of `f` ends the call
/// and is returned as it is; an `f` that claims to have read more than it
/// was given ends it too.
pub fn decode_as_array<'a, T, F>(input: &'a [u8], f: F) -> (res: Result<(Vec<T>, usize), Error>) where
    F: Fn(&'a [u8]) -> Result<(T, usize), Error>,

    requires
        forall|x: &'a [u8]| call_requires(f, (x,)),
    ensures
        array_decoding(f, input@, res),
{
    let (count, _) = match decode_i32(input) {
        Ok(p) => p,
        Err(e) => {
            return Err(e);
        },
    };
    if count < 0 {
        return Err(Error::DecodingError);
    }
    let mut items: Vec<T> = Vec::new();
    let mut pos: usize = 4;
    let mut i: i32 = 0;
    while i < count
        invariant
            0 <= i <= count,
            parse_int(input@, 4) matches Some((c, _)) && c == count,
            items@.len() == i,
            4 <= pos <= input@.len(),
            elements_decoded(f, input@, items@, pos as nat),
            forall|x: &'a [u8]| call_requires(f, (x,)),
        decreases count - i,
    {
        let rest = slice_subrange(input, pos, input.len());
        match f(rest) {
            Ok((item, used)) => {
                assert(decodes(f, input@.skip(pos as int), Ok::<(T, usize), Error>((item, used))));
                if used > input.len() - pos {
                    return Err(Error::DecodingError);
                }
                let ghost before = items@;
                let ghost mid = pos as nat;
                items.push(item);
                pos += used;
                proof {
                    assert(items@.drop_last() =~= before);
                    assert(decodes(
                        f,
                        input@.skip(mid as int),
                        Ok::<(T, usize), Error>((items@.last(), used)),
                    ));
                }
            },
            Err(e) => {
                return Err(e);
            },
        }
        i += 1;
    }
    Ok((items, pos))
}

/// `f` reads by the grammar `parse`: where the grammar finds a value at
/// the front of the input, `f` returns a value that `view` takes to it,
/// with the same length, and where it finds none, `f` fails.
pub open spec fn reads_by<'a, T, V, F: Fn(&'a [u8]) -> Result<(T, usize), Error>>(
    f: F,
    parse: spec_fn(Seq<u8>) -> Option<(V, nat)>,
    view: spec_fn(T) -> V,
) -> bool {
    forall|input: &'a [u8], r: Result<(T, usize), Error>| #[trigger]
        call_ensures(f, (input,), r) ==> match parse(input@) {
            Some((x, n)) => r matches Ok((v, used)) && view(v) == x && used == n,
            None => r is Err,
        }
}

/// What a decoder that reads by a grammar has read, the grammar finds.
pub proof fn lemma_elements_decoded_by_grammar<'a, T, V, F: Fn(&'a [u8]) -> Result<
    (T, usize),
    Error,
>>(
    f: F,
    parse: spec_fn(Seq<u8>) -> Option<(V, nat)>,
    view: spec_fn(T) -> V,
    s: Seq<u8>,
    items: Seq<T>,
    end: nat,
)
    requires
        reads_by(f, parse, view),
        4 <= s.len(),
        elements_decoded(f, s, items, end),
    ensures
        4 <= end <= s.len(),
        parse_elements(parse, s.skip(4), items.len()) == Some(
            (items.map_values(view), (end - 4) as nat),
        ),
    decreases items.len(),
{
    if items.len() == 0 {
    } else {
        let (mid, used) = choose|mid: nat, used: usize|
            {
                &&& mid + used == end <= s.len()
                &&& elements_decoded(f, s, items.drop_last(), mid)
                &&& #[trigger] decodes(f, s.skip(mid as int), Ok((items.last(), used)))
            };
        lemma_elements_decoded_by_grammar(f, parse, view, s, items.drop_last(), mid);
        assert(s.skip(4).skip(mid - 4) =~= s.skip(mid as int));
        assert(items.drop_last().map_values(view).push(view(items.last())) =~= items.map_values(
            view,
        ));
    }
}

/// Where a decoder that reads by a grammar ends an array early, the
/// grammar finds no array.
pub proof fn lemma_element_refused_by_grammar<'a, T, V, F: Fn(&'a [u8]) -> Result<
    (T, usize),
    Error,
>>(
    f: F,
    parse: spec_fn(Seq<u8>) -> Option<(V, nat)>,
    view: spec_fn(T) -> V,
    s: Seq<u8>,
    done: Seq<T>,
    at: nat,
    e: Error,
    count: nat,
)
    requires
        reads_by(f, parse, view),
        4 <= s.len(),
        elements_decoded(f, s, done, at),
        element_refused(f, s, at, e),
        done.len() < count,
    ensures
        parse_elements(parse, s.skip(4), count) is None,
    decreases count,
{
    if count == done.len() + 1 {
        lemma_elements_decoded_by_grammar(f, parse, view, s, done, at);
        assert(s.skip(4).skip(at - 4) =~= s.skip(at as int));
    } else {
        lemma_element_refused_by_grammar(f, parse, view, s, done, at, e, (count - 1) as nat);
    }
}

/// With a decoder that reads by the grammar `parse`, `decode_as_array`
/// reads by the grammar of arrays over `parse`.
pub proof fn lemma_array_decoding_by_grammar<'a, T, V, F: Fn(&'a [u8]) -> Result<
    (T, usize),
    Error,
>>(
    f: F,
    parse: spec_fn(Seq<u8>) -> Option<(V, nat)>,
    view: spec_fn(T) -> V,
    s: Seq<u8>,
    res: Result<(Vec<T>, usize), Error>,
)
    requires
        reads_by(f, parse, view),
        array_decoding(f, s, res),
    ensures
        match parse_array(parse, s) {
            Some((xs, n)) => res matches Ok((items, end)) && items@.map_values(view) == xs && end
                == n,
            None => res is Err,
        },
{
    if let Some((count, _)) = parse_int(s, 4) {
        if count >= 0 {
            match res {
                Ok((items, end)) => {
                    lemma_elements_decoded_by_grammar(f, parse, view, s, items@, end as nat);
                },
                Err(e) => {
                    let (done, at) = choose|done: Seq<T>, at: nat|
                        done.len() < count && #[trigger] elements_decoded(f, s, done, at)
                            && element_refused(f, s, at, e);
                    lemma_element_refused_by_grammar(f, parse, view, s, done, at, e, count as nat);
                },
            }
        }
    }
}

} // verus!
