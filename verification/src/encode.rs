//! Writing values onto the wire.

use crate::error::Error;
use crate::sink::{
    bytes_as_slice, bytes_contents, put, put_i16, put_i32, put_i64, put_i8, put_u32, put_u8,
};
use crate::wire::{
    absent, array_outcome, array_written, be_bytes, bytes_outcome, bytes_written, pieces_outcome,
    pieces_written, string_outcome, string_written, varint_groups, zigzag, Piece,
};
use bytes::Bytes;
use vstd::prelude::*;

verus! {

/// The continuation bit of a variable-length integer's byte.
pub const MSB: u8 = 0b1000_0000;

/// A value with a place in the wire grammar.
///
/// One call of `encode` appends `written()` to the buffer and returns
/// `outcome()`. Where the outcome is an error, `written()` is what the
/// failed call left behind: nothing for a single field, and for a sequence
/// what was written up to the failure. The buffer is not rolled back.
pub trait ToByte {
    /// The bytes that `encode` appends.
    spec fn written(&self) -> Seq<u8>;

    /// What `encode` returns.
    spec fn outcome(&self) -> Result<(), Error>;

    /// Appends this value to `buffer` in its wire form.
    fn encode(&self, buffer: &mut Vec<u8>) -> (res: Result<(), Error>)
        ensures
            final(buffer)@ == old(buffer)@ + self.written(),
            res == self.outcome(),
    ;
}

impl<'a, T: ToByte + ?Sized> ToByte for &'a T {
    open spec fn written(&self) -> Seq<u8> {
        (**self).written()
    }

    open spec fn outcome(&self) -> Result<(), Error> {
        (**self).outcome()
    }

    fn encode(&self, buffer: &mut Vec<u8>) -> (res: Result<(), Error>) {
        (*self).encode(buffer)
    }
}

impl ToByte for bool {
    /// One byte: 1 for `true`, 0 for `false`.
    open spec fn written(&self) -> Seq<u8> {
        seq![if *self { 1u8 } else { 0u8 }]
    }

    open spec fn outcome(&self) -> Result<(), Error> {
        Ok(())
    }

    fn encode(&self, buffer: &mut Vec<u8>) -> (res: Result<(), Error>) {
        let flag: i8 = if *self { 1 } else { 0 };
        put_i8(buffer, flag);
        proof {
            reveal_with_fuel(be_bytes, 2);
        }
        Ok(())
    }
}

impl ToByte for i8 {
    /// One byte, two's complement.
    open spec fn written(&self) -> Seq<u8> {
        be_bytes(*self as int, 1)
    }

    open spec fn outcome(&self) -> Result<(), Error> {
        Ok(())
    }

    fn encode(&self, buffer: &mut Vec<u8>) -> (res: Result<(), Error>) {
        put_i8(buffer, *self);
        Ok(())
    }
}

impl ToByte for i16 {
    /// Two bytes, big-endian, two's complement.
    open spec fn written(&self) -> Seq<u8> {
        be_bytes(*self as int, 2)
    }

    open spec fn outcome(&self) -> Result<(), Error> {
        Ok(())
    }

    fn encode(&self, buffer: &mut Vec<u8>) -> (res: Result<(), Error>) {
        put_i16(buffer, *self);
        Ok(())
    }
}

impl ToByte for i32 {
    /// Four bytes, big-endian, two's complement.
    open spec fn written(&self) -> Seq<u8> {
        be_bytes(*self as int, 4)
    }

    open spec fn outcome(&self) -> Result<(), Error> {
        Ok(())
    }

    fn encode(&self, buffer: &mut Vec<u8>) -> (res: Result<(), Error>) {
        put_i32(buffer, *self);
        Ok(())
    }
}

impl ToByte for u32 {
    /// Four bytes, big-endian.
    open spec fn written(&self) -> Seq<u8> {
        be_bytes(*self as int, 4)
    }

    open spec fn outcome(&self) -> Result<(), Error> {
        Ok(())
    }

    fn encode(&self, buffer: &mut Vec<u8>) -> (res: Result<(), Error>) {
        put_u32(buffer, *self);
        Ok(())
    }
}

impl ToByte for i64 {
    /// Eight bytes, big-endian, two's complement.
    open spec fn written(&self) -> Seq<u8> {
        be_bytes(*self as int, 8)
    }

    open spec fn outcome(&self) -> Result<(), Error> {
        Ok(())
    }

    fn encode(&self, buffer: &mut Vec<u8>) -> (res: Result<(), Error>) {
        put_i64(buffer, *self);
        Ok(())
    }
}

/// Maps a size to its ZigZag image, shifting by the width that `usize` has
/// on this machine.
pub fn zigzag_encode(from: usize) -> (n: u64)
    ensures
        n == zigzag(from),
{
    let doubled: usize = from << 1;
    let sign: usize = from >> (usize::BITS - 1);
    let n: usize = doubled ^ sign;
    proof {
        if usize::BITS == 64 {
            lemma_zigzag_bits_64(from as u64);
        } else {
            lemma_zigzag_bits_32(from as u32);
        }
    }
    n as u64
}

/// The shifts and the exclusive or of `zigzag_encode` on a 64-bit size,
/// read as arithmetic.
proof fn lemma_zigzag_bits_64(v: u64)
    by (bit_vector)
    ensures
        v <= 0x7fff_ffff_ffff_ffffu64 ==> ((v << 1) ^ (v >> 63)) == 2 * v,
        v > 0x7fff_ffff_ffff_ffffu64 ==> ((v << 1) ^ (v >> 63)) == 2 * (v
            - 0x8000_0000_0000_0000u64) + 1,
{
}

/// The same on a 32-bit size.
proof fn lemma_zigzag_bits_32(v: u32)
    by (bit_vector)
    ensures
        v <= 0x7fff_ffffu32 ==> ((v << 1) ^ (v >> 31)) == 2 * v,
        v > 0x7fff_ffffu32 ==> ((v << 1) ^ (v >> 31)) == 2 * (v - 0x8000_0000u32) + 1,
{
}

impl ToByte for usize {
    /// The ZigZag image of the size as a variable-length integer.
    open spec fn written(&self) -> Seq<u8> {
        varint_groups(zigzag(*self))
    }

    open spec fn outcome(&self) -> Result<(), Error> {
        Ok(())
    }

    fn encode(&self, buffer: &mut Vec<u8>) -> (res: Result<(), Error>) {
        let mut n: u64 = zigzag_encode(*self);
        while n >= 0x80
            invariant
                old(buffer)@ + varint_groups(zigzag(*self)) == buffer@ + varint_groups(n as nat),
            decreases n,
        {
            let low: u8 = #[verifier::truncate] (n as u8);
            proof {
                lemma_group_bits(n);
                assert(buffer@.push(MSB | low) + varint_groups((n >> 7) as nat) =~= buffer@
                    + varint_groups(n as nat));
            }
            put_u8(buffer, MSB | low);
            n >>= 7;
        }
        let last: u8 = #[verifier::truncate] (n as u8);
        proof {
            lemma_group_bits(n);
        }
        put_u8(buffer, last);
        Ok(())
    }
}

/// One step of the group loop, read as arithmetic: the low seven bits
/// under the continuation bit, and the shift to the next group.
proof fn lemma_group_bits(n: u64)
    by (bit_vector)
    ensures
        n < 128 ==> (n as u8) == n,
        (MSB | (n as u8)) == 128 + n % 128,
        (n >> 7) == n / 128,
{
}

/// Narrows a length to the signed 16-bit integer that a string field
/// carries, or reports that it does not fit.
pub fn try_usize_to_i16(x: usize) -> (res: Result<i16, Error>)
    ensures
        x <= i16::MAX ==> res == Ok::<i16, Error>(x as i16),
        x > i16::MAX ==> res == Err::<i16, Error>(Error::EncodingError),
{
    if x <= i16::MAX as usize {
        Ok(x as i16)
    } else {
        Err(Error::EncodingError)
    }
}

/// Narrows a length to the signed 32-bit integer that a byte array or a
/// sequence carries, or reports that it does not fit.
pub fn try_usize_to_i32(x: usize) -> (res: Result<i32, Error>)
    ensures
        x <= i32::MAX ==> res == Ok::<i32, Error>(x as i32),
        x > i32::MAX ==> res == Err::<i32, Error>(Error::EncodingError),
{
    if x <= i32::MAX as usize {
        Ok(x as i32)
    } else {
        Err(Error::EncodingError)
    }
}

impl ToByte for str {
    /// A string field, or nothing where the string is too long for one.
    open spec fn written(&self) -> Seq<u8> {
        string_written(self@)
    }

    open spec fn outcome(&self) -> Result<(), Error> {
        string_outcome(self@)
    }

    fn encode(&self, buffer: &mut Vec<u8>) -> (res: Result<(), Error>) {
        let payload = self.as_bytes();
        let l: i16 = match try_usize_to_i16(payload.len()) {
            Ok(l) => l,
            Err(e) => {
                return Err(e);
            },
        };
        put_i16(buffer, l);
        put(buffer, payload);
        Ok(())
    }
}

impl ToByte for String {
    /// As the string slice that it holds.
    open spec fn written(&self) -> Seq<u8> {
        string_written(self@)
    }

    open spec fn outcome(&self) -> Result<(), Error> {
        string_outcome(self@)
    }

    fn encode(&self, buffer: &mut Vec<u8>) -> (res: Result<(), Error>) {
        self.as_str().encode(buffer)
    }
}

impl ToByte for [u8] {
    /// A byte-array field, or nothing where the slice is too long for one.
    open spec fn written(&self) -> Seq<u8> {
        bytes_written(self@)
    }

    open spec fn outcome(&self) -> Result<(), Error> {
        bytes_outcome(self@)
    }

    fn encode(&self, buffer: &mut Vec<u8>) -> (res: Result<(), Error>) {
        let l: i32 = match try_usize_to_i32(self.len()) {
            Ok(l) => l,
            Err(e) => {
                return Err(e);
            },
        };
        put_i32(buffer, l);
        put(buffer, self);
        Ok(())
    }
}

/// Writes the length of `xs` as the start of a protocol array, then hands
/// each element in order to `f`, which is to append it.
///
/// A slice too long for a signed 32-bit count is refused before anything is
/// written. Otherwise the count is written, and the first failure of `f`
/// ends the call and is returned as it is; what was written up to then
/// stays.
///
/// The contract follows the buffer through the calls. `trace[0]` is the
/// buffer behind the count, `trace[i + 1]` the buffer behind the call of
/// `f` on element `i`, and the last entry the buffer at return. Every call
/// but the last returned `Ok`, and the last returned what this function
/// returns. `lemma_trace_pieces` reads the same off for an `f` whose bytes
/// are known.
pub fn encode_as_array<T, F>(buffer: &mut Vec<u8>, xs: &[T], f: F) -> (res: Result<(), Error>) where
    F: Fn(&mut Vec<u8>, &T) -> Result<(), Error>,

    requires
        forall|b: &mut Vec<u8>, i: int| 0 <= i < xs@.len() ==> call_requires(f, (b, &xs@[i])),
    ensures
        xs@.len() > i32::MAX ==> res == Err::<(), Error>(Error::EncodingError) && final(buffer)@
            == old(buffer)@,
        xs@.len() <= i32::MAX ==> exists|trace: Seq<Seq<u8>>|
            {
                &&& 1 <= trace.len() <= xs@.len() + 1
                &&& trace[0] == old(buffer)@ + be_bytes(xs@.len() as int, 4)
                &&& trace.last() == final(buffer)@
                &&& forall|i: int|
                    0 <= i < trace.len() - 2 ==> exists|b: &mut Vec<u8>|
                        b@ == #[trigger] trace[i] && final(b)@ == trace[i + 1] && call_ensures(
                            f,
                            (b, &xs@[i]),
                            Ok::<(), Error>(()),
                        )
                &&& trace.len() >= 2 ==> exists|b: &mut Vec<u8>|
                    b@ == trace[trace.len() - 2] && final(b)@ == trace.last() && call_ensures(
                        f,
                        (b, &xs@[trace.len() - 2]),
                        res,
                    )
                &&& trace.len() == 1 ==> res is Ok
                &&& res is Ok ==> trace.len() == xs@.len() + 1
            },
{
    let l: i32 = match try_usize_to_i32(xs.len()) {
        Ok(l) => l,
        Err(e) => {
            return Err(e);
        },
    };
    put_i32(buffer, l);
    let ghost mut trace: Seq<Seq<u8>> = seq![buffer@];
    let mut i: usize = 0;
    while i < xs.len()
        invariant
            i <= xs.len(),
            xs@.len() <= i32::MAX,
            forall|b: &mut Vec<u8>, j: int| 0 <= j < xs@.len() ==> call_requires(f, (b, &xs@[j])),
            trace.len() == i + 1,
            trace[0] == old(buffer)@ + be_bytes(xs@.len() as int, 4),
            trace.last() == buffer@,
            forall|j: int|
                0 <= j < i ==> exists|b: &mut Vec<u8>|
                    b@ == #[trigger] trace[j] && final(b)@ == trace[j + 1] && call_ensures(
                        f,
                        (b, &xs@[j]),
                        Ok::<(), Error>(()),
                    ),
        decreases xs.len() - i,
    {
        let r = f(buffer, &xs[i]);
        proof {
            trace = trace.push(buffer@);
            assert(exists|b: &mut Vec<u8>|
                b@ == trace[i as int] && final(b)@ == trace[i + 1] && call_ensures(
                    f,
                    (b, &xs@[i as int]),
                    r,
                ));
        }
        match r {
            Ok(_) => {
                assert(r->Ok_0 == ());
            },
            Err(e) => {
                assert(exists|b: &mut Vec<u8>|
                    b@ == trace[trace.len() - 2] && final(b)@ == trace.last() && call_ensures(
                        f,
                        (b, &xs@[trace.len() - 2]),
                        r,
                    ));
                return Err(e);
            },
        }
        i += 1;
    }
    Ok(())
}

/// A buffer that grew as `trace` says, one element's bytes at a time and
/// ending behind the first failure, grew by what the elements contribute
/// as a sequence.
pub proof fn lemma_trace_pieces(pieces: Seq<Piece>, trace: Seq<Seq<u8>>, res: Result<(), Error>)
    requires
        1 <= trace.len() <= pieces.len() + 1,
        forall|i: int|
            0 <= i < trace.len() - 1 ==> #[trigger] trace[i + 1] == trace[i] + pieces[i].bytes,
        forall|i: int| 0 <= i < trace.len() - 2 ==> (#[trigger] pieces[i]).outcome is Ok,
        trace.len() >= 2 ==> res == pieces[trace.len() - 2].outcome,
        trace.len() == 1 ==> res is Ok,
        res is Ok ==> trace.len() == pieces.len() + 1,
    ensures
        trace.last() == trace[0] + pieces_written(pieces),
        res == pieces_outcome(pieces),
    decreases pieces.len(),
{
    if pieces.len() == 0 {
        assert(res->Ok_0 == ());
    } else {
        let head = pieces.drop_last();
        if trace.len() == pieces.len() + 1 {
            let before = trace.drop_last();
            let so_far: Result<(), Error> = if before.len() >= 2 {
                head[before.len() - 2].outcome
            } else {
                Ok(())
            };
            lemma_trace_pieces(head, before, so_far);
        } else {
            lemma_trace_pieces(head, trace, res);
        }
    }
}

/// `encode_as_array` with an `f` that is known to append `pieces[i].bytes`
/// and return `pieces[i].outcome` for element `i`: the buffer grows by the
/// wire form of the sequence.
fn encode_pieces<T, F>(
    buffer: &mut Vec<u8>,
    xs: &[T],
    f: F,
    Ghost(pieces): Ghost<Seq<Piece>>,
) -> (res: Result<(), Error>) where F: Fn(&mut Vec<u8>, &T) -> Result<(), Error>
    requires
        pieces.len() == xs@.len(),
        forall|b: &mut Vec<u8>, i: int| 0 <= i < xs@.len() ==> call_requires(f, (b, &xs@[i])),
        forall|b: &mut Vec<u8>, i: int, r: Result<(), Error>|
            0 <= i < xs@.len() && call_ensures(f, (b, &xs@[i]), r) ==> final(b)@ == b@
                + pieces[i].bytes && r == pieces[i].outcome,
    ensures
        final(buffer)@ == old(buffer)@ + array_written(pieces),
        res == array_outcome(pieces),
{
    let res = encode_as_array(buffer, xs, f);
    proof {
        if xs@.len() <= i32::MAX {
            assert forall|trace: Seq<Seq<u8>>|
                {
                    &&& 1 <= trace.len() <= xs@.len() + 1
                    &&& trace[0] == old(buffer)@ + be_bytes(xs@.len() as int, 4)
                    &&& trace.last() == buffer@
                    &&& forall|i: int|
                        0 <= i < trace.len() - 2 ==> exists|b: &mut Vec<u8>|
                            b@ == #[trigger] trace[i] && final(b)@ == trace[i + 1] && call_ensures(
                                f,
                                (b, &xs@[i]),
                                Ok::<(), Error>(()),
                            )
                    &&& trace.len() >= 2 ==> exists|b: &mut Vec<u8>|
                        b@ == trace[trace.len() - 2] && final(b)@ == trace.last() && call_ensures(
                            f,
                            (b, &xs@[trace.len() - 2]),
                            res,
                        )
                    &&& trace.len() == 1 ==> res is Ok
                    &&& res is Ok ==> trace.len() == xs@.len() + 1
                } implies buffer@ == old(buffer)@ + array_written(pieces) && res == array_outcome(
                pieces,
            ) by {
                assert forall|i: int| 0 <= i < trace.len() - 1 implies #[trigger] trace[i + 1]
                    == trace[i] + pieces[i].bytes by {
                    if i < trace.len() - 2 {
                        assert(exists|b: &mut Vec<u8>|
                            b@ == trace[i] && final(b)@ == trace[i + 1] && call_ensures(
                                f,
                                (b, &xs@[i]),
                                Ok::<(), Error>(()),
                            ));
                    }
                }
                assert forall|i: int| 0 <= i < trace.len() - 2 implies (
                #[trigger] pieces[i]).outcome is Ok by {
                    assert(exists|b: &mut Vec<u8>|
                        b@ == trace[i] && final(b)@ == trace[i + 1] && call_ensures(
                            f,
                            (b, &xs@[i]),
                            Ok::<(), Error>(()),
                        ));
                }
                lemma_trace_pieces(pieces, trace, res);
                assert(old(buffer)@ + be_bytes(xs@.len() as int, 4) + pieces_written(pieces)
                    =~= old(buffer)@ + (be_bytes(xs@.len() as int, 4) + pieces_written(pieces)));
            }
        }
    }
    res
}

/// What each element of a slice contributes when it is encoded as itself.
pub open spec fn pieces_of<V: ToByte>(xs: Seq<V>) -> Seq<Piece> {
    Seq::new(xs.len(), |i: int| Piece { bytes: xs[i].written(), outcome: xs[i].outcome() })
}

/// `encode_as_array` for elements that have a wire form of their own, with
/// an `f` that writes each one in that form.
fn encode_struct_as_array<T, F>(buffer: &mut Vec<u8>, xs: &[T], f: F) -> (res: Result<
    (),
    Error,
>) where T: ToByte, F: Fn(&mut Vec<u8>, &T) -> Result<(), Error>
    requires
        forall|b: &mut Vec<u8>, i: int| 0 <= i < xs@.len() ==> call_requires(f, (b, &xs@[i])),
        forall|b: &mut Vec<u8>, i: int, r: Result<(), Error>|
            0 <= i < xs@.len() && call_ensures(f, (b, &xs@[i]), r) ==> final(b)@ == b@
                + xs@[i].written() && r == xs@[i].outcome(),
    ensures
        final(buffer)@ == old(buffer)@ + array_written(pieces_of(xs@)),
        res == array_outcome(pieces_of(xs@)),
{
    encode_pieces(buffer, xs, f, Ghost(pieces_of(xs@)))
}

impl<V: ToByte> ToByte for [V] {
    /// The element count, then each element in its own wire form, up to
    /// and including the first one that fails.
    open spec fn written(&self) -> Seq<u8> {
        array_written(pieces_of(self@))
    }

    /// The first failure among the elements; an error of its own where the
    /// count does not fit.
    open spec fn outcome(&self) -> Result<(), Error> {
        array_outcome(pieces_of(self@))
    }

    fn encode(&self, buffer: &mut Vec<u8>) -> (res: Result<(), Error>) {
        let f = |b: &mut Vec<u8>, x: &V| -> (r: Result<(), Error>)
            ensures
                final(b)@ == old(b)@ + x.written(),
                r == x.outcome(),
            { x.encode(b) };
        encode_struct_as_array(buffer, self, f)
    }
}

/// A value that stands for a string on the wire, owned or borrowed.
pub trait StrLike {
    /// The characters of the string.
    spec fn text(&self) -> Seq<char>;

    /// The string itself.
    fn as_text(&self) -> (s: &str)
        ensures
            s@ == self.text(),
    ;
}

impl StrLike for String {
    open spec fn text(&self) -> Seq<char> {
        self@
    }

    fn as_text(&self) -> (s: &str) {
        self.as_str()
    }
}

impl<'a> StrLike for &'a str {
    open spec fn text(&self) -> Seq<char> {
        self@
    }

    fn as_text(&self) -> (s: &str) {
        *self
    }
}

/// Renders a slice of string-like values as a protocol array of strings,
/// whatever the element type.
pub struct AsStrings<'a, T>(pub &'a [T]);

/// What each element of a slice contributes when it is encoded as a string.
pub open spec fn string_pieces<T: StrLike>(xs: Seq<T>) -> Seq<Piece> {
    Seq::new(
        xs.len(),
        |i: int|
            Piece { bytes: string_written(xs[i].text()), outcome: string_outcome(xs[i].text()) },
    )
}

impl<'a, T: StrLike> ToByte for AsStrings<'a, T> {
    /// The element count, then each element as a string field, up to the
    /// first one that is too long.
    open spec fn written(&self) -> Seq<u8> {
        array_written(string_pieces(self.0@))
    }

    /// An error where the count does not fit or an element is too long.
    open spec fn outcome(&self) -> Result<(), Error> {
        array_outcome(string_pieces(self.0@))
    }

    fn encode(&self, buffer: &mut Vec<u8>) -> (res: Result<(), Error>) {
        let f = |b: &mut Vec<u8>, x: &T| -> (r: Result<(), Error>)
            ensures
                final(b)@ == old(b)@ + string_written(x.text()),
                r == string_outcome(x.text()),
            { x.as_text().encode(b) };
        encode_pieces(buffer, self.0, f, Ghost(string_pieces(self.0@)))
    }
}

/// How wide the length field of a nullable value is, and with it the
/// field that stands for an absent one.
#[derive(Clone, Copy, Debug, PartialEq, Eq, Structural)]
pub enum SentinelWidth {
    /// Two bytes: the length field of a string.
    Two,
    /// Four bytes: the length field of a byte array.
    Four,
}

impl SentinelWidth {
    /// The number of bytes.
    pub open spec fn bytes(self) -> nat {
        match self {
            SentinelWidth::Two => 2,
            SentinelWidth::Four => 4,
        }
    }
}

/// Writes a value that may be absent.
///
/// An absent value becomes a length field of -1 in the given width and
/// nothing more. A present one is handed to `present`, which writes all of
/// it, length field included, and whose result is returned as it is.
pub fn encode_nullable<T: ?Sized, F>(
    buffer: &mut Vec<u8>,
    value: Option<&T>,
    present: F,
    width: SentinelWidth,
) -> (res: Result<(), Error>) where F: Fn(&mut Vec<u8>, &T) -> Result<(), Error>
    requires
        value matches Some(x) ==> forall|b: &mut Vec<u8>| call_requires(present, (b, x)),
    ensures
        value is None ==> res == Ok::<(), Error>(()) && final(buffer)@ == old(buffer)@ + absent(
            width.bytes(),
        ),
        value matches Some(x) ==> exists|b: &mut Vec<u8>|
            b@ == old(buffer)@ && final(b)@ == final(buffer)@ && #[trigger] call_ensures(
                present,
                (b, x),
                res,
            ),
{
    match value {
        Some(x) => {
            present(buffer, x)
        },
        None => {
            match width {
                SentinelWidth::Two => put_i16(buffer, -1),
                SentinelWidth::Four => put_i32(buffer, -1),
            }
            Ok(())
        },
    }
}

impl<'a> ToByte for Option<&'a [u8]> {
    /// The byte-array field of a present slice; for an absent one a 32-bit
    /// length of -1.
    open spec fn written(&self) -> Seq<u8> {
        match *self {
            Some(xs) => bytes_written(xs@),
            None => absent(4),
        }
    }

    open spec fn outcome(&self) -> Result<(), Error> {
        match *self {
            Some(xs) => bytes_outcome(xs@),
            None => Ok(()),
        }
    }

    fn encode(&self, buffer: &mut Vec<u8>) -> (res: Result<(), Error>) {
        let f = |b: &mut Vec<u8>, xs: &[u8]| -> (r: Result<(), Error>)
            ensures
                final(b)@ == old(b)@ + bytes_written(xs@),
                r == bytes_outcome(xs@),
            { xs.encode(b) };
        encode_nullable(buffer, *self, f, SentinelWidth::Four)
    }
}

impl ToByte for Option<Bytes> {
    /// The byte-array field of what a present value holds; for an absent
    /// one a 32-bit length of -1.
    open spec fn written(&self) -> Seq<u8> {
        match *self {
            Some(xs) => bytes_written(bytes_contents(xs)),
            None => absent(4),
        }
    }

    open spec fn outcome(&self) -> Result<(), Error> {
        match *self {
            Some(xs) => bytes_outcome(bytes_contents(xs)),
            None => Ok(()),
        }
    }

    fn encode(&self, buffer: &mut Vec<u8>) -> (res: Result<(), Error>) {
        let value: Option<&[u8]> = match self {
            Some(xs) => Some(bytes_as_slice(xs)),
            None => None,
        };
        value.encode(buffer)
    }
}

impl<'a> ToByte for Option<&'a str> {
    /// The string field of a present string; for an absent one a 16-bit
    /// length of -1, the width that the length of a string has.
    open spec fn written(&self) -> Seq<u8> {
        match *self {
            Some(xs) => string_written(xs@),
            None => absent(2),
        }
    }

    open spec fn outcome(&self) -> Result<(), Error> {
        match *self {
            Some(xs) => string_outcome(xs@),
            None => Ok(()),
        }
    }

    fn encode(&self, buffer: &mut Vec<u8>) -> (res: Result<(), Error>) {
        let f = |b: &mut Vec<u8>, xs: &str| -> (r: Result<(), Error>)
            ensures
                final(b)@ == old(b)@ + string_written(xs@),
                r == string_outcome(xs@),
            { xs.encode(b) };
        encode_nullable(buffer, *self, f, SentinelWidth::Two)
    }
}

impl ToByte for Option<String> {
    /// As the borrowed string: a string field, or a 16-bit length of -1.
    open spec fn written(&self) -> Seq<u8> {
        match *self {
            Some(xs) => string_written(xs@),
            None => absent(2),
        }
    }

    open spec fn outcome(&self) -> Result<(), Error> {
        match *self {
            Some(xs) => string_outcome(xs@),
            None => Ok(()),
        }
    }

    fn encode(&self, buffer: &mut Vec<u8>) -> (res: Result<(), Error>) {
        let value: Option<&str> = match self {
            Some(xs) => Some(xs.as_str()),
            None => None,
        };
        value.encode(buffer)
    }
}

} // verus!
