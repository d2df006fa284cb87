//! The byte source: a bounds-checked cursor over a byte slice with typed
//! read operations, and the `Decode` capability with its built-in rules.
//! Every decoding rule is written down as a `parse` specification that the
//! executable decoder is proved to follow.

use vstd::prelude::*;

use crate::context::Context;
use crate::converter::{u8_as_i8, u8_to_i8, ByteConvertable};
use crate::endian::Endianness;
use crate::error::Error;
use vstd::utf8::{decode_utf8, valid_utf8};

verus! {

/// Skipping twice is skipping the summed distance.
pub proof fn lemma_skip_skip(b: Seq<u8>, p: int, q: int)
    requires
        0 <= p,
        0 <= q,
        p + q <= b.len(),
    ensures
        b.skip(p).skip(q) == b.skip(p + q),
{
    assert(b.skip(p).skip(q) =~= b.skip(p + q));
}

/// A bounds-checked cursor over a fixed byte slice, bound to a byte-order
/// context.
///
/// The cursor always lies between 0 and the buffer length; a read of `n`
/// bytes is permitted only when `n` bytes remain, and moves the cursor
/// forward by `n`. The cursor never moves backward except through
/// `set_position`.
pub struct BufferDecoder<'a> {
    buffer: &'a [u8],
    position: usize,
    context: Context,
}

impl<'a> BufferDecoder<'a> {
    /// The whole underlying buffer.
    pub closed spec fn buf(&self) -> Seq<u8> {
        self.buffer@
    }

    /// The read cursor.
    pub closed spec fn pos(&self) -> int {
        self.position as int
    }

    /// The byte order every multi-byte read uses.
    pub closed spec fn endianness(&self) -> Endianness {
        self.context.endian
    }

    /// The cursor invariant: it never leaves the buffer.
    pub open spec fn wf(&self) -> bool {
        0 <= self.pos() <= self.buf().len()
    }

    /// The bytes not yet consumed.
    pub open spec fn remaining_bytes(&self) -> Seq<u8> {
        self.buf().skip(self.pos())
    }

    pub fn new(buffer: &'a [u8]) -> (r: Self)
        ensures
            r.wf(),
            r.buf() == buffer@,
            r.pos() == 0,
            r.endianness() == Endianness::Little,
    {
        Self { buffer, position: 0, context: Context::new(Endianness::Little) }
    }

    pub fn with_ctx(buffer: &'a [u8], context: Context) -> (r: Self)
        ensures
            r.wf(),
            r.buf() == buffer@,
            r.pos() == 0,
            r.endianness() == context.endian,
    {
        Self { buffer, position: 0, context }
    }

    /// How many bytes are not yet consumed.
    pub fn remaining(&self) -> (r: usize)
        requires
            self.wf(),
        ensures
            r == self.buf().len() - self.pos(),
    {
        self.buffer.len() - self.position
    }

    pub fn position(&self) -> (r: usize)
        ensures
            r as int == self.pos(),
    {
        self.position
    }

    /// Move the cursor. A position past the end is clamped to the buffer
    /// length rather than rejected; this is a stated part of the contract,
    /// not a real seek beyond the data.
    pub fn set_position(&mut self, pos: usize)
        ensures
            final(self).wf(),
            final(self).buf() == old(self).buf(),
            final(self).endianness() == old(self).endianness(),
            final(self).pos() == if pos as int <= old(self).buf().len() {
                pos as int
            } else {
                old(self).buf().len() as int
            },
    {
        if pos <= self.buffer.len() {
            self.position = pos;
        } else {
            self.position = self.buffer.len();
        }
    }

    pub fn context(&self) -> (r: Context)
        ensures
            r.endian == self.endianness(),
    {
        self.context
    }

    /// Read exactly `len` raw bytes, or fail without moving the cursor
    /// when fewer remain.
    pub fn decode_bytes(&mut self, len: usize) -> (r: Result<Vec<u8>, Error>)
        requires
            old(self).wf(),
        ensures
            final(self).wf(),
            final(self).buf() == old(self).buf(),
            final(self).endianness() == old(self).endianness(),
            match r {
                Ok(v) => len <= old(self).remaining_bytes().len() && v@ == old(
                    self,
                ).remaining_bytes().subrange(0, len as int) && final(self).pos() == old(self).pos()
                    + len,
                Err(e) => e == Error::TruncatedInput && old(self).remaining_bytes().len() < len
                    && final(self).pos() == old(self).pos(),
            },
    {
        if len > self.buffer.len() - self.position {
            return Err(Error::TruncatedInput);
        }
        let s = vstd::slice::slice_subrange(self.buffer, self.position, self.position + len);
        let v = vstd::slice::slice_to_vec(s);
        self.position = self.position + len;
        proof {
            assert(old(self).buf().subrange(old(self).pos(), old(self).pos() + len) =~= old(
                self,
            ).remaining_bytes().subrange(0, len as int));
        }
        Ok(v)
    }

    /// Read one multi-byte primitive in the source's byte order.
    pub fn decode<T: ByteConvertable>(&mut self) -> (r: Result<T, Error>)
        requires
            old(self).wf(),
        ensures
            final(self).wf(),
            final(self).buf() == old(self).buf(),
            final(self).endianness() == old(self).endianness(),
            match r {
                Ok(v) => T::width() <= old(self).remaining_bytes().len() && v == old(
                    self,
                ).endianness().value_of::<T>(
                    old(self).remaining_bytes().subrange(0, T::width() as int),
                ) && final(self).pos() == old(self).pos() + T::width(),
                Err(e) => e == Error::TruncatedInput && old(self).remaining_bytes().len()
                    < T::width() && final(self).pos() == old(self).pos(),
            },
    {
        let n = T::size();
        let bytes = match self.decode_bytes(n) {
            Ok(b) => b,
            Err(e) => { return Err(e) },
        };
        let v = self.context.endian.from_bytes::<T>(bytes.as_slice());
        Ok(v)
    }

    pub fn decode_u16(&mut self) -> (r: Result<u16, Error>)
        requires
            old(self).wf(),
        ensures
            final(self).wf(),
            final(self).buf() == old(self).buf(),
            final(self).endianness() == old(self).endianness(),
            match r {
                Ok(v) => 2 <= old(self).remaining_bytes().len() && v == old(
                    self,
                ).endianness().value_of::<u16>(old(self).remaining_bytes().subrange(0, 2))
                    && final(self).pos() == old(self).pos() + 2,
                Err(e) => e == Error::TruncatedInput && old(self).remaining_bytes().len() < 2
                    && final(self).pos() == old(self).pos(),
            },
    {
        self.decode::<u16>()
    }

    pub fn decode_i16(&mut self) -> (r: Result<i16, Error>)
        requires
            old(self).wf(),
        ensures
            final(self).wf(),
            final(self).buf() == old(self).buf(),
            final(self).endianness() == old(self).endianness(),
            match r {
                Ok(v) => 2 <= old(self).remaining_bytes().len() && v == old(
                    self,
                ).endianness().value_of::<i16>(old(self).remaining_bytes().subrange(0, 2))
                    && final(self).pos() == old(self).pos() + 2,
                Err(e) => e == Error::TruncatedInput && old(self).remaining_bytes().len() < 2
                    && final(self).pos() == old(self).pos(),
            },
    {
        self.decode::<i16>()
    }

    pub fn decode_u32(&mut self) -> (r: Result<u32, Error>)
        requires
            old(self).wf(),
        ensures
            final(self).wf(),
            final(self).buf() == old(self).buf(),
            final(self).endianness() == old(self).endianness(),
            match r {
                Ok(v) => 4 <= old(self).remaining_bytes().len() && v == old(
                    self,
                ).endianness().value_of::<u32>(old(self).remaining_bytes().subrange(0, 4))
                    && final(self).pos() == old(self).pos() + 4,
                Err(e) => e == Error::TruncatedInput && old(self).remaining_bytes().len() < 4
                    && final(self).pos() == old(self).pos(),
            },
    {
        self.decode::<u32>()
    }

    pub fn decode_i32(&mut self) -> (r: Result<i32, Error>)
        requires
            old(self).wf(),
        ensures
            final(self).wf(),
            final(self).buf() == old(self).buf(),
            final(self).endianness() == old(self).endianness(),
            match r {
                Ok(v) => 4 <= old(self).remaining_bytes().len() && v == old(
                    self,
                ).endianness().value_of::<i32>(old(self).remaining_bytes().subrange(0, 4))
                    && final(self).pos() == old(self).pos() + 4,
                Err(e) => e == Error::TruncatedInput && old(self).remaining_bytes().len() < 4
                    && final(self).pos() == old(self).pos(),
            },
    {
        self.decode::<i32>()
    }

    pub fn decode_u64(&mut self) -> (r: Result<u64, Error>)
        requires
            old(self).wf(),
        ensures
            final(self).wf(),
            final(self).buf() == old(self).buf(),
            final(self).endianness() == old(self).endianness(),
            match r {
                Ok(v) => 8 <= old(self).remaining_bytes().len() && v == old(
                    self,
                ).endianness().value_of::<u64>(old(self).remaining_bytes().subrange(0, 8))
                    && final(self).pos() == old(self).pos() + 8,
                Err(e) => e == Error::TruncatedInput && old(self).remaining_bytes().len() < 8
                    && final(self).pos() == old(self).pos(),
            },
    {
        self.decode::<u64>()
    }

    pub fn decode_i64(&mut self) -> (r: Result<i64, Error>)
        requires
            old(self).wf(),
        ensures
            final(self).wf(),
            final(self).buf() == old(self).buf(),
            final(self).endianness() == old(self).endianness(),
            match r {
                Ok(v) => 8 <= old(self).remaining_bytes().len() && v == old(
                    self,
                ).endianness().value_of::<i64>(old(self).remaining_bytes().subrange(0, 8))
                    && final(self).pos() == old(self).pos() + 8,
                Err(e) => e == Error::TruncatedInput && old(self).remaining_bytes().len() < 8
                    && final(self).pos() == old(self).pos(),
            },
    {
        self.decode::<i64>()
    }

    pub fn decode_u128(&mut self) -> (r: Result<u128, Error>)
        requires
            old(self).wf(),
        ensures
            final(self).wf(),
            final(self).buf() == old(self).buf(),
            final(self).endianness() == old(self).endianness(),
            match r {
                Ok(v) => 16 <= old(self).remaining_bytes().len() && v == old(
                    self,
                ).endianness().value_of::<u128>(old(self).remaining_bytes().subrange(0, 16))
                    && final(self).pos() == old(self).pos() + 16,
                Err(e) => e == Error::TruncatedInput && old(self).remaining_bytes().len() < 16
                    && final(self).pos() == old(self).pos(),
            },
    {
        self.decode::<u128>()
    }

    pub fn decode_i128(&mut self) -> (r: Result<i128, Error>)
        requires
            old(self).wf(),
        ensures
            final(self).wf(),
            final(self).buf() == old(self).buf(),
            final(self).endianness() == old(self).endianness(),
            match r {
                Ok(v) => 16 <= old(self).remaining_bytes().len() && v == old(
                    self,
                ).endianness().value_of::<i128>(old(self).remaining_bytes().subrange(0, 16))
                    && final(self).pos() == old(self).pos() + 16,
                Err(e) => e == Error::TruncatedInput && old(self).remaining_bytes().len() < 16
                    && final(self).pos() == old(self).pos(),
            },
    {
        self.decode::<i128>()
    }

    pub fn decode_u8(&mut self) -> (r: Result<u8, Error>)
        requires
            old(self).wf(),
        ensures
            final(self).wf(),
            final(self).buf() == old(self).buf(),
            final(self).endianness() == old(self).endianness(),
            match r {
                Ok(v) => 1 <= old(self).remaining_bytes().len() && v == old(
                    self,
                ).remaining_bytes()[0] && final(self).pos() == old(self).pos() + 1,
                Err(e) => e == Error::TruncatedInput && old(self).remaining_bytes().len() < 1
                    && final(self).pos() == old(self).pos(),
            },
    {
        let bytes = match self.decode_bytes(1) {
            Ok(b) => b,
            Err(e) => { return Err(e) },
        };
        Ok(bytes[0])
    }

    pub fn decode_i8(&mut self) -> (r: Result<i8, Error>)
        requires
            old(self).wf(),
        ensures
            final(self).wf(),
            final(self).buf() == old(self).buf(),
            final(self).endianness() == old(self).endianness(),
            match r {
                Ok(v) => 1 <= old(self).remaining_bytes().len() && v == u8_as_i8(
                    old(self).remaining_bytes()[0],
                ) && final(self).pos() == old(self).pos() + 1,
                Err(e) => e == Error::TruncatedInput && old(self).remaining_bytes().len() < 1
                    && final(self).pos() == old(self).pos(),
            },
    {
        let bytes = match self.decode_bytes(1) {
            Ok(b) => b,
            Err(e) => { return Err(e) },
        };
        Ok(u8_to_i8(bytes[0]))
    }

    /// Read one byte as a boolean: any nonzero byte decodes to true.
    pub fn decode_bool(&mut self) -> (r: Result<bool, Error>)
        requires
            old(self).wf(),
        ensures
            final(self).wf(),
            final(self).buf() == old(self).buf(),
            final(self).endianness() == old(self).endianness(),
            match r {
                Ok(v) => 1 <= old(self).remaining_bytes().len() && v == (old(
                    self,
                ).remaining_bytes()[0] != 0) && final(self).pos() == old(self).pos() + 1,
                Err(e) => e == Error::TruncatedInput && old(self).remaining_bytes().len() < 1
                    && final(self).pos() == old(self).pos(),
            },
    {
        let bytes = match self.decode_bytes(1) {
            Ok(b) => b,
            Err(e) => { return Err(e) },
        };
        Ok(bytes[0] != 0)
    }

    /// Read a 32-bit length prefix, then that many bytes of UTF-8.
    pub fn decode_string(&mut self) -> (r: Result<String, Error>)
        requires
            old(self).wf(),
        ensures
            final(self).wf(),
            final(self).buf() == old(self).buf(),
            final(self).endianness() == old(self).endianness(),
            old(self).pos() <= final(self).pos(),
            match parse_string(old(self).remaining_bytes(), old(self).endianness()) {
                Ok((cs, n)) => r matches Ok(s) && s@ == cs && final(self).pos() == old(self).pos()
                    + n,
                Err(e) => r matches Err(e2) && e2 == e,
            },
    {
        let len32 = match self.decode::<u32>() {
            Ok(v) => v,
            Err(e) => { return Err(e) },
        };
        let len = len32 as usize;
        let bytes = match self.decode_bytes(len) {
            Ok(b) => b,
            Err(e) => { return Err(e) },
        };
        proof {
            lemma_skip_skip(old(self).buf(), old(self).pos(), 4);
            assert(bytes@ =~= old(self).remaining_bytes().subrange(4, 4 + len as int));
        }
        match string_from_utf8(bytes) {
            Option::Some(s) => Ok(s),
            Option::None => Err(Error::InvalidUtf8),
        }
    }
}

/// The decoding of one length-prefixed string from the front of a byte
/// string: a 32-bit byte count, then that many bytes of valid UTF-8.
pub open spec fn parse_string(s: Seq<u8>, end: Endianness) -> Result<(Seq<char>, int), Error> {
    if s.len() < 4 {
        Err(Error::TruncatedInput)
    } else {
        let n = end.value_of::<u32>(s.subrange(0, 4)) as int;
        if s.len() < 4 + n {
            Err(Error::TruncatedInput)
        } else {
            let payload = s.subrange(4, 4 + n);
            if valid_utf8(payload) {
                Ok((decode_utf8(payload), 4 + n))
            } else {
                Err(Error::InvalidUtf8)
            }
        }
    }
}

/// Relies on `String::from_utf8` from std: it returns the string holding
/// exactly the given bytes when they are valid UTF-8, and refuses them
/// otherwise. vstd's `valid_utf8` and `decode_utf8` state the same byte
/// layout that std documents for UTF-8 strings.
#[verifier::external_body]
fn string_from_utf8(bytes: Vec<u8>) -> (r: Option<String>)
    ensures
        match r {
            Option::Some(s) => valid_utf8(bytes@) && s@ == decode_utf8(bytes@),
            Option::None => !valid_utf8(bytes@),
        },
{
    String::from_utf8(bytes).ok()
}

/// The sequence of abstract values of a sequence of decoded values.
pub open spec fn rep_seq<T: Decode>(s: Seq<T>) -> Seq<T::Rep> {
    s.map_values(|t: T| t.rep())
}

/// The decoding capability: a type whose values can be reconstructed from
/// the front of a byte string.
///
/// `parse` is the exact decoding relation: it gives, for every byte string
/// and byte order, either the abstract value read from its front together
/// with the number of bytes consumed, or the error the decoder reports.
/// `decode` is proved to follow `parse`, and to move the cursor exactly as
/// `parse` says.
pub trait Decode: Sized {
    /// The abstract value a decoded result stands for.
    type Rep;

    /// The abstract value of this concrete value.
    spec fn rep(&self) -> Self::Rep;

    /// What decoding from the front of `s` under byte order `end` yields.
    spec fn parse(s: Seq<u8>, end: Endianness) -> Result<(Self::Rep, int), Error>;

    /// A successful parse consumes between 0 and all of the bytes.
    proof fn lemma_parse_len(s: Seq<u8>, end: Endianness)
        ensures
            Self::parse(s, end) matches Ok((v, n)) ==> 0 <= n <= s.len(),
    ;

    fn decode(decoder: &mut BufferDecoder) -> (r: Result<Self, Error>)
        requires
            old(decoder).wf(),
        ensures
            final(decoder).wf(),
            final(decoder).buf() == old(decoder).buf(),
            final(decoder).endianness() == old(decoder).endianness(),
            old(decoder).pos() <= final(decoder).pos(),
            match Self::parse(old(decoder).remaining_bytes(), old(decoder).endianness()) {
                Ok((v, n)) => r matches Ok(x) && x.rep() == v && final(decoder).pos() == old(
                    decoder,
                ).pos() + n,
                Err(e) => r matches Err(e2) && e2 == e,
            },
    ;
}

/// Decode one value from the front of the given bytes with a little-endian
/// context.
pub fn decode_from_bytes<T: Decode>(bytes: &[u8]) -> (r: Result<T, Error>)
    ensures
        match T::parse(bytes@, Endianness::Little) {
            Ok((v, n)) => r matches Ok(x) && x.rep() == v,
            Err(e) => r matches Err(e2) && e2 == e,
        },
{
    let mut decoder = BufferDecoder::new(bytes);
    proof {
        assert(decoder.remaining_bytes() =~= bytes@);
    }
    T::decode(&mut decoder)
}

/// Decode one value from the front of the given bytes with the given
/// context.
pub fn decode_with_ctx<T: Decode>(bytes: &[u8], ctx: Context) -> (r: Result<T, Error>)
    ensures
        match T::parse(bytes@, ctx.endian) {
            Ok((v, n)) => r matches Ok(x) && x.rep() == v,
            Err(e) => r matches Err(e2) && e2 == e,
        },
{
    let mut decoder = BufferDecoder::with_ctx(bytes, ctx);
    proof {
        assert(decoder.remaining_bytes() =~= bytes@);
    }
    T::decode(&mut decoder)
}

impl Decode for u16 {
    type Rep = u16;

    open spec fn rep(&self) -> u16 {
        *self
    }

    open spec fn parse(s: Seq<u8>, end: Endianness) -> Result<(u16, int), Error> {
        if s.len() < 2 {
            Err(Error::TruncatedInput)
        } else {
            Ok((end.value_of::<u16>(s.subrange(0, 2)), 2))
        }
    }

    proof fn lemma_parse_len(s: Seq<u8>, end: Endianness) {
    }

    fn decode(decoder: &mut BufferDecoder) -> (r: Result<Self, Error>) {
        decoder.decode::<u16>()
    }
}

impl Decode for i16 {
    type Rep = i16;

    open spec fn rep(&self) -> i16 {
        *self
    }

    open spec fn parse(s: Seq<u8>, end: Endianness) -> Result<(i16, int), Error> {
        if s.len() < 2 {
            Err(Error::TruncatedInput)
        } else {
            Ok((end.value_of::<i16>(s.subrange(0, 2)), 2))
        }
    }

    proof fn lemma_parse_len(s: Seq<u8>, end: Endianness) {
    }

    fn decode(decoder: &mut BufferDecoder) -> (r: Result<Self, Error>) {
        decoder.decode::<i16>()
    }
}

impl Decode for u32 {
    type Rep = u32;

    open spec fn rep(&self) -> u32 {
        *self
    }

    open spec fn parse(s: Seq<u8>, end: Endianness) -> Result<(u32, int), Error> {
        if s.len() < 4 {
            Err(Error::TruncatedInput)
        } else {
            Ok((end.value_of::<u32>(s.subrange(0, 4)), 4))
        }
    }

    proof fn lemma_parse_len(s: Seq<u8>, end: Endianness) {
    }

    fn decode(decoder: &mut BufferDecoder) -> (r: Result<Self, Error>) {
        decoder.decode::<u32>()
    }
}

impl Decode for i32 {
    type Rep = i32;

    open spec fn rep(&self) -> i32 {
        *self
    }

    open spec fn parse(s: Seq<u8>, end: Endianness) -> Result<(i32, int), Error> {
        if s.len() < 4 {
            Err(Error::TruncatedInput)
        } else {
            Ok((end.value_of::<i32>(s.subrange(0, 4)), 4))
        }
    }

    proof fn lemma_parse_len(s: Seq<u8>, end: Endianness) {
    }

    fn decode(decoder: &mut BufferDecoder) -> (r: Result<Self, Error>) {
        decoder.decode::<i32>()
    }
}

impl Decode for u64 {
    type Rep = u64;

    open spec fn rep(&self) -> u64 {
        *self
    }

    open spec fn parse(s: Seq<u8>, end: Endianness) -> Result<(u64, int), Error> {
        if s.len() < 8 {
            Err(Error::TruncatedInput)
        } else {
            Ok((end.value_of::<u64>(s.subrange(0, 8)), 8))
        }
    }

    proof fn lemma_parse_len(s: Seq<u8>, end: Endianness) {
    }

    fn decode(decoder: &mut BufferDecoder) -> (r: Result<Self, Error>) {
        decoder.decode::<u64>()
    }
}

impl Decode for i64 {
    type Rep = i64;

    open spec fn rep(&self) -> i64 {
        *self
    }

    open spec fn parse(s: Seq<u8>, end: Endianness) -> Result<(i64, int), Error> {
        if s.len() < 8 {
            Err(Error::TruncatedInput)
        } else {
            Ok((end.value_of::<i64>(s.subrange(0, 8)), 8))
        }
    }

    proof fn lemma_parse_len(s: Seq<u8>, end: Endianness) {
    }

    fn decode(decoder: &mut BufferDecoder) -> (r: Result<Self, Error>) {
        decoder.decode::<i64>()
    }
}

impl Decode for u128 {
    type Rep = u128;

    open spec fn rep(&self) -> u128 {
        *self
    }

    open spec fn parse(s: Seq<u8>, end: Endianness) -> Result<(u128, int), Error> {
        if s.len() < 16 {
            Err(Error::TruncatedInput)
        } else {
            Ok((end.value_of::<u128>(s.subrange(0, 16)), 16))
        }
    }

    proof fn lemma_parse_len(s: Seq<u8>, end: Endianness) {
    }

    fn decode(decoder: &mut BufferDecoder) -> (r: Result<Self, Error>) {
        decoder.decode::<u128>()
    }
}

impl Decode for i128 {
    type Rep = i128;

    open spec fn rep(&self) -> i128 {
        *self
    }

    open spec fn parse(s: Seq<u8>, end: Endianness) -> Result<(i128, int), Error> {
        if s.len() < 16 {
            Err(Error::TruncatedInput)
        } else {
            Ok((end.value_of::<i128>(s.subrange(0, 16)), 16))
        }
    }

    proof fn lemma_parse_len(s: Seq<u8>, end: Endianness) {
    }

    fn decode(decoder: &mut BufferDecoder) -> (r: Result<Self, Error>) {
        decoder.decode::<i128>()
    }
}

impl Decode for u8 {
    type Rep = u8;

    open spec fn rep(&self) -> u8 {
        *self
    }

    open spec fn parse(s: Seq<u8>, end: Endianness) -> Result<(u8, int), Error> {
        if s.len() < 1 {
            Err(Error::TruncatedInput)
        } else {
            Ok((s[0], 1))
        }
    }

    proof fn lemma_parse_len(s: Seq<u8>, end: Endianness) {
    }

    fn decode(decoder: &mut BufferDecoder) -> (r: Result<Self, Error>) {
        decoder.decode_u8()
    }
}

impl Decode for i8 {
    type Rep = i8;

    open spec fn rep(&self) -> i8 {
        *self
    }

    open spec fn parse(s: Seq<u8>, end: Endianness) -> Result<(i8, int), Error> {
        if s.len() < 1 {
            Err(Error::TruncatedInput)
        } else {
            Ok((u8_as_i8(s[0]), 1))
        }
    }

    proof fn lemma_parse_len(s: Seq<u8>, end: Endianness) {
    }

    fn decode(decoder: &mut BufferDecoder) -> (r: Result<Self, Error>) {
        decoder.decode_i8()
    }
}

impl Decode for bool {
    type Rep = bool;

    open spec fn rep(&self) -> bool {
        *self
    }

    open spec fn parse(s: Seq<u8>, end: Endianness) -> Result<(bool, int), Error> {
        if s.len() < 1 {
            Err(Error::TruncatedInput)
        } else {
            Ok((s[0] != 0, 1))
        }
    }

    proof fn lemma_parse_len(s: Seq<u8>, end: Endianness) {
    }

    fn decode(decoder: &mut BufferDecoder) -> (r: Result<Self, Error>) {
        decoder.decode_bool()
    }
}

/// The decoding of `n` consecutive values from the front of a byte string.
/// A failure of any element decoding aborts the whole run with that
/// element's error.
pub open spec fn parse_elems<T: Decode>(s: Seq<u8>, end: Endianness, n: nat) -> Result<
    (Seq<T::Rep>, int),
    Error,
>
    decreases n,
{
    if n == 0 {
        Ok((Seq::empty(), 0))
    } else {
        match T::parse(s, end) {
            Ok((v, used)) => match parse_elems::<T>(s.skip(used), end, (n - 1) as nat) {
                Ok((vs, used2)) => Ok((seq![v] + vs, used + used2)),
                Err(e) => Err(e),
            },
            Err(e) => Err(e),
        }
    }
}

/// A successful run of element decodings consumes between 0 and all of the
/// bytes and yields exactly `n` values.
pub proof fn lemma_parse_elems_len<T: Decode>(s: Seq<u8>, end: Endianness, n: nat)
    ensures
        parse_elems::<T>(s, end, n) matches Ok((vs, used)) ==> 0 <= used <= s.len() && vs.len()
            == n,
    decreases n,
{
    if n > 0 {
        match T::parse(s, end) {
            Ok((v, used)) => {
                T::lemma_parse_len(s, end);
                lemma_parse_elems_len::<T>(s.skip(used), end, (n - 1) as nat);
            },
            Err(e) => {},
        }
    }
}

impl<T: Decode> Decode for (T, T) {
    type Rep = (T::Rep, T::Rep);

    open spec fn rep(&self) -> (T::Rep, T::Rep) {
        (self.0.rep(), self.1.rep())
    }

    open spec fn parse(s: Seq<u8>, end: Endianness) -> Result<((T::Rep, T::Rep), int), Error> {
        match T::parse(s, end) {
            Ok((a, n1)) => match T::parse(s.skip(n1), end) {
                Ok((b, n2)) => Ok(((a, b), n1 + n2)),
                Err(e) => Err(e),
            },
            Err(e) => Err(e),
        }
    }

    proof fn lemma_parse_len(s: Seq<u8>, end: Endianness) {
        T::lemma_parse_len(s, end);
        if let Ok((a, n1)) = T::parse(s, end) {
            T::lemma_parse_len(s.skip(n1), end);
        }
    }

    fn decode(decoder: &mut BufferDecoder) -> (r: Result<Self, Error>) {
        let ghost s = old(decoder).remaining_bytes();
        let ghost end = old(decoder).endianness();
        let a = match T::decode(decoder) {
            Ok(a) => a,
            Err(e) => { return Err(e) },
        };
        proof {
            T::lemma_parse_len(s, end);
            lemma_skip_skip(
                old(decoder).buf(),
                old(decoder).pos(),
                decoder.pos() - old(decoder).pos(),
            );
        }
        let b = match T::decode(decoder) {
            Ok(b) => b,
            Err(e) => { return Err(e) },
        };
        Ok((a, b))
    }
}

impl<T: Decode> Decode for (T, T, T) {
    type Rep = (T::Rep, T::Rep, T::Rep);

    open spec fn rep(&self) -> (T::Rep, T::Rep, T::Rep) {
        (self.0.rep(), self.1.rep(), self.2.rep())
    }

    open spec fn parse(s: Seq<u8>, end: Endianness) -> Result<
        ((T::Rep, T::Rep, T::Rep), int),
        Error,
    > {
        match T::parse(s, end) {
            Ok((a, n1)) => match T::parse(s.skip(n1), end) {
                Ok((b, n2)) => match T::parse(s.skip(n1 + n2), end) {
                    Ok((c, n3)) => Ok(((a, b, c), n1 + n2 + n3)),
                    Err(e) => Err(e),
                },
                Err(e) => Err(e),
            },
            Err(e) => Err(e),
        }
    }

    proof fn lemma_parse_len(s: Seq<u8>, end: Endianness) {
        T::lemma_parse_len(s, end);
        if let Ok((a, n1)) = T::parse(s, end) {
            T::lemma_parse_len(s.skip(n1), end);
            if let Ok((b, n2)) = T::parse(s.skip(n1), end) {
                T::lemma_parse_len(s.skip(n1 + n2), end);
            }
        }
    }

    fn decode(decoder: &mut BufferDecoder) -> (r: Result<Self, Error>) {
        let ghost s = old(decoder).remaining_bytes();
        let ghost end = old(decoder).endianness();
        let a = match T::decode(decoder) {
            Ok(a) => a,
            Err(e) => { return Err(e) },
        };
        proof {
            T::lemma_parse_len(s, end);
            lemma_skip_skip(
                old(decoder).buf(),
                old(decoder).pos(),
                decoder.pos() - old(decoder).pos(),
            );
        }
        let ghost n1: int = decoder.pos() - old(decoder).pos();
        let b = match T::decode(decoder) {
            Ok(b) => b,
            Err(e) => { return Err(e) },
        };
        proof {
            T::lemma_parse_len(s.skip(n1), end);
            lemma_skip_skip(
                old(decoder).buf(),
                old(decoder).pos(),
                decoder.pos() - old(decoder).pos(),
            );
            assert(s.skip(n1).skip(decoder.pos() - old(decoder).pos() - n1) =~= s.skip(
                decoder.pos() - old(decoder).pos(),
            ));
        }
        let c = match T::decode(decoder) {
            Ok(c) => c,
            Err(e) => { return Err(e) },
        };
        Ok((a, b, c))
    }
}

impl<T: Decode> Decode for Option<T> {
    type Rep = Option<T::Rep>;

    open spec fn rep(&self) -> Option<T::Rep> {
        match self {
            Option::None => Option::None,
            Option::Some(v) => Option::Some(v.rep()),
        }
    }

    open spec fn parse(s: Seq<u8>, end: Endianness) -> Result<(Option<T::Rep>, int), Error> {
        if s.len() < 1 {
            Err(Error::TruncatedInput)
        } else if s[0] == 0 {
            Ok((Option::None, 1))
        } else if s[0] == 1 {
            match T::parse(s.skip(1), end) {
                Ok((v, n)) => Ok((Option::Some(v), 1 + n)),
                Err(e) => Err(e),
            }
        } else {
            Err(Error::InvalidDiscriminant)
        }
    }

    proof fn lemma_parse_len(s: Seq<u8>, end: Endianness) {
        if s.len() >= 1 && s[0] == 1 {
            T::lemma_parse_len(s.skip(1), end);
        }
    }

    fn decode(decoder: &mut BufferDecoder) -> (r: Result<Self, Error>) {
        let tag = match decoder.decode_u8() {
            Ok(t) => t,
            Err(e) => { return Err(e) },
        };
        if tag == 0 {
            Ok(Option::None)
        } else if tag == 1 {
            proof {
                lemma_skip_skip(old(decoder).buf(), old(decoder).pos(), 1);
            }
            let v = match T::decode(decoder) {
                Ok(v) => v,
                Err(e) => { return Err(e) },
            };
            Ok(Option::Some(v))
        } else {
            Err(Error::InvalidDiscriminant)
        }
    }
}

impl<T: Decode, E: Decode> Decode for Result<T, E> {
    type Rep = Result<T::Rep, E::Rep>;

    open spec fn rep(&self) -> Result<T::Rep, E::Rep> {
        match self {
            Result::Ok(v) => Result::Ok(v.rep()),
            Result::Err(err) => Result::Err(err.rep()),
        }
    }

    open spec fn parse(s: Seq<u8>, end: Endianness) -> Result<
        (Result<T::Rep, E::Rep>, int),
        Error,
    > {
        if s.len() < 1 {
            Err(Error::TruncatedInput)
        } else if s[0] == 1 {
            match T::parse(s.skip(1), end) {
                Ok((v, n)) => Ok((Result::Ok(v), 1 + n)),
                Err(e) => Err(e),
            }
        } else if s[0] == 0 {
            match E::parse(s.skip(1), end) {
                Ok((v, n)) => Ok((Result::Err(v), 1 + n)),
                Err(e) => Err(e),
            }
        } else {
            Err(Error::InvalidDiscriminant)
        }
    }

    proof fn lemma_parse_len(s: Seq<u8>, end: Endianness) {
        if s.len() >= 1 && s[0] == 1 {
            T::lemma_parse_len(s.skip(1), end);
        }
        if s.len() >= 1 && s[0] == 0 {
            E::lemma_parse_len(s.skip(1), end);
        }
    }

    fn decode(decoder: &mut BufferDecoder) -> (r: Result<Self, Error>) {
        let tag = match decoder.decode_u8() {
            Ok(t) => t,
            Err(e) => { return Err(e) },
        };
        if tag == 1 {
            proof {
                lemma_skip_skip(old(decoder).buf(), old(decoder).pos(), 1);
            }
            let v = match T::decode(decoder) {
                Ok(v) => v,
                Err(e) => { return Err(e) },
            };
            Ok(Result::Ok(v))
        } else if tag == 0 {
            proof {
                lemma_skip_skip(old(decoder).buf(), old(decoder).pos(), 1);
            }
            let v = match E::decode(decoder) {
                Ok(v) => v,
                Err(e) => { return Err(e) },
            };
            Ok(Result::Err(v))
        } else {
            Err(Error::InvalidDiscriminant)
        }
    }
}

impl<T: Decode> Decode for Vec<T> {
    type Rep = Seq<T::Rep>;

    open spec fn rep(&self) -> Seq<T::Rep> {
        rep_seq(self@)
    }

    open spec fn parse(s: Seq<u8>, end: Endianness) -> Result<(Seq<T::Rep>, int), Error> {
        if s.len() < 4 {
            Err(Error::TruncatedInput)
        } else {
            let count = end.value_of::<u32>(s.subrange(0, 4));
            match parse_elems::<T>(s.skip(4), end, count as nat) {
                Ok((vs, used)) => Ok((vs, 4 + used)),
                Err(e) => Err(e),
            }
        }
    }

    proof fn lemma_parse_len(s: Seq<u8>, end: Endianness) {
        if s.len() >= 4 {
            let count = end.value_of::<u32>(s.subrange(0, 4));
            lemma_parse_elems_len::<T>(s.skip(4), end, count as nat);
        }
    }

    fn decode(decoder: &mut BufferDecoder) -> (r: Result<Self, Error>) {
        let ghost s = old(decoder).remaining_bytes();
        let ghost end = old(decoder).endianness();
        let count = match decoder.decode::<u32>() {
            Ok(c) => c,
            Err(e) => { return Err(e) },
        };
        proof {
            lemma_skip_skip(old(decoder).buf(), old(decoder).pos(), 4);
        }
        let ghost s0 = s.skip(4);
        let ghost base: int = decoder.pos();
        let mut vec: Vec<T> = Vec::new();
        let mut i: u32 = 0;
        while i < count
            invariant
                i <= count,
                decoder.wf(),
                decoder.buf() == old(decoder).buf(),
                decoder.endianness() == end,
                end == old(decoder).endianness(),
                base <= decoder.pos() <= decoder.buf().len(),
                base == old(decoder).pos() + 4,
                s == old(decoder).remaining_bytes(),
                s0 == old(decoder).buf().skip(base),
                s0 == s.skip(4),
                s.len() >= 4,
                count == end.value_of::<u32>(s.subrange(0, 4)),
                vec@.len() == i,
                match parse_elems::<T>(decoder.remaining_bytes(), end, (count - i) as nat) {
                    Ok((vs, used)) => parse_elems::<T>(s0, end, count as nat) == Ok::<_, Error>(
                        (rep_seq(vec@) + vs, (decoder.pos() - base) + used),
                    ),
                    Err(e) => parse_elems::<T>(s0, end, count as nat) == Err::<
                        (Seq<T::Rep>, int),
                        Error,
                    >(e),
                },
            decreases count - i,
        {
            let ghost rem = decoder.remaining_bytes();
            let ghost pos_before: int = decoder.pos();
            let ghost vs_before = vec@;
            let x = match T::decode(decoder) {
                Ok(x) => x,
                Err(e) => {
                    proof {
                        assert(parse_elems::<T>(rem, end, (count - i) as nat) == Err::<
                            (Seq<T::Rep>, int),
                            Error,
                        >(e));
                    }
                    return Err(e);
                },
            };
            proof {
                T::lemma_parse_len(rem, end);
                lemma_skip_skip(decoder.buf(), pos_before, decoder.pos() - pos_before);
            }
            vec.push(x);
            proof {
                let n1: int = decoder.pos() - pos_before;
                assert(rep_seq(vec@) =~= rep_seq(vs_before).push(x.rep()));
                assert(decoder.remaining_bytes() == rem.skip(n1));
                match parse_elems::<T>(decoder.remaining_bytes(), end, (count - i - 1) as nat) {
                    Ok((vs, used)) => {
                        assert(parse_elems::<T>(rem, end, (count - i) as nat) == Ok::<_, Error>(
                            (seq![x.rep()] + vs, n1 + used),
                        ));
                        assert(rep_seq(vs_before) + (seq![x.rep()] + vs) =~= rep_seq(vec@) + vs);
                    },
                    Err(e) => {
                        assert(parse_elems::<T>(rem, end, (count - i) as nat) == Err::<
                            (Seq<T::Rep>, int),
                            Error,
                        >(e));
                    },
                }
            }
            i = i + 1;
        }
        proof {
            assert(parse_elems::<T>(decoder.remaining_bytes(), end, 0nat) == Ok::<_, Error>((
                Seq::<T::Rep>::empty(),
                0int,
            )));
            assert(rep_seq(vec@) + Seq::<T::Rep>::empty() =~= rep_seq(vec@));
        }
        Ok(vec)
    }
}

impl Decode for String {
    type Rep = Seq<char>;

    open spec fn rep(&self) -> Seq<char> {
        self@
    }

    open spec fn parse(s: Seq<u8>, end: Endianness) -> Result<(Seq<char>, int), Error> {
        parse_string(s, end)
    }

    proof fn lemma_parse_len(s: Seq<u8>, end: Endianness) {
    }

    fn decode(decoder: &mut BufferDecoder) -> (r: Result<Self, Error>) {
        decoder.decode_string()
    }
}

} // verus!
