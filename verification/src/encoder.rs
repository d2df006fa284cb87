//! The byte sink: a growable in-memory accumulator with typed write
//! operations, and the `Encode` capability with its built-in rules.

use vstd::prelude::*;

use crate::context::Context;
use crate::converter::{i8_as_u8, i8_to_u8, lo32, lo32_of_len, ByteConvertable};
use crate::endian::Endianness;
use crate::error::Error;
use vstd::utf8::encode_utf8;

verus! {

/// The byte string a character sequence contributes: a 32-bit prefix with
/// the low bits of its UTF-8 byte length, then the UTF-8 bytes themselves.
pub open spec fn wire_string(chars: Seq<char>, end: Endianness) -> Seq<u8> {
    end.image(lo32(encode_utf8(chars).len())) + encode_utf8(chars)
}

/// The concatenated byte strings of a sequence of values, in order.
pub open spec fn wire_elems<T: Encode>(s: Seq<T>, end: Endianness) -> Seq<u8>
    decreases s.len(),
{
    if s.len() == 0 {
        Seq::empty()
    } else {
        s[0].wire(end) + wire_elems(s.drop_first(), end)
    }
}

/// Splitting the last element off the concatenation of a sequence's byte
/// strings.
pub proof fn lemma_wire_elems_snoc<T: Encode>(s: Seq<T>, end: Endianness)
    requires
        s.len() > 0,
    ensures
        wire_elems(s, end) == wire_elems(s.drop_last(), end) + s.last().wire(end),
    decreases s.len(),
{
    if s.len() == 1 {
        assert(s.drop_first().len() == 0);
        assert(wire_elems(s.drop_first(), end) == Seq::<u8>::empty());
        assert(s.drop_last().len() == 0);
        assert(wire_elems(s.drop_last(), end) == Seq::<u8>::empty());
        assert(s[0] == s.last());
        assert(wire_elems(s, end) =~= wire_elems(s.drop_last(), end) + s.last().wire(end));
    } else {
        let t = s.drop_first();
        lemma_wire_elems_snoc(t, end);
        assert(t.drop_last() =~= s.drop_last().drop_first());
        assert(t.last() == s.last());
        assert(s[0] == s.drop_last()[0]);
        assert(wire_elems(s, end) =~= wire_elems(s.drop_last(), end) + s.last().wire(end));
    }
}

/// A growable in-memory byte sink, bound to a byte-order context for its
/// whole lifetime. It only appends: the accumulated bytes grow
/// monotonically and are handed out at the end by `into_bytes`.
pub struct BufferEncoder {
    buffer: Vec<u8>,
    context: Context,
}

impl BufferEncoder {
    /// The bytes accumulated so far.
    pub closed spec fn bytes(&self) -> Seq<u8> {
        self.buffer@
    }

    /// The byte order every multi-byte write uses.
    pub closed spec fn endianness(&self) -> Endianness {
        self.context.endian
    }

    pub fn new() -> (r: Self)
        ensures
            r.bytes() == Seq::<u8>::empty(),
            r.endianness() == Endianness::Little,
    {
        Self { buffer: Vec::new(), context: Context::new(Endianness::Little) }
    }

    pub fn with_ctx(context: Context) -> (r: Self)
        ensures
            r.bytes() == Seq::<u8>::empty(),
            r.endianness() == context.endian,
    {
        Self { buffer: Vec::new(), context }
    }

    /// Consume the sink and yield the accumulated bytes.
    pub fn into_bytes(self) -> (r: Vec<u8>)
        ensures
            r@ == self.bytes(),
    {
        self.buffer
    }

    pub fn context(&self) -> (r: Context)
        ensures
            r.endian == self.endianness(),
    {
        self.context
    }

    /// Append raw bytes. The in-memory sink only grows, so this never
    /// fails; the `Result` is the shape shared with sinks that can.
    pub fn encode_bytes(&mut self, slice: &[u8]) -> (r: Result<(), Error>)
        ensures
            r is Ok,
            final(self).endianness() == old(self).endianness(),
            final(self).bytes() == old(self).bytes() + slice@,
    {
        let n = slice.len();
        let mut i: usize = 0;
        while i < n
            invariant
                i <= n,
                n == slice@.len(),
                self.context == old(self).context,
                self.buffer@ == old(self).buffer@ + slice@.take(i as int),
            decreases n - i,
        {
            self.buffer.push(slice[i]);
            proof {
                assert(old(self).buffer@ + slice@.take(i as int) + seq![slice@[i as int]]
                    =~= old(self).buffer@ + slice@.take(i + 1));
            }
            i = i + 1;
        }
        proof {
            assert(old(self).buffer@ + slice@.take(n as int) =~= old(self).buffer@ + slice@);
        }
        Ok(())
    }

    /// Append one multi-byte primitive in the sink's byte order.
    pub fn encode<T: ByteConvertable>(&mut self, value: T) -> (r: Result<(), Error>)
        ensures
            r is Ok,
            final(self).endianness() == old(self).endianness(),
            final(self).bytes() == old(self).bytes() + old(self).endianness().image(value),
    {
        let bytes = self.context.endian.to_bytes(value);
        self.encode_bytes(bytes.as_slice())
    }

    pub fn encode_u8(&mut self, value: u8) -> (r: Result<(), Error>)
        ensures
            r is Ok,
            final(self).endianness() == old(self).endianness(),
            final(self).bytes() == old(self).bytes() + seq![value],
    {
        self.buffer.push(value);
        proof {
            assert(old(self).buffer@.push(value) =~= old(self).buffer@ + seq![value]);
        }
        Ok(())
    }

    pub fn encode_i8(&mut self, value: i8) -> (r: Result<(), Error>)
        ensures
            r is Ok,
            final(self).endianness() == old(self).endianness(),
            final(self).bytes() == old(self).bytes() + seq![i8_as_u8(value)],
    {
        self.encode_u8(i8_to_u8(value))
    }

    pub fn encode_u16(&mut self, value: u16) -> (r: Result<(), Error>)
        ensures
            r is Ok,
            final(self).endianness() == old(self).endianness(),
            final(self).bytes() == old(self).bytes() + old(self).endianness().image(value),
    {
        self.encode(value)
    }

    pub fn encode_i16(&mut self, value: i16) -> (r: Result<(), Error>)
        ensures
            r is Ok,
            final(self).endianness() == old(self).endianness(),
            final(self).bytes() == old(self).bytes() + old(self).endianness().image(value),
    {
        self.encode(value)
    }

    pub fn encode_u32(&mut self, value: u32) -> (r: Result<(), Error>)
        ensures
            r is Ok,
            final(self).endianness() == old(self).endianness(),
            final(self).bytes() == old(self).bytes() + old(self).endianness().image(value),
    {
        self.encode(value)
    }

    pub fn encode_i32(&mut self, value: i32) -> (r: Result<(), Error>)
        ensures
            r is Ok,
            final(self).endianness() == old(self).endianness(),
            final(self).bytes() == old(self).bytes() + old(self).endianness().image(value),
    {
        self.encode(value)
    }

    pub fn encode_u64(&mut self, value: u64) -> (r: Result<(), Error>)
        ensures
            r is Ok,
            final(self).endianness() == old(self).endianness(),
            final(self).bytes() == old(self).bytes() + old(self).endianness().image(value),
    {
        self.encode(value)
    }

    pub fn encode_i64(&mut self, value: i64) -> (r: Result<(), Error>)
        ensures
            r is Ok,
            final(self).endianness() == old(self).endianness(),
            final(self).bytes() == old(self).bytes() + old(self).endianness().image(value),
    {
        self.encode(value)
    }

    pub fn encode_u128(&mut self, value: u128) -> (r: Result<(), Error>)
        ensures
            r is Ok,
            final(self).endianness() == old(self).endianness(),
            final(self).bytes() == old(self).bytes() + old(self).endianness().image(value),
    {
        self.encode(value)
    }

    pub fn encode_i128(&mut self, value: i128) -> (r: Result<(), Error>)
        ensures
            r is Ok,
            final(self).endianness() == old(self).endianness(),
            final(self).bytes() == old(self).bytes() + old(self).endianness().image(value),
    {
        self.encode(value)
    }

    /// Append one byte: 1 for true, 0 for false.
    pub fn encode_bool(&mut self, value: bool) -> (r: Result<(), Error>)
        ensures
            r is Ok,
            final(self).endianness() == old(self).endianness(),
            final(self).bytes() == old(self).bytes() + seq![if value { 1u8 } else { 0u8 }],
    {
        if value {
            self.encode_u8(1)
        } else {
            self.encode_u8(0)
        }
    }

    /// Append a 32-bit prefix holding the low bits of the UTF-8 byte
    /// length, then the raw UTF-8 bytes.
    pub fn encode_string(&mut self, value: &str) -> (r: Result<(), Error>)
        ensures
            r is Ok,
            final(self).endianness() == old(self).endianness(),
            final(self).bytes() == old(self).bytes() + wire_string(value@, old(self).endianness()),
    {
        let bytes = value.as_bytes();
        let len32 = lo32_of_len(bytes.len());
        let r1 = self.encode(len32);
        let r2 = self.encode_bytes(bytes);
        proof {
            let end = old(self).endianness();
            assert(old(self).bytes() + end.image(lo32(encode_utf8(value@).len())) + encode_utf8(
                value@,
            ) =~= old(self).bytes() + wire_string(value@, end));
        }
        r2
    }
}

/// The encoding capability: a value that contributes a well-defined byte
/// string to the stream.
///
/// `wire` is the exact byte string the value writes under a given byte
/// order, and `encode` is proved to append exactly that string to the sink.
pub trait Encode {
    /// The exact byte string this value contributes under the given byte
    /// order.
    spec fn wire(&self, end: Endianness) -> Seq<u8>;

    fn encode(&self, encoder: &mut BufferEncoder) -> (r: Result<(), Error>)
        ensures
            r is Ok,
            final(encoder).endianness() == old(encoder).endianness(),
            final(encoder).bytes() == old(encoder).bytes() + self.wire(old(encoder).endianness()),
    ;
}

/// Encode one value into a fresh little-endian sink and yield its bytes.
pub fn encode_to_bytes<T: Encode + ?Sized>(value: &T) -> (r: Result<Vec<u8>, Error>)
    ensures
        r matches Ok(b) && b@ == value.wire(Endianness::Little),
{
    let mut encoder = BufferEncoder::new();
    let r1 = value.encode(&mut encoder);
    match r1 {
        Ok(()) => Ok(encoder.into_bytes()),
        Err(e) => Err(e),
    }
}

/// Encode one value into a fresh sink with the given context and yield its
/// bytes.
pub fn encode_with_ctx<T: Encode + ?Sized>(value: &T, ctx: Context) -> (r: Result<Vec<u8>, Error>)
    ensures
        r matches Ok(b) && b@ == value.wire(ctx.endian),
{
    let mut encoder = BufferEncoder::with_ctx(ctx);
    let r1 = value.encode(&mut encoder);
    match r1 {
        Ok(()) => Ok(encoder.into_bytes()),
        Err(e) => Err(e),
    }
}

impl Encode for u8 {
    open spec fn wire(&self, end: Endianness) -> Seq<u8> {
        seq![*self]
    }

    fn encode(&self, encoder: &mut BufferEncoder) -> (r: Result<(), Error>) {
        encoder.encode_u8(*self)
    }
}

impl Encode for i8 {
    open spec fn wire(&self, end: Endianness) -> Seq<u8> {
        seq![i8_as_u8(*self)]
    }

    fn encode(&self, encoder: &mut BufferEncoder) -> (r: Result<(), Error>) {
        encoder.encode_i8(*self)
    }
}

impl Encode for u16 {
    open spec fn wire(&self, end: Endianness) -> Seq<u8> {
        end.image(*self)
    }

    fn encode(&self, encoder: &mut BufferEncoder) -> (r: Result<(), Error>) {
        encoder.encode_u16(*self)
    }
}

impl Encode for i16 {
    open spec fn wire(&self, end: Endianness) -> Seq<u8> {
        end.image(*self)
    }

    fn encode(&self, encoder: &mut BufferEncoder) -> (r: Result<(), Error>) {
        encoder.encode_i16(*self)
    }
}

impl Encode for u32 {
    open spec fn wire(&self, end: Endianness) -> Seq<u8> {
        end.image(*self)
    }

    fn encode(&self, encoder: &mut BufferEncoder) -> (r: Result<(), Error>) {
        encoder.encode_u32(*self)
    }
}

impl Encode for i32 {
    open spec fn wire(&self, end: Endianness) -> Seq<u8> {
        end.image(*self)
    }

    fn encode(&self, encoder: &mut BufferEncoder) -> (r: Result<(), Error>) {
        encoder.encode_i32(*self)
    }
}

impl Encode for u64 {
    open spec fn wire(&self, end: Endianness) -> Seq<u8> {
        end.image(*self)
    }

    fn encode(&self, encoder: &mut BufferEncoder) -> (r: Result<(), Error>) {
        encoder.encode_u64(*self)
    }
}

impl Encode for i64 {
    open spec fn wire(&self, end: Endianness) -> Seq<u8> {
        end.image(*self)
    }

    fn encode(&self, encoder: &mut BufferEncoder) -> (r: Result<(), Error>) {
        encoder.encode_i64(*self)
    }
}

impl Encode for u128 {
    open spec fn wire(&self, end: Endianness) -> Seq<u8> {
        end.image(*self)
    }

    fn encode(&self, encoder: &mut BufferEncoder) -> (r: Result<(), Error>) {
        encoder.encode_u128(*self)
    }
}

impl Encode for i128 {
    open spec fn wire(&self, end: Endianness) -> Seq<u8> {
        end.image(*self)
    }

    fn encode(&self, encoder: &mut BufferEncoder) -> (r: Result<(), Error>) {
        encoder.encode_i128(*self)
    }
}

impl Encode for usize {
    open spec fn wire(&self, end: Endianness) -> Seq<u8> {
        end.image((*self) as u64)
    }

    fn encode(&self, encoder: &mut BufferEncoder) -> (r: Result<(), Error>) {
        encoder.encode_u64(*self as u64)
    }
}

impl Encode for bool {
    open spec fn wire(&self, end: Endianness) -> Seq<u8> {
        seq![if *self { 1u8 } else { 0u8 }]
    }

    fn encode(&self, encoder: &mut BufferEncoder) -> (r: Result<(), Error>) {
        encoder.encode_bool(*self)
    }
}

impl Encode for char {
    open spec fn wire(&self, end: Endianness) -> Seq<u8> {
        end.image((*self) as u32)
    }

    fn encode(&self, encoder: &mut BufferEncoder) -> (r: Result<(), Error>) {
        encoder.encode_u32(*self as u32)
    }
}

impl Encode for String {
    open spec fn wire(&self, end: Endianness) -> Seq<u8> {
        wire_string(self@, end)
    }

    fn encode(&self, encoder: &mut BufferEncoder) -> (r: Result<(), Error>) {
        encoder.encode_string(self.as_str())
    }
}

impl Encode for str {
    open spec fn wire(&self, end: Endianness) -> Seq<u8> {
        wire_string(self@, end)
    }

    fn encode(&self, encoder: &mut BufferEncoder) -> (r: Result<(), Error>) {
        encoder.encode_string(self)
    }
}

impl<T: Encode> Encode for (T, T) {
    open spec fn wire(&self, end: Endianness) -> Seq<u8> {
        self.0.wire(end) + self.1.wire(end)
    }

    fn encode(&self, encoder: &mut BufferEncoder) -> (r: Result<(), Error>) {
        let r1 = self.0.encode(encoder);
        if let Err(e) = r1 {
            return Err(e);
        }
        let r2 = self.1.encode(encoder);
        proof {
            let end = old(encoder).endianness();
            assert(old(encoder).bytes() + self.0.wire(end) + self.1.wire(end) =~= old(
                encoder,
            ).bytes() + self.wire(end));
        }
        r2
    }
}

impl<T: Encode> Encode for (T, T, T) {
    open spec fn wire(&self, end: Endianness) -> Seq<u8> {
        self.0.wire(end) + self.1.wire(end) + self.2.wire(end)
    }

    fn encode(&self, encoder: &mut BufferEncoder) -> (r: Result<(), Error>) {
        let r1 = self.0.encode(encoder);
        if let Err(e) = r1 {
            return Err(e);
        }
        let r2 = self.1.encode(encoder);
        if let Err(e) = r2 {
            return Err(e);
        }
        let r3 = self.2.encode(encoder);
        proof {
            let end = old(encoder).endianness();
            assert(old(encoder).bytes() + self.0.wire(end) + self.1.wire(end) + self.2.wire(end)
                =~= old(encoder).bytes() + self.wire(end));
        }
        r3
    }
}

/// An optional value carries a one-byte tag: 0 for absent with no payload,
/// 1 for present followed by the value.
impl<T: Encode> Encode for Option<T> {
    open spec fn wire(&self, end: Endianness) -> Seq<u8> {
        match self {
            Option::None => seq![0u8],
            Option::Some(value) => seq![1u8] + value.wire(end),
        }
    }

    fn encode(&self, encoder: &mut BufferEncoder) -> (r: Result<(), Error>) {
        match self {
            Option::Some(value) => {
                let r1 = encoder.encode_u8(1);
                if let Err(e) = r1 {
                    return Err(e);
                }
                let r2 = value.encode(encoder);
                proof {
                    let end = old(encoder).endianness();
                    assert(old(encoder).bytes() + seq![1u8] + value.wire(end) =~= old(
                        encoder,
                    ).bytes() + self.wire(end));
                }
                r2
            },
            Option::None => encoder.encode_u8(0),
        }
    }
}

/// A fallible value carries a one-byte tag: 1 for success followed by the
/// success value, 0 for failure followed by the failure value. The polarity
/// is the reverse of the optional's and is part of the format.
impl<T: Encode, E: Encode> Encode for Result<T, E> {
    open spec fn wire(&self, end: Endianness) -> Seq<u8> {
        match self {
            Result::Ok(value) => seq![1u8] + value.wire(end),
            Result::Err(err) => seq![0u8] + err.wire(end),
        }
    }

    fn encode(&self, encoder: &mut BufferEncoder) -> (r: Result<(), Error>) {
        match self {
            Result::Ok(value) => {
                let r1 = encoder.encode_u8(1);
                if let Err(e) = r1 {
                    return Err(e);
                }
                let r2 = value.encode(encoder);
                proof {
                    let end = old(encoder).endianness();
                    assert(old(encoder).bytes() + seq![1u8] + value.wire(end) =~= old(
                        encoder,
                    ).bytes() + self.wire(end));
                }
                r2
            },
            Result::Err(err) => {
                let r1 = encoder.encode_u8(0);
                if let Err(e) = r1 {
                    return Err(e);
                }
                let r2 = err.encode(encoder);
                proof {
                    let end = old(encoder).endianness();
                    assert(old(encoder).bytes() + seq![0u8] + err.wire(end) =~= old(
                        encoder,
                    ).bytes() + self.wire(end));
                }
                r2
            },
        }
    }
}

impl<T: Encode> Encode for Vec<T> {
    open spec fn wire(&self, end: Endianness) -> Seq<u8> {
        end.image(lo32(self@.len())) + wire_elems(self@, end)
    }

    fn encode(&self, encoder: &mut BufferEncoder) -> (r: Result<(), Error>) {
        let ghost base = old(encoder).bytes();
        let ghost end = old(encoder).endianness();
        let n = self.len();
        let count = lo32_of_len(n);
        let r1 = encoder.encode(count);
        if let Err(e) = r1 {
            return Err(e);
        }
        let mut i: usize = 0;
        while i < n
            invariant
                i <= n,
                n == self@.len(),
                encoder.endianness() == end,
                encoder.bytes() == base + end.image(lo32(n as nat)) + wire_elems(
                    self@.take(i as int),
                    end,
                ),
            decreases n - i,
        {
            let r2 = (&self[i]).encode(encoder);
            if let Err(e) = r2 {
                return Err(e);
            }
            proof {
                let taken = self@.take((i + 1) as int);
                assert(taken.drop_last() =~= self@.take(i as int));
                assert(taken.last() == self@[i as int]);
                lemma_wire_elems_snoc(taken, end);
                assert(base + end.image(lo32(n as nat)) + wire_elems(self@.take(i as int), end)
                    + self@[i as int].wire(end) =~= base + end.image(lo32(n as nat)) + wire_elems(
                    taken,
                    end,
                ));
            }
            i = i + 1;
        }
        proof {
            assert(self@.take(n as int) =~= self@);
            assert(base + end.image(lo32(n as nat)) + wire_elems(self@, end) =~= base + self.wire(
                end,
            ));
        }
        Ok(())
    }
}

} // verus!
