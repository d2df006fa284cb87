//! Struct-shaped data on the codec: a sample record with an ordered field
//! list and a skipped field.

use vstd::prelude::*;

use crate::decoder::{lemma_skip_skip, BufferDecoder, Decode};
use crate::encoder::{BufferEncoder, Encode};
use crate::endian::Endianness;
use crate::error::Error;
use crate::laws::Lossless;
use vstd::utf8::encode_utf8;

verus! {

/// A sample record showing how struct-shaped data rides on the codec.
///
/// Included fields are encoded in declaration order: `id`, then `name`,
/// then `flag`, each by its own encoding rule and nothing between them.
/// The `note` field is a skipped field: it contributes no bytes to the
/// stream, and decoding fills it with its type's default, the empty
/// string. Whatever it held at encode time is not recoverable from the
/// bytes. Record types are wired up by listing their fields this way, in
/// declaration order, with the skipped ones left out of `encode` and
/// defaulted in `decode`.
pub struct Record {
    pub id: u64,
    pub name: String,
    pub flag: bool,
    pub note: String,
}

impl Encode for Record {
    open spec fn wire(&self, end: Endianness) -> Seq<u8> {
        self.id.wire(end) + self.name.wire(end) + self.flag.wire(end)
    }

    fn encode(&self, encoder: &mut BufferEncoder) -> (r: Result<(), Error>) {
        let r1 = self.id.encode(encoder);
        if let Err(e) = r1 {
            return Err(e);
        }
        let r2 = self.name.encode(encoder);
        if let Err(e) = r2 {
            return Err(e);
        }
        let r3 = self.flag.encode(encoder);
        proof {
            let end = old(encoder).endianness();
            assert(old(encoder).bytes() + self.id.wire(end) + self.name.wire(end)
                + self.flag.wire(end) =~= old(encoder).bytes() + self.wire(end));
        }
        r3
    }
}

impl Decode for Record {
    type Rep = (u64, Seq<char>, bool, Seq<char>);

    open spec fn rep(&self) -> (u64, Seq<char>, bool, Seq<char>) {
        (self.id, self.name@, self.flag, self.note@)
    }

    open spec fn parse(s: Seq<u8>, end: Endianness) -> Result<
        ((u64, Seq<char>, bool, Seq<char>), int),
        Error,
    > {
        match <u64 as Decode>::parse(s, end) {
            Ok((id, n1)) => match <String as Decode>::parse(s.skip(n1), end) {
                Ok((name, n2)) => match <bool as Decode>::parse(s.skip(n1 + n2), end) {
                    Ok((flag, n3)) => Ok(((id, name, flag, Seq::empty()), n1 + n2 + n3)),
                    Err(e) => Err(e),
                },
                Err(e) => Err(e),
            },
            Err(e) => Err(e),
        }
    }

    proof fn lemma_parse_len(s: Seq<u8>, end: Endianness) {
        <u64 as Decode>::lemma_parse_len(s, end);
        if let Ok((id, n1)) = <u64 as Decode>::parse(s, end) {
            <String as Decode>::lemma_parse_len(s.skip(n1), end);
            if let Ok((name, n2)) = <String as Decode>::parse(s.skip(n1), end) {
                <bool as Decode>::lemma_parse_len(s.skip(n1 + n2), end);
            }
        }
    }

    fn decode(decoder: &mut BufferDecoder) -> (r: Result<Self, Error>) {
        let ghost s = old(decoder).remaining_bytes();
        let ghost end = old(decoder).endianness();
        let id = match <u64 as Decode>::decode(decoder) {
            Ok(v) => v,
            Err(e) => { return Err(e) },
        };
        proof {
            <u64 as Decode>::lemma_parse_len(s, end);
            lemma_skip_skip(
                old(decoder).buf(),
                old(decoder).pos(),
                decoder.pos() - old(decoder).pos(),
            );
        }
        let ghost n1: int = decoder.pos() - old(decoder).pos();
        let name = match <String as Decode>::decode(decoder) {
            Ok(v) => v,
            Err(e) => { return Err(e) },
        };
        proof {
            <String as Decode>::lemma_parse_len(s.skip(n1), end);
            lemma_skip_skip(
                old(decoder).buf(),
                old(decoder).pos(),
                decoder.pos() - old(decoder).pos(),
            );
            assert(s.skip(n1).skip(decoder.pos() - old(decoder).pos() - n1) =~= s.skip(
                decoder.pos() - old(decoder).pos(),
            ));
        }
        let flag = match <bool as Decode>::decode(decoder) {
            Ok(v) => v,
            Err(e) => { return Err(e) },
        };
        let note = String::new();
        Ok(Record { id, name, flag, note })
    }
}

/// The skipped field breaks the round trip by design: decoding an encoded
/// record gives the included fields back unchanged, and the skipped `note`
/// reset to its default, the empty string — whatever `note` held when the
/// record was encoded.
pub proof fn lemma_record_skip_resets(v: Record, rest: Seq<u8>, end: Endianness)
    requires
        encode_utf8(v.name@).len() < 0x1_0000_0000,
    ensures
        <Record as Decode>::parse(v.wire(end) + rest, end) == Ok::<_, Error>(
            ((v.id, v.name@, v.flag, Seq::<char>::empty()), v.wire(end).len() as int),
        ),
{
    let s = v.wire(end) + rest;
    assert(s =~= v.id.wire(end) + (v.name.wire(end) + (v.flag.wire(end) + rest)));
    <u64 as Lossless>::lemma_round_trip(v.id, v.name.wire(end) + (v.flag.wire(end) + rest), end);
    let n1 = v.id.wire(end).len() as int;
    assert(s.skip(n1) =~= v.name.wire(end) + (v.flag.wire(end) + rest));
    <String as Lossless>::lemma_round_trip(v.name, v.flag.wire(end) + rest, end);
    let n2 = v.name.wire(end).len() as int;
    assert(s.skip(n1 + n2) =~= v.flag.wire(end) + rest);
    <bool as Lossless>::lemma_round_trip(v.flag, rest, end);
}

} // verus!
