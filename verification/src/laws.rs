//! The library's laws: the round-trip guarantee for every encodable and
//! decodable type, and the exact rejection rules for malformed input.

use vstd::prelude::*;

use crate::converter::{i8_as_u8, lemma_i8_u8_round_trip, lo32};
use crate::decoder::{parse_elems, parse_string, rep_seq, Decode};
use crate::encoder::{wire_elems, Encode};
use crate::endian::{lemma_image_value, Endianness};
use crate::error::Error;
use vstd::utf8::{encode_utf8, encode_utf8_decode_utf8, encode_utf8_valid_utf8};

verus! {

/// The round-trip law: a value that encodes and decodes loses nothing.
///
/// For every value whose length counts fit their 32-bit prefixes, decoding
/// its byte string gives the value back, consumes exactly its bytes, and is
/// indifferent to whatever bytes follow — under either byte order.
pub trait Lossless: Encode + Decode {
    /// Every string length and element count inside the value fits its
    /// 32-bit prefix. Larger values write truncated prefixes and are the
    /// one family that does not round-trip.
    spec fn fits(&self) -> bool;

    /// Decoding an encoding yields the value back.
    proof fn lemma_round_trip(v: Self, rest: Seq<u8>, end: Endianness)
        requires
            v.fits(),
        ensures
            Self::parse(v.wire(end) + rest, end) == Ok::<_, Error>(
                (v.rep(), v.wire(end).len() as int),
            ),
    ;
}

/// A run of values round-trips element by element.
pub proof fn lemma_parse_elems_round_trip<T: Lossless>(s: Seq<T>, rest: Seq<u8>, end: Endianness)
    requires
        forall|i: int| 0 <= i < s.len() ==> s[i].fits(),
    ensures
        parse_elems::<T>(wire_elems(s, end) + rest, end, s.len()) == Ok::<_, Error>(
            (rep_seq(s), wire_elems(s, end).len() as int),
        ),
    decreases s.len(),
{
    if s.len() == 0 {
        assert(wire_elems(s, end) + rest =~= rest);
        assert(parse_elems::<T>(rest, end, 0) == Ok::<_, Error>((Seq::<T::Rep>::empty(), 0int)));
        assert(rep_seq(s) =~= Seq::<T::Rep>::empty());
    } else {
        let hd = s[0];
        let tl = s.drop_first();
        assert(forall|i: int| 0 <= i < tl.len() ==> tl[i] == s[i + 1] && #[trigger] tl[i].fits());
        T::lemma_round_trip(hd, wire_elems(tl, end) + rest, end);
        let full = wire_elems(s, end) + rest;
        assert(full =~= hd.wire(end) + (wire_elems(tl, end) + rest));
        let n1 = hd.wire(end).len() as int;
        assert(full.skip(n1) =~= wire_elems(tl, end) + rest);
        lemma_parse_elems_round_trip(tl, rest, end);
        assert(seq![hd.rep()] + rep_seq(tl) =~= rep_seq(s));
        assert(wire_elems(s, end).len() == n1 + wire_elems(tl, end).len());
    }
}

impl Lossless for u8 {
    open spec fn fits(&self) -> bool {
        true
    }

    proof fn lemma_round_trip(v: Self, rest: Seq<u8>, end: Endianness) {
        let s = v.wire(end) + rest;
        assert(s[0] == v);
    }
}

impl Lossless for i8 {
    open spec fn fits(&self) -> bool {
        true
    }

    proof fn lemma_round_trip(v: Self, rest: Seq<u8>, end: Endianness) {
        let s = v.wire(end) + rest;
        assert(s[0] == i8_as_u8(v));
        lemma_i8_u8_round_trip(v, 0);
    }
}

impl Lossless for bool {
    open spec fn fits(&self) -> bool {
        true
    }

    proof fn lemma_round_trip(v: Self, rest: Seq<u8>, end: Endianness) {
        let s = v.wire(end) + rest;
        assert(s[0] == if v {
            1u8
        } else {
            0u8
        });
    }
}

impl Lossless for String {
    open spec fn fits(&self) -> bool {
        encode_utf8(self@).len() < 0x1_0000_0000
    }

    proof fn lemma_round_trip(v: Self, rest: Seq<u8>, end: Endianness) {
        let chars = v@;
        let payload = encode_utf8(chars);
        encode_utf8_valid_utf8(chars);
        encode_utf8_decode_utf8(chars);
        lemma_image_value::<u32>(end, lo32(payload.len()), Seq::empty());
        let s = v.wire(end) + rest;
        assert(s.subrange(0, 4) =~= end.image(lo32(payload.len())));
        let n = end.value_of::<u32>(s.subrange(0, 4)) as int;
        assert(n == payload.len());
        assert(s.subrange(4, 4 + n) =~= payload);
        assert(parse_string(s, end) == Ok::<_, Error>((chars, 4 + n)));
    }
}

impl Lossless for u16 {
    open spec fn fits(&self) -> bool {
        true
    }

    proof fn lemma_round_trip(v: Self, rest: Seq<u8>, end: Endianness) {
        lemma_image_value::<u16>(end, v, Seq::empty());
        let s = v.wire(end) + rest;
        assert(s.subrange(0, 2) =~= end.image(v));
    }
}

impl Lossless for i16 {
    open spec fn fits(&self) -> bool {
        true
    }

    proof fn lemma_round_trip(v: Self, rest: Seq<u8>, end: Endianness) {
        lemma_image_value::<i16>(end, v, Seq::empty());
        let s = v.wire(end) + rest;
        assert(s.subrange(0, 2) =~= end.image(v));
    }
}

impl Lossless for u32 {
    open spec fn fits(&self) -> bool {
        true
    }

    proof fn lemma_round_trip(v: Self, rest: Seq<u8>, end: Endianness) {
        lemma_image_value::<u32>(end, v, Seq::empty());
        let s = v.wire(end) + rest;
        assert(s.subrange(0, 4) =~= end.image(v));
    }
}

impl Lossless for i32 {
    open spec fn fits(&self) -> bool {
        true
    }

    proof fn lemma_round_trip(v: Self, rest: Seq<u8>, end: Endianness) {
        lemma_image_value::<i32>(end, v, Seq::empty());
        let s = v.wire(end) + rest;
        assert(s.subrange(0, 4) =~= end.image(v));
    }
}

impl Lossless for u64 {
    open spec fn fits(&self) -> bool {
        true
    }

    proof fn lemma_round_trip(v: Self, rest: Seq<u8>, end: Endianness) {
        lemma_image_value::<u64>(end, v, Seq::empty());
        let s = v.wire(end) + rest;
        assert(s.subrange(0, 8) =~= end.image(v));
    }
}

impl Lossless for i64 {
    open spec fn fits(&self) -> bool {
        true
    }

    proof fn lemma_round_trip(v: Self, rest: Seq<u8>, end: Endianness) {
        lemma_image_value::<i64>(end, v, Seq::empty());
        let s = v.wire(end) + rest;
        assert(s.subrange(0, 8) =~= end.image(v));
    }
}

impl Lossless for u128 {
    open spec fn fits(&self) -> bool {
        true
    }

    proof fn lemma_round_trip(v: Self, rest: Seq<u8>, end: Endianness) {
        lemma_image_value::<u128>(end, v, Seq::empty());
        let s = v.wire(end) + rest;
        assert(s.subrange(0, 16) =~= end.image(v));
    }
}

impl Lossless for i128 {
    open spec fn fits(&self) -> bool {
        true
    }

    proof fn lemma_round_trip(v: Self, rest: Seq<u8>, end: Endianness) {
        lemma_image_value::<i128>(end, v, Seq::empty());
        let s = v.wire(end) + rest;
        assert(s.subrange(0, 16) =~= end.image(v));
    }
}

impl<T: Lossless> Lossless for (T, T) {
    open spec fn fits(&self) -> bool {
        self.0.fits() && self.1.fits()
    }

    proof fn lemma_round_trip(v: Self, rest: Seq<u8>, end: Endianness) {
        let s = v.wire(end) + rest;
        assert(s =~= v.0.wire(end) + (v.1.wire(end) + rest));
        T::lemma_round_trip(v.0, v.1.wire(end) + rest, end);
        let n1 = v.0.wire(end).len() as int;
        assert(s.skip(n1) =~= v.1.wire(end) + rest);
        T::lemma_round_trip(v.1, rest, end);
    }
}

impl<T: Lossless> Lossless for (T, T, T) {
    open spec fn fits(&self) -> bool {
        self.0.fits() && self.1.fits() && self.2.fits()
    }

    proof fn lemma_round_trip(v: Self, rest: Seq<u8>, end: Endianness) {
        let s = v.wire(end) + rest;
        assert(s =~= v.0.wire(end) + (v.1.wire(end) + (v.2.wire(end) + rest)));
        T::lemma_round_trip(v.0, v.1.wire(end) + (v.2.wire(end) + rest), end);
        let n1 = v.0.wire(end).len() as int;
        assert(s.skip(n1) =~= v.1.wire(end) + (v.2.wire(end) + rest));
        T::lemma_round_trip(v.1, v.2.wire(end) + rest, end);
        let n2 = v.1.wire(end).len() as int;
        assert(s.skip(n1 + n2) =~= v.2.wire(end) + rest);
        T::lemma_round_trip(v.2, rest, end);
    }
}

impl<T: Lossless> Lossless for Option<T> {
    open spec fn fits(&self) -> bool {
        match self {
            Option::None => true,
            Option::Some(v) => v.fits(),
        }
    }

    proof fn lemma_round_trip(v: Self, rest: Seq<u8>, end: Endianness) {
        let s = v.wire(end) + rest;
        match v {
            Option::None => {
                assert(s[0] == 0);
            },
            Option::Some(inner) => {
                assert(s[0] == 1);
                assert(s.skip(1) =~= inner.wire(end) + rest);
                T::lemma_round_trip(inner, rest, end);
            },
        }
    }
}

impl<T: Lossless, E: Lossless> Lossless for Result<T, E> {
    open spec fn fits(&self) -> bool {
        match self {
            Result::Ok(v) => v.fits(),
            Result::Err(err) => err.fits(),
        }
    }

    proof fn lemma_round_trip(v: Self, rest: Seq<u8>, end: Endianness) {
        let s = v.wire(end) + rest;
        match v {
            Result::Ok(inner) => {
                assert(s[0] == 1);
                assert(s.skip(1) =~= inner.wire(end) + rest);
                T::lemma_round_trip(inner, rest, end);
            },
            Result::Err(inner) => {
                assert(s[0] == 0);
                assert(s.skip(1) =~= inner.wire(end) + rest);
                E::lemma_round_trip(inner, rest, end);
            },
        }
    }
}

impl<T: Lossless> Lossless for Vec<T> {
    open spec fn fits(&self) -> bool {
        self@.len() < 0x1_0000_0000 && forall|i: int|
            0 <= i < self@.len() ==> #[trigger] self@[i].fits()
    }

    proof fn lemma_round_trip(v: Self, rest: Seq<u8>, end: Endianness) {
        let count = lo32(v@.len());
        lemma_image_value::<u32>(end, count, Seq::empty());
        let s = v.wire(end) + rest;
        assert(s.subrange(0, 4) =~= end.image(count));
        assert(end.value_of::<u32>(s.subrange(0, 4)) == count);
        assert(count as nat == v@.len());
        assert(s.skip(4) =~= wire_elems(v@, end) + rest);
        lemma_parse_elems_round_trip(v@, rest, end);
    }
}

/// A tag byte other than 0 or 1 before an optional value is rejected as an
/// invalid discriminant, whatever follows it.
pub proof fn lemma_option_invalid_tag<T: Decode>(s: Seq<u8>, end: Endianness)
    requires
        s.len() >= 1,
        s[0] != 0,
        s[0] != 1,
    ensures
        <Option<T> as Decode>::parse(s, end) == Err::<(Option<T::Rep>, int), Error>(
            Error::InvalidDiscriminant,
        ),
{
}

/// Decoding a 4-byte unsigned integer from fewer than 4 remaining bytes is
/// rejected as truncated input.
pub proof fn lemma_u32_truncated(s: Seq<u8>, end: Endianness)
    requires
        s.len() < 4,
    ensures
        <u32 as Decode>::parse(s, end) == Err::<(u32, int), Error>(Error::TruncatedInput),
{
}

/// A string whose declared byte length exceeds the remaining bytes is
/// rejected as truncated input.
pub proof fn lemma_string_truncated(s: Seq<u8>, end: Endianness)
    requires
        s.len() >= 4,
        s.len() - 4 < end.value_of::<u32>(s.subrange(0, 4)) as int,
    ensures
        parse_string(s, end) == Err::<(Seq<char>, int), Error>(Error::TruncatedInput),
{
}


impl Lossless for crate::collections::SortedSet {
    open spec fn fits(&self) -> bool {
        self.wf() && self.to_seq().len() < 0x1_0000_0000
    }

    proof fn lemma_round_trip(v: Self, rest: Seq<u8>, end: Endianness) {
        let items = v.to_seq();
        let count = lo32(items.len());
        lemma_image_value::<u32>(end, count, Seq::empty());
        let s = v.wire(end) + rest;
        assert(s.subrange(0, 4) =~= end.image(count));
        assert(s.skip(4) =~= wire_elems(items, end) + rest);
        lemma_parse_elems_round_trip::<u64>(items, rest, end);
        assert(rep_seq(items) =~= items);
        crate::collections::lemma_sorted_insert_all_id(items);
    }
}

/// Whatever bytes a sorted set is decoded from, the keys come out in
/// strictly ascending order: decoding canonicalizes.
pub proof fn lemma_sorted_set_parse_ascending(s: Seq<u8>, end: Endianness)
    ensures
        <crate::collections::SortedSet as Decode>::parse(s, end) matches Ok((vs, n))
            ==> crate::collections::sorted_strict(vs),
{
    match <Vec<u64> as Decode>::parse(s, end) {
        Ok((vs, n)) => {
            assert(crate::collections::sorted_strict(Seq::<u64>::empty()));
            crate::collections::lemma_sorted_insert_all_sorted(Seq::empty(), vs);
        },
        Err(_) => {},
    }
}

impl Lossless for crate::collections::UnorderedSet {
    open spec fn fits(&self) -> bool {
        self.wf() && self.to_seq().len() < 0x1_0000_0000
    }

    proof fn lemma_round_trip(v: Self, rest: Seq<u8>, end: Endianness) {
        let items = v.to_seq();
        let count = lo32(items.len());
        lemma_image_value::<u32>(end, count, Seq::empty());
        let s = v.wire(end) + rest;
        assert(s.subrange(0, 4) =~= end.image(count));
        assert(s.skip(4) =~= wire_elems(items, end) + rest);
        lemma_parse_elems_round_trip::<u64>(items, rest, end);
        assert(rep_seq(items) =~= items);
        crate::collections::lemma_unordered_push_all_id(items);
    }
}

impl<V: Lossless> Lossless for crate::collections::MapEntry<V> {
    open spec fn fits(&self) -> bool {
        self.value.fits()
    }

    proof fn lemma_round_trip(v: Self, rest: Seq<u8>, end: Endianness) {
        lemma_image_value::<u64>(end, v.key, Seq::empty());
        let s = v.wire(end) + rest;
        assert(s =~= end.image(v.key) + (v.value.wire(end) + rest));
        assert(s.subrange(0, 8) =~= end.image(v.key));
        assert(s.skip(8) =~= v.value.wire(end) + rest);
        V::lemma_round_trip(v.value, rest, end);
    }
}

impl<V: Lossless> Lossless for crate::collections::SortedMap<V> {
    open spec fn fits(&self) -> bool {
        self.wf() && self.to_entries().len() < 0x1_0000_0000 && forall|i: int|
            0 <= i < self.to_entries().len() ==> (#[trigger] self.to_entries()[i]).fits()
    }

    proof fn lemma_round_trip(v: Self, rest: Seq<u8>, end: Endianness) {
        let entries = v.to_entries();
        let count = lo32(entries.len());
        lemma_image_value::<u32>(end, count, Seq::empty());
        let s = v.wire(end) + rest;
        assert(s.subrange(0, 4) =~= end.image(count));
        assert(s.skip(4) =~= wire_elems(entries, end) + rest);
        lemma_parse_elems_round_trip::<crate::collections::MapEntry<V>>(entries, rest, end);
        let reps = rep_seq(entries);
        crate::collections::lemma_map_views_agree::<V>(&v);
        assert(crate::collections::keys_sorted(reps));
        crate::collections::lemma_keyed_insert_all_id::<V::Rep>(reps);
    }
}

impl<V: Lossless> Lossless for crate::collections::UnorderedMap<V> {
    open spec fn fits(&self) -> bool {
        self.wf() && self.to_entries().len() < 0x1_0000_0000 && forall|i: int|
            0 <= i < self.to_entries().len() ==> (#[trigger] self.to_entries()[i]).fits()
    }

    proof fn lemma_round_trip(v: Self, rest: Seq<u8>, end: Endianness) {
        let entries = v.to_entries();
        let count = lo32(entries.len());
        lemma_image_value::<u32>(end, count, Seq::empty());
        let s = v.wire(end) + rest;
        assert(s.subrange(0, 4) =~= end.image(count));
        assert(s.skip(4) =~= wire_elems(entries, end) + rest);
        lemma_parse_elems_round_trip::<crate::collections::MapEntry<V>>(entries, rest, end);
        let reps = rep_seq(entries);
        crate::collections::lemma_unordered_map_views_agree::<V>(&v);
        assert(crate::collections::keys_distinct(reps));
        crate::collections::lemma_keyed_push_all_id::<V::Rep>(reps);
    }
}


/// The round-trip law for a whole byte string: encoding one value and
/// decoding the resulting bytes alone gives the value back and consumes
/// them all. This is the contract of `encode_to_bytes` followed by
/// `decode_from_bytes`, under either byte order.
pub proof fn lemma_round_trip_whole<T: Lossless>(v: T, end: Endianness)
    requires
        v.fits(),
    ensures
        T::parse(v.wire(end), end) == Ok::<_, Error>((v.rep(), v.wire(end).len() as int)),
{
    T::lemma_round_trip(v, Seq::empty(), end);
    assert(v.wire(end) + Seq::empty() =~= v.wire(end));
}

} // verus!
