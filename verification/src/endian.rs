//! The byte-order selector and its dispatch into the conversion layer.

use vstd::prelude::*;

use crate::converter::{lemma_reverse_twice, ByteConvertable};

verus! {

/// The two supported byte orders for multi-byte primitives.
#[derive(Clone, Copy, Debug, PartialEq, Eq, Structural)]
pub enum Endianness {
    Little,
    Big,
}

impl Endianness {
    /// The byte image of a value in this byte order.
    pub open spec fn image<T: ByteConvertable>(self, value: T) -> Seq<u8> {
        match self {
            Endianness::Little => value.le_image(),
            Endianness::Big => value.le_image().reverse(),
        }
    }

    /// The value whose byte image in this byte order is the given byte
    /// string.
    pub open spec fn value_of<T: ByteConvertable>(self, s: Seq<u8>) -> T {
        match self {
            Endianness::Little => T::of_le_image(s),
            Endianness::Big => T::of_le_image(s.reverse()),
        }
    }

    pub fn to_bytes<T: ByteConvertable>(&self, value: T) -> (r: Vec<u8>)
        ensures
            r@ == self.image(value),
    {
        match self {
            Endianness::Little => value.to_le_bytes(),
            Endianness::Big => value.to_be_bytes(),
        }
    }

    pub fn from_bytes<T: ByteConvertable>(&self, bytes: &[u8]) -> (r: T)
        requires
            bytes@.len() == T::width(),
        ensures
            r == self.value_of::<T>(bytes@),
    {
        match self {
            Endianness::Little => T::from_le_bytes(bytes),
            Endianness::Big => T::from_be_bytes(bytes),
        }
    }
}

/// In either byte order, `image` and `value_of` invert each other: reading
/// back a written image gives the value, and writing a read value gives the
/// bytes.
pub proof fn lemma_image_value<T: ByteConvertable>(end: Endianness, x: T, s: Seq<u8>)
    ensures
        end.value_of::<T>(end.image(x)) == x,
        s.len() == T::width() ==> end.image(end.value_of::<T>(s)) == s,
        end.image(x).len() == T::width(),
{
    x.lemma_image_len();
    match end {
        Endianness::Little => {
            T::lemma_image_round_trip(x, s);
        },
        Endianness::Big => {
            lemma_reverse_twice(x.le_image());
            T::lemma_image_round_trip(x, s.reverse());
            if s.len() == T::width() {
                let v = T::of_le_image(s.reverse());
                assert(v.le_image() == s.reverse());
                lemma_reverse_twice(s);
            }
        },
    }
}

} // verus!
