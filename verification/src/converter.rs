//! The byte-order conversion layer: each fixed-width integer converts to
//! and from an exact-width byte string, little- or big-endian, with the
//! two directions proved inverse to each other.

use vstd::prelude::*;

use vstd::bytes::{
    lemma_auto_spec_u128_to_from_le_bytes, lemma_auto_spec_u16_to_from_le_bytes,
    lemma_auto_spec_u32_to_from_le_bytes, lemma_auto_spec_u64_to_from_le_bytes,
    spec_u128_from_le_bytes, spec_u128_to_le_bytes, spec_u16_from_le_bytes, spec_u16_to_le_bytes,
    spec_u32_from_le_bytes, spec_u32_to_le_bytes, spec_u64_from_le_bytes, spec_u64_to_le_bytes,
    u128_from_le_bytes, u128_to_le_bytes, u16_from_le_bytes, u16_to_le_bytes, u32_from_le_bytes,
    u32_to_le_bytes, u64_from_le_bytes, u64_to_le_bytes,
};

verus! {

/// Copy of the bytes in reverse order.
pub fn reversed(v: &[u8]) -> (r: Vec<u8>)
    ensures
        r@ == v@.reverse(),
{
    let n = v.len();
    let mut r: Vec<u8> = Vec::new();
    let mut i: usize = 0;
    while i < n
        invariant
            i <= n,
            n == v@.len(),
            r@.len() == i,
            forall|j: int| 0 <= j < i ==> r@[j] == v@[n - 1 - j],
        decreases n - i,
    {
        r.push(v[n - 1 - i]);
        i = i + 1;
    }
    proof {
        assert(r@ =~= v@.reverse());
    }
    r
}

/// Reversing a byte sequence twice gives the sequence back.
pub proof fn lemma_reverse_twice(s: Seq<u8>)
    ensures
        s.reverse().reverse() == s,
{
    assert(s.reverse().reverse() =~= s);
}

/// The unsigned image of a signed 8-bit value: its two's-complement
/// reinterpretation. Single bytes bypass the byte-order layer, so this is
/// the whole conversion for them.
pub open spec fn i8_as_u8(x: i8) -> u8 {
    if x >= 0 {
        x as u8
    } else {
        (x + 0x100) as u8
    }
}

/// The signed value whose two's-complement reinterpretation is the given
/// unsigned 8-bit value.
pub open spec fn u8_as_i8(u: u8) -> i8 {
    if u < 0x80 {
        u as i8
    } else {
        (u - 0x100) as i8
    }
}

pub fn i8_to_u8(x: i8) -> (u: u8)
    ensures
        u == i8_as_u8(x),
{
    if x >= 0 {
        x as u8
    } else {
        u8::MAX - ((-(x + 1)) as u8)
    }
}

pub fn u8_to_i8(u: u8) -> (x: i8)
    ensures
        x == u8_as_i8(u),
{
    if u < 0x80 {
        u as i8
    } else {
        -((u8::MAX - u) as i8) - 1
    }
}

/// The signed and unsigned 8-bit reinterpretations invert each other.
pub proof fn lemma_i8_u8_round_trip(x: i8, u: u8)
    ensures
        u8_as_i8(i8_as_u8(x)) == x,
        i8_as_u8(u8_as_i8(u)) == u,
{
}

/// The low 32 bits of a length or element count, as written in a 32-bit
/// prefix. Counts that fit in 32 bits pass through unchanged.
pub open spec fn lo32(n: nat) -> u32 {
    (n % 0x1_0000_0000) as u32
}

/// The 32-bit prefix value for a runtime length.
pub fn lo32_of_len(n: usize) -> (r: u32)
    ensures
        r == lo32(n as nat),
{
    if n <= u32::MAX as usize {
        n as u32
    } else {
        ((n as u64) % 0x1_0000_0000) as u32
    }
}

/// The unsigned image of a signed 16-bit value: its two's-complement
/// reinterpretation.
pub open spec fn i16_as_u16(x: i16) -> u16 {
    if x >= 0 {
        x as u16
    } else {
        (x + 0x1_0000) as u16
    }
}

/// The signed value whose two's-complement reinterpretation is the given
/// unsigned 16-bit value.
pub open spec fn u16_as_i16(u: u16) -> i16 {
    if u < 0x8000 {
        u as i16
    } else {
        (u - 0x1_0000) as i16
    }
}

fn i16_to_u16(x: i16) -> (u: u16)
    ensures
        u == i16_as_u16(x),
{
    if x >= 0 {
        x as u16
    } else {
        u16::MAX - ((-(x + 1)) as u16)
    }
}

fn u16_to_i16(u: u16) -> (x: i16)
    ensures
        x == u16_as_i16(u),
{
    if u < 0x8000 {
        u as i16
    } else {
        -((u16::MAX - u) as i16) - 1
    }
}

/// A fixed-width numeric primitive that converts to and from an exact-width
/// byte string in either byte order.
///
/// The little-endian image fixes the representation; the big-endian image is
/// its reverse. Conversions are total: every value has an image of exactly
/// `width()` bytes, and every byte string of that length is the image of
/// exactly one value.
pub trait ByteConvertable: Sized {
    /// Width of the byte representation.
    spec fn width() -> usize;

    /// The little-endian byte image of the value.
    spec fn le_image(self) -> Seq<u8>;

    /// The value whose little-endian byte image is the given byte string.
    spec fn of_le_image(s: Seq<u8>) -> Self;

    /// The image always has exactly `width()` bytes.
    proof fn lemma_image_len(self)
        ensures
            self.le_image().len() == Self::width(),
    ;

    /// `le_image` and `of_le_image` invert each other.
    proof fn lemma_image_round_trip(x: Self, s: Seq<u8>)
        ensures
            Self::of_le_image(x.le_image()) == x,
            s.len() == Self::width() ==> Self::of_le_image(s).le_image() == s,
    ;

    /// Width of the byte representation, as a runtime value.
    fn size() -> (n: usize)
        ensures
            n == Self::width(),
    ;

    fn to_le_bytes(self) -> (r: Vec<u8>)
        ensures
            r@ == self.le_image(),
    ;

    fn to_be_bytes(self) -> (r: Vec<u8>)
        ensures
            r@ == self.le_image().reverse(),
    ;

    fn from_le_bytes(bytes: &[u8]) -> (r: Self)
        requires
            bytes@.len() == Self::width(),
        ensures
            r == Self::of_le_image(bytes@),
    ;

    fn from_be_bytes(bytes: &[u8]) -> (r: Self)
        requires
            bytes@.len() == Self::width(),
        ensures
            r == Self::of_le_image(bytes@.reverse()),
    ;
}

impl ByteConvertable for u16 {
    open spec fn width() -> usize {
        2
    }

    open spec fn le_image(self) -> Seq<u8> {
        spec_u16_to_le_bytes(self)
    }

    open spec fn of_le_image(s: Seq<u8>) -> Self {
        spec_u16_from_le_bytes(s)
    }

    proof fn lemma_image_len(self) {
        lemma_auto_spec_u16_to_from_le_bytes();
    }

    proof fn lemma_image_round_trip(x: Self, s: Seq<u8>) {
        lemma_auto_spec_u16_to_from_le_bytes();
        assert(spec_u16_to_le_bytes(x).len() == 2);
    }

    fn size() -> (n: usize) {
        2
    }

    fn to_le_bytes(self) -> (r: Vec<u8>) {
        u16_to_le_bytes(self)
    }

    fn to_be_bytes(self) -> (r: Vec<u8>) {
        let le = u16_to_le_bytes(self);
        reversed(le.as_slice())
    }

    fn from_le_bytes(bytes: &[u8]) -> (r: Self) {
        u16_from_le_bytes(bytes)
    }

    fn from_be_bytes(bytes: &[u8]) -> (r: Self) {
        let rev = reversed(bytes);
        u16_from_le_bytes(rev.as_slice())
    }
}

impl ByteConvertable for i16 {
    open spec fn width() -> usize {
        2
    }

    open spec fn le_image(self) -> Seq<u8> {
        spec_u16_to_le_bytes(i16_as_u16(self))
    }

    open spec fn of_le_image(s: Seq<u8>) -> Self {
        u16_as_i16(spec_u16_from_le_bytes(s))
    }

    proof fn lemma_image_len(self) {
        lemma_auto_spec_u16_to_from_le_bytes();
    }

    proof fn lemma_image_round_trip(x: Self, s: Seq<u8>) {
        lemma_auto_spec_u16_to_from_le_bytes();
        let u = i16_as_u16(x);
        assert(spec_u16_to_le_bytes(u).len() == 2);
        assert(u16_as_i16(u) == x);
        if s.len() == 2 {
            let v = spec_u16_from_le_bytes(s);
            assert(i16_as_u16(u16_as_i16(v)) == v);
        }
    }

    fn size() -> (n: usize) {
        2
    }

    fn to_le_bytes(self) -> (r: Vec<u8>) {
        u16_to_le_bytes(i16_to_u16(self))
    }

    fn to_be_bytes(self) -> (r: Vec<u8>) {
        let le = u16_to_le_bytes(i16_to_u16(self));
        reversed(le.as_slice())
    }

    fn from_le_bytes(bytes: &[u8]) -> (r: Self) {
        let u = u16_from_le_bytes(bytes);
        u16_to_i16(u)
    }

    fn from_be_bytes(bytes: &[u8]) -> (r: Self) {
        let rev = reversed(bytes);
        let u = u16_from_le_bytes(rev.as_slice());
        u16_to_i16(u)
    }
}

/// The unsigned image of a signed 32-bit value: its two's-complement
/// reinterpretation.
pub open spec fn i32_as_u32(x: i32) -> u32 {
    if x >= 0 {
        x as u32
    } else {
        (x + 0x1_0000_0000) as u32
    }
}

/// The signed value whose two's-complement reinterpretation is the given
/// unsigned 32-bit value.
pub open spec fn u32_as_i32(u: u32) -> i32 {
    if u < 0x8000_0000 {
        u as i32
    } else {
        (u - 0x1_0000_0000) as i32
    }
}

fn i32_to_u32(x: i32) -> (u: u32)
    ensures
        u == i32_as_u32(x),
{
    if x >= 0 {
        x as u32
    } else {
        u32::MAX - ((-(x + 1)) as u32)
    }
}

fn u32_to_i32(u: u32) -> (x: i32)
    ensures
        x == u32_as_i32(u),
{
    if u < 0x8000_0000 {
        u as i32
    } else {
        -((u32::MAX - u) as i32) - 1
    }
}

impl ByteConvertable for u32 {
    open spec fn width() -> usize {
        4
    }

    open spec fn le_image(self) -> Seq<u8> {
        spec_u32_to_le_bytes(self)
    }

    open spec fn of_le_image(s: Seq<u8>) -> Self {
        spec_u32_from_le_bytes(s)
    }

    proof fn lemma_image_len(self) {
        lemma_auto_spec_u32_to_from_le_bytes();
        assert(spec_u32_to_le_bytes(self).len() == 4);
    }

    proof fn lemma_image_round_trip(x: Self, s: Seq<u8>) {
        lemma_auto_spec_u32_to_from_le_bytes();
        assert(spec_u32_to_le_bytes(x).len() == 4);
    }

    fn size() -> (n: usize) {
        4
    }

    fn to_le_bytes(self) -> (r: Vec<u8>) {
        u32_to_le_bytes(self)
    }

    fn to_be_bytes(self) -> (r: Vec<u8>) {
        let le = u32_to_le_bytes(self);
        reversed(le.as_slice())
    }

    fn from_le_bytes(bytes: &[u8]) -> (r: Self) {
        u32_from_le_bytes(bytes)
    }

    fn from_be_bytes(bytes: &[u8]) -> (r: Self) {
        let rev = reversed(bytes);
        u32_from_le_bytes(rev.as_slice())
    }
}

impl ByteConvertable for i32 {
    open spec fn width() -> usize {
        4
    }

    open spec fn le_image(self) -> Seq<u8> {
        spec_u32_to_le_bytes(i32_as_u32(self))
    }

    open spec fn of_le_image(s: Seq<u8>) -> Self {
        u32_as_i32(spec_u32_from_le_bytes(s))
    }

    proof fn lemma_image_len(self) {
        lemma_auto_spec_u32_to_from_le_bytes();
        assert(spec_u32_to_le_bytes(i32_as_u32(self)).len() == 4);
    }

    proof fn lemma_image_round_trip(x: Self, s: Seq<u8>) {
        lemma_auto_spec_u32_to_from_le_bytes();
        let u = i32_as_u32(x);
        assert(spec_u32_to_le_bytes(u).len() == 4);
        assert(u32_as_i32(u) == x);
        if s.len() == 4 {
            let v = spec_u32_from_le_bytes(s);
            assert(i32_as_u32(u32_as_i32(v)) == v);
        }
    }

    fn size() -> (n: usize) {
        4
    }

    fn to_le_bytes(self) -> (r: Vec<u8>) {
        u32_to_le_bytes(i32_to_u32(self))
    }

    fn to_be_bytes(self) -> (r: Vec<u8>) {
        let le = u32_to_le_bytes(i32_to_u32(self));
        reversed(le.as_slice())
    }

    fn from_le_bytes(bytes: &[u8]) -> (r: Self) {
        let u = u32_from_le_bytes(bytes);
        u32_to_i32(u)
    }

    fn from_be_bytes(bytes: &[u8]) -> (r: Self) {
        let rev = reversed(bytes);
        let u = u32_from_le_bytes(rev.as_slice());
        u32_to_i32(u)
    }
}

/// The unsigned image of a signed 64-bit value: its two's-complement
/// reinterpretation.
pub open spec fn i64_as_u64(x: i64) -> u64 {
    if x >= 0 {
        x as u64
    } else {
        (x + 0x1_0000_0000_0000_0000) as u64
    }
}

/// The signed value whose two's-complement reinterpretation is the given
/// unsigned 64-bit value.
pub open spec fn u64_as_i64(u: u64) -> i64 {
    if u < 0x8000_0000_0000_0000 {
        u as i64
    } else {
        (u - 0x1_0000_0000_0000_0000) as i64
    }
}

fn i64_to_u64(x: i64) -> (u: u64)
    ensures
        u == i64_as_u64(x),
{
    if x >= 0 {
        x as u64
    } else {
        u64::MAX - ((-(x + 1)) as u64)
    }
}

fn u64_to_i64(u: u64) -> (x: i64)
    ensures
        x == u64_as_i64(u),
{
    if u < 0x8000_0000_0000_0000 {
        u as i64
    } else {
        -((u64::MAX - u) as i64) - 1
    }
}

impl ByteConvertable for u64 {
    open spec fn width() -> usize {
        8
    }

    open spec fn le_image(self) -> Seq<u8> {
        spec_u64_to_le_bytes(self)
    }

    open spec fn of_le_image(s: Seq<u8>) -> Self {
        spec_u64_from_le_bytes(s)
    }

    proof fn lemma_image_len(self) {
        lemma_auto_spec_u64_to_from_le_bytes();
        assert(spec_u64_to_le_bytes(self).len() == 8);
    }

    proof fn lemma_image_round_trip(x: Self, s: Seq<u8>) {
        lemma_auto_spec_u64_to_from_le_bytes();
        assert(spec_u64_to_le_bytes(x).len() == 8);
    }

    fn size() -> (n: usize) {
        8
    }

    fn to_le_bytes(self) -> (r: Vec<u8>) {
        u64_to_le_bytes(self)
    }

    fn to_be_bytes(self) -> (r: Vec<u8>) {
        let le = u64_to_le_bytes(self);
        reversed(le.as_slice())
    }

    fn from_le_bytes(bytes: &[u8]) -> (r: Self) {
        u64_from_le_bytes(bytes)
    }

    fn from_be_bytes(bytes: &[u8]) -> (r: Self) {
        let rev = reversed(bytes);
        u64_from_le_bytes(rev.as_slice())
    }
}

impl ByteConvertable for i64 {
    open spec fn width() -> usize {
        8
    }

    open spec fn le_image(self) -> Seq<u8> {
        spec_u64_to_le_bytes(i64_as_u64(self))
    }

    open spec fn of_le_image(s: Seq<u8>) -> Self {
        u64_as_i64(spec_u64_from_le_bytes(s))
    }

    proof fn lemma_image_len(self) {
        lemma_auto_spec_u64_to_from_le_bytes();
        assert(spec_u64_to_le_bytes(i64_as_u64(self)).len() == 8);
    }

    proof fn lemma_image_round_trip(x: Self, s: Seq<u8>) {
        lemma_auto_spec_u64_to_from_le_bytes();
        let u = i64_as_u64(x);
        assert(spec_u64_to_le_bytes(u).len() == 8);
        assert(u64_as_i64(u) == x);
        if s.len() == 8 {
            let v = spec_u64_from_le_bytes(s);
            assert(i64_as_u64(u64_as_i64(v)) == v);
        }
    }

    fn size() -> (n: usize) {
        8
    }

    fn to_le_bytes(self) -> (r: Vec<u8>) {
        u64_to_le_bytes(i64_to_u64(self))
    }

    fn to_be_bytes(self) -> (r: Vec<u8>) {
        let le = u64_to_le_bytes(i64_to_u64(self));
        reversed(le.as_slice())
    }

    fn from_le_bytes(bytes: &[u8]) -> (r: Self) {
        let u = u64_from_le_bytes(bytes);
        u64_to_i64(u)
    }

    fn from_be_bytes(bytes: &[u8]) -> (r: Self) {
        let rev = reversed(bytes);
        let u = u64_from_le_bytes(rev.as_slice());
        u64_to_i64(u)
    }
}

/// The unsigned image of a signed 128-bit value: its two's-complement
/// reinterpretation.
pub open spec fn i128_as_u128(x: i128) -> u128 {
    if x >= 0 {
        x as u128
    } else {
        (x + 0x1_0000_0000_0000_0000_0000_0000_0000_0000) as u128
    }
}

/// The signed value whose two's-complement reinterpretation is the given
/// unsigned 128-bit value.
pub open spec fn u128_as_i128(u: u128) -> i128 {
    if u < 0x8000_0000_0000_0000_0000_0000_0000_0000 {
        u as i128
    } else {
        (u - 0x1_0000_0000_0000_0000_0000_0000_0000_0000) as i128
    }
}

fn i128_to_u128(x: i128) -> (u: u128)
    ensures
        u == i128_as_u128(x),
{
    if x >= 0 {
        x as u128
    } else {
        u128::MAX - ((-(x + 1)) as u128)
    }
}

fn u128_to_i128(u: u128) -> (x: i128)
    ensures
        x == u128_as_i128(u),
{
    if u < 0x8000_0000_0000_0000_0000_0000_0000_0000 {
        u as i128
    } else {
        -((u128::MAX - u) as i128) - 1
    }
}

impl ByteConvertable for u128 {
    open spec fn width() -> usize {
        16
    }

    open spec fn le_image(self) -> Seq<u8> {
        spec_u128_to_le_bytes(self)
    }

    open spec fn of_le_image(s: Seq<u8>) -> Self {
        spec_u128_from_le_bytes(s)
    }

    proof fn lemma_image_len(self) {
        lemma_auto_spec_u128_to_from_le_bytes();
        assert(spec_u128_to_le_bytes(self).len() == 16);
    }

    proof fn lemma_image_round_trip(x: Self, s: Seq<u8>) {
        lemma_auto_spec_u128_to_from_le_bytes();
        assert(spec_u128_to_le_bytes(x).len() == 16);
    }

    fn size() -> (n: usize) {
        16
    }

    fn to_le_bytes(self) -> (r: Vec<u8>) {
        u128_to_le_bytes(self)
    }

    fn to_be_bytes(self) -> (r: Vec<u8>) {
        let le = u128_to_le_bytes(self);
        reversed(le.as_slice())
    }

    fn from_le_bytes(bytes: &[u8]) -> (r: Self) {
        u128_from_le_bytes(bytes)
    }

    fn from_be_bytes(bytes: &[u8]) -> (r: Self) {
        let rev = reversed(bytes);
        u128_from_le_bytes(rev.as_slice())
    }
}

impl ByteConvertable for i128 {
    open spec fn width() -> usize {
        16
    }

    open spec fn le_image(self) -> Seq<u8> {
        spec_u128_to_le_bytes(i128_as_u128(self))
    }

    open spec fn of_le_image(s: Seq<u8>) -> Self {
        u128_as_i128(spec_u128_from_le_bytes(s))
    }

    proof fn lemma_image_len(self) {
        lemma_auto_spec_u128_to_from_le_bytes();
        assert(spec_u128_to_le_bytes(i128_as_u128(self)).len() == 16);
    }

    proof fn lemma_image_round_trip(x: Self, s: Seq<u8>) {
        lemma_auto_spec_u128_to_from_le_bytes();
        let u = i128_as_u128(x);
        assert(spec_u128_to_le_bytes(u).len() == 16);
        assert(u128_as_i128(u) == x);
        if s.len() == 16 {
            let v = spec_u128_from_le_bytes(s);
            assert(i128_as_u128(u128_as_i128(v)) == v);
        }
    }

    fn size() -> (n: usize) {
        16
    }

    fn to_le_bytes(self) -> (r: Vec<u8>) {
        u128_to_le_bytes(i128_to_u128(self))
    }

    fn to_be_bytes(self) -> (r: Vec<u8>) {
        let le = u128_to_le_bytes(i128_to_u128(self));
        reversed(le.as_slice())
    }

    fn from_le_bytes(bytes: &[u8]) -> (r: Self) {
        let u = u128_from_le_bytes(bytes);
        u128_to_i128(u)
    }

    fn from_be_bytes(bytes: &[u8]) -> (r: Self) {
        let rev = reversed(bytes);
        let u = u128_from_le_bytes(rev.as_slice());
        u128_to_i128(u)
    }
}

} // verus!
