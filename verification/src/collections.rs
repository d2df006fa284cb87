//! Set and map containers with unsigned 64-bit keys, and their encoding
//! rules: a 32-bit element count, then the elements or key/value pairs in
//! the container's stored order.

use vstd::prelude::*;

use crate::converter::lo32;
use crate::decoder::{lemma_skip_skip, rep_seq, BufferDecoder, Decode};
use crate::encoder::{wire_elems, BufferEncoder, Encode};
use crate::endian::Endianness;
use crate::error::Error;

verus! {

/// Strictly ascending: every element is smaller than the ones after it.
pub open spec fn sorted_strict(s: Seq<u64>) -> bool {
    forall|i: int, j: int| 0 <= i < j < s.len() ==> s[i] < s[j]
}

/// Insertion into an ascending sequence: the element takes its ordered
/// place, and an element already present is left alone.
pub open spec fn sorted_insert(s: Seq<u64>, x: u64) -> Seq<u64>
    decreases s.len(),
{
    if s.len() == 0 {
        seq![x]
    } else if x < s[0] {
        seq![x] + s
    } else if x == s[0] {
        s
    } else {
        seq![s[0]] + sorted_insert(s.drop_first(), x)
    }
}

/// Every element of a run inserted in turn, starting from `acc`.
pub open spec fn sorted_insert_all(acc: Seq<u64>, vs: Seq<u64>) -> Seq<u64>
    decreases vs.len(),
{
    if vs.len() == 0 {
        acc
    } else {
        sorted_insert_all(sorted_insert(acc, vs[0]), vs.drop_first())
    }
}

/// Folding from the left steps off the last element.
pub proof fn lemma_sorted_insert_all_snoc(acc: Seq<u64>, vs: Seq<u64>, x: u64)
    ensures
        sorted_insert_all(acc, vs.push(x)) == sorted_insert(sorted_insert_all(acc, vs), x),
    decreases vs.len(),
{
    if vs.len() == 0 {
        assert(vs.push(x).drop_first() =~= Seq::<u64>::empty());
        assert(vs.push(x)[0] == x);
        assert(sorted_insert_all(sorted_insert(acc, x), Seq::<u64>::empty()) == sorted_insert(
            acc,
            x,
        ));
        assert(sorted_insert_all(acc, vs) == acc);
    } else {
        assert(vs.push(x)[0] == vs[0]);
        assert(vs.push(x).drop_first() =~= vs.drop_first().push(x));
        lemma_sorted_insert_all_snoc(sorted_insert(acc, vs[0]), vs.drop_first(), x);
        assert(sorted_insert_all(acc, vs) == sorted_insert_all(
            sorted_insert(acc, vs[0]),
            vs.drop_first(),
        ));
        assert(sorted_insert_all(acc, vs.push(x)) == sorted_insert_all(
            sorted_insert(acc, vs[0]),
            vs.drop_first().push(x),
        ));
    }
}

/// Inserting keeps the sequence ascending, and the contents gain exactly
/// the inserted element.
pub proof fn lemma_sorted_insert_sorted(s: Seq<u64>, x: u64)
    requires
        sorted_strict(s),
    ensures
        sorted_strict(sorted_insert(s, x)),
        forall|y: u64| #[trigger] sorted_insert(s, x).contains(y) <==> s.contains(y) || y == x,
    decreases s.len(),
{
    if s.len() == 0 {
        assert forall|y: u64| #[trigger]
            sorted_insert(s, x).contains(y) <==> s.contains(y) || y == x by {
            if y == x {
                assert(sorted_insert(s, x)[0] == x);
            }
        }
    } else if x < s[0] {
        let r = seq![x] + s;
        assert forall|y: u64| #[trigger] r.contains(y) <==> s.contains(y) || y == x by {
            if y == x {
                assert(r[0] == x);
            }
            if s.contains(y) {
                let k = choose|k: int| 0 <= k < s.len() && s[k] == y;
                assert(r[k + 1] == y);
            }
            if r.contains(y) && y != x {
                let k = choose|k: int| 0 <= k < r.len() && r[k] == y;
                assert(s[k - 1] == y);
            }
        }
    } else if x == s[0] {
        assert forall|y: u64| #[trigger]
            sorted_insert(s, x).contains(y) <==> s.contains(y) || y == x by {
            if y == x {
                assert(s[0] == y);
            }
        }
    } else {
        let t = s.drop_first();
        assert(sorted_strict(t));
        lemma_sorted_insert_sorted(t, x);
        let r = seq![s[0]] + sorted_insert(t, x);
        assert forall|i: int, j: int| 0 <= i < j < r.len() implies r[i] < r[j] by {
            if i == 0 {
                let z = sorted_insert(t, x)[j - 1];
                assert(sorted_insert(t, x).contains(z));
                if z == x {
                    assert(s[0] < x);
                } else {
                    let k = choose|k: int| 0 <= k < t.len() && t[k] == z;
                    assert(s[0] < t[k]);
                }
            }
        }
        assert forall|y: u64| #[trigger] r.contains(y) <==> s.contains(y) || y == x by {
            if s.contains(y) {
                let k = choose|k: int| 0 <= k < s.len() && s[k] == y;
                if k == 0 {
                    assert(r[0] == y);
                } else {
                    assert(t[k - 1] == y);
                    assert(t.contains(y));
                    assert(sorted_insert(t, x).contains(y));
                    let m = choose|m: int|
                        0 <= m < sorted_insert(t, x).len() && sorted_insert(t, x)[m] == y;
                    assert(r[m + 1] == y);
                }
            }
            if y == x {
                assert(sorted_insert(t, x).contains(y));
                let m = choose|m: int|
                    0 <= m < sorted_insert(t, x).len() && sorted_insert(t, x)[m] == y;
                assert(r[m + 1] == y);
            }
            if r.contains(y) {
                let k = choose|k: int| 0 <= k < r.len() && r[k] == y;
                if k == 0 {
                    assert(s[0] == y);
                } else {
                    assert(sorted_insert(t, x).contains(y));
                    if y != x {
                        let m = choose|m: int| 0 <= m < t.len() && t[m] == y;
                        assert(s[m + 1] == y);
                    }
                }
            }
        }
    }
}

/// Inserting an element larger than everything present appends it.
pub proof fn lemma_sorted_insert_append(s: Seq<u64>, x: u64)
    requires
        forall|i: int| 0 <= i < s.len() ==> s[i] < x,
    ensures
        sorted_insert(s, x) == s.push(x),
    decreases s.len(),
{
    if s.len() == 0 {
        assert(sorted_insert(s, x) =~= s.push(x));
    } else {
        lemma_sorted_insert_append(s.drop_first(), x);
        assert(seq![s[0]] + s.drop_first().push(x) =~= s.push(x));
    }
}

/// Reinserting an ascending run rebuilds it unchanged: the canonical form
/// is a fixed point.
pub proof fn lemma_sorted_insert_all_id(s: Seq<u64>)
    requires
        sorted_strict(s),
    ensures
        sorted_insert_all(Seq::empty(), s) == s,
    decreases s.len(),
{
    if s.len() == 0 {
    } else {
        let t = s.drop_last();
        assert(sorted_strict(t));
        lemma_sorted_insert_all_id(t);
        assert(t.push(s.last()) =~= s);
        lemma_sorted_insert_all_snoc(Seq::empty(), t, s.last());
        assert(forall|i: int| 0 <= i < t.len() ==> t[i] < s.last());
        lemma_sorted_insert_append(t, s.last());
    }
}

/// Reinserting any run of elements yields an ascending sequence.
pub proof fn lemma_sorted_insert_all_sorted(acc: Seq<u64>, vs: Seq<u64>)
    requires
        sorted_strict(acc),
    ensures
        sorted_strict(sorted_insert_all(acc, vs)),
    decreases vs.len(),
{
    if vs.len() > 0 {
        lemma_sorted_insert_sorted(acc, vs[0]);
        lemma_sorted_insert_all_sorted(sorted_insert(acc, vs[0]), vs.drop_first());
    }
}

/// A sorted set of unsigned 64-bit keys, kept in strictly ascending order.
///
/// The container canonicalizes: whatever order keys are inserted in, they
/// are held, iterated and encoded in ascending order, and a duplicate
/// insertion is a no-op.
pub struct SortedSet {
    items: Vec<u64>,
}

impl SortedSet {
    /// The held keys, in their stored (ascending) order.
    pub closed spec fn to_seq(&self) -> Seq<u64> {
        self.items@
    }

    /// The container invariant: the keys ascend strictly, so each occurs
    /// once.
    pub open spec fn wf(&self) -> bool {
        sorted_strict(self.to_seq())
    }

    pub fn new() -> (r: Self)
        ensures
            r.wf(),
            r.to_seq() == Seq::<u64>::empty(),
    {
        Self { items: Vec::new() }
    }

    pub fn len(&self) -> (r: usize)
        ensures
            r == self.to_seq().len(),
    {
        self.items.len()
    }

    /// Read one key by its rank.
    pub fn get(&self, i: usize) -> (r: u64)
        requires
            i < self.to_seq().len(),
        ensures
            r == self.to_seq()[i as int],
    {
        self.items[i]
    }

    /// A copy of the keys in ascending order.
    pub fn to_vec(&self) -> (r: Vec<u64>)
        ensures
            r@ == self.to_seq(),
    {
        let mut r: Vec<u64> = Vec::new();
        let n = self.items.len();
        let mut i: usize = 0;
        while i < n
            invariant
                i <= n,
                n == self.items@.len(),
                r@ == self.items@.take(i as int),
            decreases n - i,
        {
            r.push(self.items[i]);
            proof {
                assert(self.items@.take(i as int).push(self.items@[i as int]) =~= self.items@.take(
                    i + 1,
                ));
            }
            i = i + 1;
        }
        proof {
            assert(self.items@.take(n as int) =~= self.items@);
        }
        r
    }

    pub fn contains(&self, x: u64) -> (r: bool)
        ensures
            r == self.to_seq().contains(x),
    {
        let n = self.items.len();
        let mut i: usize = 0;
        while i < n
            invariant
                i <= n,
                n == self.items@.len(),
                forall|k: int| 0 <= k < i ==> self.items@[k] != x,
            decreases n - i,
        {
            if self.items[i] == x {
                return true;
            }
            i = i + 1;
        }
        false
    }

    /// Put a key in its ordered place; a key already present is left
    /// alone.
    pub fn insert(&mut self, x: u64)
        requires
            old(self).wf(),
        ensures
            final(self).wf(),
            final(self).to_seq() == sorted_insert(old(self).to_seq(), x),
    {
        let n = self.items.len();
        let mut i: usize = 0;
        while i < n && self.items[i] < x
            invariant
                i <= n,
                n == self.items@.len(),
                forall|k: int| 0 <= k < i ==> self.items@[k] < x,
            decreases n - i,
        {
            i = i + 1;
        }
        proof {
            lemma_sorted_insert_at(self.items@, x, i as int);
        }
        if i < n {
            if self.items[i] == x {
                return ;
            }
            self.items.insert(i, x);
        } else {
            self.items.push(x);
            proof {
                assert(old(self).items@.push(x) =~= old(self).items@.insert(n as int, x));
            }
        }
        proof {
            lemma_sorted_insert_sorted(old(self).items@, x);
        }
    }
}

/// Linear search finds where `sorted_insert` places the element.
pub proof fn lemma_sorted_insert_at(s: Seq<u64>, x: u64, idx: int)
    requires
        sorted_strict(s),
        0 <= idx <= s.len(),
        forall|k: int| 0 <= k < idx ==> s[k] < x,
        idx < s.len() ==> s[idx] >= x,
    ensures
        sorted_insert(s, x) == if idx < s.len() && s[idx] == x {
            s
        } else {
            s.insert(idx, x)
        },
    decreases s.len(),
{
    if s.len() == 0 {
        assert(sorted_insert(s, x) =~= s.insert(0, x));
    } else if idx == 0 {
        if s[0] == x {
        } else {
            assert(x < s[0]);
            assert(seq![x] + s =~= s.insert(0, x));
        }
    } else {
        assert(s[0] < x);
        let t = s.drop_first();
        assert(sorted_strict(t));
        lemma_sorted_insert_at(t, x, idx - 1);
        if idx < s.len() && s[idx] == x {
            assert(t[idx - 1] == x);
            assert(seq![s[0]] + t =~= s);
        } else {
            assert(seq![s[0]] + t.insert(idx - 1, x) =~= s.insert(idx, x));
        }
    }
}

impl Encode for SortedSet {
    open spec fn wire(&self, end: Endianness) -> Seq<u8> {
        end.image(lo32(self.to_seq().len())) + wire_elems(self.to_seq(), end)
    }

    fn encode(&self, encoder: &mut BufferEncoder) -> (r: Result<(), Error>) {
        let r1 = self.items.encode(encoder);
        proof {
            assert(self.items.wire(old(encoder).endianness()) == self.wire(
                old(encoder).endianness(),
            ));
        }
        r1
    }
}

impl Decode for SortedSet {
    type Rep = Seq<u64>;

    open spec fn rep(&self) -> Seq<u64> {
        self.to_seq()
    }

    open spec fn parse(s: Seq<u8>, end: Endianness) -> Result<(Seq<u64>, int), Error> {
        match <Vec<u64> as Decode>::parse(s, end) {
            Ok((vs, n)) => Ok((sorted_insert_all(Seq::empty(), vs), n)),
            Err(e) => Err(e),
        }
    }

    proof fn lemma_parse_len(s: Seq<u8>, end: Endianness) {
        <Vec<u64> as Decode>::lemma_parse_len(s, end);
    }

    fn decode(decoder: &mut BufferDecoder) -> (r: Result<Self, Error>) {
        let elems = match <Vec<u64> as Decode>::decode(decoder) {
            Ok(v) => v,
            Err(e) => { return Err(e) },
        };
        proof {
            assert(rep_seq(elems@) =~= elems@);
        }
        let mut set = SortedSet::new();
        let n = elems.len();
        let mut i: usize = 0;
        while i < n
            invariant
                i <= n,
                n == elems@.len(),
                set.wf(),
                set.to_seq() == sorted_insert_all(Seq::empty(), elems@.take(i as int)),
            decreases n - i,
        {
            set.insert(elems[i]);
            proof {
                lemma_sorted_insert_all_snoc(Seq::empty(), elems@.take(i as int), elems@[i as int]);
                assert(elems@.take(i as int).push(elems@[i as int]) =~= elems@.take(i + 1));
            }
            i = i + 1;
        }
        proof {
            assert(elems@.take(n as int) =~= elems@);
        }
        Ok(set)
    }
}

/// Membership without order: what an unordered set holds.
pub open spec fn unordered_push(s: Seq<u64>, x: u64) -> Seq<u64> {
    if s.contains(x) {
        s
    } else {
        s.push(x)
    }
}

/// Every element of a run added in turn, starting from `acc`.
pub open spec fn unordered_push_all(acc: Seq<u64>, vs: Seq<u64>) -> Seq<u64>
    decreases vs.len(),
{
    if vs.len() == 0 {
        acc
    } else {
        unordered_push_all(unordered_push(acc, vs[0]), vs.drop_first())
    }
}

/// Folding from the left steps off the last element.
pub proof fn lemma_unordered_push_all_snoc(acc: Seq<u64>, vs: Seq<u64>, x: u64)
    ensures
        unordered_push_all(acc, vs.push(x)) == unordered_push(unordered_push_all(acc, vs), x),
    decreases vs.len(),
{
    if vs.len() == 0 {
        assert(vs.push(x).drop_first() =~= Seq::<u64>::empty());
        assert(vs.push(x)[0] == x);
        assert(unordered_push_all(unordered_push(acc, x), Seq::<u64>::empty()) == unordered_push(
            acc,
            x,
        ));
        assert(unordered_push_all(acc, vs) == acc);
    } else {
        assert(vs.push(x)[0] == vs[0]);
        assert(vs.push(x).drop_first() =~= vs.drop_first().push(x));
        lemma_unordered_push_all_snoc(unordered_push(acc, vs[0]), vs.drop_first(), x);
        assert(unordered_push_all(acc, vs) == unordered_push_all(
            unordered_push(acc, vs[0]),
            vs.drop_first(),
        ));
        assert(unordered_push_all(acc, vs.push(x)) == unordered_push_all(
            unordered_push(acc, vs[0]),
            vs.drop_first().push(x),
        ));
    }
}

/// Re-adding a run with no duplicates rebuilds it unchanged.
pub proof fn lemma_unordered_push_all_id(s: Seq<u64>)
    requires
        s.no_duplicates(),
    ensures
        unordered_push_all(Seq::empty(), s) == s,
    decreases s.len(),
{
    if s.len() > 0 {
        let t = s.drop_last();
        assert(t.no_duplicates());
        lemma_unordered_push_all_id(t);
        assert(t.push(s.last()) =~= s);
        lemma_unordered_push_all_snoc(Seq::empty(), t, s.last());
        assert(!t.contains(s.last()));
    }
}

/// A set of unsigned 64-bit keys without an ordering promise.
///
/// It stands where a hash-based set stood: the iteration order carries no
/// meaning, only membership does. Keys are held in first-insertion order
/// and a duplicate insertion is a no-op.
pub struct UnorderedSet {
    items: Vec<u64>,
}

impl UnorderedSet {
    /// The held keys, in their stored order. The order is an artifact of
    /// insertion history, not part of the container's meaning.
    pub closed spec fn to_seq(&self) -> Seq<u64> {
        self.items@
    }

    /// The container invariant: each key occurs once.
    pub open spec fn wf(&self) -> bool {
        self.to_seq().no_duplicates()
    }

    pub fn new() -> (r: Self)
        ensures
            r.wf(),
            r.to_seq() == Seq::<u64>::empty(),
    {
        Self { items: Vec::new() }
    }

    pub fn len(&self) -> (r: usize)
        ensures
            r == self.to_seq().len(),
    {
        self.items.len()
    }

    /// Read one key by its stored position.
    pub fn get(&self, i: usize) -> (r: u64)
        requires
            i < self.to_seq().len(),
        ensures
            r == self.to_seq()[i as int],
    {
        self.items[i]
    }

    pub fn contains(&self, x: u64) -> (r: bool)
        ensures
            r == self.to_seq().contains(x),
    {
        let n = self.items.len();
        let mut i: usize = 0;
        while i < n
            invariant
                i <= n,
                n == self.items@.len(),
                forall|k: int| 0 <= k < i ==> self.items@[k] != x,
            decreases n - i,
        {
            if self.items[i] == x {
                return true;
            }
            i = i + 1;
        }
        false
    }

    /// Add a key; a key already present is left alone.
    pub fn insert(&mut self, x: u64)
        requires
            old(self).wf(),
        ensures
            final(self).wf(),
            final(self).to_seq() == unordered_push(old(self).to_seq(), x),
    {
        if !self.contains(x) {
            self.items.push(x);
        }
    }
}

impl Encode for UnorderedSet {
    open spec fn wire(&self, end: Endianness) -> Seq<u8> {
        end.image(lo32(self.to_seq().len())) + wire_elems(self.to_seq(), end)
    }

    fn encode(&self, encoder: &mut BufferEncoder) -> (r: Result<(), Error>) {
        let r1 = self.items.encode(encoder);
        proof {
            assert(self.items.wire(old(encoder).endianness()) == self.wire(
                old(encoder).endianness(),
            ));
        }
        r1
    }
}

impl Decode for UnorderedSet {
    type Rep = Seq<u64>;

    open spec fn rep(&self) -> Seq<u64> {
        self.to_seq()
    }

    open spec fn parse(s: Seq<u8>, end: Endianness) -> Result<(Seq<u64>, int), Error> {
        match <Vec<u64> as Decode>::parse(s, end) {
            Ok((vs, n)) => Ok((unordered_push_all(Seq::empty(), vs), n)),
            Err(e) => Err(e),
        }
    }

    proof fn lemma_parse_len(s: Seq<u8>, end: Endianness) {
        <Vec<u64> as Decode>::lemma_parse_len(s, end);
    }

    fn decode(decoder: &mut BufferDecoder) -> (r: Result<Self, Error>) {
        let elems = match <Vec<u64> as Decode>::decode(decoder) {
            Ok(v) => v,
            Err(e) => { return Err(e) },
        };
        proof {
            assert(rep_seq(elems@) =~= elems@);
        }
        let mut set = UnorderedSet::new();
        let n = elems.len();
        let mut i: usize = 0;
        while i < n
            invariant
                i <= n,
                n == elems@.len(),
                set.wf(),
                set.to_seq() == unordered_push_all(Seq::empty(), elems@.take(i as int)),
            decreases n - i,
        {
            set.insert(elems[i]);
            proof {
                lemma_unordered_push_all_snoc(
                    Seq::empty(),
                    elems@.take(i as int),
                    elems@[i as int],
                );
                assert(elems@.take(i as int).push(elems@[i as int]) =~= elems@.take(i + 1));
            }
            i = i + 1;
        }
        proof {
            assert(elems@.take(n as int) =~= elems@);
        }
        Ok(set)
    }
}

/// Keys strictly ascending along a pair sequence.
pub open spec fn keys_sorted<R>(s: Seq<(u64, R)>) -> bool {
    forall|i: int, j: int| 0 <= i < j < s.len() ==> s[i].0 < s[j].0
}

/// Each key occurs at most once along a pair sequence.
pub open spec fn keys_distinct<R>(s: Seq<(u64, R)>) -> bool {
    forall|i: int, j: int| 0 <= i < j < s.len() ==> s[i].0 != s[j].0
}

/// Some position holds the given key.
pub open spec fn has_key<R>(s: Seq<(u64, R)>, key: u64) -> bool {
    exists|k: int| 0 <= k < s.len() && #[trigger] s[k].0 == key
}

/// Insertion into a key-ascending pair sequence: a new key takes its
/// ordered place, and an existing key has its value replaced.
pub open spec fn keyed_insert<R>(s: Seq<(u64, R)>, e: (u64, R)) -> Seq<(u64, R)>
    decreases s.len(),
{
    if s.len() == 0 {
        seq![e]
    } else if e.0 < s[0].0 {
        seq![e] + s
    } else if e.0 == s[0].0 {
        seq![e] + s.drop_first()
    } else {
        seq![s[0]] + keyed_insert(s.drop_first(), e)
    }
}

/// Every pair of a run inserted in turn, starting from `acc`.
pub open spec fn keyed_insert_all<R>(acc: Seq<(u64, R)>, vs: Seq<(u64, R)>) -> Seq<(u64, R)>
    decreases vs.len(),
{
    if vs.len() == 0 {
        acc
    } else {
        keyed_insert_all(keyed_insert(acc, vs[0]), vs.drop_first())
    }
}

/// Folding from the left steps off the last pair.
pub proof fn lemma_keyed_insert_all_snoc<R>(acc: Seq<(u64, R)>, vs: Seq<(u64, R)>, e: (u64, R))
    ensures
        keyed_insert_all(acc, vs.push(e)) == keyed_insert(keyed_insert_all(acc, vs), e),
    decreases vs.len(),
{
    if vs.len() == 0 {
        assert(vs.push(e).drop_first() =~= Seq::<(u64, R)>::empty());
        assert(vs.push(e)[0] == e);
        assert(keyed_insert_all(keyed_insert(acc, e), Seq::<(u64, R)>::empty()) == keyed_insert(
            acc,
            e,
        ));
        assert(keyed_insert_all(acc, vs) == acc);
    } else {
        assert(vs.push(e)[0] == vs[0]);
        assert(vs.push(e).drop_first() =~= vs.drop_first().push(e));
        lemma_keyed_insert_all_snoc(keyed_insert(acc, vs[0]), vs.drop_first(), e);
        assert(keyed_insert_all(acc, vs) == keyed_insert_all(
            keyed_insert(acc, vs[0]),
            vs.drop_first(),
        ));
        assert(keyed_insert_all(acc, vs.push(e)) == keyed_insert_all(
            keyed_insert(acc, vs[0]),
            vs.drop_first().push(e),
        ));
    }
}

/// Inserting keeps the keys ascending, and the keys present gain exactly
/// the inserted one.
pub proof fn lemma_keyed_insert_sorted<R>(s: Seq<(u64, R)>, e: (u64, R))
    requires
        keys_sorted(s),
    ensures
        keys_sorted(keyed_insert(s, e)),
        forall|y: u64| #[trigger] has_key(keyed_insert(s, e), y) <==> has_key(s, y) || y == e.0,
    decreases s.len(),
{
    let r = keyed_insert(s, e);
    if s.len() == 0 {
        assert forall|y: u64| has_key(r, y) <==> has_key(s, y) || y == e.0 by {
            if y == e.0 {
                assert(r[0].0 == y);
            }
        }
    } else if e.0 < s[0].0 {
        assert forall|y: u64| has_key(r, y) <==> has_key(s, y) || y == e.0 by {
            if y == e.0 {
                assert(r[0].0 == y);
            }
            if has_key(s, y) {
                let k = choose|k: int| 0 <= k < s.len() && #[trigger] s[k].0 == y;
                assert(r[k + 1].0 == y);
            }
            if has_key(r, y) && y != e.0 {
                let m = choose|m: int| 0 <= m < r.len() && #[trigger] r[m].0 == y;
                assert(s[m - 1].0 == y);
            }
        }
    } else if e.0 == s[0].0 {
        assert forall|i: int, j: int| 0 <= i < j < r.len() implies r[i].0 < r[j].0 by {
            assert(r[j] == s[j]);
            if i > 0 {
                assert(r[i] == s[i]);
            }
        }
        assert forall|y: u64| has_key(r, y) <==> has_key(s, y) || y == e.0 by {
            if y == e.0 {
                assert(r[0].0 == y);
            }
            if has_key(s, y) {
                let k = choose|k: int| 0 <= k < s.len() && #[trigger] s[k].0 == y;
                if k == 0 {
                    assert(r[0].0 == y);
                } else {
                    assert(r[k].0 == y);
                }
            }
            if has_key(r, y) {
                let m = choose|m: int| 0 <= m < r.len() && #[trigger] r[m].0 == y;
                if m > 0 {
                    assert(s[m].0 == y);
                }
            }
        }
    } else {
        let t = s.drop_first();
        assert(keys_sorted(t));
        lemma_keyed_insert_sorted(t, e);
        let rt = keyed_insert(t, e);
        assert forall|i: int, j: int| 0 <= i < j < r.len() implies r[i].0 < r[j].0 by {
            if i == 0 {
                let y = rt[j - 1].0;
                assert(rt[j - 1].0 == y);
                assert(has_key(rt, y));
                if y == e.0 {
                    assert(s[0].0 < e.0);
                } else {
                    assert(has_key(t, y));
                    let k = choose|k: int| 0 <= k < t.len() && #[trigger] t[k].0 == y;
                    assert(s[0].0 < t[k].0);
                }
            }
        }
        assert forall|y: u64| has_key(r, y) <==> has_key(s, y) || y == e.0 by {
            if y == e.0 {
                assert(has_key(rt, y));
                let m = choose|m: int| 0 <= m < rt.len() && #[trigger] rt[m].0 == y;
                assert(r[m + 1].0 == y);
            }
            if has_key(s, y) {
                let k = choose|k: int| 0 <= k < s.len() && #[trigger] s[k].0 == y;
                if k == 0 {
                    assert(r[0].0 == y);
                } else {
                    assert(t[k - 1].0 == y);
                    assert(has_key(t, y));
                    assert(has_key(rt, y));
                    let m = choose|m: int| 0 <= m < rt.len() && #[trigger] rt[m].0 == y;
                    assert(r[m + 1].0 == y);
                }
            }
            if has_key(r, y) {
                let m = choose|m: int| 0 <= m < r.len() && #[trigger] r[m].0 == y;
                if m == 0 {
                    assert(s[0].0 == y);
                } else {
                    assert(rt[m - 1].0 == y);
                    assert(has_key(rt, y));
                    if y != e.0 {
                        assert(has_key(t, y));
                        let k = choose|k: int| 0 <= k < t.len() && #[trigger] t[k].0 == y;
                        assert(s[k + 1].0 == y);
                    }
                }
            }
        }
    }
}

/// Inserting a key larger than every key present appends the pair.
pub proof fn lemma_keyed_insert_append<R>(s: Seq<(u64, R)>, e: (u64, R))
    requires
        forall|i: int| 0 <= i < s.len() ==> s[i].0 < e.0,
    ensures
        keyed_insert(s, e) == s.push(e),
    decreases s.len(),
{
    if s.len() == 0 {
        assert(keyed_insert(s, e) =~= s.push(e));
    } else {
        lemma_keyed_insert_append(s.drop_first(), e);
        assert(seq![s[0]] + s.drop_first().push(e) =~= s.push(e));
    }
}

/// Reinserting a key-ascending run rebuilds it unchanged.
pub proof fn lemma_keyed_insert_all_id<R>(s: Seq<(u64, R)>)
    requires
        keys_sorted(s),
    ensures
        keyed_insert_all(Seq::empty(), s) == s,
    decreases s.len(),
{
    if s.len() > 0 {
        let t = s.drop_last();
        assert(keys_sorted(t));
        lemma_keyed_insert_all_id(t);
        assert(t.push(s.last()) =~= s);
        lemma_keyed_insert_all_snoc(Seq::<(u64, R)>::empty(), t, s.last());
        assert(forall|i: int| 0 <= i < t.len() ==> t[i].0 < s.last().0);
        lemma_keyed_insert_append(t, s.last());
    }
}

/// Linear search finds where `keyed_insert` places the pair.
pub proof fn lemma_keyed_insert_at<R>(s: Seq<(u64, R)>, e: (u64, R), idx: int)
    requires
        keys_sorted(s),
        0 <= idx <= s.len(),
        forall|k: int| 0 <= k < idx ==> s[k].0 < e.0,
        idx < s.len() ==> s[idx].0 >= e.0,
    ensures
        keyed_insert(s, e) == if idx < s.len() && s[idx].0 == e.0 {
            s.update(idx, e)
        } else {
            s.insert(idx, e)
        },
    decreases s.len(),
{
    if s.len() == 0 {
        assert(keyed_insert(s, e) =~= s.insert(0, e));
    } else if idx == 0 {
        if s[0].0 == e.0 {
            assert(seq![e] + s.drop_first() =~= s.update(0, e));
        } else {
            assert(e.0 < s[0].0);
            assert(seq![e] + s =~= s.insert(0, e));
        }
    } else {
        assert(s[0].0 < e.0);
        let t = s.drop_first();
        assert(keys_sorted(t));
        lemma_keyed_insert_at(t, e, idx - 1);
        if idx < s.len() && s[idx].0 == e.0 {
            assert(t[idx - 1].0 == e.0);
            assert(seq![s[0]] + t.update(idx - 1, e) =~= s.update(idx, e));
        } else {
            assert(seq![s[0]] + t.insert(idx - 1, e) =~= s.insert(idx, e));
        }
    }
}

/// One key/value pair of a map: an unsigned 64-bit key, then the value.
/// On the wire it is the key's bytes followed by the value's bytes, with
/// no tag or padding between them.
pub struct MapEntry<V> {
    pub key: u64,
    pub value: V,
}

impl<V: Encode> Encode for MapEntry<V> {
    open spec fn wire(&self, end: Endianness) -> Seq<u8> {
        end.image(self.key) + self.value.wire(end)
    }

    fn encode(&self, encoder: &mut BufferEncoder) -> (r: Result<(), Error>) {
        let r1 = encoder.encode_u64(self.key);
        if let Err(e) = r1 {
            return Err(e);
        }
        let r2 = self.value.encode(encoder);
        proof {
            let end = old(encoder).endianness();
            assert(old(encoder).bytes() + end.image(self.key) + self.value.wire(end) =~= old(
                encoder,
            ).bytes() + self.wire(end));
        }
        r2
    }
}

impl<V: Decode> Decode for MapEntry<V> {
    type Rep = (u64, V::Rep);

    open spec fn rep(&self) -> (u64, V::Rep) {
        (self.key, self.value.rep())
    }

    open spec fn parse(s: Seq<u8>, end: Endianness) -> Result<((u64, V::Rep), int), Error> {
        match <u64 as Decode>::parse(s, end) {
            Ok((k, n1)) => match V::parse(s.skip(n1), end) {
                Ok((v, n2)) => Ok(((k, v), n1 + n2)),
                Err(e) => Err(e),
            },
            Err(e) => Err(e),
        }
    }

    proof fn lemma_parse_len(s: Seq<u8>, end: Endianness) {
        <u64 as Decode>::lemma_parse_len(s, end);
        if let Ok((k, n1)) = <u64 as Decode>::parse(s, end) {
            V::lemma_parse_len(s.skip(n1), end);
        }
    }

    fn decode(decoder: &mut BufferDecoder) -> (r: Result<Self, Error>) {
        let ghost s = old(decoder).remaining_bytes();
        let ghost end = old(decoder).endianness();
        let key = match <u64 as Decode>::decode(decoder) {
            Ok(k) => k,
            Err(e) => { return Err(e) },
        };
        proof {
            <u64 as Decode>::lemma_parse_len(s, end);
            lemma_skip_skip(
                old(decoder).buf(),
                old(decoder).pos(),
                decoder.pos() - old(decoder).pos(),
            );
        }
        let value = match V::decode(decoder) {
            Ok(v) => v,
            Err(e) => { return Err(e) },
        };
        Ok(MapEntry { key, value })
    }
}

/// The pairs a sequence of entries holds.
pub open spec fn entry_pairs<V>(s: Seq<MapEntry<V>>) -> Seq<(u64, V)> {
    s.map_values(|e: MapEntry<V>| (e.key, e.value))
}

/// The abstract pairs of a pair sequence: each value replaced by its
/// abstract decode value.
pub open spec fn pair_rep<V: Decode>(s: Seq<(u64, V)>) -> Seq<(u64, V::Rep)> {
    s.map_values(|p: (u64, V)| (p.0, p.1.rep()))
}

/// Replacing values by their abstract values commutes with ordered
/// insertion.
pub proof fn lemma_pair_rep_insert<V: Decode>(s: Seq<(u64, V)>, e: (u64, V))
    ensures
        pair_rep(keyed_insert(s, e)) == keyed_insert(pair_rep(s), (e.0, e.1.rep())),
    decreases s.len(),
{
    let er = (e.0, e.1.rep());
    if s.len() == 0 {
        assert(pair_rep(keyed_insert(s, e)) =~= keyed_insert(pair_rep(s), er));
    } else if e.0 < s[0].0 {
        assert(pair_rep(keyed_insert(s, e)) =~= keyed_insert(pair_rep(s), er));
    } else if e.0 == s[0].0 {
        assert(pair_rep(keyed_insert(s, e)) =~= keyed_insert(pair_rep(s), er));
    } else {
        lemma_pair_rep_insert(s.drop_first(), e);
        assert(pair_rep(s.drop_first()) =~= pair_rep(s).drop_first());
        assert(pair_rep(keyed_insert(s, e)) =~= keyed_insert(pair_rep(s), er));
    }
}

/// A map from unsigned 64-bit keys to values, kept ascending by key.
///
/// The container canonicalizes: whatever order pairs are inserted in, they
/// are held, iterated and encoded in ascending key order, and inserting an
/// existing key replaces its value.
pub struct SortedMap<V> {
    entries: Vec<MapEntry<V>>,
}

impl<V> SortedMap<V> {
    /// The held pairs, in their stored (key-ascending) order.
    pub closed spec fn to_pairs(&self) -> Seq<(u64, V)> {
        entry_pairs(self.entries@)
    }

    /// The stored entries, for the wire-format specification.
    pub closed spec fn to_entries(&self) -> Seq<MapEntry<V>> {
        self.entries@
    }

    /// The container invariant: keys ascend strictly.
    pub open spec fn wf(&self) -> bool {
        keys_sorted(self.to_pairs())
    }

    pub fn new() -> (r: Self)
        ensures
            r.wf(),
            r.to_pairs() == Seq::<(u64, V)>::empty(),
            r.to_entries() == Seq::<MapEntry<V>>::empty(),
    {
        let r = Self { entries: Vec::new() };
        proof {
            assert(r.to_pairs() =~= Seq::<(u64, V)>::empty());
        }
        r
    }

    pub fn len(&self) -> (r: usize)
        ensures
            r == self.to_pairs().len(),
    {
        self.entries.len()
    }

    /// Read one key by its rank.
    pub fn key_at(&self, i: usize) -> (r: u64)
        requires
            i < self.to_pairs().len(),
        ensures
            r == self.to_pairs()[i as int].0,
    {
        proof {
            assert(self.to_pairs()[i as int] == (
                self.entries@[i as int].key,
                self.entries@[i as int].value,
            ));
        }
        self.entries[i].key
    }

    /// Read one value by its key's rank.
    pub fn value_at(&self, i: usize) -> (r: &V)
        requires
            i < self.to_pairs().len(),
        ensures
            *r == self.to_pairs()[i as int].1,
    {
        proof {
            assert(self.to_pairs()[i as int] == (
                self.entries@[i as int].key,
                self.entries@[i as int].value,
            ));
        }
        &self.entries[i].value
    }

    pub fn contains_key(&self, key: u64) -> (r: bool)
        ensures
            r == has_key(self.to_pairs(), key),
    {
        let n = self.entries.len();
        let mut i: usize = 0;
        while i < n
            invariant
                i <= n,
                n == self.entries@.len(),
                n == self.to_pairs().len(),
                forall|k: int| 0 <= k < i ==> (#[trigger] self.to_pairs()[k]).0 != key,
            decreases n - i,
        {
            proof {
                assert(self.to_pairs()[i as int] == (
                    self.entries@[i as int].key,
                    self.entries@[i as int].value,
                ));
            }
            if self.entries[i].key == key {
                proof {
                    assert(self.to_pairs()[i as int].0 == key);
                }
                return true;
            }
            i = i + 1;
        }
        false
    }

    /// Bind a value to a key: a new key takes its ordered place, and an
    /// existing key has its value replaced.
    pub fn insert(&mut self, key: u64, value: V)
        requires
            old(self).wf(),
        ensures
            final(self).wf(),
            final(self).to_pairs() == keyed_insert(old(self).to_pairs(), (key, value)),
    {
        let n = self.entries.len();
        let mut i: usize = 0;
        while i < n && self.entries[i].key < key
            invariant
                i <= n,
                n == self.entries@.len(),
                n == self.to_pairs().len(),
                forall|k: int|
                    0 <= k < self.entries@.len() ==> (#[trigger] self.to_pairs()[k]) == (
                    self.entries@[k].key,
                    self.entries@[k].value,
                ),
                forall|k: int| 0 <= k < i ==> (#[trigger] self.to_pairs()[k]).0 < key,
            decreases n - i,
        {
            i = i + 1;
        }
        proof {
            assert(forall|k: int|
                0 <= k < self.entries@.len() ==> (#[trigger] self.to_pairs()[k]) == (
                self.entries@[k].key,
                self.entries@[k].value,
            ));
            lemma_keyed_insert_at(old(self).to_pairs(), (key, value), i as int);
            lemma_keyed_insert_sorted(old(self).to_pairs(), (key, value));
        }
        if i < n {
            if self.entries[i].key == key {
                self.entries.remove(i);
                self.entries.insert(i, MapEntry { key, value });
                proof {
                    assert(entry_pairs(self.entries@) =~= entry_pairs(old(self).entries@).update(
                        i as int,
                        (key, value),
                    ));
                }
                return ;
            }
            self.entries.insert(i, MapEntry { key, value });
            proof {
                assert(entry_pairs(self.entries@) =~= entry_pairs(old(self).entries@).insert(
                    i as int,
                    (key, value),
                ));
            }
        } else {
            self.entries.push(MapEntry { key, value });
            proof {
                assert(entry_pairs(self.entries@) =~= entry_pairs(old(self).entries@).insert(
                    n as int,
                    (key, value),
                ));
            }
        }
    }
}

impl<V: Encode> Encode for SortedMap<V> {
    open spec fn wire(&self, end: Endianness) -> Seq<u8> {
        end.image(lo32(self.to_entries().len())) + wire_elems(self.to_entries(), end)
    }

    fn encode(&self, encoder: &mut BufferEncoder) -> (r: Result<(), Error>) {
        let r1 = self.entries.encode(encoder);
        proof {
            assert(self.entries.wire(old(encoder).endianness()) == self.wire(
                old(encoder).endianness(),
            ));
        }
        r1
    }
}

impl<V: Decode> Decode for SortedMap<V> {
    type Rep = Seq<(u64, V::Rep)>;

    open spec fn rep(&self) -> Seq<(u64, V::Rep)> {
        pair_rep(self.to_pairs())
    }

    open spec fn parse(s: Seq<u8>, end: Endianness) -> Result<(Seq<(u64, V::Rep)>, int), Error> {
        match <Vec<MapEntry<V>> as Decode>::parse(s, end) {
            Ok((vs, n)) => Ok((keyed_insert_all(Seq::empty(), vs), n)),
            Err(e) => Err(e),
        }
    }

    proof fn lemma_parse_len(s: Seq<u8>, end: Endianness) {
        <Vec<MapEntry<V>> as Decode>::lemma_parse_len(s, end);
    }

    fn decode(decoder: &mut BufferDecoder) -> (r: Result<Self, Error>) {
        let mut elems = match <Vec<MapEntry<V>> as Decode>::decode(decoder) {
            Ok(v) => v,
            Err(e) => { return Err(e) },
        };
        let ghost vs0 = rep_seq(elems@);
        let mut map = SortedMap::new();
        let n = elems.len();
        let mut i: usize = 0;
        while i < n
            invariant
                i <= n,
                n == vs0.len(),
                elems@.len() == n - i,
                rep_seq(elems@) == vs0.skip(i as int),
                map.wf(),
                pair_rep(map.to_pairs()) == keyed_insert_all(
                    Seq::<(u64, V::Rep)>::empty(),
                    vs0.take(i as int),
                ),
            decreases n - i,
        {
            let ghost elems_before = elems@;
            let e = elems.remove(0);
            proof {
                assert(rep_seq(elems@) =~= rep_seq(elems_before).drop_first());
                assert(vs0.skip(i as int).drop_first() =~= vs0.skip(i + 1));
                assert(e.rep() == rep_seq(elems_before)[0]);
                assert(e.rep() == vs0[i as int]);
            }
            let ghost pairs_before = map.to_pairs();
            let ghost epair = (e.key, e.value);
            let ghost erep = (e.key, e.value.rep());
            map.insert(e.key, e.value);
            proof {
                lemma_pair_rep_insert(pairs_before, epair);
                lemma_keyed_insert_all_snoc(
                    Seq::<(u64, V::Rep)>::empty(),
                    vs0.take(i as int),
                    erep,
                );
                assert(vs0.take(i as int).push(erep) =~= vs0.take(i + 1));
            }
            i = i + 1;
        }
        proof {
            assert(vs0.take(n as int) =~= vs0);
        }
        Ok(map)
    }
}

/// Update into a pair sequence without an ordering promise: an existing
/// key has its value replaced in place, a new key is appended.
pub open spec fn keyed_push<R>(s: Seq<(u64, R)>, e: (u64, R)) -> Seq<(u64, R)>
    decreases s.len(),
{
    if s.len() == 0 {
        seq![e]
    } else if s[0].0 == e.0 {
        seq![e] + s.drop_first()
    } else {
        seq![s[0]] + keyed_push(s.drop_first(), e)
    }
}

/// Every pair of a run added in turn, starting from `acc`.
pub open spec fn keyed_push_all<R>(acc: Seq<(u64, R)>, vs: Seq<(u64, R)>) -> Seq<(u64, R)>
    decreases vs.len(),
{
    if vs.len() == 0 {
        acc
    } else {
        keyed_push_all(keyed_push(acc, vs[0]), vs.drop_first())
    }
}

/// Folding from the left steps off the last pair.
pub proof fn lemma_keyed_push_all_snoc<R>(acc: Seq<(u64, R)>, vs: Seq<(u64, R)>, e: (u64, R))
    ensures
        keyed_push_all(acc, vs.push(e)) == keyed_push(keyed_push_all(acc, vs), e),
    decreases vs.len(),
{
    if vs.len() == 0 {
        assert(vs.push(e).drop_first() =~= Seq::<(u64, R)>::empty());
        assert(vs.push(e)[0] == e);
        assert(keyed_push_all(keyed_push(acc, e), Seq::<(u64, R)>::empty()) == keyed_push(acc, e));
        assert(keyed_push_all(acc, vs) == acc);
    } else {
        assert(vs.push(e)[0] == vs[0]);
        assert(vs.push(e).drop_first() =~= vs.drop_first().push(e));
        lemma_keyed_push_all_snoc(keyed_push(acc, vs[0]), vs.drop_first(), e);
        assert(keyed_push_all(acc, vs) == keyed_push_all(keyed_push(acc, vs[0]), vs.drop_first()));
        assert(keyed_push_all(acc, vs.push(e)) == keyed_push_all(
            keyed_push(acc, vs[0]),
            vs.drop_first().push(e),
        ));
    }
}

/// Adding keeps the keys distinct, and the keys present gain exactly the
/// added one.
pub proof fn lemma_keyed_push_distinct<R>(s: Seq<(u64, R)>, e: (u64, R))
    requires
        keys_distinct(s),
    ensures
        keys_distinct(keyed_push(s, e)),
        forall|y: u64| #[trigger] has_key(keyed_push(s, e), y) <==> has_key(s, y) || y == e.0,
    decreases s.len(),
{
    let r = keyed_push(s, e);
    if s.len() == 0 {
        assert forall|y: u64| has_key(r, y) <==> has_key(s, y) || y == e.0 by {
            if y == e.0 {
                assert(r[0].0 == y);
            }
        }
    } else if s[0].0 == e.0 {
        assert forall|i: int, j: int| 0 <= i < j < r.len() implies r[i].0 != r[j].0 by {
            assert(r[j] == s[j]);
            if i > 0 {
                assert(r[i] == s[i]);
            }
        }
        assert forall|y: u64| has_key(r, y) <==> has_key(s, y) || y == e.0 by {
            if y == e.0 {
                assert(r[0].0 == y);
            }
            if has_key(s, y) {
                let k = choose|k: int| 0 <= k < s.len() && #[trigger] s[k].0 == y;
                if k == 0 {
                    assert(r[0].0 == y);
                } else {
                    assert(r[k].0 == y);
                }
            }
            if has_key(r, y) {
                let m = choose|m: int| 0 <= m < r.len() && #[trigger] r[m].0 == y;
                if m > 0 {
                    assert(s[m].0 == y);
                }
            }
        }
    } else {
        let t = s.drop_first();
        assert(keys_distinct(t));
        lemma_keyed_push_distinct(t, e);
        let rt = keyed_push(t, e);
        assert forall|i: int, j: int| 0 <= i < j < r.len() implies r[i].0 != r[j].0 by {
            if i == 0 {
                let y = rt[j - 1].0;
                assert(rt[j - 1].0 == y);
                assert(has_key(rt, y));
                if y == e.0 {
                    assert(s[0].0 != e.0);
                } else {
                    assert(has_key(t, y));
                    let k = choose|k: int| 0 <= k < t.len() && #[trigger] t[k].0 == y;
                    assert(s[0].0 != t[k].0);
                }
            }
        }
        assert forall|y: u64| has_key(r, y) <==> has_key(s, y) || y == e.0 by {
            if y == e.0 {
                assert(has_key(rt, y));
                let m = choose|m: int| 0 <= m < rt.len() && #[trigger] rt[m].0 == y;
                assert(r[m + 1].0 == y);
            }
            if has_key(s, y) {
                let k = choose|k: int| 0 <= k < s.len() && #[trigger] s[k].0 == y;
                if k == 0 {
                    assert(r[0].0 == y);
                } else {
                    assert(t[k - 1].0 == y);
                    assert(has_key(t, y));
                    assert(has_key(rt, y));
                    let m = choose|m: int| 0 <= m < rt.len() && #[trigger] rt[m].0 == y;
                    assert(r[m + 1].0 == y);
                }
            }
            if has_key(r, y) {
                let m = choose|m: int| 0 <= m < r.len() && #[trigger] r[m].0 == y;
                if m == 0 {
                    assert(s[0].0 == y);
                } else {
                    assert(rt[m - 1].0 == y);
                    assert(has_key(rt, y));
                    if y != e.0 {
                        assert(has_key(t, y));
                        let k = choose|k: int| 0 <= k < t.len() && #[trigger] t[k].0 == y;
                        assert(s[k + 1].0 == y);
                    }
                }
            }
        }
    }
}

/// Adding a key not yet present appends the pair.
pub proof fn lemma_keyed_push_append<R>(s: Seq<(u64, R)>, e: (u64, R))
    requires
        forall|i: int| 0 <= i < s.len() ==> s[i].0 != e.0,
    ensures
        keyed_push(s, e) == s.push(e),
    decreases s.len(),
{
    if s.len() == 0 {
        assert(keyed_push(s, e) =~= s.push(e));
    } else {
        lemma_keyed_push_append(s.drop_first(), e);
        assert(seq![s[0]] + s.drop_first().push(e) =~= s.push(e));
    }
}

/// Re-adding a run of pairs with distinct keys rebuilds it unchanged.
pub proof fn lemma_keyed_push_all_id<R>(s: Seq<(u64, R)>)
    requires
        keys_distinct(s),
    ensures
        keyed_push_all(Seq::empty(), s) == s,
    decreases s.len(),
{
    if s.len() > 0 {
        let t = s.drop_last();
        assert(keys_distinct(t));
        lemma_keyed_push_all_id(t);
        assert(t.push(s.last()) =~= s);
        lemma_keyed_push_all_snoc(Seq::<(u64, R)>::empty(), t, s.last());
        assert(forall|i: int| 0 <= i < t.len() ==> t[i].0 != s.last().0);
        lemma_keyed_push_append(t, s.last());
    }
}

/// Linear search finds where `keyed_push` puts the pair.
pub proof fn lemma_keyed_push_at<R>(s: Seq<(u64, R)>, e: (u64, R), idx: int)
    requires
        0 <= idx <= s.len(),
        forall|k: int| 0 <= k < idx ==> s[k].0 != e.0,
        idx < s.len() ==> s[idx].0 == e.0,
    ensures
        keyed_push(s, e) == if idx < s.len() {
            s.update(idx, e)
        } else {
            s.push(e)
        },
    decreases s.len(),
{
    if s.len() == 0 {
        assert(keyed_push(s, e) =~= s.push(e));
    } else if idx == 0 {
        assert(seq![e] + s.drop_first() =~= s.update(0, e));
    } else {
        assert(s[0].0 != e.0);
        let t = s.drop_first();
        lemma_keyed_push_at(t, e, idx - 1);
        if idx < s.len() {
            assert(seq![s[0]] + t.update(idx - 1, e) =~= s.update(idx, e));
        } else {
            assert(seq![s[0]] + t.push(e) =~= s.push(e));
        }
    }
}

/// Replacing values by their abstract values commutes with the unordered
/// update.
pub proof fn lemma_pair_rep_push<V: Decode>(s: Seq<(u64, V)>, e: (u64, V))
    ensures
        pair_rep(keyed_push(s, e)) == keyed_push(pair_rep(s), (e.0, e.1.rep())),
    decreases s.len(),
{
    let er = (e.0, e.1.rep());
    if s.len() == 0 {
        assert(pair_rep(keyed_push(s, e)) =~= keyed_push(pair_rep(s), er));
    } else if s[0].0 == e.0 {
        assert(pair_rep(keyed_push(s, e)) =~= keyed_push(pair_rep(s), er));
    } else {
        lemma_pair_rep_push(s.drop_first(), e);
        assert(pair_rep(s.drop_first()) =~= pair_rep(s).drop_first());
        assert(pair_rep(keyed_push(s, e)) =~= keyed_push(pair_rep(s), er));
    }
}

/// A map from unsigned 64-bit keys to values without an ordering promise.
///
/// It stands where a hash-based map stood: the iteration order carries no
/// meaning, only which value each key is bound to. Pairs are held in
/// first-insertion order of their keys, and inserting an existing key
/// replaces its value in place.
pub struct UnorderedMap<V> {
    entries: Vec<MapEntry<V>>,
}

impl<V> UnorderedMap<V> {
    /// The held pairs, in their stored order. The order is an artifact of
    /// insertion history, not part of the container's meaning.
    pub closed spec fn to_pairs(&self) -> Seq<(u64, V)> {
        entry_pairs(self.entries@)
    }

    /// The stored entries, for the wire-format specification.
    pub closed spec fn to_entries(&self) -> Seq<MapEntry<V>> {
        self.entries@
    }

    /// The container invariant: each key occurs once.
    pub open spec fn wf(&self) -> bool {
        keys_distinct(self.to_pairs())
    }

    pub fn new() -> (r: Self)
        ensures
            r.wf(),
            r.to_pairs() == Seq::<(u64, V)>::empty(),
            r.to_entries() == Seq::<MapEntry<V>>::empty(),
    {
        let r = Self { entries: Vec::new() };
        proof {
            assert(r.to_pairs() =~= Seq::<(u64, V)>::empty());
        }
        r
    }

    pub fn len(&self) -> (r: usize)
        ensures
            r == self.to_pairs().len(),
    {
        self.entries.len()
    }

    /// Read one key by its stored position.
    pub fn key_at(&self, i: usize) -> (r: u64)
        requires
            i < self.to_pairs().len(),
        ensures
            r == self.to_pairs()[i as int].0,
    {
        proof {
            assert(self.to_pairs()[i as int] == (
                self.entries@[i as int].key,
                self.entries@[i as int].value,
            ));
        }
        self.entries[i].key
    }

    /// Read one value by its key's stored position.
    pub fn value_at(&self, i: usize) -> (r: &V)
        requires
            i < self.to_pairs().len(),
        ensures
            *r == self.to_pairs()[i as int].1,
    {
        proof {
            assert(self.to_pairs()[i as int] == (
                self.entries@[i as int].key,
                self.entries@[i as int].value,
            ));
        }
        &self.entries[i].value
    }

    pub fn contains_key(&self, key: u64) -> (r: bool)
        ensures
            r == has_key(self.to_pairs(), key),
    {
        let n = self.entries.len();
        let mut i: usize = 0;
        while i < n
            invariant
                i <= n,
                n == self.entries@.len(),
                n == self.to_pairs().len(),
                forall|k: int| 0 <= k < i ==> (#[trigger] self.to_pairs()[k]).0 != key,
            decreases n - i,
        {
            proof {
                assert(self.to_pairs()[i as int] == (
                    self.entries@[i as int].key,
                    self.entries@[i as int].value,
                ));
            }
            if self.entries[i].key == key {
                proof {
                    assert(self.to_pairs()[i as int].0 == key);
                }
                return true;
            }
            i = i + 1;
        }
        false
    }

    /// Bind a value to a key: an existing key has its value replaced in
    /// place, a new key is appended.
    pub fn insert(&mut self, key: u64, value: V)
        requires
            old(self).wf(),
        ensures
            final(self).wf(),
            final(self).to_pairs() == keyed_push(old(self).to_pairs(), (key, value)),
    {
        let n = self.entries.len();
        let mut i: usize = 0;
        while i < n && self.entries[i].key != key
            invariant
                i <= n,
                n == self.entries@.len(),
                n == self.to_pairs().len(),
                forall|k: int|
                    0 <= k < self.entries@.len() ==> (#[trigger] self.to_pairs()[k]) == (
                    self.entries@[k].key,
                    self.entries@[k].value,
                ),
                forall|k: int| 0 <= k < i ==> (#[trigger] self.to_pairs()[k]).0 != key,
            decreases n - i,
        {
            i = i + 1;
        }
        proof {
            assert(forall|k: int|
                0 <= k < self.entries@.len() ==> (#[trigger] self.to_pairs()[k]) == (
                self.entries@[k].key,
                self.entries@[k].value,
            ));
            lemma_keyed_push_at(old(self).to_pairs(), (key, value), i as int);
            lemma_keyed_push_distinct(old(self).to_pairs(), (key, value));
        }
        if i < n {
            self.entries.remove(i);
            self.entries.insert(i, MapEntry { key, value });
            proof {
                assert(entry_pairs(self.entries@) =~= entry_pairs(old(self).entries@).update(
                    i as int,
                    (key, value),
                ));
            }
        } else {
            self.entries.push(MapEntry { key, value });
            proof {
                assert(entry_pairs(self.entries@) =~= entry_pairs(old(self).entries@).push(
                    (key, value),
                ));
            }
        }
    }
}

impl<V: Encode> Encode for UnorderedMap<V> {
    open spec fn wire(&self, end: Endianness) -> Seq<u8> {
        end.image(lo32(self.to_entries().len())) + wire_elems(self.to_entries(), end)
    }

    fn encode(&self, encoder: &mut BufferEncoder) -> (r: Result<(), Error>) {
        let r1 = self.entries.encode(encoder);
        proof {
            assert(self.entries.wire(old(encoder).endianness()) == self.wire(
                old(encoder).endianness(),
            ));
        }
        r1
    }
}

impl<V: Decode> Decode for UnorderedMap<V> {
    type Rep = Seq<(u64, V::Rep)>;

    open spec fn rep(&self) -> Seq<(u64, V::Rep)> {
        pair_rep(self.to_pairs())
    }

    open spec fn parse(s: Seq<u8>, end: Endianness) -> Result<(Seq<(u64, V::Rep)>, int), Error> {
        match <Vec<MapEntry<V>> as Decode>::parse(s, end) {
            Ok((vs, n)) => Ok((keyed_push_all(Seq::empty(), vs), n)),
            Err(e) => Err(e),
        }
    }

    proof fn lemma_parse_len(s: Seq<u8>, end: Endianness) {
        <Vec<MapEntry<V>> as Decode>::lemma_parse_len(s, end);
    }

    fn decode(decoder: &mut BufferDecoder) -> (r: Result<Self, Error>) {
        let mut elems = match <Vec<MapEntry<V>> as Decode>::decode(decoder) {
            Ok(v) => v,
            Err(e) => { return Err(e) },
        };
        let ghost vs0 = rep_seq(elems@);
        let mut map = UnorderedMap::new();
        let n = elems.len();
        let mut i: usize = 0;
        while i < n
            invariant
                i <= n,
                n == vs0.len(),
                elems@.len() == n - i,
                rep_seq(elems@) == vs0.skip(i as int),
                map.wf(),
                pair_rep(map.to_pairs()) == keyed_push_all(
                    Seq::<(u64, V::Rep)>::empty(),
                    vs0.take(i as int),
                ),
            decreases n - i,
        {
            let ghost elems_before = elems@;
            let e = elems.remove(0);
            proof {
                assert(rep_seq(elems@) =~= rep_seq(elems_before).drop_first());
                assert(vs0.skip(i as int).drop_first() =~= vs0.skip(i + 1));
                assert(e.rep() == rep_seq(elems_before)[0]);
                assert(e.rep() == vs0[i as int]);
            }
            let ghost pairs_before = map.to_pairs();
            let ghost epair = (e.key, e.value);
            let ghost erep = (e.key, e.value.rep());
            map.insert(e.key, e.value);
            proof {
                lemma_pair_rep_push(pairs_before, epair);
                lemma_keyed_push_all_snoc(Seq::<(u64, V::Rep)>::empty(), vs0.take(i as int), erep);
                assert(vs0.take(i as int).push(erep) =~= vs0.take(i + 1));
            }
            i = i + 1;
        }
        proof {
            assert(vs0.take(n as int) =~= vs0);
        }
        Ok(map)
    }
}

/// The two views of a sorted map agree: the abstract pairs of its entries
/// are the abstract pairs of its key/value view, and an ascending map has
/// ascending abstract keys.
pub proof fn lemma_map_views_agree<V: Decode>(m: &SortedMap<V>)
    ensures
        rep_seq(m.to_entries()) == pair_rep(m.to_pairs()),
        keys_sorted(m.to_pairs()) ==> keys_sorted(rep_seq(m.to_entries())),
{
    assert(rep_seq(m.to_entries()) =~= pair_rep(m.to_pairs()));
    if keys_sorted(m.to_pairs()) {
        let reps = rep_seq(m.to_entries());
        assert forall|i: int, j: int| 0 <= i < j < reps.len() implies reps[i].0 < reps[j].0 by {
            assert(m.to_pairs()[i].0 < m.to_pairs()[j].0);
            assert(reps[i].0 == m.to_pairs()[i].0);
            assert(reps[j].0 == m.to_pairs()[j].0);
        }
    }
}

/// The two views of an unordered map agree: the abstract pairs of its
/// entries are the abstract pairs of its key/value view, and distinct keys
/// stay distinct.
pub proof fn lemma_unordered_map_views_agree<V: Decode>(m: &UnorderedMap<V>)
    ensures
        rep_seq(m.to_entries()) == pair_rep(m.to_pairs()),
        keys_distinct(m.to_pairs()) ==> keys_distinct(rep_seq(m.to_entries())),
{
    assert(rep_seq(m.to_entries()) =~= pair_rep(m.to_pairs()));
    if keys_distinct(m.to_pairs()) {
        let reps = rep_seq(m.to_entries());
        assert forall|i: int, j: int| 0 <= i < j < reps.len() implies reps[i].0 != reps[j].0 by {
            assert(m.to_pairs()[i].0 != m.to_pairs()[j].0);
            assert(reps[i].0 == m.to_pairs()[i].0);
            assert(reps[j].0 == m.to_pairs()[j].0);
        }
    }
}

} // verus!
