//! Slots of a B+-tree node: a key with either a stored value or a pointer to a
//! child page.

use vstd::prelude::*;
use vstd::slice::slice_subrange;
use bytes::BytesMut;
use crate::buffer::{contents, from_slice};
use crate::codec::{i32_be, i32_from_be, lemma_i32_round_trip, overwrite, read_i32, write_i32};
use crate::page::PageId;
use crate::storable::Storable;

verus! {

/// What a slot carries: a value in a leaf, a child pointer in an internal node.
#[derive(PartialEq, Eq, Clone, Copy, Debug)]
pub enum Either<V> {
    Value(V),
    Pointer(PageId),
}

/// A key and what is stored under it.
#[derive(PartialEq, Eq, Clone, Copy, Debug)]
pub struct Slot<K, V>(pub K, pub Either<V>);

/// Width of a slot's payload: room for a value or for a page pointer,
/// whichever is wider.
pub open spec fn payload_size<V: Storable>() -> nat {
    if V::spec_size() < 4 {
        4
    } else {
        V::spec_size()
    }
}

/// Width of an encoded `Either`: one tag byte and the payload.
pub open spec fn either_size<V: Storable>() -> nat {
    1 + payload_size::<V>()
}

/// Width of an encoded slot: the key, then the tagged payload.
pub open spec fn slot_size<K: Storable, V: Storable>() -> nat {
    K::spec_size() + either_size::<V>()
}

/// `b` followed by as many zero bytes as it takes to reach length `n`.
pub open spec fn zero_padded(b: Seq<u8>, n: nat) -> Seq<u8> {
    Seq::new(n, |i: int| if i < b.len() { b[i] } else { 0u8 })
}

impl<V: Storable> Either<V> {
    /// The encoding: tag 0 and the value, or tag 1 and the pointer in big-endian,
    /// zero-padded to the payload width.
    pub open spec fn spec_bytes(self) -> Seq<u8> {
        match self {
            Either::Value(v) => seq![0u8] + zero_padded(v.spec_bytes(), payload_size::<V>()),
            Either::Pointer(p) => seq![1u8] + zero_padded(i32_be(p), payload_size::<V>()),
        }
    }

    /// What `b` decodes to, if its tag is one of the two known.
    pub open spec fn spec_from_bytes(b: Seq<u8>) -> Option<Either<V>> {
        if b[0] == 0 {
            Some(Either::Value(V::spec_from_bytes(b.subrange(1, 1 + V::spec_size() as int))))
        } else if b[0] == 1 {
            Some(Either::Pointer(i32_from_be(b.subrange(1, 5))))
        } else {
            None
        }
    }

    /// Decoding undoes encoding.
    pub proof fn lemma_round_trip(self)
        ensures
            self.spec_bytes().len() == either_size::<V>(),
            Self::spec_from_bytes(self.spec_bytes()) == Some(self),
    {
        let b = self.spec_bytes();
        match self {
            Either::Value(v) => {
                v.lemma_round_trip();
                assert(b.subrange(1, 1 + V::spec_size() as int) =~= v.spec_bytes());
            },
            Either::Pointer(p) => {
                lemma_i32_round_trip(p);
                assert(b.subrange(1, 5) =~= i32_be(p));
            },
        }
    }

    /// Width of the encoding in bytes.
    pub fn size() -> (n: usize)
        ensures
            n == either_size::<V>(),
            5 <= n <= 1 + crate::page::PAGE_SIZE,
    {
        let v = V::size();
        if v < 4 {
            5
        } else {
            1 + v
        }
    }

    /// Decodes a tagged payload; `None` if the tag is unknown.
    pub fn from(value: &[u8]) -> (e: Option<Either<V>>)
        requires
            value.len() == either_size::<V>(),
        ensures
            e == Self::spec_from_bytes(value@),
    {
        let tag = value[0];
        if tag == 0 {
            let n = V::size();
            Some(Either::Value(V::from_bytes(slice_subrange(value, 1, 1 + n))))
        } else if tag == 1 {
            Some(Either::Pointer(read_i32(value, 1)))
        } else {
            None
        }
    }

    /// Writes the encoding over `dst`, starting at `pos`.
    pub fn write_to(&self, dst: &mut Vec<u8>, pos: usize)
        requires
            pos + either_size::<V>() <= old(dst).len(),
        ensures
            final(dst)@ == overwrite(old(dst)@, pos as int, self.spec_bytes()),
    {
        let n = Self::size();
        let mut i: usize = 0;
        while i < n
            invariant
                i <= n,
                n == either_size::<V>(),
                pos + n <= dst.len(),
                dst.len() == old(dst).len(),
                forall|j: int|
                    0 <= j < dst.len() ==> dst@[j] == (if pos <= j < pos + i {
                        0u8
                    } else {
                        old(dst)@[j]
                    }),
            decreases n - i,
        {
            dst.set(pos + i, 0u8);
            i = i + 1;
        }
        match self {
            Either::Value(v) => {
                proof {
                    v.lemma_round_trip();
                }
                v.write_to(dst, pos + 1);
            },
            Either::Pointer(p) => {
                proof {
                    lemma_i32_round_trip(*p);
                }
                dst.set(pos, 1u8);
                write_i32(dst, pos + 1, *p);
            },
        }
        assert(dst@ =~= overwrite(old(dst)@, pos as int, self.spec_bytes()));
    }

    /// The encoding in a buffer of its own.
    pub fn to_bytes(&self) -> (b: BytesMut)
        ensures
            contents(b) == self.spec_bytes(),
    {
        let n = Self::size();
        let mut v: Vec<u8> = Vec::new();
        let mut i: usize = 0;
        while i < n
            invariant
                i <= n,
                v.len() == i,
            decreases n - i,
        {
            v.push(0u8);
            i = i + 1;
        }
        self.write_to(&mut v, 0);
        proof {
            self.lemma_round_trip();
            assert(v@ =~= self.spec_bytes());
        }
        from_slice(v.as_slice())
    }
}

impl<K: Storable, V: Storable> Slot<K, V> {
    /// The encoding: the key's bytes, then the tagged payload.
    pub open spec fn spec_bytes(self) -> Seq<u8> {
        self.0.spec_bytes() + self.1.spec_bytes()
    }

    /// What `b` decodes to, if its tag is one of the two known.
    pub open spec fn spec_from_bytes(b: Seq<u8>) -> Option<Slot<K, V>> {
        match Either::<V>::spec_from_bytes(
            b.subrange(K::spec_size() as int, slot_size::<K, V>() as int),
        ) {
            Some(e) => Some(Slot(K::spec_from_bytes(b.subrange(0, K::spec_size() as int)), e)),
            None => None,
        }
    }

    /// Decoding undoes encoding.
    pub proof fn lemma_round_trip(self)
        ensures
            self.spec_bytes().len() == slot_size::<K, V>(),
            Self::spec_from_bytes(self.spec_bytes()) == Some(self),
    {
        self.0.lemma_round_trip();
        self.1.lemma_round_trip();
        let b = self.spec_bytes();
        assert(b.subrange(0, K::spec_size() as int) =~= self.0.spec_bytes());
        assert(b.subrange(K::spec_size() as int, slot_size::<K, V>() as int)
            =~= self.1.spec_bytes());
    }

    /// Width of the encoding in bytes.
    pub fn size() -> (n: usize)
        ensures
            n == slot_size::<K, V>(),
            6 <= n <= 1 + 2 * crate::page::PAGE_SIZE,
    {
        K::size() + Either::<V>::size()
    }

    /// Decodes a slot; `None` if the payload's tag is unknown.
    pub fn from(value: &[u8]) -> (s: Option<Slot<K, V>>)
        requires
            value.len() == slot_size::<K, V>(),
        ensures
            s == Self::spec_from_bytes(value@),
    {
        let k = K::size();
        let n = Self::size();
        match Either::<V>::from(slice_subrange(value, k, n)) {
            Some(e) => Some(Slot(K::from_bytes(slice_subrange(value, 0, k)), e)),
            None => None,
        }
    }

    /// Writes the encoding over `dst`, starting at `pos`.
    pub fn write_to(&self, dst: &mut Vec<u8>, pos: usize)
        requires
            pos + slot_size::<K, V>() <= old(dst).len(),
        ensures
            final(dst)@ == overwrite(old(dst)@, pos as int, self.spec_bytes()),
    {
        proof {
            self.0.lemma_round_trip();
            self.1.lemma_round_trip();
        }
        self.0.write_to(dst, pos);
        self.1.write_to(dst, pos + K::size());
        assert(dst@ =~= overwrite(old(dst)@, pos as int, self.spec_bytes()));
    }

    /// The encoding in a buffer of its own.
    pub fn to_bytes(&self) -> (b: BytesMut)
        ensures
            contents(b) == self.spec_bytes(),
    {
        let n = Self::size();
        let mut v: Vec<u8> = Vec::new();
        let mut i: usize = 0;
        while i < n
            invariant
                i <= n,
                v.len() == i,
            decreases n - i,
        {
            v.push(0u8);
            i = i + 1;
        }
        self.write_to(&mut v, 0);
        proof {
            self.lemma_round_trip();
            assert(v@ =~= self.spec_bytes());
        }
        from_slice(v.as_slice())
    }
}

} // verus!
