//! The two capabilities the indexes ask of their keys and values: a
//! fixed-width byte encoding, and a total order with a successor.

use vstd::prelude::*;
use vstd::slice::slice_subrange;
use crate::codec::{
    i32_be, i32_from_be, i64_be, i64_from_be, lemma_i32_round_trip, lemma_i64_round_trip,
    lemma_u16_round_trip, lemma_u32_round_trip, lemma_u64_round_trip, overwrite, read_i32,
    read_i64, read_u16, read_u32, read_u64, u16_be, u16_from_be, u32_be, u32_from_be, u64_be,
    u64_from_be, write_i32, write_i64, write_u16, write_u32, write_u64,
};
use crate::page::PAGE_SIZE;

verus! {

/// A value with a fixed-width byte encoding.
pub trait Storable: Sized + Copy {
    /// Width of the encoding in bytes.
    spec fn spec_size() -> nat;

    /// The encoding of `self`.
    spec fn spec_bytes(self) -> Seq<u8>;

    /// The value that `bytes` encodes.
    spec fn spec_from_bytes(bytes: Seq<u8>) -> Self;

    /// Every encoding has the fixed width, which is positive and no more than
    /// a page, and decodes to the value it came from.
    proof fn lemma_round_trip(self)
        ensures
            0 < Self::spec_size() <= PAGE_SIZE,
            self.spec_bytes().len() == Self::spec_size(),
            Self::spec_from_bytes(self.spec_bytes()) == self,
    ;

    /// Width of the encoding in bytes.
    fn size() -> (n: usize)
        ensures
            n == Self::spec_size(),
            0 < n <= PAGE_SIZE,
    ;

    /// Writes the encoding of `self` over `dst`, starting at `pos`.
    fn write_to(&self, dst: &mut Vec<u8>, pos: usize)
        requires
            pos + Self::spec_size() <= old(dst).len(),
        ensures
            final(dst)@ == overwrite(old(dst)@, pos as int, self.spec_bytes()),
    ;

    /// Decodes a value from exactly `size()` bytes.
    fn from_bytes(bytes: &[u8]) -> (v: Self)
        requires
            bytes.len() == Self::spec_size(),
        ensures
            v == Self::spec_from_bytes(bytes@),
    ;

    /// Whether two values are the same.
    fn same(&self, other: &Self) -> (b: bool)
        ensures
            b == (*self == *other),
    ;
}

/// A key: totally ordered by its rank, with a successor for every key but the
/// greatest.
pub trait Increment: Storable {
    /// The position of `self` in the order of keys.
    spec fn rank(self) -> int;

    /// Whether a key greater than `self` exists.
    spec fn has_next(self) -> bool;

    /// The smallest key strictly greater than `self`, where one exists.
    spec fn spec_next(self) -> Self;

    /// Keys of equal rank are equal, a key below another has a successor, and
    /// the successor comes right after the key.
    proof fn lemma_rank(self, other: Self)
        ensures
            self.rank() == other.rank() ==> self == other,
            self.rank() < other.rank() ==> self.has_next(),
            self.has_next() ==> self.spec_next().rank() == self.rank() + 1,
    ;

    /// Whether `self` comes strictly before `other`.
    fn less(&self, other: &Self) -> (b: bool)
        ensures
            b == (self.rank() < other.rank()),
    ;

    /// The smallest key strictly greater than `self`.
    fn next(&self) -> (n: Self)
        requires
            self.has_next(),
        ensures
            n == self.spec_next(),
            n.rank() == self.rank() + 1,
    ;
}

/// Reads a value of type `T` stored at `pos` in `buf`.
pub fn read_at<T: Storable>(buf: &[u8], pos: usize) -> (v: T)
    requires
        pos + T::spec_size() <= buf.len(),
    ensures
        v == T::spec_from_bytes(buf@.subrange(pos as int, pos + T::spec_size())),
{
    let n = T::size();
    T::from_bytes(slice_subrange(buf, pos, pos + n))
}

impl Storable for u16 {
    open spec fn spec_size() -> nat {
        2
    }

    open spec fn spec_bytes(self) -> Seq<u8> {
        u16_be(self)
    }

    open spec fn spec_from_bytes(bytes: Seq<u8>) -> u16 {
        u16_from_be(bytes)
    }

    proof fn lemma_round_trip(self) {
        lemma_u16_round_trip(self);
    }

    fn size() -> (n: usize) {
        2
    }

    fn write_to(&self, dst: &mut Vec<u8>, pos: usize) {
        write_u16(dst, pos, *self);
    }

    fn from_bytes(bytes: &[u8]) -> (v: u16) {
        assert(bytes@.subrange(0, 2) =~= bytes@);
        read_u16(bytes, 0)
    }

    fn same(&self, other: &u16) -> (b: bool) {
        *self == *other
    }
}

impl Increment for u16 {
    open spec fn rank(self) -> int {
        self as int
    }

    open spec fn has_next(self) -> bool {
        self < u16::MAX
    }

    open spec fn spec_next(self) -> u16 {
        (self + 1) as u16
    }

    proof fn lemma_rank(self, other: u16) {
    }

    fn less(&self, other: &u16) -> (b: bool) {
        *self < *other
    }

    fn next(&self) -> (n: u16) {
        *self + 1
    }
}

impl Storable for u32 {
    open spec fn spec_size() -> nat {
        4
    }

    open spec fn spec_bytes(self) -> Seq<u8> {
        u32_be(self)
    }

    open spec fn spec_from_bytes(bytes: Seq<u8>) -> u32 {
        u32_from_be(bytes)
    }

    proof fn lemma_round_trip(self) {
        lemma_u32_round_trip(self);
    }

    fn size() -> (n: usize) {
        4
    }

    fn write_to(&self, dst: &mut Vec<u8>, pos: usize) {
        write_u32(dst, pos, *self);
    }

    fn from_bytes(bytes: &[u8]) -> (v: u32) {
        assert(bytes@.subrange(0, 4) =~= bytes@);
        read_u32(bytes, 0)
    }

    fn same(&self, other: &u32) -> (b: bool) {
        *self == *other
    }
}

impl Increment for u32 {
    open spec fn rank(self) -> int {
        self as int
    }

    open spec fn has_next(self) -> bool {
        self < u32::MAX
    }

    open spec fn spec_next(self) -> u32 {
        (self + 1) as u32
    }

    proof fn lemma_rank(self, other: u32) {
    }

    fn less(&self, other: &u32) -> (b: bool) {
        *self < *other
    }

    fn next(&self) -> (n: u32) {
        *self + 1
    }
}

impl Storable for u64 {
    open spec fn spec_size() -> nat {
        8
    }

    open spec fn spec_bytes(self) -> Seq<u8> {
        u64_be(self)
    }

    open spec fn spec_from_bytes(bytes: Seq<u8>) -> u64 {
        u64_from_be(bytes)
    }

    proof fn lemma_round_trip(self) {
        lemma_u64_round_trip(self);
    }

    fn size() -> (n: usize) {
        8
    }

    fn write_to(&self, dst: &mut Vec<u8>, pos: usize) {
        write_u64(dst, pos, *self);
    }

    fn from_bytes(bytes: &[u8]) -> (v: u64) {
        assert(bytes@.subrange(0, 8) =~= bytes@);
        read_u64(bytes, 0)
    }

    fn same(&self, other: &u64) -> (b: bool) {
        *self == *other
    }
}

impl Increment for u64 {
    open spec fn rank(self) -> int {
        self as int
    }

    open spec fn has_next(self) -> bool {
        self < u64::MAX
    }

    open spec fn spec_next(self) -> u64 {
        (self + 1) as u64
    }

    proof fn lemma_rank(self, other: u64) {
    }

    fn less(&self, other: &u64) -> (b: bool) {
        *self < *other
    }

    fn next(&self) -> (n: u64) {
        *self + 1
    }
}

impl Storable for i32 {
    open spec fn spec_size() -> nat {
        4
    }

    open spec fn spec_bytes(self) -> Seq<u8> {
        i32_be(self)
    }

    open spec fn spec_from_bytes(bytes: Seq<u8>) -> i32 {
        i32_from_be(bytes)
    }

    proof fn lemma_round_trip(self) {
        lemma_i32_round_trip(self);
    }

    fn size() -> (n: usize) {
        4
    }

    fn write_to(&self, dst: &mut Vec<u8>, pos: usize) {
        write_i32(dst, pos, *self);
    }

    fn from_bytes(bytes: &[u8]) -> (v: i32) {
        assert(bytes@.subrange(0, 4) =~= bytes@);
        read_i32(bytes, 0)
    }

    fn same(&self, other: &i32) -> (b: bool) {
        *self == *other
    }
}

impl Increment for i32 {
    open spec fn rank(self) -> int {
        self as int
    }

    open spec fn has_next(self) -> bool {
        self < i32::MAX
    }

    open spec fn spec_next(self) -> i32 {
        (self + 1) as i32
    }

    proof fn lemma_rank(self, other: i32) {
    }

    fn less(&self, other: &i32) -> (b: bool) {
        *self < *other
    }

    fn next(&self) -> (n: i32) {
        *self + 1
    }
}

impl Storable for i64 {
    open spec fn spec_size() -> nat {
        8
    }

    open spec fn spec_bytes(self) -> Seq<u8> {
        i64_be(self)
    }

    open spec fn spec_from_bytes(bytes: Seq<u8>) -> i64 {
        i64_from_be(bytes)
    }

    proof fn lemma_round_trip(self) {
        lemma_i64_round_trip(self);
    }

    fn size() -> (n: usize) {
        8
    }

    fn write_to(&self, dst: &mut Vec<u8>, pos: usize) {
        write_i64(dst, pos, *self);
    }

    fn from_bytes(bytes: &[u8]) -> (v: i64) {
        assert(bytes@.subrange(0, 8) =~= bytes@);
        read_i64(bytes, 0)
    }

    fn same(&self, other: &i64) -> (b: bool) {
        *self == *other
    }
}

impl Increment for i64 {
    open spec fn rank(self) -> int {
        self as int
    }

    open spec fn has_next(self) -> bool {
        self < i64::MAX
    }

    open spec fn spec_next(self) -> i64 {
        (self + 1) as i64
    }

    proof fn lemma_rank(self, other: i64) {
    }

    fn less(&self, other: &i64) -> (b: bool) {
        *self < *other
    }

    fn next(&self) -> (n: i64) {
        *self + 1
    }
}

} // verus!
