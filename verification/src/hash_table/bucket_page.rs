//! The bucket pages of the extendible hash index.
//!
//! A bucket of `8 * BIT_SIZE` slots holds a bitmap of the occupied slots, a
//! bitmap of the readable slots, both of `BIT_SIZE` bytes, and then the pairs
//! at a fixed stride: the key's bytes followed by the value's. A slot holds a
//! pair of the bucket while both its bits are set.

use vstd::prelude::*;
use vstd::slice::slice_subrange;
use crate::bitmap::{
    bit_at, count_bits, lemma_byte_bit, lemma_count_bounds, lemma_count_flip, lemma_with_bit,
    with_bit, BitMap,
};
use crate::codec::{
    lemma_record_offsets, lemma_with_records, overwrite, with_records, write_bytes,
};
use crate::page::{is_page, new_page_buf, zero_page, PageBuf, PAGE_SIZE};
use crate::pair::Pair;
use crate::storable::Storable;

verus! {

/// The bucket bit size used where none is chosen: 256 slots.
pub const DEFAULT_BIT_SIZE: usize = 32;

/// A bucket as held in memory.
pub struct Bucket<K, V, const BIT_SIZE: usize> {
    occupied: BitMap<BIT_SIZE>,
    readable: BitMap<BIT_SIZE>,
    pairs: Vec<Pair<K, V>>,
}

/// The mathematical content of a bucket: the two bitmaps and the pair of
/// every slot.
pub struct BucketView<K, V> {
    pub occupied: Seq<u8>,
    pub readable: Seq<u8>,
    pub pairs: Seq<Pair<K, V>>,
}

/// Width of an encoded pair.
pub open spec fn pair_size<K: Storable, V: Storable>() -> nat {
    K::spec_size() + V::spec_size()
}

/// The bytes of a pair: the key's, then the value's.
pub open spec fn pair_bytes<K: Storable, V: Storable>(p: Pair<K, V>) -> Seq<u8> {
    p.a.spec_bytes() + p.b.spec_bytes()
}

/// The pair that `bytes` encode.
pub open spec fn pair_from_bytes<K: Storable, V: Storable>(bytes: Seq<u8>) -> Pair<K, V> {
    Pair {
        a: K::spec_from_bytes(bytes.subrange(0, K::spec_size() as int)),
        b: V::spec_from_bytes(bytes.subrange(K::spec_size() as int, pair_size::<K, V>() as int)),
    }
}

/// Whether a bucket of bit size `b` fits a page.
pub open spec fn bucket_fits<K: Storable, V: Storable>(b: nat) -> bool {
    2 * b + 8 * b * pair_size::<K, V>() <= PAGE_SIZE
}

impl<K: Storable, V: Storable> BucketView<K, V> {
    /// Number of slots.
    pub open spec fn capacity(self) -> int {
        self.pairs.len() as int
    }

    /// The bucket's invariant: one bit in each bitmap for every slot.
    pub open spec fn wf(self) -> bool {
        &&& self.pairs.len() == 8 * self.occupied.len()
        &&& self.readable.len() == self.occupied.len()
    }

    /// Whether slot `j` holds a pair of the bucket.
    pub open spec fn live(self, j: int) -> bool {
        bit_at(self.occupied, j) && bit_at(self.readable, j)
    }

    /// Whether the bucket holds the pair of `k` and `v`.
    pub open spec fn holds(self, k: K, v: V) -> bool {
        exists|j: int| 0 <= j < self.capacity() && self.live(j) && #[trigger] self.pairs[j] == (Pair { a: k, b: v })
    }

    /// The first slot from `j` on that is not occupied; the capacity if
    /// there is none.
    pub open spec fn free_from(self, j: int) -> int
        decreases self.capacity() - j,
    {
        if j < 0 || j >= self.capacity() || !bit_at(self.occupied, j) {
            j
        } else {
            self.free_from(j + 1)
        }
    }

    /// Whether every slot is occupied.
    pub open spec fn is_full(self) -> bool {
        self.free_from(0) >= self.capacity()
    }

    /// The bucket with the pair of `k` and `v` in its first slot that is not
    /// occupied; the bucket itself if it is full.
    pub open spec fn inserted(self, k: K, v: V) -> BucketView<K, V> {
        let j = self.free_from(0);
        if j < self.capacity() {
            BucketView {
                occupied: with_bit(self.occupied, j, true),
                readable: with_bit(self.readable, j, true),
                pairs: self.pairs.update(j, Pair { a: k, b: v }),
            }
        } else {
            self
        }
    }

    /// The first slot from `j` on that holds the pair of `k` and `v`; the
    /// capacity if there is none.
    pub open spec fn match_from(self, k: K, v: V, j: int) -> int
        decreases self.capacity() - j,
    {
        if j < 0 || j >= self.capacity() || (self.live(j) && self.pairs[j] == (Pair { a: k, b: v })) {
            j
        } else {
            self.match_from(k, v, j + 1)
        }
    }

    /// The bucket without the pair of `k` and `v`, in the first slot that
    /// holds it: the slot's bits are cleared.
    pub open spec fn removed(self, k: K, v: V) -> BucketView<K, V> {
        let j = self.match_from(k, v, 0);
        if j < self.capacity() {
            BucketView {
                occupied: with_bit(self.occupied, j, false),
                readable: with_bit(self.readable, j, false),
                pairs: self.pairs,
            }
        } else {
            self
        }
    }

    /// The values stored under `k` in the first `n` slots, in slot order.
    pub open spec fn find_upto(self, k: K, n: nat) -> Seq<V>
        decreases n,
    {
        if n == 0 {
            Seq::empty()
        } else if self.live(n - 1) && self.pairs[n - 1].a == k {
            self.find_upto(k, (n - 1) as nat).push(self.pairs[n - 1].b)
        } else {
            self.find_upto(k, (n - 1) as nat)
        }
    }

    /// The values stored under `k`, in slot order.
    pub open spec fn find(self, k: K) -> Seq<V> {
        self.find_upto(k, self.pairs.len())
    }

    /// The pairs held in the first `n` slots, in slot order.
    pub open spec fn pairs_upto(self, n: nat) -> Seq<Pair<K, V>>
        decreases n,
    {
        if n == 0 {
            Seq::empty()
        } else if self.live(n - 1) {
            self.pairs_upto((n - 1) as nat).push(self.pairs[n - 1])
        } else {
            self.pairs_upto((n - 1) as nat)
        }
    }

    /// The pairs held, in slot order.
    pub open spec fn live_pairs(self) -> Seq<Pair<K, V>> {
        self.pairs_upto(self.pairs.len())
    }

    /// The bytes of every slot's pair.
    pub open spec fn records(self) -> Seq<Seq<u8>> {
        Seq::new(self.pairs.len(), |j: int| pair_bytes(self.pairs[j]))
    }

    /// The bytes of the page that holds the bucket.
    pub open spec fn encode(self) -> Seq<u8> {
        with_records(
            overwrite(
                overwrite(zero_page(), 0, self.occupied),
                self.occupied.len() as int,
                self.readable,
            ),
            2 * self.occupied.len() as int,
            pair_size::<K, V>() as int,
            self.records(),
            self.pairs.len(),
        )
    }

    /// The bucket of bit size `b` that `bytes` holds, as it reads.
    pub open spec fn raw(bytes: Seq<u8>, b: nat) -> BucketView<K, V> {
        BucketView {
            occupied: bytes.subrange(0, b as int),
            readable: bytes.subrange(b as int, 2 * b as int),
            pairs: Seq::new(
                8 * b,
                |j: int|
                    pair_from_bytes(
                        bytes.subrange(
                            2 * b + j * pair_size::<K, V>(),
                            2 * b + j * pair_size::<K, V>() + pair_size::<K, V>(),
                        ),
                    ),
            ),
        }
    }

    /// The bucket of bit size `b` that a page holds, if such buckets fit a
    /// page.
    pub open spec fn decode(bytes: Seq<u8>, b: nat) -> Option<BucketView<K, V>> {
        if is_page(bytes) && bucket_fits::<K, V>(b) {
            Some(Self::raw(bytes, b))
        } else {
            None
        }
    }

    /// What a page decodes to is a well-formed bucket of the bit size asked
    /// for.
    pub proof fn lemma_decode(bytes: Seq<u8>, b: nat)
        ensures
            Self::decode(bytes, b) is Some <==> is_page(bytes) && bucket_fits::<K, V>(b),
            Self::decode(bytes, b) is Some ==> Self::decode(bytes, b)->0.wf() && Self::decode(
                bytes,
                b,
            )->0.occupied.len() == b,
    {
        if is_page(bytes) && bucket_fits::<K, V>(b) {
            assert(8 * b * pair_size::<K, V>() >= 0) by (nonlinear_arith);
        }
    }

    /// What a page decodes to is the page as it reads.
    pub proof fn lemma_decode_raw(bytes: Seq<u8>, b: nat)
        ensures
            Self::decode(bytes, b) is Some ==> Self::decode(bytes, b) == Some(Self::raw(bytes, b)),
    {
    }

    /// Decoding the page of a bucket gives the bucket back.
    pub proof fn lemma_round_trip(self)
        requires
            self.wf(),
            bucket_fits::<K, V>(self.occupied.len()),
        ensures
            is_page(self.encode()),
            Self::decode(self.encode(), self.occupied.len()) == Some(self),
    {
        let b = self.occupied.len();
        let stride = pair_size::<K, V>() as int;
        let n = self.pairs.len();
        let head = overwrite(overwrite(zero_page(), 0, self.occupied), b as int, self.readable);
        let records = self.records();
        assert forall|j: int| 0 <= j < n implies (#[trigger] records[j]).len() == stride by {
            self.pairs[j].a.lemma_round_trip();
            self.pairs[j].b.lemma_round_trip();
        }
        if n > 0 {
            self.pairs[0].a.lemma_round_trip();
        }
        assert(n * stride == 8 * b * pair_size::<K, V>()) by (nonlinear_arith)
            requires
                n == 8 * b,
                stride == pair_size::<K, V>(),
        ;
        assert(8 * b * pair_size::<K, V>() >= 0) by (nonlinear_arith);
        if n == 0 {
            assert(with_records(head, 2 * b as int, stride, records, 0) == head);
        } else {
            lemma_with_records(head, 2 * b as int, stride, records, n);
        }
        let e = self.encode();
        let r = Self::raw(e, b);
        assert(e == with_records(head, 2 * b as int, stride, records, n));
        assert(head.len() == PAGE_SIZE);
        assert(e.len() == PAGE_SIZE);
        assert(2 * b + n * stride <= PAGE_SIZE);
        assert forall|i: int| 0 <= i < 2 * b implies e[i] == head[i] by {}
        assert(r.occupied =~= self.occupied);
        assert(r.readable =~= self.readable);
        assert forall|j: int| 0 <= j < n implies r.pairs[j] == self.pairs[j] by {
            let p = self.pairs[j];
            p.a.lemma_round_trip();
            p.b.lemma_round_trip();
            let bytes = e.subrange(2 * b + j * stride, 2 * b + j * stride + stride);
            assert(bytes == records[j]);
            assert(bytes.subrange(0, K::spec_size() as int) =~= p.a.spec_bytes());
            assert(bytes.subrange(K::spec_size() as int, stride) =~= p.b.spec_bytes());
        }
        assert(r.pairs =~= self.pairs);
    }

    /// What the scan for a free slot finds.
    pub proof fn lemma_free_from(self, j: int)
        requires
            0 <= j <= self.capacity(),
        ensures
            j <= self.free_from(j) <= self.capacity(),
            forall|i: int| j <= i < self.free_from(j) ==> bit_at(self.occupied, i),
            self.free_from(j) < self.capacity() ==> !bit_at(self.occupied, self.free_from(j)),
        decreases self.capacity() - j,
    {
        if j < self.capacity() && bit_at(self.occupied, j) {
            self.lemma_free_from(j + 1);
        }
    }

    /// What the scan for a pair finds.
    pub proof fn lemma_match_from(self, k: K, v: V, j: int)
        requires
            0 <= j <= self.capacity(),
        ensures
            j <= self.match_from(k, v, j) <= self.capacity(),
            forall|i: int|
                j <= i < self.match_from(k, v, j) ==> !(self.live(i) && #[trigger] self.pairs[i]
                    == (Pair { a: k, b: v })),
            self.match_from(k, v, j) < self.capacity() ==> self.live(self.match_from(k, v, j))
                && self.pairs[self.match_from(k, v, j)] == (Pair { a: k, b: v }),
        decreases self.capacity() - j,
    {
        if j < self.capacity() && !(self.live(j) && self.pairs[j] == (Pair { a: k, b: v })) {
            self.lemma_match_from(k, v, j + 1);
        }
    }

    /// A lookup returns the values of the pairs that the bucket holds.
    pub proof fn lemma_find(self, k: K, v: V, n: nat)
        requires
            n <= self.pairs.len(),
        ensures
            self.find_upto(k, n).contains(v) <==> exists|j: int|
                0 <= j < n && self.live(j) && #[trigger] self.pairs[j] == (Pair { a: k, b: v }),
        decreases n,
    {
        if n > 0 {
            self.lemma_find(k, v, (n - 1) as nat);
            let prev = self.find_upto(k, (n - 1) as nat);
            let cur = self.find_upto(k, n);
            let hit = self.live(n - 1) && self.pairs[n - 1].a == k;
            if hit {
                assert(cur == prev.push(self.pairs[n - 1].b));
                if cur.contains(v) {
                    let i = choose|i: int| 0 <= i < cur.len() && cur[i] == v;
                    if i < prev.len() {
                        assert(prev[i] == v);
                        assert(prev.contains(v));
                    } else {
                        assert(self.pairs[n - 1] == (Pair { a: k, b: v }));
                    }
                }
                if prev.contains(v) {
                    let i = choose|i: int| 0 <= i < prev.len() && prev[i] == v;
                    assert(cur[i] == v);
                }
                if self.pairs[n - 1] == (Pair { a: k, b: v }) {
                    assert(cur[cur.len() - 1] == v);
                }
            }
        }
    }

    /// After a removal, the bucket holds every other pair that it held.
    pub proof fn lemma_removed(self, k: K, v: V, k2: K, v2: V)
        requires
            self.wf(),
        ensures
            self.removed(k, v).wf(),
            self.removed(k, v).occupied.len() == self.occupied.len(),
            self.match_from(k, v, 0) < self.capacity() <==> self.holds(k, v),
            k2 != k || v2 != v ==> (self.removed(k, v).holds(k2, v2) <==> self.holds(k2, v2)),
            forall|i: int|
                0 <= i < self.capacity() ==> self.removed(k, v).live(i) == (self.live(i) && i
                    != self.match_from(k, v, 0)),
    {
        let j = self.match_from(k, v, 0);
        let r = self.removed(k, v);
        self.lemma_match_from(k, v, 0);
        if self.holds(k, v) {
            let i = choose|i: int|
                0 <= i < self.capacity() && self.live(i) && #[trigger] self.pairs[i] == (Pair {
                    a: k,
                    b: v,
                });
            assert(j <= i);
        }
        if j < self.capacity() {
            assert forall|i: int| 0 <= i < self.capacity() implies r.live(i) == (self.live(i)
                && i != j) by {
                lemma_with_bit(self.occupied, j, false, i);
                lemma_with_bit(self.readable, j, false, i);
            }
            lemma_with_bit(self.occupied, j, false, j);
            if k2 != k || v2 != v {
                if r.holds(k2, v2) {
                    let i = choose|i: int|
                        0 <= i < r.capacity() && r.live(i) && #[trigger] r.pairs[i] == (Pair {
                            a: k2,
                            b: v2,
                        });
                    assert(self.live(i) && self.pairs[i] == (Pair { a: k2, b: v2 }));
                }
                if self.holds(k2, v2) {
                    let i = choose|i: int|
                        0 <= i < self.capacity() && self.live(i) && #[trigger] self.pairs[i] == (
                        Pair { a: k2, b: v2 });
                    assert(i != j);
                    assert(r.live(i) && r.pairs[i] == (Pair { a: k2, b: v2 }));
                }
            }
        }
    }

    /// After a removal, the lookup of the key returns what it returned but
    /// for the value of the slot that was cleared, which was the first
    /// occurrence of the value; the lookup of another key returns what it
    /// returned.
    pub proof fn lemma_removed_find(self, k: K, v: V, k2: K, n: nat)
        requires
            self.wf(),
            self.holds(k, v),
            n <= self.pairs.len(),
        ensures
            k2 != k ==> self.removed(k, v).find_upto(k2, n) == self.find_upto(k2, n),
            n <= self.match_from(k, v, 0) ==> self.removed(k, v).find_upto(k, n) == self.find_upto(
                k,
                n,
            ) && !self.find_upto(k, n).contains(v),
            n > self.match_from(k, v, 0) ==> {
                let at = self.find_upto(k, self.match_from(k, v, 0) as nat).len() as int;
                &&& at < self.find_upto(k, n).len()
                &&& self.find_upto(k, n)[at] == v
                &&& self.find_upto(k, n).take(at) == self.find_upto(
                    k,
                    self.match_from(k, v, 0) as nat,
                )
                &&& self.removed(k, v).find_upto(k, n) == self.find_upto(k, n).remove(at)
            },
        decreases n,
    {
        let j = self.match_from(k, v, 0);
        let r = self.removed(k, v);
        self.lemma_removed(k, v, k, v);
        self.lemma_match_from(k, v, 0);
        assert(r.pairs == self.pairs);
        if n > 0 {
            self.lemma_removed_find(k, v, k2, (n - 1) as nat);
            let m = (n - 1) as nat;
            assert(r.live(n - 1) == (self.live(n - 1) && n - 1 != j));
            if n <= j {
                self.lemma_find(k, v, n);
            } else if n - 1 == j {
                let prev = self.find_upto(k, m);
                let cur = self.find_upto(k, n);
                assert(cur == prev.push(v));
                assert(cur.take(prev.len() as int) =~= prev);
                assert(cur.remove(prev.len() as int) =~= prev);
            } else {
                let at = self.find_upto(k, j as nat).len() as int;
                let prev = self.find_upto(k, m);
                let cur = self.find_upto(k, n);
                if self.live(n - 1) && self.pairs[n - 1].a == k {
                    assert(cur == prev.push(self.pairs[n - 1].b));
                    assert(cur.take(at) =~= prev.take(at));
                    assert(cur.remove(at) =~= prev.remove(at).push(self.pairs[n - 1].b));
                }
            }
        }
    }

    /// Number of occupied slots.
    pub open spec fn occupied_count(self) -> nat {
        count_bits(self.occupied, self.pairs.len())
    }

    /// A bucket is full when as many slots are occupied as it has.
    pub proof fn lemma_full(self)
        requires
            self.wf(),
        ensures
            self.occupied_count() <= self.capacity(),
            self.is_full() <==> self.occupied_count() == self.capacity(),
    {
        self.lemma_free_from(0);
        lemma_count_bounds(self.occupied, self.pairs.len());
    }

    /// An insertion into a bucket with a free slot occupies one more slot.
    pub proof fn lemma_inserted_count(self, k: K, v: V)
        requires
            self.wf(),
            !self.is_full(),
        ensures
            self.inserted(k, v).occupied_count() == self.occupied_count() + 1,
    {
        let j = self.free_from(0);
        self.lemma_free_from(0);
        assert forall|i: int| 0 <= i < self.pairs.len() && i != j implies bit_at(self.occupied, i)
            == bit_at(with_bit(self.occupied, j, true), i) by {
            lemma_with_bit(self.occupied, j, true, i);
        }
        lemma_with_bit(self.occupied, j, true, j);
        lemma_count_flip(
            self.occupied,
            with_bit(self.occupied, j, true),
            j,
            self.pairs.len(),
        );
    }

    /// A zeroed page holds a bucket without a pair.
    pub proof fn lemma_empty(b: nat)
        requires
            bucket_fits::<K, V>(b),
        ensures
            Self::decode(zero_page(), b) == Some(Self::raw(zero_page(), b)),
            Self::raw(zero_page(), b).wf(),
            Self::raw(zero_page(), b).occupied.len() == b,
            Self::raw(zero_page(), b).occupied_count() == 0,
            forall|j: int| 0 <= j < 8 * b ==> !Self::raw(zero_page(), b).live(j),
    {
        let e = Self::raw(zero_page(), b);
        assert(8 * b * pair_size::<K, V>() >= 0) by (nonlinear_arith);
        assert forall|j: int| 0 <= j < 8 * b implies !bit_at(e.occupied, j) by {
            lemma_byte_bit(0, 0, (j % 8) as u8);
        }
        lemma_count_bounds(e.occupied, 8 * b);
    }

    /// The pairs held are the pairs of the live slots.
    pub proof fn lemma_live_pairs(self, p: Pair<K, V>, n: nat)
        requires
            n <= self.pairs.len(),
        ensures
            self.pairs_upto(n).len() <= n,
            self.pairs_upto(n).contains(p) <==> exists|j: int|
                0 <= j < n && self.live(j) && #[trigger] self.pairs[j] == p,
        decreases n,
    {
        if n > 0 {
            self.lemma_live_pairs(p, (n - 1) as nat);
            let prev = self.pairs_upto((n - 1) as nat);
            let cur = self.pairs_upto(n);
            if self.live(n - 1) {
                assert(cur == prev.push(self.pairs[n - 1]));
                if cur.contains(p) {
                    let i = choose|i: int| 0 <= i < cur.len() && cur[i] == p;
                    if i < prev.len() {
                        assert(prev[i] == p);
                        assert(prev.contains(p));
                    } else {
                        assert(self.pairs[n - 1] == p);
                    }
                }
                if prev.contains(p) {
                    let i = choose|i: int| 0 <= i < prev.len() && prev[i] == p;
                    assert(cur[i] == p);
                }
                if self.pairs[n - 1] == p {
                    assert(cur[cur.len() - 1] == p);
                }
            }
        }
    }

    /// After an insertion into a bucket with a free slot, the bucket holds the
    /// new pair and the pairs that it held.
    pub proof fn lemma_inserted(self, k: K, v: V, k2: K, v2: V)
        requires
            self.wf(),
            !self.is_full(),
        ensures
            self.inserted(k, v).wf(),
            self.inserted(k, v).occupied.len() == self.occupied.len(),
            self.inserted(k, v).holds(k2, v2) <==> self.holds(k2, v2) || (k2 == k && v2 == v),
    {
        let j = self.free_from(0);
        let r = self.inserted(k, v);
        self.lemma_free_from(0);
        assert forall|i: int| 0 <= i < self.capacity() implies r.live(i) == (i == j || self.live(
            i,
        )) by {
            lemma_with_bit(self.occupied, j, true, i);
            lemma_with_bit(self.readable, j, true, i);
        }
        lemma_with_bit(self.occupied, j, true, j);
        lemma_with_bit(self.readable, j, true, j);
        if r.holds(k2, v2) {
            let i = choose|i: int|
                0 <= i < r.capacity() && r.live(i) && #[trigger] r.pairs[i] == (Pair {
                    a: k2,
                    b: v2,
                });
            if i != j {
                assert(self.live(i) && self.pairs[i] == (Pair { a: k2, b: v2 }));
            }
        }
        if self.holds(k2, v2) {
            let i = choose|i: int|
                0 <= i < self.capacity() && self.live(i) && #[trigger] self.pairs[i] == (Pair {
                    a: k2,
                    b: v2,
                });
            assert(i != j);
            assert(r.live(i) && r.pairs[i] == (Pair { a: k2, b: v2 }));
        }
        if k2 == k && v2 == v {
            assert(r.live(j) && r.pairs[j] == (Pair { a: k2, b: v2 }));
        }
    }
}

impl<K: Storable, V: Storable, const BIT_SIZE: usize> Bucket<K, V, BIT_SIZE> {
    /// The mathematical content of the bucket.
    pub closed spec fn view(&self) -> BucketView<K, V> {
        BucketView {
            occupied: self.occupied.bytes(),
            readable: self.readable.bytes(),
            pairs: self.pairs@,
        }
    }

    /// The bucket's invariant: the bitmaps count their bits, there is a pair
    /// for every slot, and the bucket fits a page.
    pub closed spec fn wf(&self) -> bool {
        &&& self.occupied.wf()
        &&& self.readable.wf()
        &&& self.pairs@.len() == 8 * BIT_SIZE
        &&& bucket_fits::<K, V>(BIT_SIZE as nat)
    }

    /// What the invariant says of the content.
    pub proof fn lemma_view(&self)
        requires
            self.wf(),
        ensures
            self@.wf(),
            self@.occupied.len() == BIT_SIZE,
            bucket_fits::<K, V>(BIT_SIZE as nat),
    {
    }

    /// Whether buckets of this bit size fit a page.
    pub fn fits() -> (b: bool)
        ensures
            b == bucket_fits::<K, V>(BIT_SIZE as nat),
    {
        let stride = K::size() + V::size();
        if BIT_SIZE > PAGE_SIZE {
            proof {
                assert(8 * BIT_SIZE * pair_size::<K, V>() >= 0) by (nonlinear_arith);
            }
            return false;
        }
        proof {
            assert((8 * BIT_SIZE) * stride <= 268435456) by (nonlinear_arith)
                requires
                    0 <= BIT_SIZE <= 4096,
                    0 <= stride <= 8192,
            ;
        }
        2 * BIT_SIZE + 8 * BIT_SIZE * stride <= PAGE_SIZE
    }

    /// Reads the bucket that a page holds; `None` if the argument is no page,
    /// or buckets of this bit size do not fit one.
    pub fn from(buf: &PageBuf) -> (r: Option<Self>)
        ensures
            match r {
                Some(bucket) => BucketView::<K, V>::decode(buf@, BIT_SIZE as nat) == Some(bucket@)
                    && bucket.wf(),
                None => BucketView::<K, V>::decode(buf@, BIT_SIZE as nat).is_none(),
            },
    {
        if buf.len() != PAGE_SIZE || !Self::fits() {
            return None;
        }
        let ks = K::size();
        let stride = ks + V::size();
        proof {
            assert(8 * BIT_SIZE * stride >= 0) by (nonlinear_arith);
            assert(8 * BIT_SIZE * stride == (8 * BIT_SIZE) * stride) by (nonlinear_arith);
        }
        let occupied = BitMap::<BIT_SIZE>::from_bytes(slice_subrange(buf.as_slice(), 0, BIT_SIZE));
        let readable = BitMap::<BIT_SIZE>::from_bytes(
            slice_subrange(buf.as_slice(), BIT_SIZE, 2 * BIT_SIZE),
        );
        let cap = 8 * BIT_SIZE;
        let mut pairs: Vec<Pair<K, V>> = Vec::new();
        let mut j: usize = 0;
        let mut from: usize = 2 * BIT_SIZE;
        while j < cap
            invariant
                j <= cap,
                cap == 8 * BIT_SIZE,
                buf.len() == PAGE_SIZE,
                ks == K::spec_size(),
                stride == pair_size::<K, V>(),
                stride > 0,
                2 * BIT_SIZE + cap * stride <= PAGE_SIZE,
                from == 2 * BIT_SIZE + j * stride,
                pairs@.len() == j,
                forall|i: int|
                    0 <= i < j ==> #[trigger] pairs@[i] == BucketView::<K, V>::raw(
                        buf@,
                        BIT_SIZE as nat,
                    ).pairs[i],
            decreases cap - j,
        {
            proof {
                lemma_record_offsets(j as int, cap as int, stride as int);
            }
            let bytes = slice_subrange(buf.as_slice(), from, from + stride);
            let a = K::from_bytes(slice_subrange(bytes, 0, ks));
            let b = V::from_bytes(slice_subrange(bytes, ks, stride));
            pairs.push(Pair { a, b });
            j = j + 1;
            from = from + stride;
        }
        let bucket = Bucket { occupied, readable, pairs };
        proof {
            assert(bucket@.pairs =~= BucketView::<K, V>::raw(buf@, BIT_SIZE as nat).pairs);
        }
        Some(bucket)
    }

    /// Lays the bucket out on a fresh page.
    pub fn to_page(&self) -> (buf: PageBuf)
        requires
            self.wf(),
        ensures
            buf@ == self@.encode(),
            is_page(buf@),
    {
        let mut buf = new_page_buf();
        let ks = K::size();
        let stride = ks + V::size();
        proof {
            assert(8 * BIT_SIZE * stride >= 0) by (nonlinear_arith);
            assert(8 * BIT_SIZE * stride == (8 * BIT_SIZE) * stride) by (nonlinear_arith);
        }
        write_bytes(&mut buf, 0, self.occupied.as_slice());
        write_bytes(&mut buf, BIT_SIZE, self.readable.as_slice());
        let ghost head = buf@;
        let cap = 8 * BIT_SIZE;
        let mut j: usize = 0;
        let mut from: usize = 2 * BIT_SIZE;
        while j < cap
            invariant
                j <= cap,
                cap == 8 * BIT_SIZE,
                self.pairs@.len() == cap,
                buf.len() == PAGE_SIZE,
                ks == K::spec_size(),
                stride == pair_size::<K, V>(),
                stride > 0,
                2 * BIT_SIZE + cap * stride <= PAGE_SIZE,
                from == 2 * BIT_SIZE + j * stride,
                buf@ == with_records(
                    head,
                    2 * BIT_SIZE as int,
                    stride as int,
                    self@.records(),
                    j as nat,
                ),
            decreases cap - j,
        {
            proof {
                lemma_record_offsets(j as int, cap as int, stride as int);
                self.pairs@[j as int].a.lemma_round_trip();
                self.pairs@[j as int].b.lemma_round_trip();
            }
            let ghost before = buf@;
            self.pairs[j].a.write_to(&mut buf, from);
            self.pairs[j].b.write_to(&mut buf, from + ks);
            proof {
                assert(buf@ =~= overwrite(before, from as int, self@.records()[j as int]));
            }
            j = j + 1;
            from = from + stride;
        }
        buf
    }

    /// Whether every slot is occupied.
    pub fn is_full(&self) -> (b: bool)
        requires
            self.wf(),
        ensures
            b == self@.is_full(),
    {
        let b = self.occupied.is_full();
        proof {
            self@.lemma_free_from(0);
        }
        b
    }

    /// The first slot that is not occupied; the capacity if there is none.
    fn first_free(&self) -> (j: usize)
        requires
            self.wf(),
        ensures
            j == self@.free_from(0),
            j <= 8 * BIT_SIZE,
    {
        let cap = 8 * BIT_SIZE;
        let mut j: usize = 0;
        while j < cap && self.occupied.check(j)
            invariant
                j <= cap,
                cap == 8 * BIT_SIZE,
                self.wf(),
                self@.free_from(0) == self@.free_from(j as int),
            decreases cap - j,
        {
            j = j + 1;
        }
        j
    }

    /// Puts the pair of `k` and `v` into the first slot that is not occupied,
    /// and says whether there was one.
    pub fn insert(&mut self, k: &K, v: &V) -> (added: bool)
        requires
            old(self).wf(),
        ensures
            final(self).wf(),
            added == !old(self)@.is_full(),
            final(self)@ == old(self)@.inserted(*k, *v),
    {
        let j = self.first_free();
        if j < 8 * BIT_SIZE {
            self.occupied.set(j, true);
            self.readable.set(j, true);
            self.pairs.set(j, Pair { a: *k, b: *v });
            true
        } else {
            false
        }
    }

    /// Takes the pair of `k` and `v` out of the first slot that holds it, and
    /// says whether one did.
    pub fn remove(&mut self, k: &K, v: &V) -> (found: bool)
        requires
            old(self).wf(),
        ensures
            final(self).wf(),
            found == old(self)@.holds(*k, *v),
            final(self)@ == old(self)@.removed(*k, *v),
    {
        let cap = 8 * BIT_SIZE;
        let mut j: usize = 0;
        while j < cap && !(self.occupied.check(j) && self.readable.check(j) && self.pairs[j].a.same(
            k,
        ) && self.pairs[j].b.same(v))
            invariant
                j <= cap,
                cap == 8 * BIT_SIZE,
                self.wf(),
                self@.match_from(*k, *v, 0) == self@.match_from(*k, *v, j as int),
            decreases cap - j,
        {
            j = j + 1;
        }
        proof {
            self@.lemma_match_from(*k, *v, 0);
        }
        if j < cap {
            self.occupied.set(j, false);
            self.readable.set(j, false);
            assert(old(self)@.pairs[j as int] == (Pair { a: *k, b: *v }));
            true
        } else {
            false
        }
    }

    /// The values stored under `k`, in slot order.
    pub fn find(&self, k: &K) -> (values: Vec<V>)
        requires
            self.wf(),
        ensures
            values@ == self@.find(*k),
    {
        let cap = 8 * BIT_SIZE;
        let mut values: Vec<V> = Vec::new();
        let mut j: usize = 0;
        while j < cap
            invariant
                j <= cap,
                cap == 8 * BIT_SIZE,
                self.wf(),
                values@ == self@.find_upto(*k, j as nat),
            decreases cap - j,
        {
            if self.occupied.check(j) && self.readable.check(j) && self.pairs[j].a.same(k) {
                values.push(self.pairs[j].b);
            }
            j = j + 1;
        }
        values
    }

    /// The pairs held, in slot order.
    pub fn get_pairs(&self) -> (pairs: Vec<Pair<K, V>>)
        requires
            self.wf(),
        ensures
            pairs@ == self@.live_pairs(),
    {
        let cap = 8 * BIT_SIZE;
        let mut pairs: Vec<Pair<K, V>> = Vec::new();
        let mut j: usize = 0;
        while j < cap
            invariant
                j <= cap,
                cap == 8 * BIT_SIZE,
                self.wf(),
                pairs@ == self@.pairs_upto(j as nat),
            decreases cap - j,
        {
            if self.occupied.check(j) && self.readable.check(j) {
                pairs.push(self.pairs[j]);
            }
            j = j + 1;
        }
        pairs
    }
}

} // verus!
