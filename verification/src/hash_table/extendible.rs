//! The extendible hash index: a directory page that maps the low bits of a
//! key's hash to bucket pages, which split as they fill up.

use vstd::prelude::*;
use core::hash::Hasher;
use core::marker::PhantomData;
use std::collections::hash_map::DefaultHasher;
use vstd::std_specs::hash::DefaultHasherAdditionalSpecFns;
use crate::hash_table::bucket_page::{Bucket, BucketView};
use crate::hash_table::dir_page::{pow2, DirView, Directory, MAX_DEPTH};
use crate::page::{zero_page, PageId};
use crate::page_cache::{PageCache, Store};
use crate::pair::Pair;
use crate::storable::Storable;

verus! {

/// Why an operation on the index failed.
#[derive(PartialEq, Eq, Structural, Clone, Copy, Debug)]
pub enum ExtendibleError {
    /// The cache has no frame free to bring a page in, or the store has no
    /// page left for a first bucket.
    Error,
    /// A page does not hold what the index keeps there.
    Corrupt,
}

/// An extendible hash index of keys `K` and values `V`, with buckets of
/// `8 * BUCKET_BIT_SIZE` slots. The index itself is the id of its directory
/// page; directory and buckets live in a page cache.
pub struct ExtendibleHashTable<K, V, const BUCKET_BIT_SIZE: usize> {
    dir_page_id: PageId,
    _data: PhantomData<(K, V)>,
}

/// The hash of a key: that of the default hasher fed with the key's bytes.
pub open spec fn key_hash<K: Storable>(k: K) -> u64 {
    DefaultHasher::spec_finish(seq![k.spec_bytes()])
}

/// Whether a key goes to the upper bucket when a bucket is split by the bit
/// `bit` in a directory of `size` slots: whether that bit of its slot index
/// is set.
pub open spec fn on_upper_side<K: Storable>(k: K, size: nat, bit: nat) -> bool {
    ((key_hash(k) as int % size as int) / bit as int) % 2 == 1
}

/// The bucket with no pair that a zeroed page holds.
pub open spec fn empty_bucket<K: Storable, V: Storable>(b: nat) -> BucketView<K, V> {
    BucketView::<K, V>::raw(zero_page(), b)
}

/// What a split leaves in one of its two buckets: the first `n` of `pairs`
/// that belong on that side, put one after the other into an empty bucket.
pub open spec fn spread<K: Storable, V: Storable>(
    pairs: Seq<Pair<K, V>>,
    b: nat,
    size: nat,
    bit: nat,
    upper: bool,
    n: nat,
) -> BucketView<K, V>
    decreases n,
{
    if n == 0 {
        empty_bucket::<K, V>(b)
    } else {
        let prev = spread(pairs, b, size, bit, upper, (n - 1) as nat);
        let p = pairs[n - 1];
        if on_upper_side(p.a, size, bit) == upper {
            prev.inserted(p.a, p.b)
        } else {
            prev
        }
    }
}

/// Whether the bucket of slot `i` can go one level deeper: it is less deep
/// than the directory, or the directory can double.
pub open spec fn can_deepen(dir: DirView, i: int) -> bool {
    dir.local_depths[i] < dir.global_depth || dir.global_depth < MAX_DEPTH
}

/// Whether the store has the two pages left that a split takes.
pub open spec fn has_two_pages(s: Store) -> bool {
    s.next_id + 2 <= s.pages.len()
}

/// Whether the bucket of slot `i` can be split: it can go one level deeper,
/// and the store has two pages left.
pub open spec fn can_split(s: Store, dir: DirView, i: int) -> bool {
    can_deepen(dir, i) && has_two_pages(s)
}

/// Whether a split that is due fails for want of pages: the bucket could go
/// one level deeper, but the store has not two pages left.
pub open spec fn lacks_pages(s: Store, dir: DirView, i: int) -> bool {
    can_deepen(dir, i) && !has_two_pages(s)
}

/// The store after the full bucket `bucket` on page `page`, which slot `i`
/// of `dir` points at, was split, if it can be: the directory doubles if the
/// bucket is as deep as the directory; two new pages take the pairs, parted
/// by the bit that the bucket's depth gives; and every slot that pointed at
/// the bucket is redirected to one of the two.
pub open spec fn split_store<K: Storable, V: Storable>(
    s: Store,
    dir_id: PageId,
    dir: DirView,
    i: int,
    page: PageId,
    bucket: BucketView<K, V>,
) -> Store {
    if !can_split(s, dir, i) {
        s
    } else {
        let depth = dir.local_depths[i];
        let grown = if depth == dir.global_depth {
            dir.doubled()
        } else {
            dir
        };
        let lower = s.next_id as PageId;
        let upper = (s.next_id + 1) as PageId;
        let pairs = bucket.live_pairs();
        let b = bucket.occupied.len();
        s.allocated().allocated().written(
            dir_id,
            grown.redirected(page, depth, lower, upper).encode(),
        ).written(
            lower,
            spread(pairs, b, grown.size(), pow2(depth as nat), false, pairs.len()).encode(),
        ).written(
            upper,
            spread(pairs, b, grown.size(), pow2(depth as nat), true, pairs.len()).encode(),
        )
    }
}

/// What an operation that may change pages leaves behind.
pub struct Outcome<T> {
    pub store: Store,
    pub result: Result<T, ExtendibleError>,
}

/// What the insertion of the pair of `k` and `v` does, with buckets of bit
/// size `b`: the slot of the key gets a first bucket on a new page if it has
/// none; the pair goes into the first free slot of the bucket, or nowhere if
/// the bucket is full (the result is then `false`); and a bucket that is
/// full then, with the pair or without it, is split. Where the split fails
/// for want of pages the result is the error, and the pair stays where it
/// went. A bucket that is as deep as a directory of the greatest depth is
/// not split, which is no error.
pub open spec fn spec_insert<K: Storable, V: Storable>(
    s: Store,
    dir_id: PageId,
    b: nat,
    k: K,
    v: V,
) -> Outcome<bool> {
    if !s.has(dir_id) {
        Outcome { store: s, result: Err(ExtendibleError::Corrupt) }
    } else {
        match DirView::decode(s.pages[dir_id as int]) {
            None => Outcome { store: s, result: Err(ExtendibleError::Corrupt) },
            Some(dir) => {
                let i = dir.index_of(key_hash(k));
                let first = dir.page_ids[i] == 0;
                if first && s.full() {
                    Outcome { store: s, result: Err(ExtendibleError::Error) }
                } else {
                    let page = if first {
                        s.next_id as PageId
                    } else {
                        dir.page_ids[i]
                    };
                    let dir1 = if first {
                        dir.with_slot(i, page, dir.local_depths[i])
                    } else {
                        dir
                    };
                    let s1 = if first {
                        s.allocated().written(dir_id, dir1.encode())
                    } else {
                        s
                    };
                    if !s1.has(page) {
                        Outcome { store: s1, result: Err(ExtendibleError::Corrupt) }
                    } else {
                        match BucketView::<K, V>::decode(s1.pages[page as int], b) {
                            None => Outcome { store: s1, result: Err(ExtendibleError::Corrupt) },
                            Some(bucket) => {
                                if bucket.is_full() {
                                    Outcome {
                                        store: split_store(s1, dir_id, dir1, i, page, bucket),
                                        result: if lacks_pages(s1, dir1, i) {
                                            Err(ExtendibleError::Error)
                                        } else {
                                            Ok(false)
                                        },
                                    }
                                } else {
                                    let filled = bucket.inserted(k, v);
                                    let s2 = s1.written(page, filled.encode());
                                    Outcome {
                                        store: if filled.is_full() {
                                            split_store(s2, dir_id, dir1, i, page, filled)
                                        } else {
                                            s2
                                        },
                                        result: if filled.is_full() && lacks_pages(s2, dir1, i) {
                                            Err(ExtendibleError::Error)
                                        } else {
                                            Ok(true)
                                        },
                                    }
                                }
                            },
                        }
                    }
                }
            },
        }
    }
}

/// Where an insertion puts its pair: the store and the directory once the
/// slot of the key has a bucket, the slot, the page of the bucket, and the
/// bucket as it is before the pair goes in.
pub struct Reached<K, V> {
    pub store: Store,
    pub dir: DirView,
    pub slot: int,
    pub page: PageId,
    pub bucket: BucketView<K, V>,
}

/// The bucket that the insertion of a pair under `k` reaches, if it reaches
/// one: none where a page on its way does not hold what it should, or the
/// store has no page for a first bucket.
pub open spec fn reached<K: Storable, V: Storable>(s: Store, dir_id: PageId, b: nat, k: K)
    -> Option<Reached<K, V>> {
    if !s.has(dir_id) || DirView::decode(s.pages[dir_id as int]) is None {
        None
    } else {
        let dir = DirView::decode(s.pages[dir_id as int])->0;
        let i = dir.index_of(key_hash(k));
        let first = dir.page_ids[i] == 0;
        let page = if first {
            s.next_id as PageId
        } else {
            dir.page_ids[i]
        };
        let dir1 = if first {
            dir.with_slot(i, page, dir.local_depths[i])
        } else {
            dir
        };
        let s1 = if first {
            s.allocated().written(dir_id, dir1.encode())
        } else {
            s
        };
        if (first && s.full()) || !s1.has(page) || BucketView::<K, V>::decode(
            s1.pages[page as int],
            b,
        ) is None {
            None
        } else {
            Some(
                Reached {
                    store: s1,
                    dir: dir1,
                    slot: i,
                    page,
                    bucket: BucketView::<K, V>::decode(s1.pages[page as int], b)->0,
                },
            )
        }
    }
}

/// Whether the insertion of the pair of `k` and `v` stores the pair: it
/// reaches a bucket, and the bucket has a free slot. The result is then
/// `Ok(true)`, or the error where the pair filled the bucket and the split
/// failed for want of pages.
pub open spec fn stores<K: Storable, V: Storable>(s: Store, dir_id: PageId, b: nat, k: K) -> bool {
    match reached::<K, V>(s, dir_id, b, k) {
        Some(r) => !r.bucket.is_full(),
        None => false,
    }
}

/// The page of the bucket that the insertion of the pair of `k` and `v`
/// splits, if it splits one: the page of the bucket that it reaches, where
/// the bucket is full, with the pair or without it, and can be split.
pub open spec fn split_page<K: Storable, V: Storable>(
    s: Store,
    dir_id: PageId,
    b: nat,
    k: K,
    v: V,
) -> Option<PageId> {
    match reached::<K, V>(s, dir_id, b, k) {
        Some(r) => if (r.bucket.is_full() || r.bucket.inserted(k, v).is_full()) && can_split(
            r.store,
            r.dir,
            r.slot,
        ) {
            Some(r.page)
        } else {
            None
        },
        None => None,
    }
}

/// The bucket that the key `k` belongs to: `Ok(None)` where its slot has no
/// bucket yet.
pub open spec fn bucket_of<K: Storable, V: Storable>(s: Store, dir_id: PageId, b: nat, k: K)
    -> Result<Option<(PageId, BucketView<K, V>)>, ExtendibleError> {
    if !s.has(dir_id) {
        Err(ExtendibleError::Corrupt)
    } else {
        match DirView::decode(s.pages[dir_id as int]) {
            None => Err(ExtendibleError::Corrupt),
            Some(dir) => {
                let page = dir.page_ids[dir.index_of(key_hash(k))];
                if page == 0 {
                    Ok(None)
                } else if !s.has(page) {
                    Err(ExtendibleError::Corrupt)
                } else {
                    match BucketView::<K, V>::decode(s.pages[page as int], b) {
                        None => Err(ExtendibleError::Corrupt),
                        Some(bucket) => Ok(Some((page, bucket))),
                    }
                }
            },
        }
    }
}

/// The values stored under `k`: those that the bucket of `k` holds under it,
/// in slot order.
pub open spec fn spec_get<K: Storable, V: Storable>(s: Store, dir_id: PageId, b: nat, k: K)
    -> Result<Seq<V>, ExtendibleError> {
    match bucket_of::<K, V>(s, dir_id, b, k) {
        Err(e) => Err(e),
        Ok(None) => Ok(Seq::empty()),
        Ok(Some((_, bucket))) => Ok(bucket.find(k)),
    }
}

/// What the removal of the pair of `k` and `v` does: the first slot of the
/// key's bucket that holds the pair is cleared; the result says whether one
/// did.
pub open spec fn spec_remove<K: Storable, V: Storable>(
    s: Store,
    dir_id: PageId,
    b: nat,
    k: K,
    v: V,
) -> Outcome<bool> {
    match bucket_of::<K, V>(s, dir_id, b, k) {
        Err(e) => Outcome { store: s, result: Err(e) },
        Ok(None) => Outcome { store: s, result: Ok(false) },
        Ok(Some((page, bucket))) => Outcome {
            store: s.written(page, bucket.removed(k, v).encode()),
            result: Ok(bucket.holds(k, v)),
        },
    }
}

/// The number of directory slots in use, which is what the index counts as
/// its buckets: two to the power of the global depth.
pub open spec fn spec_num_buckets(s: Store, dir_id: PageId) -> Result<u32, ExtendibleError> {
    if !s.has(dir_id) {
        Err(ExtendibleError::Corrupt)
    } else {
        match DirView::decode(s.pages[dir_id as int]) {
            None => Err(ExtendibleError::Corrupt),
            Some(dir) => Ok(pow2(dir.global_depth as nat) as u32),
        }
    }
}

impl<K: Storable, V: Storable, const BUCKET_BIT_SIZE: usize> ExtendibleHashTable<
    K,
    V,
    BUCKET_BIT_SIZE,
> {
    /// The page of the directory.
    pub closed spec fn dir_page_id(&self) -> PageId {
        self.dir_page_id
    }

    /// The index whose directory is on page `dir_page_id`. A zeroed page is an
    /// empty directory.
    pub fn new(dir_page_id: PageId) -> (table: Self)
        ensures
            table.dir_page_id() == dir_page_id,
    {
        ExtendibleHashTable { dir_page_id, _data: PhantomData }
    }

    /// The hash of a key.
    pub fn hash(k: &K) -> (h: u64)
        ensures
            h == key_hash(*k),
    {
        let n = K::size();
        let mut bytes: Vec<u8> = Vec::new();
        let mut i: usize = 0;
        while i < n
            invariant
                i <= n,
                bytes@.len() == i,
            decreases n - i,
        {
            bytes.push(0u8);
            i = i + 1;
        }
        proof {
            k.lemma_round_trip();
        }
        k.write_to(&mut bytes, 0);
        assert(bytes@ =~= k.spec_bytes());
        let mut hasher = DefaultHasher::new();
        hasher.write(bytes.as_slice());
        assert(hasher@ =~= seq![k.spec_bytes()]);
        hasher.finish()
    }

    /// Reads the directory.
    fn read_dir(&self, pc: &mut PageCache) -> (r: Option<Directory>)
        requires
            old(pc).wf(),
            old(pc).available(),
        ensures
            final(pc).steady(old(pc)),
            final(pc).store() == old(pc).store(),
            match r {
                Some(dir) => old(pc).store().has(self.dir_page_id()) && DirView::decode(
                    old(pc).pages()[self.dir_page_id() as int],
                ) == Some(dir@) && dir@.wf(),
                None => !old(pc).store().has(self.dir_page_id()) || DirView::decode(
                    old(pc).pages()[self.dir_page_id() as int],
                ).is_none(),
            },
    {
        match pc.read_page(self.dir_page_id) {
            Ok(buf) => Directory::from(&buf),
            Err(_) => None,
        }
    }

    /// Reads the bucket on page `page`.
    fn read_bucket(pc: &mut PageCache, page: PageId) -> (r: Option<Bucket<K, V, BUCKET_BIT_SIZE>>)
        requires
            old(pc).wf(),
            old(pc).available(),
        ensures
            final(pc).steady(old(pc)),
            final(pc).store() == old(pc).store(),
            match r {
                Some(bucket) => old(pc).store().has(page) && BucketView::<K, V>::decode(
                    old(pc).pages()[page as int],
                    BUCKET_BIT_SIZE as nat,
                ) == Some(bucket@) && bucket.wf(),
                None => !old(pc).store().has(page) || BucketView::<K, V>::decode(
                    old(pc).pages()[page as int],
                    BUCKET_BIT_SIZE as nat,
                ).is_none(),
            },
    {
        match pc.read_page(page) {
            Ok(buf) => Bucket::<K, V, BUCKET_BIT_SIZE>::from(&buf),
            Err(_) => None,
        }
    }

    /// Writes `data` to page `page`.
    fn write(pc: &mut PageCache, page: PageId, data: &Vec<u8>)
        requires
            old(pc).wf(),
            old(pc).available(),
            old(pc).store().has(page),
            crate::page::is_page(data@),
        ensures
            final(pc).steady(old(pc)),
            final(pc).store() == old(pc).store().written(page, data@),
    {
        let written = pc.write_page(page, data.as_slice());
        assert(written is Ok);
    }

    /// The bucket that `k` belongs to, with its page: see `bucket_of`.
    fn find_bucket(&self, pc: &mut PageCache, k: &K) -> (r: Result<
        Option<(PageId, Bucket<K, V, BUCKET_BIT_SIZE>)>,
        ExtendibleError,
    >)
        requires
            old(pc).wf(),
            old(pc).available(),
        ensures
            final(pc).steady(old(pc)),
            final(pc).store() == old(pc).store(),
            match r {
                Ok(Some((page, bucket))) => bucket_of::<K, V>(
                    old(pc).store(),
                    self.dir_page_id(),
                    BUCKET_BIT_SIZE as nat,
                    *k,
                ) == Ok::<Option<(PageId, BucketView<K, V>)>, ExtendibleError>(
                    Some((page, bucket@)),
                ) && bucket.wf() && old(pc).store().has(page),
                Ok(None) => bucket_of::<K, V>(
                    old(pc).store(),
                    self.dir_page_id(),
                    BUCKET_BIT_SIZE as nat,
                    *k,
                ) == Ok::<Option<(PageId, BucketView<K, V>)>, ExtendibleError>(None),
                Err(e) => bucket_of::<K, V>(
                    old(pc).store(),
                    self.dir_page_id(),
                    BUCKET_BIT_SIZE as nat,
                    *k,
                ) == Err::<Option<(PageId, BucketView<K, V>)>, ExtendibleError>(e),
            },
    {
        let dir = match self.read_dir(pc) {
            Some(dir) => dir,
            None => {
                return Err(ExtendibleError::Corrupt);
            },
        };
        let i = dir.index_of(Self::hash(k));
        let page = dir.get(i);
        if page == 0 {
            return Ok(None);
        }
        match Self::read_bucket(pc, page) {
            Some(bucket) => Ok(Some((page, bucket))),
            None => Err(ExtendibleError::Corrupt),
        }
    }

    /// The values stored under `k`, in the order of their slots. The pages
    /// stay as they are.
    pub fn get(&self, pc: &mut PageCache, k: &K) -> (r: Result<Vec<V>, ExtendibleError>)
        requires
            old(pc).wf(),
        ensures
            final(pc).steady(old(pc)),
            final(pc).store() == old(pc).store(),
            match r {
                Ok(values) => old(pc).available() && spec_get::<K, V>(
                    old(pc).store(),
                    self.dir_page_id(),
                    BUCKET_BIT_SIZE as nat,
                    *k,
                ) == Ok::<Seq<V>, ExtendibleError>(values@),
                Err(e) => if old(pc).available() {
                    spec_get::<K, V>(
                        old(pc).store(),
                        self.dir_page_id(),
                        BUCKET_BIT_SIZE as nat,
                        *k,
                    ) == Err::<Seq<V>, ExtendibleError>(e)
                } else {
                    e == ExtendibleError::Error
                },
            },
    {
        if !pc.has_available() {
            return Err(ExtendibleError::Error);
        }
        match self.find_bucket(pc, k) {
            Err(e) => Err(e),
            Ok(None) => Ok(Vec::new()),
            Ok(Some((_, bucket))) => Ok(bucket.find(k)),
        }
    }

    /// Takes the pair of `k` and `v` out of the index, once, and says whether
    /// it was there.
    pub fn remove(&self, pc: &mut PageCache, k: &K, v: &V) -> (r: Result<bool, ExtendibleError>)
        requires
            old(pc).wf(),
        ensures
            final(pc).steady(old(pc)),
            if old(pc).available() {
                (Outcome { store: final(pc).store(), result: r }) == spec_remove::<K, V>(
                    old(pc).store(),
                    self.dir_page_id(),
                    BUCKET_BIT_SIZE as nat,
                    *k,
                    *v,
                )
            } else {
                r == Err::<bool, ExtendibleError>(ExtendibleError::Error) && final(pc).store()
                    == old(pc).store()
            },
    {
        if !pc.has_available() {
            return Err(ExtendibleError::Error);
        }
        match self.find_bucket(pc, k) {
            Err(e) => Err(e),
            Ok(None) => Ok(false),
            Ok(Some((page, bucket))) => {
                let mut bucket = bucket;
                let found = bucket.remove(k, v);
                let buf = bucket.to_page();
                Self::write(pc, page, &buf);
                Ok(found)
            },
        }
    }

    /// Parts the pairs of a split bucket: see `spread`.
    fn spread(pairs: &Vec<Pair<K, V>>, size: usize, bit: usize, upper: bool) -> (r: Bucket<
        K,
        V,
        BUCKET_BIT_SIZE,
    >)
        requires
            size >= 1,
            bit >= 1,
            crate::hash_table::bucket_page::bucket_fits::<K, V>(BUCKET_BIT_SIZE as nat),
        ensures
            r.wf(),
            r@ == spread(
                pairs@,
                BUCKET_BIT_SIZE as nat,
                size as nat,
                bit as nat,
                upper,
                pairs@.len(),
            ),
    {
        let zeros = crate::page::new_page_buf();
        proof {
            BucketView::<K, V>::lemma_decode(zeros@, BUCKET_BIT_SIZE as nat);
            BucketView::<K, V>::lemma_decode_raw(zeros@, BUCKET_BIT_SIZE as nat);
        }
        let mut bucket = match Bucket::<K, V, BUCKET_BIT_SIZE>::from(&zeros) {
            Some(bucket) => bucket,
            None => vstd::pervasive::unreached(),
        };
        let mut n: usize = 0;
        while n < pairs.len()
            invariant
                n <= pairs@.len(),
                size >= 1,
                bit >= 1,
                bucket.wf(),
                bucket@ == spread(
                    pairs@,
                    BUCKET_BIT_SIZE as nat,
                    size as nat,
                    bit as nat,
                    upper,
                    n as nat,
                ),
            decreases pairs@.len() - n,
        {
            let p = &pairs[n];
            let i = (Self::hash(&p.a) % (size as u64)) as usize;
            if ((i / bit) % 2 == 1) == upper {
                bucket.insert(&p.a, &p.b);
            }
            n = n + 1;
        }
        bucket
    }

    /// Splits the full bucket `bucket` on page `page`, which slot `i` of
    /// `dir` points at, if it can be split: see `split_store`. The page of
    /// the bucket that was split leaves the pool, unless it is pinned. The
    /// result says whether the split failed for want of pages.
    fn split(
        &self,
        pc: &mut PageCache,
        dir: Directory,
        i: usize,
        page: PageId,
        bucket: &Bucket<K, V, BUCKET_BIT_SIZE>,
    ) -> (lacking: bool)
        requires
            old(pc).wf(),
            old(pc).available(),
            old(pc).store().has(self.dir_page_id()),
            dir@.wf(),
            i < dir@.size(),
            bucket.wf(),
        ensures
            final(pc).steady(old(pc)),
            final(pc).store() == split_store(
                old(pc).store(),
                self.dir_page_id(),
                dir@,
                i as int,
                page,
                bucket@,
            ),
            lacking == lacks_pages(old(pc).store(), dir@, i as int),
            can_split(old(pc).store(), dir@, i as int) && old(pc).pin_count(page) == 0
                ==> !final(pc).resident(page),
    {
        proof {
            pc.lemma_pages();
            bucket.lemma_view();
            crate::hash_table::dir_page::lemma_pow2(dir@.global_depth as nat);
        }
        let mut dir = dir;
        let depth = dir.local_depth(i);
        let deepest = depth as u32 >= dir.global_depth();
        if deepest && dir.global_depth() >= MAX_DEPTH {
            return false;
        }
        let next = pc.next_page_id();
        let capacity = pc.capacity();
        if capacity < 2 || next as usize > capacity - 2 {
            return true;
        }
        if deepest {
            dir.incr_global_depth();
        }
        let lower = match pc.create_page() {
            Ok(id) => id,
            Err(_) => vstd::pervasive::unreached(),
        };
        proof {
            pc.lemma_pages();
        }
        let upper = match pc.create_page() {
            Ok(id) => id,
            Err(_) => vstd::pervasive::unreached(),
        };
        proof {
            pc.lemma_pages();
            crate::hash_table::dir_page::lemma_pow2(dir@.global_depth as nat);
            crate::hash_table::dir_page::lemma_pow2(depth as nat);
        }
        let size = dir.size();
        let bit = crate::hash_table::dir_page::pow2_of(depth as u32);
        let pairs = bucket.get_pairs();
        let bucket0 = Self::spread(&pairs, size, bit, false);
        let bucket1 = Self::spread(&pairs, size, bit, true);
        dir.redirect(page, depth, lower, upper);
        proof {
            dir@.lemma_round_trip();
        }
        let buf = dir.to_page();
        Self::write(pc, self.dir_page_id, &buf);
        proof {
            pc.lemma_pages();
        }
        let buf = bucket0.to_page();
        Self::write(pc, lower, &buf);
        proof {
            pc.lemma_pages();
        }
        let buf = bucket1.to_page();
        Self::write(pc, upper, &buf);
        let ghost before = pc.store();
        pc.remove_page(page);
        assert(pc.store() == before);
        false
    }

    /// Puts the pair of `k` and `v` into the index, and says whether it went
    /// in: it does not where the bucket of the key is full. A bucket that is
    /// full afterwards is split, and its page leaves the pool unless it is
    /// pinned; where the store has no pages left for the split, the result
    /// is the error. Without a frame to bring pages in, nothing is done;
    /// otherwise the pages are left as `spec_insert` says.
    pub fn insert(&self, pc: &mut PageCache, k: &K, v: &V) -> (r: Result<bool, ExtendibleError>)
        requires
            old(pc).wf(),
        ensures
            final(pc).steady(old(pc)),
            if old(pc).available() {
                (Outcome { store: final(pc).store(), result: r }) == spec_insert::<K, V>(
                    old(pc).store(),
                    self.dir_page_id(),
                    BUCKET_BIT_SIZE as nat,
                    *k,
                    *v,
                )
            } else {
                r == Err::<bool, ExtendibleError>(ExtendibleError::Error) && final(pc).store()
                    == old(pc).store()
            },
            old(pc).available() ==> (match split_page::<K, V>(
                old(pc).store(),
                self.dir_page_id(),
                BUCKET_BIT_SIZE as nat,
                *k,
                *v,
            ) {
                Some(page) => old(pc).pin_count(page) == 0 ==> !final(pc).resident(page),
                None => true,
            }),
    {
        if !pc.has_available() {
            return Err(ExtendibleError::Error);
        }
        proof {
            pc.lemma_pages();
        }
        let mut dir = match self.read_dir(pc) {
            Some(dir) => dir,
            None => {
                return Err(ExtendibleError::Corrupt);
            },
        };
        let i = dir.index_of(Self::hash(k));
        let mut page = dir.get(i);
        if page == 0 {
            page = match pc.create_page() {
                Ok(id) => id,
                Err(_) => {
                    return Err(ExtendibleError::Error);
                },
            };
            dir.insert(i, page);
            proof {
                pc.lemma_pages();
                dir@.lemma_round_trip();
            }
            let buf = dir.to_page();
            Self::write(pc, self.dir_page_id, &buf);
        }
        proof {
            pc.lemma_pages();
        }
        let mut bucket = match Self::read_bucket(pc, page) {
            Some(bucket) => bucket,
            None => {
                return Err(ExtendibleError::Corrupt);
            },
        };
        if !bucket.insert(k, v) {
            let lacking = self.split(pc, dir, i, page, &bucket);
            return if lacking {
                Err(ExtendibleError::Error)
            } else {
                Ok(false)
            };
        }
        let buf = bucket.to_page();
        Self::write(pc, page, &buf);
        if bucket.is_full() {
            proof {
                pc.lemma_pages();
            }
            let lacking = self.split(pc, dir, i, page, &bucket);
            if lacking {
                return Err(ExtendibleError::Error);
            }
        }
        Ok(true)
    }

    /// The number of directory slots in use: two to the power of the global
    /// depth.
    pub fn get_num_buckets(&self, pc: &mut PageCache) -> (r: Result<u32, ExtendibleError>)
        requires
            old(pc).wf(),
        ensures
            final(pc).steady(old(pc)),
            final(pc).store() == old(pc).store(),
            r == (if old(pc).available() {
                spec_num_buckets(old(pc).store(), self.dir_page_id())
            } else {
                Err(ExtendibleError::Error)
            }),
    {
        if !pc.has_available() {
            return Err(ExtendibleError::Error);
        }
        match self.read_dir(pc) {
            Some(dir) => Ok(dir.size() as u32),
            None => Err(ExtendibleError::Corrupt),
        }
    }
}

} // verus!
