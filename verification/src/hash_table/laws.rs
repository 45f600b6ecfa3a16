//! What the operations of the extendible hash index do to the pairs that it
//! holds.
//!
//! The index holds a pair when the lookup of its key returns its value. The
//! laws here say that an insertion adds its pair and no other, that a removal
//! takes its pair out once, and that neither disturbs the other pairs, also
//! where buckets split and the directory doubles on the way.

use vstd::prelude::*;
use vstd::arithmetic::div_mod::{lemma_mod_mod, lemma_small_mod};
use crate::hash_table::bucket_page::{bucket_fits, BucketView};
use crate::hash_table::dir_page::{lemma_pow2, pow2, DirView, DIRECTORY_SIZE, MAX_DEPTH};
use crate::hash_table::extendible::{
    bucket_of, can_split, empty_bucket, key_hash, lacks_pages, on_upper_side, reached,
    spec_get, spec_insert, spec_remove, split_store, spread, stores, ExtendibleError,
};
use crate::page::{is_page, zero_page, PageId};
use crate::page_cache::Store;
use crate::pair::Pair;
use crate::storable::Storable;

verus! {

/// Whether the index holds the pair of `k` and `v`: the lookup of `k`
/// returns `v`.
pub open spec fn holds<K: Storable, V: Storable>(s: Store, dir_id: PageId, b: nat, k: K, v: V)
    -> bool {
    match spec_get::<K, V>(s, dir_id, b, k) {
        Ok(values) => values.contains(v),
        Err(_) => false,
    }
}

/// Whether the store holds an index with its directory on page `dir_id` and
/// buckets of bit size `b`: the directory page was allocated and holds a
/// directory, whose slots in use point at no bucket yet (page 0) or at a
/// page that was allocated and is not the directory's; and buckets fit a
/// page.
pub open spec fn index_wf<K: Storable, V: Storable>(s: Store, dir_id: PageId, b: nat) -> bool {
    &&& 0 <= dir_id < s.next_id <= s.pages.len() <= i32::MAX
    &&& forall|p: int| 0 <= p < s.pages.len() ==> is_page(#[trigger] s.pages[p])
    &&& bucket_fits::<K, V>(b)
    &&& DirView::decode(s.pages[dir_id as int]) is Some
    &&& forall|i: int|
        0 <= i < DirView::decode(s.pages[dir_id as int])->0.size() ==> {
            let page = #[trigger] DirView::decode(s.pages[dir_id as int])->0.page_ids[i];
            page == 0 || (0 < page < s.next_id && page != dir_id)
        }
}

/// **A new index.** A store whose directory page is zeroed holds a
/// well-formed index, which holds no pair.
pub proof fn lemma_new_index<K: Storable, V: Storable>(
    s: Store,
    dir_id: PageId,
    b: nat,
    k: K,
    v: V,
)
    requires
        0 <= dir_id < s.next_id <= s.pages.len() <= i32::MAX,
        forall|p: int| 0 <= p < s.pages.len() ==> is_page(#[trigger] s.pages[p]),
        bucket_fits::<K, V>(b),
        s.pages[dir_id as int] == zero_page(),
    ensures
        index_wf::<K, V>(s, dir_id, b),
        spec_get::<K, V>(s, dir_id, b, k) == Ok::<Seq<V>, ExtendibleError>(Seq::empty()),
        !holds(s, dir_id, b, k, v),
{
    DirView::lemma_zero_page();
    let dir = DirView::decode(s.pages[dir_id as int])->0;
    assert(dir.size() == 1) by {
        reveal_with_fuel(pow2, 2);
    }
    assert(dir.index_of(key_hash(k)) == 0);
}

/// What a split leaves in one of its buckets: of the pairs, those that
/// belong on its side.
pub proof fn lemma_spread<K: Storable, V: Storable>(
    pairs: Seq<Pair<K, V>>,
    b: nat,
    size: nat,
    bit: nat,
    upper: bool,
    n: nat,
    k: K,
    v: V,
)
    requires
        bucket_fits::<K, V>(b),
        n <= pairs.len() <= 8 * b,
    ensures
        spread(pairs, b, size, bit, upper, n).wf(),
        spread(pairs, b, size, bit, upper, n).occupied.len() == b,
        spread(pairs, b, size, bit, upper, n).occupied_count() <= n,
        spread(pairs, b, size, bit, upper, n).holds(k, v) <==> on_upper_side(k, size, bit) == upper
            && exists|j: int| 0 <= j < n && #[trigger] pairs[j] == (Pair { a: k, b: v }),
    decreases n,
{
    let cur = spread(pairs, b, size, bit, upper, n);
    if n == 0 {
        BucketView::<K, V>::lemma_empty(b);
        if cur.holds(k, v) {
            let j = choose|j: int|
                0 <= j < cur.capacity() && cur.live(j) && #[trigger] cur.pairs[j] == (Pair {
                    a: k,
                    b: v,
                });
            assert(false);
        }
    } else {
        let prev = spread(pairs, b, size, bit, upper, (n - 1) as nat);
        lemma_spread(pairs, b, size, bit, upper, (n - 1) as nat, k, v);
        let p = pairs[n - 1];
        let want_prev = on_upper_side(k, size, bit) == upper && exists|j: int|
            0 <= j < n - 1 && #[trigger] pairs[j] == (Pair { a: k, b: v });
        let want = on_upper_side(k, size, bit) == upper && exists|j: int|
            0 <= j < n && #[trigger] pairs[j] == (Pair { a: k, b: v });
        assert(prev.holds(k, v) <==> want_prev);
        if on_upper_side(p.a, size, bit) == upper {
            prev.lemma_full();
            prev.lemma_inserted(p.a, p.b, k, v);
            prev.lemma_inserted_count(p.a, p.b);
            assert(cur.holds(k, v) <==> prev.holds(k, v) || (k == p.a && v == p.b));
            if k == p.a && v == p.b {
                assert(pairs[n - 1] == (Pair { a: k, b: v }));
            }
            if want && !want_prev {
                let j = choose|j: int| 0 <= j < n && #[trigger] pairs[j] == (Pair { a: k, b: v });
                assert(j == n - 1);
            }
        } else {
            if want && !want_prev {
                let j = choose|j: int| 0 <= j < n && #[trigger] pairs[j] == (Pair { a: k, b: v });
                assert(j == n - 1);
                assert(false);
            }
        }
    }
}

/// The directory of the index.
pub open spec fn dir_of(s: Store, dir_id: PageId) -> DirView {
    DirView::decode(s.pages[dir_id as int])->0
}

/// The page that the slot of `k` points at.
pub open spec fn slot_page<K: Storable>(s: Store, dir_id: PageId, k: K) -> PageId {
    dir_of(s, dir_id).page_ids[dir_of(s, dir_id).index_of(key_hash(k))]
}

/// The bucket on page `page`.
pub open spec fn bucket_on<K: Storable, V: Storable>(s: Store, page: PageId, b: nat) -> BucketView<
    K,
    V,
> {
    BucketView::<K, V>::decode(s.pages[page as int], b)->0
}

/// The slot of a key is a slot in use.
pub proof fn lemma_index(dir: DirView, hash: u64)
    requires
        dir.wf(),
    ensures
        0 <= dir.index_of(hash) < dir.size() <= DIRECTORY_SIZE,
{
    lemma_pow2(dir.global_depth as nat);
}

/// In a well-formed index, the lookup of a key finds what the bucket of its
/// slot holds under it.
pub proof fn lemma_lookup<K: Storable, V: Storable>(s: Store, dir_id: PageId, b: nat, k: K, v: V)
    requires
        index_wf::<K, V>(s, dir_id, b),
    ensures
        dir_of(s, dir_id).wf(),
        slot_page(s, dir_id, k) == 0 ==> !holds(s, dir_id, b, k, v),
        slot_page(s, dir_id, k) != 0 ==> {
            &&& s.has(slot_page(s, dir_id, k))
            &&& slot_page(s, dir_id, k) != dir_id
            &&& slot_page(s, dir_id, k) < s.next_id
            &&& BucketView::<K, V>::decode(s.pages[slot_page(s, dir_id, k) as int], b) is Some
            &&& bucket_on::<K, V>(s, slot_page(s, dir_id, k), b).wf()
            &&& bucket_on::<K, V>(s, slot_page(s, dir_id, k), b).occupied.len() == b
            &&& holds(s, dir_id, b, k, v) <==> bucket_on::<K, V>(
                s,
                slot_page(s, dir_id, k),
                b,
            ).holds(k, v)
        },
{
    let dir = dir_of(s, dir_id);
    lemma_index(dir, key_hash(k));
    let i = dir.index_of(key_hash(k));
    let page = dir.page_ids[i];
    if page != 0 {
        BucketView::<K, V>::lemma_decode(s.pages[page as int], b);
        let bucket = bucket_on::<K, V>(s, page, b);
        bucket.lemma_find(k, v, bucket.pairs.len());
        assert(bucket_of::<K, V>(s, dir_id, b, k) == Ok::<
            Option<(PageId, BucketView<K, V>)>,
            ExtendibleError,
        >(Some((page, bucket))));
    } else {
        assert(spec_get::<K, V>(s, dir_id, b, k) == Ok::<Seq<V>, ExtendibleError>(Seq::empty()));
    }
}

/// A doubled directory sends a key to the page that it was sent to.
pub proof fn lemma_doubled(dir: DirView, hash: u64)
    requires
        dir.wf(),
        dir.global_depth < MAX_DEPTH,
    ensures
        dir.doubled().wf(),
        dir.doubled().size() == 2 * dir.size(),
        dir.doubled().page_ids[dir.doubled().index_of(hash)] == dir.page_ids[dir.index_of(hash)],
        dir.doubled().local_depths[dir.doubled().index_of(hash)] == dir.local_depths[dir.index_of(
            hash,
        )],
        forall|i: int|
            0 <= i < 2 * dir.size() ==> #[trigger] dir.doubled().page_ids[i] == dir.page_ids[i
                % dir.size() as int],
{
    let size = dir.size() as int;
    let grown = dir.doubled();
    lemma_pow2(dir.global_depth as nat);
    assert(grown.size() == 2 * size);
    let i2 = hash as int % (2 * size);
    let i = hash as int % size;
    lemma_mod_mod(hash as int, size, 2);
    assert(size * 2 == 2 * size);
    assert(i2 % size == i);
    if i2 < size {
        lemma_small_mod(i2 as nat, size as nat);
    } else {
        lemma_small_mod((i2 - size) as nat, size as nat);
        assert(i2 % size == (i2 - size) % size) by (nonlinear_arith)
            requires
                size > 0,
                size <= i2 < 2 * size,
        ;
    }
    assert forall|j: int| 0 <= j < 2 * size implies #[trigger] grown.page_ids[j]
        == dir.page_ids[j % size] by {
        if j < size {
            lemma_small_mod(j as nat, size as nat);
        } else {
            lemma_small_mod((j - size) as nat, size as nat);
            assert(j % size == (j - size) % size) by (nonlinear_arith)
                requires
                    size > 0,
                    size <= j < 2 * size,
            ;
        }
    }
    assert forall|j: int| 0 <= j < grown.size() implies #[trigger] grown.local_depths[j]
        <= grown.global_depth by {
        if j >= size {
            assert(dir.local_depths[j - size] <= dir.global_depth);
        } else {
            assert(dir.local_depths[j] <= dir.global_depth);
        }
    }
}

/// The directory after the bucket of slot `i` was split, if it can be: the
/// directory, doubled if the bucket is as deep as the directory, with the
/// slots of the bucket redirected to the two pages that the split allocates.
pub open spec fn split_dir(s: Store, dir: DirView, i: int) -> DirView {
    if !can_split(s, dir, i) {
        dir
    } else {
        let depth = dir.local_depths[i];
        let grown = if depth == dir.global_depth {
            dir.doubled()
        } else {
            dir
        };
        grown.redirected(dir.page_ids[i], depth, s.next_id as PageId, (s.next_id + 1) as PageId)
    }
}

/// The split of a bucket leaves the index with the pairs that it held.
pub proof fn lemma_split<K: Storable, V: Storable>(
    s: Store,
    dir_id: PageId,
    b: nat,
    i: int,
    k: K,
    v: V,
)
    requires
        index_wf::<K, V>(s, dir_id, b),
        0 <= i < dir_of(s, dir_id).size(),
        dir_of(s, dir_id).page_ids[i] != 0,
    ensures
        index_wf::<K, V>(
            split_store(
                s,
                dir_id,
                dir_of(s, dir_id),
                i,
                dir_of(s, dir_id).page_ids[i],
                bucket_on::<K, V>(s, dir_of(s, dir_id).page_ids[i], b),
            ),
            dir_id,
            b,
        ),
        holds(
            split_store(
                s,
                dir_id,
                dir_of(s, dir_id),
                i,
                dir_of(s, dir_id).page_ids[i],
                bucket_on::<K, V>(s, dir_of(s, dir_id).page_ids[i], b),
            ),
            dir_id,
            b,
            k,
            v,
        ) <==> holds(s, dir_id, b, k, v),
        dir_of(
            split_store(
                s,
                dir_id,
                dir_of(s, dir_id),
                i,
                dir_of(s, dir_id).page_ids[i],
                bucket_on::<K, V>(s, dir_of(s, dir_id).page_ids[i], b),
            ),
            dir_id,
        ) == split_dir(s, dir_of(s, dir_id), i),
{
    let dir = dir_of(s, dir_id);
    let page = dir.page_ids[i];
    let bucket = bucket_on::<K, V>(s, page, b);
    let s3 = split_store(s, dir_id, dir, i, page, bucket);
    if can_split(s, dir, i) {
        let depth = dir.local_depths[i];
        let grown = if depth == dir.global_depth {
            dir.doubled()
        } else {
            dir
        };
        let lower = s.next_id as PageId;
        let upper = (s.next_id + 1) as PageId;
        let pairs = bucket.live_pairs();
        let bit = pow2(depth as nat);
        let lo = spread(pairs, b, grown.size(), bit, false, pairs.len());
        let up = spread(pairs, b, grown.size(), bit, true, pairs.len());
        let dir3 = grown.redirected(page, depth, lower, upper);
        let h = key_hash(k);

        lemma_pow2(dir.global_depth as nat);
        lemma_index(dir, h);
        if depth == dir.global_depth {
            lemma_doubled(dir, h);
        }
        assert(grown.wf());
        assert(depth < grown.global_depth);
        lemma_pow2(grown.global_depth as nat);
        lemma_index(grown, h);
        assert(dir3.wf()) by {
            assert forall|j: int| 0 <= j < dir3.size() implies #[trigger] dir3.local_depths[j]
                <= dir3.global_depth by {
                assert(grown.local_depths[j] <= grown.global_depth);
            }
        }
        dir3.lemma_round_trip();

        BucketView::<K, V>::lemma_decode(s.pages[page as int], b);
        bucket.lemma_live_pairs(Pair { a: k, b: v }, bucket.pairs.len());
        lemma_spread(pairs, b, grown.size(), bit, false, pairs.len(), k, v);
        lemma_spread(pairs, b, grown.size(), bit, true, pairs.len(), k, v);
        lo.lemma_round_trip();
        up.lemma_round_trip();

        // the pages of the store after the split
        assert(s3.next_id == s.next_id + 2);
        assert(s3.pages.len() == s.pages.len());
        assert(s3.pages[dir_id as int] == dir3.encode());
        assert(s3.pages[lower as int] == lo.encode());
        assert(s3.pages[upper as int] == up.encode());
        assert forall|p: int|
            0 <= p < s.pages.len() && p != dir_id && p != lower && p != upper implies #[trigger] s3.pages[p]
            == s.pages[p] by {}
        assert(dir_of(s3, dir_id) == dir3);

        // every slot of the directory points where it should
        assert forall|j: int| 0 <= j < grown.size() implies grown.page_ids[j] == 0 || (0
            < #[trigger] grown.page_ids[j] < s.next_id && grown.page_ids[j] != dir_id) by {
            if depth == dir.global_depth {
                let j0 = j % dir.size() as int;
                assert(0 <= j0 < dir.size()) by (nonlinear_arith)
                    requires
                        j0 == j % dir.size() as int,
                        dir.size() > 0,
                ;
                assert(grown.page_ids[j] == dir.page_ids[j0]);
                let q = dir.page_ids[j0];
                assert(q == 0 || (0 < q < s.next_id && q != dir_id));
            } else {
                let q = dir.page_ids[j];
                assert(q == 0 || (0 < q < s.next_id && q != dir_id));
            }
        }
        assert(index_wf::<K, V>(s3, dir_id, b)) by {
            assert forall|p: int| 0 <= p < s3.pages.len() implies is_page(
                #[trigger] s3.pages[p],
            ) by {
                if p != dir_id && p != lower && p != upper {
                    assert(s3.pages[p] == s.pages[p]);
                }
            }
            assert forall|j: int| 0 <= j < dir3.size() implies {
                let q = #[trigger] dir3.page_ids[j];
                q == 0 || (0 < q < s3.next_id && q != dir_id)
            } by {
                let g = grown.page_ids[j];
                assert(g == 0 || (0 < g < s.next_id && g != dir_id));
            }
        }

        // the lookup of the key
        lemma_lookup::<K, V>(s, dir_id, b, k, v);
        lemma_lookup::<K, V>(s3, dir_id, b, k, v);
        let i2 = grown.index_of(h);
        let was = dir.page_ids[dir.index_of(h)];
        assert(grown.page_ids[i2] == was);
        assert(slot_page(s, dir_id, k) == was);
        if was == page {
            let side = (i2 / bit as int) % 2 == 1;
            assert(on_upper_side(k, grown.size(), bit) == side);
            assert(slot_page(s3, dir_id, k) == (if side {
                upper
            } else {
                lower
            }));
            let new = if side {
                up
            } else {
                lo
            };
            assert(bucket_on::<K, V>(s3, slot_page(s3, dir_id, k), b) == new);
            assert(new.holds(k, v) <==> pairs.contains(Pair { a: k, b: v })) by {
                if pairs.contains(Pair { a: k, b: v }) {
                    let j = choose|j: int|
                        0 <= j < pairs.len() && pairs[j] == (Pair { a: k, b: v });
                    assert(pairs[j] == (Pair { a: k, b: v }));
                }
                if exists|j: int| 0 <= j < pairs.len() && #[trigger] pairs[j] == (Pair {
                    a: k,
                    b: v,
                }) {
                    let j = choose|j: int|
                        0 <= j < pairs.len() && #[trigger] pairs[j] == (Pair { a: k, b: v });
                    assert(pairs.contains(pairs[j]));
                }
            }
            assert(pairs.contains(Pair { a: k, b: v }) <==> bucket.holds(k, v));
        } else {
            assert(slot_page(s3, dir_id, k) == was);
            if was != 0 {
                assert(s3.pages[was as int] == s.pages[was as int]);
            }
        }
    }
}

/// The directory once the pair of an insertion is in its bucket: the slot
/// of the key points at a new page if it had no bucket.
pub open spec fn filled_dir<K: Storable>(s: Store, dir_id: PageId, k: K) -> DirView {
    let dir = dir_of(s, dir_id);
    let i = dir.index_of(key_hash(k));
    if dir.page_ids[i] == 0 {
        dir.with_slot(i, s.next_id as PageId, dir.local_depths[i])
    } else {
        dir
    }
}

/// The store once the pair of an insertion is in its bucket, before the
/// bucket is split if it has to be.
pub open spec fn filled_store<K: Storable, V: Storable>(
    s: Store,
    dir_id: PageId,
    b: nat,
    k: K,
    v: V,
) -> Store {
    let dir = dir_of(s, dir_id);
    let i = dir.index_of(key_hash(k));
    if dir.page_ids[i] == 0 {
        let page = s.next_id as PageId;
        let s1 = s.allocated().written(dir_id, dir.with_slot(i, page, dir.local_depths[i]).encode());
        s1.written(page, empty_bucket::<K, V>(b).inserted(k, v).encode())
    } else {
        s.written(
            dir.page_ids[i],
            bucket_on::<K, V>(s, dir.page_ids[i], b).inserted(k, v).encode(),
        )
    }
}

/// Once the pair of an insertion is in its bucket, the index holds it beside
/// the pairs that it held.
pub proof fn lemma_filled<K: Storable, V: Storable>(
    s: Store,
    dir_id: PageId,
    b: nat,
    k: K,
    v: V,
    k2: K,
    v2: V,
)
    requires
        index_wf::<K, V>(s, dir_id, b),
        stores::<K, V>(s, dir_id, b, k),
    ensures
        index_wf::<K, V>(filled_store::<K, V>(s, dir_id, b, k, v), dir_id, b),
        slot_page(filled_store::<K, V>(s, dir_id, b, k, v), dir_id, k) != 0,
        spec_insert::<K, V>(s, dir_id, b, k, v).store == (if bucket_on::<K, V>(
            filled_store::<K, V>(s, dir_id, b, k, v),
            slot_page(filled_store::<K, V>(s, dir_id, b, k, v), dir_id, k),
            b,
        ).is_full() {
            split_store(
                filled_store::<K, V>(s, dir_id, b, k, v),
                dir_id,
                dir_of(filled_store::<K, V>(s, dir_id, b, k, v), dir_id),
                dir_of(filled_store::<K, V>(s, dir_id, b, k, v), dir_id).index_of(key_hash(k)),
                slot_page(filled_store::<K, V>(s, dir_id, b, k, v), dir_id, k),
                bucket_on::<K, V>(
                    filled_store::<K, V>(s, dir_id, b, k, v),
                    slot_page(filled_store::<K, V>(s, dir_id, b, k, v), dir_id, k),
                    b,
                ),
            )
        } else {
            filled_store::<K, V>(s, dir_id, b, k, v)
        }),
        holds(filled_store::<K, V>(s, dir_id, b, k, v), dir_id, b, k2, v2) <==> holds(
            s,
            dir_id,
            b,
            k2,
            v2,
        ) || (k2 == k && v2 == v),
        dir_of(filled_store::<K, V>(s, dir_id, b, k, v), dir_id) == filled_dir(s, dir_id, k),
{
    let dir = dir_of(s, dir_id);
    let h = key_hash(k);
    let i = dir.index_of(h);
    let s2 = filled_store::<K, V>(s, dir_id, b, k, v);
    lemma_index(dir, h);
    lemma_index(dir, key_hash(k2));
    lemma_lookup::<K, V>(s, dir_id, b, k2, v2);
    let i2 = dir.index_of(key_hash(k2));
    if dir.page_ids[i] == 0 {
        let page = s.next_id as PageId;
        let dir1 = dir.with_slot(i, page, dir.local_depths[i]);
        let empty = empty_bucket::<K, V>(b);
        let filled = empty.inserted(k, v);
        let s1 = s.allocated().written(dir_id, dir1.encode());
        assert(dir1.wf()) by {
            assert forall|j: int| 0 <= j < dir1.size() implies #[trigger] dir1.local_depths[j]
                <= dir1.global_depth by {
                assert(dir.local_depths[j] <= dir.global_depth);
            }
        }
        dir1.lemma_round_trip();
        BucketView::<K, V>::lemma_empty(b);
        assert(s1.pages[page as int] == zero_page());
        assert(BucketView::<K, V>::decode(s1.pages[page as int], b) == Some(empty));
        assert(!empty.is_full());
        empty.lemma_inserted(k, v, k2, v2);
        filled.lemma_round_trip();
        assert(s2.pages[dir_id as int] == dir1.encode());
        assert(s2.pages[page as int] == filled.encode());
        assert(dir_of(s2, dir_id) == dir1);
        assert forall|p: int| 0 <= p < s.pages.len() && p != dir_id && p != page implies #[trigger] s2.pages[p]
            == s.pages[p] by {}
        assert(index_wf::<K, V>(s2, dir_id, b)) by {
            assert forall|p: int| 0 <= p < s2.pages.len() implies is_page(
                #[trigger] s2.pages[p],
            ) by {
                if p != dir_id && p != page {
                    assert(s2.pages[p] == s.pages[p]);
                }
            }
            assert forall|j: int| 0 <= j < dir1.size() implies {
                let q = #[trigger] dir1.page_ids[j];
                q == 0 || (0 < q < s2.next_id && q != dir_id)
            } by {
                let g = dir.page_ids[j];
                assert(g == 0 || (0 < g < s.next_id && g != dir_id));
            }
        }
        lemma_lookup::<K, V>(s2, dir_id, b, k2, v2);
        lemma_lookup::<K, V>(s2, dir_id, b, k, v);
        if i2 == i {
            assert(slot_page(s2, dir_id, k2) == page);
            assert(bucket_on::<K, V>(s2, page, b) == filled);
            assert(!empty.holds(k2, v2)) by {
                if empty.holds(k2, v2) {
                    let j = choose|j: int|
                        0 <= j < empty.capacity() && empty.live(j) && #[trigger] empty.pairs[j]
                            == (Pair { a: k2, b: v2 });
                    assert(false);
                }
            }
        } else {
            let q = dir.page_ids[i2];
            assert(slot_page(s2, dir_id, k2) == q);
            assert(q == 0 || (0 < q < s.next_id && q != dir_id));
            if q != 0 {
                assert(s2.pages[q as int] == s.pages[q as int]);
            }
        }
    } else {
        let page = dir.page_ids[i];
        assert(page == 0 || (0 < page < s.next_id && page != dir_id));
        BucketView::<K, V>::lemma_decode(s.pages[page as int], b);
        let bucket = bucket_on::<K, V>(s, page, b);
        let filled = bucket.inserted(k, v);
        assert(!bucket.is_full());
        bucket.lemma_inserted(k, v, k2, v2);
        filled.lemma_round_trip();
        assert(s2.pages[page as int] == filled.encode());
        assert forall|p: int| 0 <= p < s.pages.len() && p != page implies #[trigger] s2.pages[p]
            == s.pages[p] by {}
        assert(dir_of(s2, dir_id) == dir);
        assert(index_wf::<K, V>(s2, dir_id, b)) by {
            assert forall|p: int| 0 <= p < s2.pages.len() implies is_page(
                #[trigger] s2.pages[p],
            ) by {
                if p != page {
                    assert(s2.pages[p] == s.pages[p]);
                }
            }
            assert forall|j: int| 0 <= j < dir.size() implies {
                let q = #[trigger] dir_of(s2, dir_id).page_ids[j];
                q == 0 || (0 < q < s2.next_id && q != dir_id)
            } by {
                let g = dir.page_ids[j];
                assert(g == 0 || (0 < g < s.next_id && g != dir_id));
            }
        }
        lemma_lookup::<K, V>(s2, dir_id, b, k2, v2);
        lemma_lookup::<K, V>(s2, dir_id, b, k, v);
        let q = dir.page_ids[i2];
        assert(slot_page(s2, dir_id, k2) == q);
        if q == page {
            assert(bucket_on::<K, V>(s2, page, b) == filled);
        } else {
            assert(q == 0 || (0 < q < s.next_id && q != dir_id));
            if q != 0 {
                assert(s2.pages[q as int] == s.pages[q as int]);
            }
        }
    }
}

/// **Insertion.** After an insertion that took its pair in, the index holds
/// that pair beside the pairs that it held, and no other, whether or not a
/// bucket was split and the directory doubled on the way, or the split
/// failed for want of pages. The index stays well-formed.
pub proof fn lemma_insert<K: Storable, V: Storable>(
    s: Store,
    dir_id: PageId,
    b: nat,
    k: K,
    v: V,
    k2: K,
    v2: V,
)
    requires
        index_wf::<K, V>(s, dir_id, b),
        stores::<K, V>(s, dir_id, b, k),
    ensures
        index_wf::<K, V>(spec_insert::<K, V>(s, dir_id, b, k, v).store, dir_id, b),
        holds(spec_insert::<K, V>(s, dir_id, b, k, v).store, dir_id, b, k2, v2) <==> holds(
            s,
            dir_id,
            b,
            k2,
            v2,
        ) || (k2 == k && v2 == v),
{
    let s2 = filled_store::<K, V>(s, dir_id, b, k, v);
    lemma_filled::<K, V>(s, dir_id, b, k, v, k2, v2);
    let dir = dir_of(s2, dir_id);
    lemma_lookup::<K, V>(s2, dir_id, b, k, v);
    lemma_index(dir, key_hash(k));
    let i = dir.index_of(key_hash(k));
    let page = slot_page(s2, dir_id, k);
    if bucket_on::<K, V>(s2, page, b).is_full() {
        lemma_split::<K, V>(s2, dir_id, b, i, k2, v2);
    }
}

/// The directory after an insertion that stores nothing: the directory as
/// it was, or as the split of the full bucket of the key leaves it.
pub open spec fn refused_dir<K: Storable, V: Storable>(s: Store, dir_id: PageId, b: nat, k: K)
    -> DirView {
    match reached::<K, V>(s, dir_id, b, k) {
        Some(r) => split_dir(s, dir_of(s, dir_id), r.slot),
        None => dir_of(s, dir_id),
    }
}

/// **An insertion that stores nothing.** An insertion that does not store
/// its pair, because the bucket of the key is full or a page on the way
/// does not hold what it should, leaves a well-formed index that holds the
/// pairs it held and no others, also where it splits the full bucket. Its
/// result is never `Ok(true)`.
pub proof fn lemma_insert_refused<K: Storable, V: Storable>(
    s: Store,
    dir_id: PageId,
    b: nat,
    k: K,
    v: V,
    k2: K,
    v2: V,
)
    requires
        index_wf::<K, V>(s, dir_id, b),
        b > 0,
        !stores::<K, V>(s, dir_id, b, k),
    ensures
        index_wf::<K, V>(spec_insert::<K, V>(s, dir_id, b, k, v).store, dir_id, b),
        holds(spec_insert::<K, V>(s, dir_id, b, k, v).store, dir_id, b, k2, v2) <==> holds(
            s,
            dir_id,
            b,
            k2,
            v2,
        ),
        spec_insert::<K, V>(s, dir_id, b, k, v).result != Ok::<bool, ExtendibleError>(true),
        dir_of(spec_insert::<K, V>(s, dir_id, b, k, v).store, dir_id) == refused_dir::<K, V>(
            s,
            dir_id,
            b,
            k,
        ),
        reached::<K, V>(s, dir_id, b, k) is Some ==> dir_of(s, dir_id).page_ids[dir_of(
            s,
            dir_id,
        ).index_of(key_hash(k))] != 0,
{
    let dir = dir_of(s, dir_id);
    let i = dir.index_of(key_hash(k));
    lemma_index(dir, key_hash(k));
    lemma_lookup::<K, V>(s, dir_id, b, k, v);
    if dir.page_ids[i] == 0 {
        if !s.full() {
            // a first bucket is empty, and takes the pair
            BucketView::<K, V>::lemma_empty(b);
            let page = s.next_id as PageId;
            let dir1 = dir.with_slot(i, page, dir.local_depths[i]);
            let s1 = s.allocated().written(dir_id, dir1.encode());
            assert(s1.pages[page as int] == zero_page());
            empty_bucket::<K, V>(b).lemma_full();
            assert(!empty_bucket::<K, V>(b).is_full());
            assert(false);
        }
    } else {
        match reached::<K, V>(s, dir_id, b, k) {
            Some(r) => {
                assert(r.bucket == bucket_on::<K, V>(s, dir.page_ids[i], b));
                lemma_split::<K, V>(s, dir_id, b, i, k2, v2);
            },
            None => {},
        }
    }
}

/// **The result of an insertion that stores its pair.** It is `Ok(true)`,
/// or the error where the pair filled its bucket and the store has not the
/// two pages that the split takes.
pub proof fn lemma_insert_result<K: Storable, V: Storable>(
    s: Store,
    dir_id: PageId,
    b: nat,
    k: K,
    v: V,
)
    requires
        stores::<K, V>(s, dir_id, b, k),
    ensures
        ({
            let r = reached::<K, V>(s, dir_id, b, k)->0;
            let filled = r.bucket.inserted(k, v);
            spec_insert::<K, V>(s, dir_id, b, k, v).result == (if filled.is_full() && lacks_pages(
                r.store.written(r.page, filled.encode()),
                r.dir,
                r.slot,
            ) {
                Err::<bool, ExtendibleError>(ExtendibleError::Error)
            } else {
                Ok::<bool, ExtendibleError>(true)
            })
        }),
{
}

/// **Lookup after insertion.** The pair that an insertion took in is found.
pub proof fn lemma_insert_then_get<K: Storable, V: Storable>(
    s: Store,
    dir_id: PageId,
    b: nat,
    k: K,
    v: V,
)
    requires
        index_wf::<K, V>(s, dir_id, b),
        stores::<K, V>(s, dir_id, b, k),
    ensures
        spec_get::<K, V>(spec_insert::<K, V>(s, dir_id, b, k, v).store, dir_id, b, k) is Ok,
        spec_get::<K, V>(
            spec_insert::<K, V>(s, dir_id, b, k, v).store,
            dir_id,
            b,
            k,
        )->Ok_0.contains(v),
{
    lemma_insert::<K, V>(s, dir_id, b, k, v, k, v);
}

/// `values` without the first occurrence of `v`.
pub open spec fn without_first<V>(values: Seq<V>, v: V) -> Seq<V>
    decreases values.len(),
{
    if values.len() == 0 {
        values
    } else if values[0] == v {
        values.skip(1)
    } else {
        seq![values[0]] + without_first(values.skip(1), v)
    }
}

/// Taking the first occurrence out is removing the first index at which the
/// value stands; and where it stands nowhere nothing is taken out.
pub proof fn lemma_without_first<V>(values: Seq<V>, v: V, at: int)
    requires
        0 <= at <= values.len(),
        !values.take(at).contains(v),
        at < values.len() ==> values[at] == v,
    ensures
        without_first(values, v) == (if at < values.len() {
            values.remove(at)
        } else {
            values
        }),
    decreases values.len(),
{
    if values.len() > 0 {
        if at == 0 {
            assert(values.remove(0) =~= values.skip(1));
        } else {
            assert(values.take(at)[0] == values[0]);
            assert(values[0] != v);
            let rest = values.skip(1);
            assert(rest.take(at - 1) =~= values.take(at).skip(1));
            assert(!rest.take(at - 1).contains(v)) by {
                let head = rest.take(at - 1);
                if head.contains(v) {
                    let i = choose|i: int| 0 <= i < head.len() && head[i] == v;
                    assert(values.take(at)[i + 1] == v);
                }
            }
            lemma_without_first(rest, v, at - 1);
            if at < values.len() {
                assert(seq![values[0]] + rest.remove(at - 1) =~= values.remove(at));
            } else {
                assert(seq![values[0]] + rest =~= values);
            }
        }
    }
}

/// **Removal.** A removal says whether the index held the pair. Afterwards
/// the lookup of the key returns what it returned without the first
/// occurrence of the value, and the lookup of any other key what it
/// returned. The index stays well-formed.
pub proof fn lemma_remove<K: Storable, V: Storable>(
    s: Store,
    dir_id: PageId,
    b: nat,
    k: K,
    v: V,
    k2: K,
)
    requires
        index_wf::<K, V>(s, dir_id, b),
    ensures
        index_wf::<K, V>(spec_remove::<K, V>(s, dir_id, b, k, v).store, dir_id, b),
        spec_remove::<K, V>(s, dir_id, b, k, v).result == Ok::<bool, ExtendibleError>(
            holds(s, dir_id, b, k, v),
        ),
        spec_get::<K, V>(s, dir_id, b, k) is Ok,
        spec_get::<K, V>(spec_remove::<K, V>(s, dir_id, b, k, v).store, dir_id, b, k) == Ok::<
            Seq<V>,
            ExtendibleError,
        >(without_first(spec_get::<K, V>(s, dir_id, b, k)->Ok_0, v)),
        k2 != k ==> spec_get::<K, V>(spec_remove::<K, V>(s, dir_id, b, k, v).store, dir_id, b, k2)
            == spec_get::<K, V>(s, dir_id, b, k2),
{
    let dir = dir_of(s, dir_id);
    let r = spec_remove::<K, V>(s, dir_id, b, k, v);
    lemma_index(dir, key_hash(k));
    lemma_index(dir, key_hash(k2));
    lemma_lookup::<K, V>(s, dir_id, b, k, v);
    let page = slot_page(s, dir_id, k);
    if page == 0 {
        assert(bucket_of::<K, V>(s, dir_id, b, k) == Ok::<
            Option<(PageId, BucketView<K, V>)>,
            ExtendibleError,
        >(None));
        assert(without_first(Seq::<V>::empty(), v) == Seq::<V>::empty());
    } else {
        let bucket = bucket_on::<K, V>(s, page, b);
        let cleared = bucket.removed(k, v);
        let n = bucket.pairs.len();
        assert(bucket_of::<K, V>(s, dir_id, b, k) == Ok::<
            Option<(PageId, BucketView<K, V>)>,
            ExtendibleError,
        >(Some((page, bucket))));
        bucket.lemma_removed(k, v, k, v);
        cleared.lemma_round_trip();
        let s2 = s.written(page, cleared.encode());
        assert(r.store == s2);
        assert forall|p: int| 0 <= p < s.pages.len() && p != page implies #[trigger] s2.pages[p]
            == s.pages[p] by {}
        assert(dir_of(s2, dir_id) == dir);
        assert(index_wf::<K, V>(s2, dir_id, b)) by {
            assert forall|p: int| 0 <= p < s2.pages.len() implies is_page(
                #[trigger] s2.pages[p],
            ) by {
                if p != page {
                    assert(s2.pages[p] == s.pages[p]);
                }
            }
            assert forall|j: int| 0 <= j < dir.size() implies {
                let q = #[trigger] dir_of(s2, dir_id).page_ids[j];
                q == 0 || (0 < q < s2.next_id && q != dir_id)
            } by {
                let g = dir.page_ids[j];
                assert(g == 0 || (0 < g < s.next_id && g != dir_id));
            }
        }
        assert(bucket_on::<K, V>(s2, page, b) == cleared);
        // the key of the removal
        let values = bucket.find(k);
        if bucket.holds(k, v) {
            bucket.lemma_removed_find(k, v, k, n);
            let j = bucket.match_from(k, v, 0);
            bucket.lemma_match_from(k, v, 0);
            bucket.lemma_removed_find(k, v, k, j as nat);
            let at = bucket.find_upto(k, j as nat).len() as int;
            lemma_without_first(values, v, at);
        } else {
            bucket.lemma_find(k, v, n);
            bucket.lemma_match_from(k, v, 0);
            assert(cleared == bucket);
            assert(values.take(values.len() as int) =~= values);
            lemma_without_first(values, v, values.len() as int);
        }
        // another key
        if k2 != k {
            lemma_lookup::<K, V>(s, dir_id, b, k2, v);
            let q = slot_page(s, dir_id, k2);
            assert(slot_page(s2, dir_id, k2) == q);
            if q == page {
                if bucket.holds(k, v) {
                    bucket.lemma_removed_find(k, v, k2, n);
                }
            } else if q != 0 {
                assert(s2.pages[q as int] == s.pages[q as int]);
            }
        }
    }
}

/// **Lookup after removal.** A pair that the index held once it holds no
/// more after its removal.
pub proof fn lemma_remove_then_get<K: Storable, V: Storable>(
    s: Store,
    dir_id: PageId,
    b: nat,
    k: K,
    v: V,
)
    requires
        index_wf::<K, V>(s, dir_id, b),
        spec_get::<K, V>(s, dir_id, b, k) is Ok,
        forall|i: int, j: int|
            0 <= i < j < spec_get::<K, V>(s, dir_id, b, k)->Ok_0.len() ==> !(spec_get::<K, V>(
                s,
                dir_id,
                b,
                k,
            )->Ok_0[i] == v && spec_get::<K, V>(s, dir_id, b, k)->Ok_0[j] == v),
    ensures
        !holds(spec_remove::<K, V>(s, dir_id, b, k, v).store, dir_id, b, k, v),
{
    lemma_remove::<K, V>(s, dir_id, b, k, v, k);
    let values = spec_get::<K, V>(s, dir_id, b, k)->Ok_0;
    lemma_once(values, v);
}

/// A sequence in which a value stands once at most is without it once its
/// first occurrence is taken out.
pub proof fn lemma_once<V>(values: Seq<V>, v: V)
    requires
        forall|i: int, j: int| 0 <= i < j < values.len() ==> !(values[i] == v && values[j] == v),
    ensures
        !without_first(values, v).contains(v),
    decreases values.len(),
{
    let r = without_first(values, v);
    if values.len() > 0 {
        let rest = values.skip(1);
        if values[0] == v {
            if r.contains(v) {
                let i = choose|i: int| 0 <= i < r.len() && r[i] == v;
                assert(values[i + 1] == v);
                assert(false);
            }
        } else {
            assert forall|i: int, j: int| 0 <= i < j < rest.len() implies !(rest[i] == v
                && rest[j] == v) by {
                assert(rest[i] == values[i + 1] && rest[j] == values[j + 1]);
            }
            lemma_once(rest, v);
            if r.contains(v) {
                let i = choose|i: int| 0 <= i < r.len() && r[i] == v;
                assert(i > 0);
                assert(without_first(rest, v)[i - 1] == v);
                assert(without_first(rest, v).contains(v));
            }
        }
    }
}

} // verus!
