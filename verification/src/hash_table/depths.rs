//! The depths of the directory of the extendible hash index.
//!
//! Every slot in use has a local depth: the number of low bits of a slot
//! index that decide which bucket the slot points at. Two slots in use point
//! at the same bucket exactly if their indices agree in as many low bits as
//! the local depth says, and they have the same local depth then. The laws
//! here say that an insertion keeps it so, also where a bucket splits and
//! the directory doubles.

use vstd::prelude::*;
use vstd::arithmetic::div_mod::{lemma_mod_breakdown, lemma_mod_mod, lemma_small_mod};
use crate::hash_table::bucket_page::BucketView;
use crate::hash_table::dir_page::{lemma_pow2, pow2, DirView, MAX_DEPTH};
use crate::hash_table::extendible::{
    can_split, key_hash, reached, spec_insert, spec_remove, stores,
};
use crate::hash_table::laws::{
    bucket_on, dir_of, filled_dir, filled_store, index_wf, lemma_filled, lemma_index,
    lemma_insert_refused, lemma_lookup, lemma_remove, lemma_split, slot_page, split_dir,
};
use crate::page::{zero_page, PageId};
use crate::page_cache::Store;
use crate::storable::Storable;

verus! {

/// Whether the slot indices `i` and `j` agree in their `d` low bits.
pub open spec fn agree(i: int, j: int, d: nat) -> bool {
    i % pow2(d) as int == j % pow2(d) as int
}

/// Whether the slots `i` and `j` are in order: they point at the same
/// bucket exactly if their indices agree in as many low bits as the local
/// depth of slot `i` says, and have the same local depth then.
pub open spec fn slots_ok(dir: DirView, i: int, j: int) -> bool {
    &&& dir.page_ids[i] == dir.page_ids[j] <==> agree(i, j, dir.local_depths[i] as nat)
    &&& dir.page_ids[i] == dir.page_ids[j] ==> dir.local_depths[i] == dir.local_depths[j]
}

/// Whether every slot in use points at a bucket.
pub open spec fn all_set(dir: DirView) -> bool {
    forall|i: int| 0 <= i < dir.size() ==> #[trigger] dir.page_ids[i] != 0
}

/// Whether the depths of the directory are in order: every two slots in use
/// are, and only a directory of one slot has a slot without a bucket.
pub open spec fn depths_ok(dir: DirView) -> bool {
    &&& dir.wf()
    &&& dir.global_depth > 0 ==> all_set(dir)
    &&& forall|i: int, j: int|
        0 <= i < dir.size() && 0 <= j < dir.size() ==> #[trigger] slots_ok(dir, i, j)
}

/// **A new index.** The directory that a zeroed page holds, which has one
/// slot and no bucket, has its depths in order.
pub proof fn lemma_new_depths()
    ensures
        DirView::decode(zero_page()) is Some,
        depths_ok(DirView::decode(zero_page())->0),
{
    DirView::lemma_zero_page();
    let dir = DirView::decode(zero_page())->0;
    assert(dir.size() == 1) by {
        reveal_with_fuel(pow2, 2);
    }
    assert forall|i: int, j: int|
        0 <= i < dir.size() && 0 <= j < dir.size() implies #[trigger] slots_ok(dir, i, j) by {}
}

/// The powers of two of a sum.
proof fn lemma_pow2_sum(a: nat, b: nat)
    ensures
        pow2(a + b) == pow2(a) * pow2(b),
        pow2(a) > 0,
        pow2(b) > 0,
    decreases b,
{
    lemma_pow2(a);
    lemma_pow2(b);
    if b > 0 {
        lemma_pow2_sum(a, (b - 1) as nat);
        lemma_pow2((a + b - 1) as nat);
        lemma_pow2((b - 1) as nat);
        assert(pow2(a + b) == 2 * pow2((a + b - 1) as nat));
        assert(2 * (pow2(a) * pow2((b - 1) as nat)) == pow2(a) * (2 * pow2((b - 1) as nat)))
            by (nonlinear_arith);
    } else {
        assert(pow2(a) * 1 == pow2(a));
    }
}

/// The `d` low bits of an index are those of its `e` low bits, for `d` up
/// to `e`.
proof fn lemma_low_bits(x: int, d: nat, e: nat)
    requires
        d <= e,
    ensures
        (x % pow2(e) as int) % pow2(d) as int == x % pow2(d) as int,
        0 <= x % (pow2(e) as int) < pow2(e),
{
    lemma_pow2_sum(d, (e - d) as nat);
    lemma_mod_mod(x, pow2(d) as int, pow2((e - d) as nat) as int);
    assert(0 <= x % (pow2(e) as int) < pow2(e)) by (nonlinear_arith)
        requires
            pow2(e) > 0,
    ;
}

/// Two indices agree in `d + 1` low bits exactly if they agree in `d` low
/// bits and in bit `d`.
proof fn lemma_one_more_bit(a: int, b: int, d: nat)
    requires
        0 <= a,
        0 <= b,
    ensures
        agree(a, b, d + 1) <==> agree(a, b, d) && (a / pow2(d) as int) % 2 == (b / pow2(d) as int)
            % 2,
{
    let m = pow2(d) as int;
    lemma_pow2(d);
    assert(pow2(d + 1) == m * 2);
    lemma_mod_breakdown(a, m, 2);
    lemma_mod_breakdown(b, m, 2);
    let x = (a / m) % 2;
    let y = (b / m) % 2;
    assert(0 <= a % m < m && 0 <= b % m < m) by (nonlinear_arith)
        requires
            m > 0,
    ;
    assert(m * x + a % m == m * y + b % m <==> x == y && a % m == b % m) by (nonlinear_arith)
        requires
            0 <= x < 2,
            0 <= y < 2,
            0 <= a % m < m,
            0 <= b % m < m,
    ;
}

/// A slot of a doubled directory is the slot of the directory that its
/// index, without its highest bit, gives.
proof fn lemma_doubled_slot(dir: DirView, i: int)
    requires
        dir.wf(),
        dir.global_depth < MAX_DEPTH,
        0 <= i < 2 * dir.size(),
    ensures
        0 <= i % (dir.size() as int) < dir.size(),
        dir.doubled().size() == 2 * dir.size(),
        dir.doubled().page_ids[i] == dir.page_ids[i % dir.size() as int],
        dir.doubled().local_depths[i] == dir.local_depths[i % dir.size() as int],
{
    let size = dir.size() as int;
    lemma_pow2(dir.global_depth as nat);
    if i < size {
        lemma_small_mod(i as nat, size as nat);
    } else {
        lemma_small_mod((i - size) as nat, size as nat);
        assert(i % size == (i - size) % size) by (nonlinear_arith)
            requires
                size > 0,
                size <= i < 2 * size,
        ;
    }
}

/// **Doubling.** A directory whose depths are in order, and whose slots all
/// point at buckets, is such a directory when it is doubled.
pub proof fn lemma_doubled_depths(dir: DirView)
    requires
        depths_ok(dir),
        all_set(dir),
        dir.global_depth < MAX_DEPTH,
    ensures
        depths_ok(dir.doubled()),
        all_set(dir.doubled()),
{
    let grown = dir.doubled();
    let size = dir.size() as int;
    let g = dir.global_depth as nat;
    lemma_pow2(g);
    assert forall|i: int| 0 <= i < grown.size() implies #[trigger] grown.local_depths[i]
        <= grown.global_depth && grown.page_ids[i] != 0 by {
        lemma_doubled_slot(dir, i);
        assert(dir.local_depths[i % size] <= dir.global_depth);
        assert(dir.page_ids[i % size] != 0);
    }
    assert forall|i: int, j: int|
        0 <= i < grown.size() && 0 <= j < grown.size() implies #[trigger] slots_ok(
        grown,
        i,
        j,
    ) by {
        lemma_doubled_slot(dir, i);
        lemma_doubled_slot(dir, j);
        let i0 = i % size;
        let j0 = j % size;
        let d = dir.local_depths[i0] as nat;
        assert(dir.local_depths[i0] <= dir.global_depth);
        assert(slots_ok(dir, i0, j0));
        lemma_low_bits(i, d, g);
        lemma_low_bits(j, d, g);
    }
}

/// **Redirecting.** A directory whose depths are in order and whose slots
/// all point at buckets is such a directory when the slots of a bucket that
/// is less deep than the directory are redirected to two new buckets by the
/// next bit of their indices, one level deeper.
pub proof fn lemma_redirected_depths(dir: DirView, i: int, lower: PageId, upper: PageId)
    requires
        depths_ok(dir),
        all_set(dir),
        0 <= i < dir.size(),
        dir.local_depths[i] < dir.global_depth,
        lower != upper,
        lower != 0,
        upper != 0,
        forall|j: int|
            0 <= j < dir.size() ==> #[trigger] dir.page_ids[j] != lower && dir.page_ids[j] != upper,
    ensures
        depths_ok(dir.redirected(dir.page_ids[i], dir.local_depths[i], lower, upper)),
        all_set(dir.redirected(dir.page_ids[i], dir.local_depths[i], lower, upper)),
{
    let was = dir.page_ids[i];
    let depth = dir.local_depths[i];
    let d = depth as nat;
    let after = dir.redirected(was, depth, lower, upper);
    let m = pow2(d) as int;
    lemma_pow2(dir.global_depth as nat);
    assert forall|a: int| 0 <= a < after.size() implies #[trigger] after.local_depths[a]
        <= after.global_depth && after.page_ids[a] != 0 by {
        assert(dir.local_depths[a] <= dir.global_depth);
        assert(dir.page_ids[a] != 0);
    }
    assert forall|a: int, b: int|
        0 <= a < after.size() && 0 <= b < after.size() implies #[trigger] slots_ok(
        after,
        a,
        b,
    ) by {
        assert(slots_ok(dir, a, b));
        assert(slots_ok(dir, b, a));
        assert(slots_ok(dir, i, a));
        assert(slots_ok(dir, i, b));
        assert(slots_ok(dir, a, i));
        assert(dir.page_ids[a] != lower && dir.page_ids[a] != upper);
        assert(dir.page_ids[b] != lower && dir.page_ids[b] != upper);
        if dir.page_ids[a] == was {
            lemma_one_more_bit(a, b, d);
        }
    }
}

/// The depths of the directory once the pair of an insertion is in its
/// bucket: they are in order, and every slot points at a bucket.
proof fn lemma_filled_depths<K: Storable>(s: Store, dir_id: PageId, k: K)
    requires
        depths_ok(dir_of(s, dir_id)),
        0 < s.next_id <= i32::MAX,
    ensures
        depths_ok(filled_dir(s, dir_id, k)),
        all_set(filled_dir(s, dir_id, k)),
{
    let dir = dir_of(s, dir_id);
    let i = dir.index_of(key_hash(k));
    let dir2 = filled_dir(s, dir_id, k);
    lemma_index(dir, key_hash(k));
    if dir.global_depth == 0 {
        assert(dir.size() == 1) by {
            reveal_with_fuel(pow2, 2);
        }
    }
    if dir.page_ids[i] == 0 {
        assert(dir.global_depth == 0);
        assert forall|a: int, c: int|
            0 <= a < dir2.size() && 0 <= c < dir2.size() implies #[trigger] slots_ok(
            dir2,
            a,
            c,
        ) by {}
    }
    assert forall|a: int| 0 <= a < dir2.size() implies #[trigger] dir2.page_ids[a] != 0 by {
        if dir.global_depth > 0 {
            assert(dir.page_ids[a] != 0);
        }
    }
}

/// The depths of the directory after a split: they are in order, and every
/// slot points at a bucket.
proof fn lemma_split_depths(s: Store, dir: DirView, i: int)
    requires
        depths_ok(dir),
        all_set(dir),
        0 <= i < dir.size(),
        0 < s.next_id,
        can_split(s, dir, i) ==> s.next_id + 2 <= i32::MAX,
        forall|j: int| 0 <= j < dir.size() ==> #[trigger] dir.page_ids[j] < s.next_id,
    ensures
        depths_ok(split_dir(s, dir, i)),
        all_set(split_dir(s, dir, i)),
{
    if can_split(s, dir, i) {
        let depth = dir.local_depths[i];
        let lower = s.next_id as PageId;
        let upper = (s.next_id + 1) as PageId;
        assert(dir.local_depths[i] <= dir.global_depth);
        let grown = if depth == dir.global_depth {
            dir.doubled()
        } else {
            dir
        };
        lemma_pow2(dir.global_depth as nat);
        if depth == dir.global_depth {
            lemma_doubled_depths(dir);
            lemma_doubled_slot(dir, i);
            lemma_small_mod(i as nat, dir.size());
        }
        assert forall|j: int| 0 <= j < grown.size() implies #[trigger] grown.page_ids[j]
            != lower && grown.page_ids[j] != upper by {
            if depth == dir.global_depth {
                lemma_doubled_slot(dir, j);
                assert(dir.page_ids[j % dir.size() as int] < s.next_id);
            } else {
                assert(dir.page_ids[j] < s.next_id);
            }
        }
        lemma_redirected_depths(grown, i, lower, upper);
    }
}

/// **The depths after an insertion.** An insertion into an index whose
/// directory has its depths in order, if it takes the pair in, leaves such
/// an index, in which every slot points at a bucket.
pub proof fn lemma_insert_depths<K: Storable, V: Storable>(
    s: Store,
    dir_id: PageId,
    b: nat,
    k: K,
    v: V,
)
    requires
        index_wf::<K, V>(s, dir_id, b),
        depths_ok(dir_of(s, dir_id)),
        stores::<K, V>(s, dir_id, b, k),
    ensures
        depths_ok(dir_of(spec_insert::<K, V>(s, dir_id, b, k, v).store, dir_id)),
        all_set(dir_of(spec_insert::<K, V>(s, dir_id, b, k, v).store, dir_id)),
{
    lemma_filled::<K, V>(s, dir_id, b, k, v, k, v);
    lemma_filled_depths(s, dir_id, k);
    let s2 = filled_store::<K, V>(s, dir_id, b, k, v);
    let dir2 = dir_of(s2, dir_id);
    let i2 = dir2.index_of(key_hash(k));
    lemma_index(dir2, key_hash(k));
    if bucket_on::<K, V>(s2, slot_page(s2, dir_id, k), b).is_full() {
        lemma_split::<K, V>(s2, dir_id, b, i2, k, v);
        assert forall|j: int| 0 <= j < dir2.size() implies #[trigger] dir2.page_ids[j]
            < s2.next_id by {
            let q = dir2.page_ids[j];
            assert(q == 0 || (0 < q < s2.next_id && q != dir_id));
        }
        lemma_split_depths(s2, dir2, i2);
    }
}

/// **The depths after an insertion that stores nothing.** An insertion that
/// does not store its pair leaves the depths of the directory in order, also
/// where it splits the full bucket of the key.
pub proof fn lemma_refused_depths<K: Storable, V: Storable>(
    s: Store,
    dir_id: PageId,
    b: nat,
    k: K,
    v: V,
)
    requires
        index_wf::<K, V>(s, dir_id, b),
        depths_ok(dir_of(s, dir_id)),
        b > 0,
        !stores::<K, V>(s, dir_id, b, k),
    ensures
        depths_ok(dir_of(spec_insert::<K, V>(s, dir_id, b, k, v).store, dir_id)),
{
    let dir = dir_of(s, dir_id);
    let i = dir.index_of(key_hash(k));
    lemma_index(dir, key_hash(k));
    lemma_insert_refused::<K, V>(s, dir_id, b, k, v, k, v);
    if reached::<K, V>(s, dir_id, b, k) is Some {
        lemma_used_slots::<K, V>(s, dir_id, b);
        lemma_split_depths(s, dir, i);
    }
}

/// Every slot in use of a well-formed index whose depths are in order, one
/// of which points at a bucket, points at a page that was allocated.
proof fn lemma_used_slots<K: Storable, V: Storable>(s: Store, dir_id: PageId, b: nat)
    requires
        index_wf::<K, V>(s, dir_id, b),
        depths_ok(dir_of(s, dir_id)),
        exists|i: int|
            0 <= i < dir_of(s, dir_id).size() && #[trigger] dir_of(s, dir_id).page_ids[i] != 0,
    ensures
        all_set(dir_of(s, dir_id)),
        forall|j: int|
            0 <= j < dir_of(s, dir_id).size() ==> #[trigger] dir_of(s, dir_id).page_ids[j]
                < s.next_id,
        s.next_id > 0,
        s.pages.len() <= i32::MAX,
{
    let dir = dir_of(s, dir_id);
    if dir.global_depth == 0 {
        assert(dir.size() == 1) by {
            reveal_with_fuel(pow2, 2);
        }
    }
    assert forall|j: int| 0 <= j < dir.size() implies #[trigger] dir.page_ids[j] < s.next_id by {
        let q = dir.page_ids[j];
        assert(q == 0 || (0 < q < s.next_id && q != dir_id));
    }
}

/// **The depths after a removal.** A removal leaves the directory as it
/// was.
pub proof fn lemma_remove_depths<K: Storable, V: Storable>(
    s: Store,
    dir_id: PageId,
    b: nat,
    k: K,
    v: V,
)
    requires
        index_wf::<K, V>(s, dir_id, b),
    ensures
        dir_of(spec_remove::<K, V>(s, dir_id, b, k, v).store, dir_id) == dir_of(s, dir_id),
{
    lemma_lookup::<K, V>(s, dir_id, b, k, v);
    lemma_remove::<K, V>(s, dir_id, b, k, v, k);
    let dir = dir_of(s, dir_id);
    lemma_index(dir, key_hash(k));
    let page = slot_page(s, dir_id, k);
    if page != 0 {
        BucketView::<K, V>::lemma_decode(s.pages[page as int], b);
    }
}

} // verus!
