//! What an insertion does to the keys of a B+-tree.
//!
//! A well-formed tree comes with a plan: for every page of the tree the
//! range of the keys that belong below it, and its height above the leaves.
//! The laws here say that an insertion into a well-formed tree leaves a
//! well-formed tree, in which a search finds the inserted value under the
//! inserted key and under every other key what it found before.

use vstd::prelude::*;
use crate::btree::node::{
    first_greater, lemma_first_greater, lemma_with_slot, sorted, with_slot, NodeType, NodeView,
};
use crate::btree::order::{
    lemma_first_greater_is, lemma_lower_bound_is, lemma_parted_lookup, lemma_stored_lookup, lookup,
};
use crate::btree::slot::{Either, Slot};
use crate::btree::{
    finished, first_root, goes_up, grown_root, insert_at, lower_half, needs_split, parted,
    search_at, spec_get, spec_insert, taken_in, upper_half, BTreeError, Descent, Inserted,
    INSERT_DEPTH, MAX_DEPTH,
};
use crate::page::{PageId, NO_PAGE};
use crate::page_cache::Store;
use crate::storable::{Increment, Storable};

verus! {

/// The place of a page in a tree: the keys that belong below it are those
/// from `lo` on (from the least key on if `lo` is `None`) and below `hi`
/// (up to the greatest key if `hi` is `None`), by rank; and `h` is its
/// height above the leaves.
pub struct Place {
    pub lo: Option<int>,
    pub hi: Option<int>,
    pub h: nat,
}

/// A plan of a tree: the place of every page of it.
pub type Plan = Map<PageId, Place>;

impl Place {
    /// Whether a key of rank `r` belongs below the page.
    pub open spec fn holds(self, r: int) -> bool {
        (self.lo is Some ==> self.lo->0 <= r) && (self.hi is Some ==> r < self.hi->0)
    }

    /// Whether a separator of rank `r` can stand in the page: above the lower
    /// bound, and not above the upper.
    pub open spec fn admits(self, r: int) -> bool {
        (self.lo is Some ==> self.lo->0 < r) && (self.hi is Some ==> r <= self.hi->0)
    }

    /// Whether this place lies within `other`, and not above it.
    pub open spec fn within(self, other: Place) -> bool {
        &&& self.h <= other.h
        &&& other.lo is Some ==> self.lo is Some && other.lo->0 <= self.lo->0
        &&& other.hi is Some ==> self.hi is Some && self.hi->0 <= other.hi->0
    }
}

/// Number of children of an internal node: one for each slot, and one more
/// if it has a next pointer.
pub open spec fn child_count<K, V>(node: NodeView<K, V>) -> int {
    if node.next == NO_PAGE {
        node.slots.len() as int
    } else {
        node.slots.len() as int + 1
    }
}

/// The page of child `i` of an internal node.
pub open spec fn child_page<K, V>(node: NodeView<K, V>, i: int) -> PageId {
    if i < node.slots.len() {
        node.slots[i].1->Pointer_0
    } else {
        node.next
    }
}

/// The place of child `i` of an internal node at `place`: between the keys
/// of the slots before it and at it.
pub open spec fn child_place<K: Increment, V>(node: NodeView<K, V>, place: Place, i: int)
    -> Place {
    Place {
        lo: if i <= 0 {
            place.lo
        } else {
            Some(node.slots[i - 1].0.rank())
        },
        hi: if i < node.slots.len() {
            Some(node.slots[i].0.rank())
        } else {
            place.hi
        },
        h: (place.h - 1) as nat,
    }
}

/// Whether `node` stands well at `place` on page `p`: a leaf at height 0
/// holds values under keys that belong there; an internal node holds
/// pointers under separators that can stand there, has a child for every key
/// that belongs there, and every child stands well at its place.
pub open spec fn node_ok<K: Increment, V: Storable>(
    s: Store,
    plan: Plan,
    node: NodeView<K, V>,
    p: PageId,
    place: Place,
) -> bool
    decreases place.h, 0nat,
{
    &&& node.id == p
    &&& sorted(node.slots)
    &&& if place.h == 0 {
        &&& node.t == NodeType::Leaf
        &&& forall|i: int|
            0 <= i < node.slots.len() ==> (#[trigger] node.slots[i]).1 is Value && place.holds(
                node.slots[i].0.rank(),
            )
    } else {
        &&& node.t == NodeType::Internal
        &&& forall|i: int|
            0 <= i < node.slots.len() ==> (#[trigger] node.slots[i]).1 is Pointer && place.admits(
                node.slots[i].0.rank(),
            )
        &&& node.next == NO_PAGE ==> node.slots.len() > 0 && place.hi == Some(
            node.slots.last().0.rank(),
        )
        &&& node.next != NO_PAGE && node.slots.len() > 0 ==> place.holds(
            node.slots.last().0.rank(),
        )
        &&& forall|i: int|
            0 <= i < child_count(node) ==> tree_ok::<K, V>(
                s,
                plan,
                #[trigger] child_page(node, i),
                child_place(node, place, i),
            )
    }
}

/// Whether the tree below page `p` stands well at `place`: the page was
/// allocated, the plan has it at `place`, and it holds a node that stands
/// well there.
pub open spec fn tree_ok<K: Increment, V: Storable>(s: Store, plan: Plan, p: PageId, place: Place)
    -> bool
    decreases place.h, 1nat,
{
    &&& 0 <= p < s.next_id
    &&& plan.contains_key(p)
    &&& plan[p] == place
    &&& NodeView::<K, V>::decode(s.pages[p as int]) is Some
    &&& node_ok::<K, V>(
        s,
        plan,
        NodeView::<K, V>::decode(s.pages[p as int])->0,
        p,
        place,
    )
}

/// Whether the store can hold a tree: no more pages were handed out than it
/// has, and every page id fits a `PageId`.
pub open spec fn store_ok(s: Store) -> bool {
    0 <= s.next_id <= s.pages.len() <= i32::MAX
}

/// Every child of an internal node that stands well has its place within the
/// place of the node.
pub proof fn lemma_child_within<K: Increment, V: Storable>(
    s: Store,
    plan: Plan,
    node: NodeView<K, V>,
    p: PageId,
    place: Place,
    i: int,
)
    requires
        node_ok::<K, V>(s, plan, node, p, place),
        place.h > 0,
        0 <= i < child_count(node),
    ensures
        child_place(node, place, i).within(place),
        child_place(node, place, i).h < place.h,
        tree_ok::<K, V>(s, plan, child_page(node, i), child_place(node, place, i)),
{
    if i > 0 {
        assert(place.admits(node.slots[i - 1].0.rank()));
    }
    if i < node.slots.len() {
        assert(place.admits(node.slots[i].0.rank()));
    }
    assert(tree_ok::<K, V>(s, plan, child_page(node, i), child_place(node, place, i)));
}

/// A key that belongs below an internal node is routed to the child below
/// which it belongs.
pub proof fn lemma_routed<K: Increment, V: Storable>(
    s: Store,
    plan: Plan,
    node: NodeView<K, V>,
    p: PageId,
    place: Place,
    key: K,
)
    requires
        node_ok::<K, V>(s, plan, node, p, place),
        place.h > 0,
        place.holds(key.rank()),
    ensures
        0 <= first_greater(node.slots, key) < child_count(node),
        node.route(key) == Some(
            (first_greater(node.slots, key), child_page(node, first_greater(node.slots, key))),
        ),
        child_place(node, place, first_greater(node.slots, key)).holds(key.rank()),
{
    let i = first_greater(node.slots, key);
    lemma_first_greater(node.slots, key, 0);
    if i == node.slots.len() {
        if node.next == NO_PAGE {
            assert(node.slots[node.slots.len() - 1].0.rank() <= key.rank());
            assert(false);
        }
    } else {
        assert(node.slots[i].1 is Pointer);
    }
    if i > 0 {
        assert(node.slots[i - 1].0.rank() <= key.rank());
    }
}

/// A tree stands well in another store and under another plan that agree
/// with its own on the pages within its place.
pub proof fn lemma_frame<K: Increment, V: Storable>(
    s: Store,
    plan: Plan,
    s2: Store,
    plan2: Plan,
    p: PageId,
    place: Place,
)
    requires
        tree_ok::<K, V>(s, plan, p, place),
        s2.pages.len() == s.pages.len(),
        s2.next_id >= s.next_id,
        forall|q: PageId| #[trigger]
            plan.contains_key(q) && plan[q].within(place) ==> plan2.contains_key(q) && plan2[q]
                == plan[q] && s2.pages[q as int] == s.pages[q as int],
    ensures
        tree_ok::<K, V>(s2, plan2, p, place),
    decreases place.h,
{
    let node = NodeView::<K, V>::decode(s.pages[p as int])->0;
    assert(plan.contains_key(p) && plan[p].within(place));
    if place.h > 0 {
        assert forall|i: int| 0 <= i < child_count(node) implies tree_ok::<K, V>(
            s2,
            plan2,
            #[trigger] child_page(node, i),
            child_place(node, place, i),
        ) by {
            lemma_child_within::<K, V>(s, plan, node, p, place, i);
            let cp = child_place(node, place, i);
            assert forall|q: PageId| #[trigger]
                plan.contains_key(q) && plan[q].within(cp) implies plan2.contains_key(q)
                && plan2[q] == plan[q] && s2.pages[q as int] == s.pages[q as int] by {
                assert(plan[q].within(place));
            }
            lemma_frame::<K, V>(s, plan, s2, plan2, child_page(node, i), cp);
        }
    }
}

/// A search finds in another store what it finds in this one if the two
/// agree on the pages below which the key belongs.
pub proof fn lemma_search_frame<K: Increment, V: Storable>(
    s: Store,
    plan: Plan,
    s2: Store,
    p: PageId,
    place: Place,
    key: K,
    fuel: nat,
)
    requires
        tree_ok::<K, V>(s, plan, p, place),
        place.holds(key.rank()),
        s2.pages.len() == s.pages.len(),
        forall|q: PageId| #[trigger]
            plan.contains_key(q) && plan[q].within(place) && plan[q].holds(key.rank())
                ==> s2.pages[q as int] == s.pages[q as int],
    ensures
        search_at::<K, V>(s2, p, key, fuel) == search_at::<K, V>(s, p, key, fuel),
    decreases place.h,
{
    let node = NodeView::<K, V>::decode(s.pages[p as int])->0;
    assert(plan.contains_key(p) && plan[p].within(place) && plan[p].holds(key.rank()));
    if fuel > 0 && place.h > 0 {
        lemma_routed::<K, V>(s, plan, node, p, place, key);
        let i = first_greater(node.slots, key);
        lemma_child_within::<K, V>(s, plan, node, p, place, i);
        let cp = child_place(node, place, i);
        assert forall|q: PageId| #[trigger]
            plan.contains_key(q) && plan[q].within(cp) && plan[q].holds(
                key.rank(),
            ) implies s2.pages[q as int] == s.pages[q as int] by {
            assert(plan[q].within(place));
        }
        lemma_search_frame::<K, V>(s, plan, s2, child_page(node, i), cp, key, (fuel - 1) as nat);
    }
}

/// What a search finds at a leaf.
pub open spec fn found<V>(x: Option<Either<V>>) -> Result<Option<V>, BTreeError> {
    match x {
        Some(Either::Value(v)) => Ok(Some(v)),
        Some(Either::Pointer(_)) => Err(BTreeError::Corrupt),
        None => Ok(None),
    }
}

/// A search with a level of fuel left finds at a leaf what the leaf holds
/// under the key.
pub proof fn lemma_search_leaf<K: Increment, V: Storable>(
    s: Store,
    plan: Plan,
    p: PageId,
    place: Place,
    key: K,
    fuel: nat,
)
    requires
        tree_ok::<K, V>(s, plan, p, place),
        place.h == 0,
        fuel > 0,
        store_ok(s),
    ensures
        search_at::<K, V>(s, p, key, fuel) == found(
            lookup(NodeView::<K, V>::decode(s.pages[p as int])->0.slots, key),
        ),
{
}

/// Whether every page of the plan was allocated.
pub open spec fn plan_ok(s: Store, plan: Plan) -> bool {
    forall|q: PageId| #[trigger] plan.contains_key(q) ==> 0 <= q < s.next_id
}

/// The plan of the tree once the insertion of `key` has gone through page
/// `p` and what lies below it: the pages on its way that were split have
/// the lower part of their range, and the pages that took their upper halves
/// the upper part.
pub open spec fn plan_at<K: Increment, V: Storable>(
    s: Store,
    plan: Plan,
    p: PageId,
    key: K,
    value: V,
    fuel: nat,
) -> Plan
    decreases fuel,
{
    if fuel == 0 || !s.has(p) || NodeView::<K, V>::decode(s.pages[p as int]) is None {
        plan
    } else {
        let node = NodeView::<K, V>::decode(s.pages[p as int])->0;
        let s1 = if needs_split(node) {
            s.allocated()
        } else {
            s
        };
        let cur = parted(node, s.next_id as PageId, key).cur;
        let below = if cur.t == NodeType::Leaf {
            plan
        } else {
            match cur.route(key) {
                None => plan,
                Some((_, child)) => plan_at::<K, V>(s1, plan, child, key, value, (fuel - 1) as nat),
            }
        };
        match insert_at::<K, V>(s, p, key, value, fuel).outcome {
            Ok(Some((sep, page))) => below.insert(
                p,
                Place { lo: plan[p].lo, hi: Some(sep.0.rank()), h: plan[p].h },
            ).insert(page, Place { lo: Some(sep.0.rank()), hi: plan[p].hi, h: plan[p].h }),
            _ => below,
        }
    }
}

/// What one level of an insertion leaves of the tree below page `p`: the
/// store keeps its size; the pages above `p`, and those below which the key
/// does not belong, are as they were, in the store and in the plan; every
/// page of the plan was allocated; and the tree below `p` stands well at the
/// place of `p`, or, if the node was split, in two trees that part that
/// place at the separator.
pub open spec fn level_ok<K: Increment, V: Storable>(
    s: Store,
    plan: Plan,
    p: PageId,
    key: K,
    d: Descent<K, V>,
    plan2: Plan,
) -> bool {
    &&& store_ok(d.store)
    &&& d.store.pages.len() == s.pages.len()
    &&& d.store.next_id >= s.next_id
    &&& forall|q: PageId| #[trigger]
        plan.contains_key(q) && (plan[q].h > plan[p].h || !plan[q].holds(key.rank()))
            ==> plan2.contains_key(q) && plan2[q] == plan[q] && d.store.pages[q as int]
            == s.pages[q as int]
    &&& forall|q: PageId| #[trigger]
        plan2.contains_key(q) ==> 0 <= q < d.store.next_id && (plan.contains_key(q) || q
            >= s.next_id)
    &&& match d.outcome {
        Ok(None) => tree_ok::<K, V>(d.store, plan2, p, plan[p]),
        Ok(Some((sep, page))) => {
            &&& sep.1 == Either::<V>::Pointer(p)
            &&& page >= s.next_id
            &&& plan[p].lo is Some ==> plan[p].lo->0 < sep.0.rank()
            &&& plan[p].hi is Some ==> sep.0.rank() < plan[p].hi->0
            &&& tree_ok::<K, V>(
                d.store,
                plan2,
                p,
                Place { lo: plan[p].lo, hi: Some(sep.0.rank()), h: plan[p].h },
            )
            &&& tree_ok::<K, V>(
                d.store,
                plan2,
                page,
                Place { lo: Some(sep.0.rank()), hi: plan[p].hi, h: plan[p].h },
            )
        },
        Err(_) => true,
    }
}

/// The page on which a search for `key2` goes on after one level of an
/// insertion: the page of the node, or the page of its upper half if the
/// node was split and the key is not below the separator.
pub open spec fn target<K: Increment, V>(p: PageId, d: Descent<K, V>, key2: K) -> PageId {
    match d.outcome {
        Ok(Some((sep, page))) => if key2.rank() < sep.0.rank() {
            p
        } else {
            page
        },
        _ => p,
    }
}

/// The two halves of a split leaf once the key is stored in the one it
/// belongs to: both are in key order, and the keys of the lower lie below
/// those of the upper.
pub proof fn lemma_leaf_halves<K: Increment, V: Storable>(
    node: NodeView<K, V>,
    new_id: PageId,
    key: K,
    value: V,
)
    requires
        sorted(node.slots),
        needs_split(node),
        node.t == NodeType::Leaf,
    ensures
        ({
            let parts = parted(node, new_id, key);
            let cur2 = parts.cur.stored(Slot(key, Either::Value(value)));
            let lo2 = if parts.go_hi {
                parts.other->0
            } else {
                cur2
            };
            let hi2 = if parts.go_hi {
                cur2
            } else {
                parts.other->0
            };
            let m = node.slots.len() as int / 2;
            &&& parts.other is Some
            &&& sorted(lo2.slots) && sorted(hi2.slots)
            &&& lo2.slots.len() > 0 && hi2.slots.len() > 0
            &&& lo2.id == node.id && hi2.id == new_id
            &&& lo2.t == NodeType::Leaf && hi2.t == NodeType::Leaf
            &&& lo2.slots.last().0.rank() < hi2.slots[0].0.rank()
            &&& lo2.slots.last().0.has_next()
            &&& lo2.separator().0.rank() == lo2.slots.last().0.rank() + 1
            &&& lo2.separator().1 == Either::<V>::Pointer(node.id)
            &&& node.slots[m - 1].0.rank() <= lo2.slots.last().0.rank() < node.slots[m].0.rank()
            &&& parts.go_hi <==> key.rank() >= node.slots[m].0.rank()
            &&& !parts.go_hi ==> key.rank() <= lo2.slots.last().0.rank()
            &&& lo2.slots == (if parts.go_hi {
                node.slots.take(m)
            } else {
                with_slot(node.slots.take(m), Slot(key, Either::Value(value)))
            })
            &&& hi2.slots == (if parts.go_hi {
                with_slot(node.slots.skip(m), Slot(key, Either::Value(value)))
            } else {
                node.slots.skip(m)
            })
        }),
{
    let m = node.slots.len() as int / 2;
    let slot = Slot(key, Either::<V>::Value(value));
    let lo = node.slots.take(m);
    let hi = node.slots.skip(m);
    lemma_parted_lookup(node.slots, m, key);
    let parts = parted(node, new_id, key);
    assert(hi[0] == node.slots[m]);
    assert(lo[m - 1] == node.slots[m - 1]);
    let cur2 = parts.cur.stored(slot);
    let lo2 = if parts.go_hi {
        parts.other->0
    } else {
        cur2
    };
    let hi2 = if parts.go_hi {
        cur2
    } else {
        parts.other->0
    };
    if parts.go_hi {
        lemma_with_slot(hi, slot);
        assert(lo2.slots == lo);
        assert(hi2.slots == with_slot(hi, slot));
        let first = hi2.slots[0];
        assert(hi2.slots.contains(first));
        if first.0 != key {
            assert(hi.contains(first));
            let a = choose|a: int| 0 <= a < hi.len() && hi[a] == first;
            assert(hi[a] == node.slots[a + m]);
            assert(node.slots[m].0.rank() <= node.slots[a + m].0.rank());
        }
        assert(node.slots[m - 1].0.rank() < first.0.rank());
    } else {
        lemma_with_slot(lo, slot);
        assert(lo2.slots == with_slot(lo, slot));
        assert(hi2.slots == hi);
        let last = lo2.slots[lo2.slots.len() - 1];
        assert(lo2.slots.contains(last));
        if last.0 != key {
            assert(lo.contains(last));
            let a = choose|a: int| 0 <= a < lo.len() && lo[a] == last;
            assert(lo[a] == node.slots[a]);
            assert(node.slots[a].0.rank() < node.slots[m].0.rank());
        }
        assert(last.0.rank() < node.slots[m].0.rank());
        // the last key is not below the last key of the half as it was
        let old_last = lo[m - 1];
        if old_last.0 != key {
            assert(lo.contains(old_last));
            assert(lo2.slots.contains(old_last));
            let b = choose|b: int| 0 <= b < lo2.slots.len() && lo2.slots[b] == old_last;
            assert(lo2.slots[b].0.rank() <= last.0.rank());
        } else {
            assert(lo2.slots.contains(slot));
            let b = choose|b: int| 0 <= b < lo2.slots.len() && lo2.slots[b] == slot;
            assert(lo2.slots[b].0.rank() <= last.0.rank());
        }
        assert(lo2.slots.contains(slot));
        let c = choose|c: int| 0 <= c < lo2.slots.len() && lo2.slots[c] == slot;
        assert(lo2.slots[c].0.rank() <= last.0.rank());
    }
    lo2.slots.last().0.lemma_rank(hi2.slots[0].0);
}

/// A leaf in key order whose slots hold values under keys that belong at a
/// place stands well there once it is written to its page.
pub proof fn lemma_leaf_written<K: Increment, V: Storable>(
    s: Store,
    plan: Plan,
    node: NodeView<K, V>,
    place: Place,
)
    requires
        store_ok(s),
        0 <= node.id < s.next_id,
        node.fits(),
        sorted(node.slots),
        node.t == NodeType::Leaf,
        place.h == 0,
        plan.contains_key(node.id),
        plan[node.id] == place,
        forall|i: int|
            0 <= i < node.slots.len() ==> (#[trigger] node.slots[i]).1 is Value && place.holds(
                node.slots[i].0.rank(),
            ),
        s.pages[node.id as int] == node.encode(),
    ensures
        tree_ok::<K, V>(s, plan, node.id, place),
{
    node.lemma_round_trip();
}

/// **The leaf level of an insertion.**
pub proof fn lemma_leaf_level<K: Increment, V: Storable>(
    s: Store,
    plan: Plan,
    p: PageId,
    key: K,
    value: V,
    fuel: nat,
)
    requires
        store_ok(s),
        plan_ok(s, plan),
        tree_ok::<K, V>(s, plan, p, plan[p]),
        plan[p].h == 0,
        plan[p].holds(key.rank()),
        insert_at::<K, V>(s, p, key, value, fuel).outcome is Ok,
    ensures
        level_ok::<K, V>(
            s,
            plan,
            p,
            key,
            insert_at::<K, V>(s, p, key, value, fuel),
            plan_at::<K, V>(s, plan, p, key, value, fuel),
        ),
{
    let place = plan[p];
    let node = NodeView::<K, V>::decode(s.pages[p as int])->0;
    let slot = Slot(key, Either::<V>::Value(value));
    let d = insert_at::<K, V>(s, p, key, value, fuel);
    let plan2 = plan_at::<K, V>(s, plan, p, key, value, fuel);
    let new_id = s.next_id as PageId;
    let parts = parted(node, new_id, key);
    let cur2 = parts.cur.stored(slot);
    assert(fuel > 0);
    if needs_split(node) {
        lemma_leaf_halves(node, new_id, key, value);
        let m = node.slots.len() as int / 2;
        let lo2 = if parts.go_hi {
            parts.other->0
        } else {
            cur2
        };
        let hi2 = if parts.go_hi {
            cur2
        } else {
            parts.other->0
        };
        let s1 = s.allocated();
        assert(d == finished(s1, p, cur2, parts.other, parts.go_hi));
        let sep = lo2.separator();
        let lower = Place { lo: place.lo, hi: Some(sep.0.rank()), h: 0 };
        let upper = Place { lo: Some(sep.0.rank()), hi: place.hi, h: 0 };
        assert(d.store == s1.written(p, lo2.encode()).written(new_id, hi2.encode()));
        assert(plan2 == plan.insert(p, lower).insert(new_id, upper));
        // what the halves hold belongs at their places
        let lo = node.slots.take(m);
        let hi = node.slots.skip(m);
        assert forall|i: int| 0 <= i < lo2.slots.len() implies (#[trigger] lo2.slots[i]).1 is Value
            && lower.holds(lo2.slots[i].0.rank()) by {
            let x = lo2.slots[i];
            assert(lo2.slots.contains(x));
            assert(lo2.slots[i].0.rank() <= lo2.slots.last().0.rank());
            if parts.go_hi {
                assert(x == node.slots[i]);
            } else {
                lemma_with_slot(lo, slot);
                if x.0 != key {
                    assert(lo.contains(x));
                    let a = choose|a: int| 0 <= a < lo.len() && lo[a] == x;
                    assert(x == node.slots[a]);
                }
            }
        }
        assert forall|i: int| 0 <= i < hi2.slots.len() implies (#[trigger] hi2.slots[i]).1 is Value
            && upper.holds(hi2.slots[i].0.rank()) by {
            let x = hi2.slots[i];
            assert(hi2.slots.contains(x));
            assert(hi2.slots[0].0.rank() <= hi2.slots[i].0.rank());
            if parts.go_hi {
                lemma_with_slot(hi, slot);
                if x.0 != key {
                    assert(hi.contains(x));
                    let a = choose|a: int| 0 <= a < hi.len() && hi[a] == x;
                    assert(x == node.slots[a + m]);
                }
            } else {
                assert(x == node.slots[i + m]);
            }
        }
        assert(node.slots[m - 1].1 is Value && place.holds(node.slots[m - 1].0.rank()));
        assert(node.slots[m].1 is Value && place.holds(node.slots[m].0.rank()));
        lemma_leaf_written::<K, V>(d.store, plan2, lo2, lower);
        lemma_leaf_written::<K, V>(d.store, plan2, hi2, upper);
    } else {
        assert(d == finished(s, p, cur2, None, false));
        assert(d.store == s.written(p, cur2.encode()));
        assert(plan2 == plan);
        lemma_with_slot(node.slots, slot);
        assert forall|i: int| 0 <= i < cur2.slots.len() implies (#[trigger] cur2.slots[i]).1 is Value
            && place.holds(cur2.slots[i].0.rank()) by {
            let x = cur2.slots[i];
            assert(cur2.slots.contains(x));
            if x.0 != key {
                assert(node.slots.contains(x));
                let a = choose|a: int| 0 <= a < node.slots.len() && node.slots[a] == x;
                assert(x == node.slots[a]);
            }
        }
        lemma_leaf_written::<K, V>(d.store, plan2, cur2, place);
    }
}

/// What a search finds after one level of an insertion: under the inserted
/// key the inserted value, under another key what it found before.
pub open spec fn search_ok<K: Increment, V: Storable>(
    s: Store,
    p: PageId,
    key: K,
    value: V,
    d: Descent<K, V>,
    key2: K,
    fuel2: nat,
) -> bool {
    search_at::<K, V>(d.store, target(p, d, key2), key2, fuel2) == (if key2 == key {
        Ok::<Option<V>, BTreeError>(Some(value))
    } else {
        search_at::<K, V>(s, p, key2, fuel2)
    })
}

/// **The search after the leaf level of an insertion.**
pub proof fn lemma_leaf_search<K: Increment, V: Storable>(
    s: Store,
    plan: Plan,
    p: PageId,
    key: K,
    value: V,
    fuel: nat,
    key2: K,
    fuel2: nat,
)
    requires
        store_ok(s),
        plan_ok(s, plan),
        tree_ok::<K, V>(s, plan, p, plan[p]),
        plan[p].h == 0,
        plan[p].holds(key.rank()),
        plan[p].holds(key2.rank()),
        insert_at::<K, V>(s, p, key, value, fuel).outcome is Ok,
        fuel2 > 0,
    ensures
        search_ok::<K, V>(s, p, key, value, insert_at::<K, V>(s, p, key, value, fuel), key2, fuel2),
{
    let place = plan[p];
    let node = NodeView::<K, V>::decode(s.pages[p as int])->0;
    let slot = Slot(key, Either::<V>::Value(value));
    let d = insert_at::<K, V>(s, p, key, value, fuel);
    let plan2 = plan_at::<K, V>(s, plan, p, key, value, fuel);
    let new_id = s.next_id as PageId;
    let parts = parted(node, new_id, key);
    let cur2 = parts.cur.stored(slot);
    lemma_leaf_level::<K, V>(s, plan, p, key, value, fuel);
    lemma_search_leaf::<K, V>(s, plan, p, place, key2, fuel2);
    key2.lemma_rank(key);
    if needs_split(node) {
        lemma_leaf_halves(node, new_id, key, value);
        let m = node.slots.len() as int / 2;
        let lo2 = if parts.go_hi {
            parts.other->0
        } else {
            cur2
        };
        let hi2 = if parts.go_hi {
            cur2
        } else {
            parts.other->0
        };
        let s1 = s.allocated();
        assert(d == finished(s1, p, cur2, parts.other, parts.go_hi));
        let sep = lo2.separator();
        let lower = Place { lo: place.lo, hi: Some(sep.0.rank()), h: 0 };
        let upper = Place { lo: Some(sep.0.rank()), hi: place.hi, h: 0 };
        lo2.lemma_round_trip();
        hi2.lemma_round_trip();
        assert(d.store.pages[p as int] == lo2.encode());
        assert(d.store.pages[new_id as int] == hi2.encode());
        lemma_parted_lookup(node.slots, m, key2);
        lemma_stored_lookup(node.slots.take(m), slot, key2);
        lemma_stored_lookup(node.slots.skip(m), slot, key2);
        assert(d.outcome == Ok::<Option<(Slot<K, V>, PageId)>, BTreeError>(Some((sep, new_id))));
        let was = lookup(node.slots, key2);
        if key2.rank() < sep.0.rank() {
            assert(target(p, d, key2) == p);
            lemma_search_leaf::<K, V>(d.store, plan2, p, lower, key2, fuel2);
            assert(key2.rank() < node.slots[m].0.rank());
            assert(lookup(node.slots.take(m), key2) == was);
            if parts.go_hi {
                assert(key2 != key);
                assert(lookup(lo2.slots, key2) == was);
            } else {
                assert(lookup(lo2.slots, key2) == (if key2 == key {
                    Some(slot.1)
                } else {
                    was
                }));
            }
        } else {
            assert(target(p, d, key2) == new_id);
            lemma_search_leaf::<K, V>(d.store, plan2, new_id, upper, key2, fuel2);
            assert(key2.rank() > node.slots[m - 1].0.rank());
            assert(lookup(node.slots.skip(m), key2) == was);
            if parts.go_hi {
                assert(lookup(hi2.slots, key2) == (if key2 == key {
                    Some(slot.1)
                } else {
                    was
                }));
            } else {
                assert(key2 != key);
                assert(lookup(hi2.slots, key2) == was);
            }
        }
    } else {
        assert(d == finished(s, p, cur2, None, false));
        lemma_with_slot(node.slots, slot);
        cur2.lemma_round_trip();
        lemma_stored_lookup(node.slots, slot, key2);
        assert(target(p, d, key2) == p);
        lemma_search_leaf::<K, V>(d.store, plan2, p, place, key2, fuel2);
    }
}

/// What an internal node looks like once it has taken in the split of the
/// child that a key was routed to: the separator of the lower half stands
/// where the pointer to the child stood, with the pointer to the child; the
/// pointer to the upper half stands behind it, under the key that bounded
/// the child, or is the next pointer.
pub proof fn lemma_taken_in<K: Increment, V: Storable>(
    cur: NodeView<K, V>,
    key: K,
    sep: Slot<K, V>,
    page: PageId,
)
    requires
        sorted(cur.slots),
        first_greater(cur.slots, key) > 0 ==> cur.slots[first_greater(cur.slots, key) - 1].0.rank()
            < sep.0.rank(),
        first_greater(cur.slots, key) < cur.slots.len() ==> sep.0.rank() < cur.slots[first_greater(
            cur.slots,
            key,
        )].0.rank(),
    ensures
        ({
            let at = first_greater(cur.slots, key);
            let cur2 = taken_in(cur, at, Some((sep, page)));
            &&& 0 <= at <= cur.slots.len()
            &&& cur2.slots.len() == cur.slots.len() + 1
            &&& sorted(cur2.slots)
            &&& cur2.t == cur.t && cur2.id == cur.id && cur2.max == cur.max
            &&& forall|i: int| 0 <= i < at ==> #[trigger] cur2.slots[i] == cur.slots[i]
            &&& cur2.slots[at] == sep
            &&& forall|i: int|
                at + 1 < i <= cur.slots.len() ==> #[trigger] cur2.slots[i] == cur.slots[i - 1]
            &&& at < cur.slots.len() ==> cur2.slots[at + 1] == Slot(
                cur.slots[at].0,
                Either::<V>::Pointer(page),
            ) && cur2.next == cur.next
            &&& at == cur.slots.len() ==> cur2.next == page
        }),
{
    let at = first_greater(cur.slots, key);
    lemma_first_greater(cur.slots, key, 0);
    let moved = cur.redirected(at, page);
    assert(sorted(moved.slots)) by {
        assert forall|i: int, j: int| 0 <= i < j < moved.slots.len() implies (
        #[trigger] moved.slots[i]).0.rank() < (#[trigger] moved.slots[j]).0.rank() by {
            assert(moved.slots[i].0 == cur.slots[i].0);
            assert(moved.slots[j].0 == cur.slots[j].0);
        }
    }
    assert forall|j: int| 0 <= j < at implies (#[trigger] moved.slots[j]).0.rank()
        < sep.0.rank() by {
        assert(moved.slots[j].0 == cur.slots[j].0);
        assert(cur.slots[j].0.rank() <= cur.slots[at - 1].0.rank());
    }
    if at < cur.slots.len() {
        assert(moved.slots[at].0 == cur.slots[at].0);
    }
    lemma_lower_bound_is(moved.slots, sep.0, at);
    lemma_with_slot(moved.slots, sep);
    let cur2 = taken_in(cur, at, Some((sep, page)));
    assert(cur2.slots == moved.slots.insert(at, sep)) by {
        if at < moved.slots.len() && moved.slots[at].0 == sep.0 {
            assert(false);
        }
    }
}

/// What the level below hands up to an internal node, as far as the tree is
/// concerned: the child stands well at its place, or the child and the page
/// of its upper half stand well in the two parts of that place.
pub open spec fn handed_up<K: Increment, V: Storable>(
    s: Store,
    plan: Plan,
    child: PageId,
    cp: Place,
    up: Option<(Slot<K, V>, PageId)>,
) -> bool {
    match up {
        None => tree_ok::<K, V>(s, plan, child, cp),
        Some((sep, page)) => {
            &&& sep.1 == Either::<V>::Pointer(child)
            &&& cp.lo is Some ==> cp.lo->0 < sep.0.rank()
            &&& cp.hi is Some ==> sep.0.rank() < cp.hi->0
            &&& tree_ok::<K, V>(s, plan, child, Place { lo: cp.lo, hi: Some(sep.0.rank()), h: cp.h })
            &&& tree_ok::<K, V>(s, plan, page, Place { lo: Some(sep.0.rank()), hi: cp.hi, h: cp.h })
        },
    }
}

/// A child below which a key does not belong stands well after an
/// insertion of the key elsewhere.
pub proof fn lemma_sibling<K: Increment, V: Storable>(
    s: Store,
    plan: Plan,
    s2: Store,
    plan2: Plan,
    cur: NodeView<K, V>,
    cid: PageId,
    cplace: Place,
    key: K,
    i: int,
)
    requires
        node_ok::<K, V>(s, plan, cur, cid, cplace),
        cplace.h > 0,
        0 <= i < child_count(cur),
        i != first_greater(cur.slots, key),
        s2.pages.len() == s.pages.len(),
        s2.next_id >= s.next_id,
        forall|q: PageId| #[trigger]
            plan.contains_key(q) && !plan[q].holds(key.rank()) ==> plan2.contains_key(q)
                && plan2[q] == plan[q] && s2.pages[q as int] == s.pages[q as int],
    ensures
        !child_place(cur, cplace, i).holds(key.rank()),
        tree_ok::<K, V>(s2, plan2, child_page(cur, i), child_place(cur, cplace, i)),
{
    let at = first_greater(cur.slots, key);
    let pi = child_place(cur, cplace, i);
    lemma_first_greater(cur.slots, key, 0);
    lemma_child_within::<K, V>(s, plan, cur, cid, cplace, i);
    if i < at {
        assert(cur.slots[i].0.rank() <= key.rank());
    } else {
        assert(cur.slots[at].0.rank() <= cur.slots[i - 1].0.rank());
    }
    assert forall|q: PageId| #[trigger] plan.contains_key(q) && plan[q].within(pi) implies plan2.contains_key(q)
        && plan2[q] == plan[q] && s2.pages[q as int] == s.pages[q as int] by {
        assert(!plan[q].holds(key.rank()));
    }
    lemma_frame::<K, V>(s, plan, s2, plan2, child_page(cur, i), pi);
}

/// **Taking in.** An internal node that stands well stands well once it has
/// taken in what the level below handed up.
pub proof fn lemma_absorbed<K: Increment, V: Storable>(
    s: Store,
    plan: Plan,
    s2: Store,
    plan2: Plan,
    cur: NodeView<K, V>,
    cid: PageId,
    cplace: Place,
    key: K,
    up: Option<(Slot<K, V>, PageId)>,
)
    requires
        node_ok::<K, V>(s, plan, cur, cid, cplace),
        cplace.h > 0,
        cplace.holds(key.rank()),
        s2.pages.len() == s.pages.len(),
        s2.next_id >= s.next_id,
        forall|q: PageId| #[trigger]
            plan.contains_key(q) && !plan[q].holds(key.rank()) ==> plan2.contains_key(q)
                && plan2[q] == plan[q] && s2.pages[q as int] == s.pages[q as int],
        handed_up::<K, V>(
            s2,
            plan2,
            child_page(cur, first_greater(cur.slots, key)),
            child_place(cur, cplace, first_greater(cur.slots, key)),
            up,
        ),
    ensures
        node_ok::<K, V>(s2, plan2, taken_in(cur, first_greater(cur.slots, key), up), cid, cplace),
        taken_in(cur, first_greater(cur.slots, key), up).slots.len() >= cur.slots.len(),
        cur.slots.len() > 0 && first_greater(cur.slots, key) < cur.slots.len() ==> taken_in(
            cur,
            first_greater(cur.slots, key),
            up,
        ).slots.last().0 == cur.slots.last().0,
{
    let at = first_greater(cur.slots, key);
    let child = child_page(cur, at);
    let cp = child_place(cur, cplace, at);
    let cur2 = taken_in(cur, at, up);
    lemma_routed::<K, V>(s, plan, cur, cid, cplace, key);
    lemma_child_within::<K, V>(s, plan, cur, cid, cplace, at);
    match up {
        None => {
            assert forall|i: int| 0 <= i < child_count(cur2) implies tree_ok::<K, V>(
                s2,
                plan2,
                #[trigger] child_page(cur2, i),
                child_place(cur2, cplace, i),
            ) by {
                if i != at {
                    lemma_sibling::<K, V>(s, plan, s2, plan2, cur, cid, cplace, key, i);
                }
            }
        },
        Some((sep, page)) => {
            let n = cur.slots.len() as int;
            lemma_taken_in(cur, key, sep, page);
            assert forall|i: int| 0 <= i < cur2.slots.len() implies (#[trigger] cur2.slots[i]).1 is Pointer
                && cplace.admits(cur2.slots[i].0.rank()) by {
                if i < at {
                    assert(cur2.slots[i] == cur.slots[i]);
                } else if i == at {
                    if at > 0 {
                        assert(cplace.admits(cur.slots[at - 1].0.rank()));
                    }
                    if at < n {
                        assert(cplace.admits(cur.slots[at].0.rank()));
                    }
                } else if i == at + 1 {
                    assert(cplace.admits(cur.slots[at].0.rank()));
                } else {
                    assert(cur2.slots[i] == cur.slots[i - 1]);
                }
            }
            assert forall|i: int| 0 <= i < child_count(cur2) implies tree_ok::<K, V>(
                s2,
                plan2,
                #[trigger] child_page(cur2, i),
                child_place(cur2, cplace, i),
            ) by {
                if i < at {
                    lemma_sibling::<K, V>(s, plan, s2, plan2, cur, cid, cplace, key, i);
                    assert(cur2.slots[i] == cur.slots[i]);
                    if i > 0 {
                        assert(cur2.slots[i - 1] == cur.slots[i - 1]);
                    }
                    assert(child_page(cur2, i) == child_page(cur, i));
                    assert(child_place(cur2, cplace, i) == child_place(cur, cplace, i));
                } else if i == at {
                    if at > 0 {
                        assert(cur2.slots[at - 1] == cur.slots[at - 1]);
                    }
                    assert(child_page(cur2, i) == child);
                    assert(child_place(cur2, cplace, i) == (Place {
                        lo: cp.lo,
                        hi: Some(sep.0.rank()),
                        h: cp.h,
                    }));
                } else if i == at + 1 {
                    assert(child_page(cur2, i) == page);
                    assert(child_place(cur2, cplace, i) == (Place {
                        lo: Some(sep.0.rank()),
                        hi: cp.hi,
                        h: cp.h,
                    }));
                } else {
                    lemma_sibling::<K, V>(s, plan, s2, plan2, cur, cid, cplace, key, i - 1);
                    if i < cur2.slots.len() {
                        assert(cur2.slots[i] == cur.slots[i - 1]);
                    }
                    if i - 1 == at + 1 {
                        assert(cur2.slots[i - 1].0 == cur.slots[at].0);
                    } else {
                        assert(cur2.slots[i - 1] == cur.slots[i - 2]);
                    }
                    assert(child_page(cur2, i) == child_page(cur, i - 1));
                    assert(child_place(cur2, cplace, i) == child_place(cur, cplace, i - 1));
                }
            }
            if cur2.next != NO_PAGE && cur2.slots.len() > 0 {
                if at < n {
                    if at + 1 == n {
                        assert(cur2.slots.last().0 == cur.slots[at].0);
                    } else {
                        assert(cur2.slots[n] == cur.slots[n - 1]);
                    }
                    assert(cplace.holds(cur.slots.last().0.rank()));
                }
            }
            if cur2.next == NO_PAGE {
                assert(at < n);
                if at + 1 == n {
                    assert(cur2.slots.last().0 == cur.slots[at].0);
                } else {
                    assert(cur2.slots[n] == cur.slots[n - 1]);
                }
            }
            if n > 0 && at < n {
                if at + 1 == n {
                    assert(cur2.slots.last().0 == cur.slots[at].0);
                } else {
                    assert(cur2.slots[n] == cur.slots[n - 1]);
                }
            }
        },
    }
}

/// The place of the lower half of a split internal node: the place of the
/// node up to the last key of the half.
pub open spec fn lower_place<K: Increment, V>(node: NodeView<K, V>, place: Place) -> Place {
    Place {
        lo: place.lo,
        hi: Some(node.slots[node.slots.len() as int / 2 - 1].0.rank()),
        h: place.h,
    }
}

/// The place of the upper half of a split internal node: the place of the
/// node from the last key of the lower half on.
pub open spec fn upper_place<K: Increment, V>(node: NodeView<K, V>, place: Place) -> Place {
    Place {
        lo: Some(node.slots[node.slots.len() as int / 2 - 1].0.rank()),
        hi: place.hi,
        h: place.h,
    }
}

/// **Parting.** The two halves of an internal node that stands well stand
/// well in the two parts of its place, and a key is routed in the half it
/// belongs to as it was in the node.
pub proof fn lemma_inner_halves<K: Increment, V: Storable>(
    s: Store,
    plan: Plan,
    node: NodeView<K, V>,
    p: PageId,
    place: Place,
    new_id: PageId,
    key: K,
)
    requires
        node_ok::<K, V>(s, plan, node, p, place),
        place.h > 0,
        needs_split(node),
        place.holds(key.rank()),
    ensures
        node_ok::<K, V>(s, plan, lower_half(node, new_id), p, lower_place(node, place)),
        node_ok::<K, V>(s, plan, upper_half(node, new_id), new_id, upper_place(node, place)),
        place.admits(lower_place(node, place).hi->0),
        place.holds(lower_place(node, place).hi->0),
        lower_half(node, new_id).separator() == Slot(
            node.slots[node.slots.len() as int / 2 - 1].0,
            Either::<V>::Pointer(p),
        ),
        ({
            let parts = parted(node, new_id, key);
            let cplace = if parts.go_hi {
                upper_place(node, place)
            } else {
                lower_place(node, place)
            };
            &&& parts.other is Some
            &&& parts.go_hi <==> upper_place(node, place).holds(key.rank())
            &&& cplace.holds(key.rank())
            &&& parts.cur == (if parts.go_hi {
                upper_half(node, new_id)
            } else {
                lower_half(node, new_id)
            })
            &&& parts.other->0 == (if parts.go_hi {
                lower_half(node, new_id)
            } else {
                upper_half(node, new_id)
            })
            &&& child_page(parts.cur, first_greater(parts.cur.slots, key)) == child_page(
                node,
                first_greater(node.slots, key),
            )
            &&& child_place(parts.cur, cplace, first_greater(parts.cur.slots, key)) == child_place(
                node,
                place,
                first_greater(node.slots, key),
            )
        }),
{
    let n = node.slots.len() as int;
    let m = n / 2;
    let lo = lower_half(node, new_id);
    let hi = upper_half(node, new_id);
    let lower = lower_place(node, place);
    let upper = upper_place(node, place);
    let b = node.slots[m - 1].0.rank();
    lemma_parted_lookup(node.slots, m, key);
    assert(place.admits(node.slots[m - 1].0.rank()));
    assert(place.admits(node.slots[m].0.rank()));
    assert(node.slots[m - 1].0.rank() < node.slots[m].0.rank());
    assert(lo.slots.last() == node.slots[m - 1]);
    // the lower half
    assert forall|i: int| 0 <= i < lo.slots.len() implies (#[trigger] lo.slots[i]).1 is Pointer
        && lower.admits(lo.slots[i].0.rank()) by {
        assert(lo.slots[i] == node.slots[i]);
        assert(place.admits(node.slots[i].0.rank()));
        assert(node.slots[i].0.rank() <= node.slots[m - 1].0.rank());
    }
    assert forall|i: int| 0 <= i < child_count(lo) implies tree_ok::<K, V>(
        s,
        plan,
        #[trigger] child_page(lo, i),
        child_place(lo, lower, i),
    ) by {
        assert(lo.slots[i] == node.slots[i]);
        if i > 0 {
            assert(lo.slots[i - 1] == node.slots[i - 1]);
        }
        assert(child_page(lo, i) == child_page(node, i));
        assert(child_place(lo, lower, i) == child_place(node, place, i));
        lemma_child_within::<K, V>(s, plan, node, p, place, i);
    }
    // the upper half
    assert forall|i: int| 0 <= i < hi.slots.len() implies (#[trigger] hi.slots[i]).1 is Pointer
        && upper.admits(hi.slots[i].0.rank()) by {
        assert(hi.slots[i] == node.slots[i + m]);
        assert(place.admits(node.slots[i + m].0.rank()));
        assert(node.slots[m - 1].0.rank() < node.slots[i + m].0.rank());
    }
    assert(hi.slots.last() == node.slots[n - 1]);
    assert forall|i: int| 0 <= i < child_count(hi) implies tree_ok::<K, V>(
        s,
        plan,
        #[trigger] child_page(hi, i),
        child_place(hi, upper, i),
    ) by {
        if i < hi.slots.len() {
            assert(hi.slots[i] == node.slots[i + m]);
        }
        if i > 0 {
            assert(hi.slots[i - 1] == node.slots[i + m - 1]);
        }
        assert(child_page(hi, i) == child_page(node, i + m));
        assert(child_place(hi, upper, i) == child_place(node, place, i + m));
        lemma_child_within::<K, V>(s, plan, node, p, place, i + m);
    }
    if hi.next != NO_PAGE && hi.slots.len() > 0 {
        assert(place.holds(node.slots.last().0.rank()));
        assert(node.slots[m - 1].0.rank() < node.slots[n - 1].0.rank());
    }
    // the way of the key
    let j = first_greater(node.slots, key);
    lemma_first_greater(node.slots, key, 0);
    let parts = parted(node, new_id, key);
    assert(goes_up(lo, hi, key) == (key.rank() >= b));
    if key.rank() >= b {
        assert(j >= m) by {
            if j < m {
                assert(node.slots[j].0.rank() <= node.slots[m - 1].0.rank());
            }
        }
        assert forall|i: int| 0 <= i < j - m implies (#[trigger] hi.slots[i]).0.rank()
            <= key.rank() by {
            assert(hi.slots[i] == node.slots[i + m]);
        }
        if j < n {
            assert(hi.slots[j - m] == node.slots[j]);
        }
        lemma_first_greater_is(hi.slots, key, j - m);
        if j - m < hi.slots.len() {
            assert(hi.slots[j - m] == node.slots[j]);
        }
        if j - m > 0 {
            assert(hi.slots[j - m - 1] == node.slots[j - 1]);
        }
    } else {
        assert(j < m) by {
            if j >= m {
                assert(node.slots[m - 1].0.rank() <= key.rank());
            }
        }
        assert forall|i: int| 0 <= i < j implies (#[trigger] lo.slots[i]).0.rank()
            <= key.rank() by {
            assert(lo.slots[i] == node.slots[i]);
        }
        assert(lo.slots[j] == node.slots[j]);
        lemma_first_greater_is(lo.slots, key, j);
        if j > 0 {
            assert(lo.slots[j - 1] == node.slots[j - 1]);
        }
    }
}

/// **Writing.** An internal node that stands well at a place stands well
/// there as the tree on its page once it is written, if the pages below it
/// are as they were.
pub proof fn lemma_written<K: Increment, V: Storable>(
    s: Store,
    plan: Plan,
    s2: Store,
    plan2: Plan,
    node: NodeView<K, V>,
    place: Place,
)
    requires
        node_ok::<K, V>(s, plan, node, node.id, place),
        place.h > 0,
        node.fits(),
        0 <= node.id < s2.next_id,
        s2.pages.len() == s.pages.len(),
        s2.next_id >= s.next_id,
        node.id < s2.pages.len(),
        s2.pages[node.id as int] == node.encode(),
        plan2.contains_key(node.id),
        plan2[node.id] == place,
        forall|q: PageId| #[trigger]
            plan.contains_key(q) && plan[q].h < place.h ==> plan2.contains_key(q) && plan2[q]
                == plan[q] && s2.pages[q as int] == s.pages[q as int],
    ensures
        tree_ok::<K, V>(s2, plan2, node.id, place),
{
    node.lemma_round_trip();
    assert forall|i: int| 0 <= i < child_count(node) implies tree_ok::<K, V>(
        s2,
        plan2,
        #[trigger] child_page(node, i),
        child_place(node, place, i),
    ) by {
        lemma_child_within::<K, V>(s, plan, node, node.id, place, i);
        let cp = child_place(node, place, i);
        assert forall|q: PageId| #[trigger] plan.contains_key(q) && plan[q].within(cp) implies plan2.contains_key(q)
            && plan2[q] == plan[q] && s2.pages[q as int] == s.pages[q as int] by {
            assert(plan[q].h < place.h);
        }
        lemma_frame::<K, V>(s, plan, s2, plan2, child_page(node, i), cp);
    }
}

/// A node below which a key does not belong stands well after an insertion
/// of the key elsewhere.
pub proof fn lemma_untouched<K: Increment, V: Storable>(
    s: Store,
    plan: Plan,
    s2: Store,
    plan2: Plan,
    node: NodeView<K, V>,
    p: PageId,
    place: Place,
    key: K,
)
    requires
        node_ok::<K, V>(s, plan, node, p, place),
        place.h > 0,
        !place.holds(key.rank()),
        s2.pages.len() == s.pages.len(),
        s2.next_id >= s.next_id,
        forall|q: PageId| #[trigger]
            plan.contains_key(q) && !plan[q].holds(key.rank()) ==> plan2.contains_key(q)
                && plan2[q] == plan[q] && s2.pages[q as int] == s.pages[q as int],
    ensures
        node_ok::<K, V>(s2, plan2, node, p, place),
{
    assert forall|i: int| 0 <= i < child_count(node) implies tree_ok::<K, V>(
        s2,
        plan2,
        #[trigger] child_page(node, i),
        child_place(node, place, i),
    ) by {
        lemma_child_within::<K, V>(s, plan, node, p, place, i);
        let cp = child_place(node, place, i);
        assert forall|q: PageId| #[trigger] plan.contains_key(q) && plan[q].within(cp) implies plan2.contains_key(q)
            && plan2[q] == plan[q] && s2.pages[q as int] == s.pages[q as int] by {
            assert(!plan[q].holds(key.rank()));
        }
        lemma_frame::<K, V>(s, plan, s2, plan2, child_page(node, i), cp);
    }
}

/// **One level of an insertion.** An insertion that goes through a page
/// below which its key belongs, and succeeds, leaves the tree below the page
/// standing well: see `level_ok`.
pub proof fn lemma_level<K: Increment, V: Storable>(
    s: Store,
    plan: Plan,
    p: PageId,
    key: K,
    value: V,
    fuel: nat,
)
    requires
        store_ok(s),
        plan_ok(s, plan),
        tree_ok::<K, V>(s, plan, p, plan[p]),
        plan[p].holds(key.rank()),
        insert_at::<K, V>(s, p, key, value, fuel).outcome is Ok,
    ensures
        level_ok::<K, V>(
            s,
            plan,
            p,
            key,
            insert_at::<K, V>(s, p, key, value, fuel),
            plan_at::<K, V>(s, plan, p, key, value, fuel),
        ),
    decreases fuel,
{
    let place = plan[p];
    if place.h == 0 {
        lemma_leaf_level::<K, V>(s, plan, p, key, value, fuel);
    } else {
        let node = NodeView::<K, V>::decode(s.pages[p as int])->0;
        let d = insert_at::<K, V>(s, p, key, value, fuel);
        let plan2 = plan_at::<K, V>(s, plan, p, key, value, fuel);
        let new_id = s.next_id as PageId;
        let split = needs_split(node);
        let s1 = if split {
            s.allocated()
        } else {
            s
        };
        let parts = parted(node, new_id, key);
        let cur = parts.cur;
        assert(fuel > 0);
        if split {
            lemma_inner_halves::<K, V>(s, plan, node, p, place, new_id, key);
        }
        let cplace = if !split {
            place
        } else if parts.go_hi {
            upper_place(node, place)
        } else {
            lower_place(node, place)
        };
        let cid = cur.id;
        assert(node_ok::<K, V>(s, plan, cur, cid, cplace));
        let at = first_greater(cur.slots, key);
        lemma_routed::<K, V>(s, plan, cur, cid, cplace, key);
        let child = child_page(cur, at);
        let cp = child_place(cur, cplace, at);
        lemma_child_within::<K, V>(s, plan, cur, cid, cplace, at);
        assert(plan[child] == cp);
        // the allocation leaves the tree as it is
        assert forall|q: PageId| #[trigger] plan.contains_key(q) implies s1.pages[q as int]
            == s.pages[q as int] by {}
        lemma_frame::<K, V>(s, plan, s1, plan, child, cp);
        assert(plan_ok(s1, plan));
        let dc = insert_at::<K, V>(s1, child, key, value, (fuel - 1) as nat);
        let plan_c = plan_at::<K, V>(s1, plan, child, key, value, (fuel - 1) as nat);
        assert(dc.outcome is Ok);
        lemma_level::<K, V>(s1, plan, child, key, value, (fuel - 1) as nat);
        let up = dc.outcome->Ok_0;
        let cur2 = taken_in(cur, at, up);
        assert(d == finished(dc.store, p, cur2, parts.other, parts.go_hi));
        // what the level below left of the pages below which the key does not belong
        assert forall|q: PageId| #[trigger] plan.contains_key(q) && !plan[q].holds(
            key.rank(),
        ) implies plan_c.contains_key(q) && plan_c[q] == plan[q] && dc.store.pages[q as int]
            == s.pages[q as int] by {
            assert(s1.pages[q as int] == s.pages[q as int]);
        }
        assert(handed_up::<K, V>(dc.store, plan_c, child, cp, up));
        lemma_absorbed::<K, V>(s, plan, dc.store, plan_c, cur, cid, cplace, key, up);
        assert(plan_c.contains_key(p) && plan_c[p] == place && dc.store.pages[p as int]
            == s1.pages[p as int]);
        if split {
            let other = parts.other->0;
            let oplace = if parts.go_hi {
                lower_place(node, place)
            } else {
                upper_place(node, place)
            };
            lemma_untouched::<K, V>(s, plan, dc.store, plan_c, other, other.id, oplace, key);
            let lo2 = if parts.go_hi {
                other
            } else {
                cur2
            };
            let hi2 = if parts.go_hi {
                cur2
            } else {
                other
            };
            let lower = lower_place(node, place);
            let upper = upper_place(node, place);
            assert(lo2.id == p && hi2.id == new_id);
            assert(node_ok::<K, V>(dc.store, plan_c, lo2, p, lower));
            assert(node_ok::<K, V>(dc.store, plan_c, hi2, new_id, upper));
            assert(lo2.slots.last().0 == node.slots[node.slots.len() as int / 2 - 1].0) by {
                if !parts.go_hi {
                    assert(at < cur.slots.len());
                    assert(cur.slots.last() == node.slots[node.slots.len() as int / 2 - 1]);
                } else {
                    assert(other.slots.last() == node.slots[node.slots.len() as int / 2 - 1]);
                }
            }
            let sep = lo2.separator();
            assert(sep == Slot(lo2.slots.last().0, Either::<V>::Pointer(p)));
            assert(d.store == dc.store.written(p, lo2.encode()).written(new_id, hi2.encode()));
            assert(d.outcome == Ok::<Option<(Slot<K, V>, PageId)>, BTreeError>(
                Some((sep, new_id)),
            ));
            assert(plan2 == plan_c.insert(p, lower).insert(new_id, upper));
            assert(!plan_c.contains_key(new_id)) by {
                if plan_c.contains_key(new_id) {
                    assert(plan.contains_key(new_id) || new_id >= s1.next_id);
                }
            }
            assert forall|q: PageId| #[trigger] plan_c.contains_key(q) && plan_c[q].h
                < place.h implies plan2.contains_key(q) && plan2[q] == plan_c[q]
                && d.store.pages[q as int] == dc.store.pages[q as int] by {
                assert(q != p);
                assert(q != new_id);
            }
            lemma_written::<K, V>(dc.store, plan_c, d.store, plan2, lo2, lower);
            lemma_written::<K, V>(dc.store, plan_c, d.store, plan2, hi2, upper);
        } else {
            assert(d.store == dc.store.written(p, cur2.encode()));
            assert(plan2 == plan_c);
            assert forall|q: PageId| #[trigger] plan_c.contains_key(q) && plan_c[q].h
                < place.h implies plan2.contains_key(q) && plan2[q] == plan_c[q]
                && d.store.pages[q as int] == dc.store.pages[q as int] by {
                assert(q != p);
            }
            lemma_written::<K, V>(dc.store, plan_c, d.store, plan2, cur2, place);
        }
    }
}

/// Where a key is routed in a node that has taken in the split of a child:
/// where it was routed before, but for the keys that were routed to that
/// child, which go to the child if they are below the separator and to the
/// page of the upper half if not.
pub proof fn lemma_taken_in_route<K: Increment, V: Storable>(
    cur: NodeView<K, V>,
    key: K,
    sep: Slot<K, V>,
    page: PageId,
    key2: K,
)
    requires
        sorted(cur.slots),
        first_greater(cur.slots, key) > 0 ==> cur.slots[first_greater(cur.slots, key) - 1].0.rank()
            < sep.0.rank(),
        first_greater(cur.slots, key) < cur.slots.len() ==> sep.0.rank() < cur.slots[first_greater(
            cur.slots,
            key,
        )].0.rank(),
        sep.1 is Pointer,
    ensures
        ({
            let at = first_greater(cur.slots, key);
            let cur2 = taken_in(cur, at, Some((sep, page)));
            let j2 = first_greater(cur.slots, key2);
            let i2 = first_greater(cur2.slots, key2);
            &&& j2 != at ==> child_page(cur2, i2) == child_page(cur, j2)
            &&& j2 == at ==> child_page(cur2, i2) == (if key2.rank() < sep.0.rank() {
                sep.1->Pointer_0
            } else {
                page
            })
            &&& 0 <= i2 <= cur2.slots.len()
            &&& cur2.next == NO_PAGE <==> cur.next == NO_PAGE && at < cur.slots.len() || page
                == NO_PAGE && at == cur.slots.len()
        }),
{
    let at = first_greater(cur.slots, key);
    let cur2 = taken_in(cur, at, Some((sep, page)));
    let j2 = first_greater(cur.slots, key2);
    let n = cur.slots.len() as int;
    lemma_taken_in(cur, key, sep, page);
    lemma_first_greater(cur.slots, key2, 0);
    lemma_first_greater(cur.slots, key, 0);
    let i2 = if j2 < at {
        j2
    } else if j2 > at {
        j2 + 1
    } else if key2.rank() < sep.0.rank() {
        at
    } else {
        at + 1
    };
    assert forall|i: int| 0 <= i < i2 implies (#[trigger] cur2.slots[i]).0.rank()
        <= key2.rank() by {
        if i < at {
            assert(cur2.slots[i] == cur.slots[i]);
        } else if i == at {
            if j2 > at {
                assert(cur.slots[at].0.rank() <= key2.rank());
            }
        } else if i == at + 1 {
            assert(cur2.slots[i].0 == cur.slots[at].0);
            assert(cur.slots[at].0.rank() <= key2.rank());
        } else {
            assert(cur2.slots[i] == cur.slots[i - 1]);
            assert(cur.slots[i - 1].0.rank() <= key2.rank());
        }
    }
    if i2 < cur2.slots.len() {
        if i2 < at {
            assert(cur2.slots[i2] == cur.slots[i2]);
        } else if i2 == at {
        } else if i2 == at + 1 {
            assert(cur2.slots[i2].0 == cur.slots[at].0);
            if j2 < at {
                assert(false);
            }
            assert(j2 == at);
        } else {
            assert(cur2.slots[i2] == cur.slots[i2 - 1]);
        }
    }
    lemma_first_greater_is(cur2.slots, key2, i2);
    if j2 != at {
        if j2 < at {
            assert(cur2.slots[j2] == cur.slots[j2]);
        } else if j2 < n {
            assert(cur2.slots[j2 + 1] == cur.slots[j2]);
        }
    }
}

/// A search at an internal node goes on in the child that the key is routed
/// to.
pub proof fn lemma_search_step<K: Increment, V: Storable>(
    s: Store,
    plan: Plan,
    p: PageId,
    place: Place,
    key2: K,
    fuel2: nat,
)
    requires
        store_ok(s),
        tree_ok::<K, V>(s, plan, p, place),
        place.h > 0,
        place.holds(key2.rank()),
        fuel2 > 0,
    ensures
        search_at::<K, V>(s, p, key2, fuel2) == search_at::<K, V>(
            s,
            child_page(
                NodeView::<K, V>::decode(s.pages[p as int])->0,
                first_greater(NodeView::<K, V>::decode(s.pages[p as int])->0.slots, key2),
            ),
            key2,
            (fuel2 - 1) as nat,
        ),
{
    let node = NodeView::<K, V>::decode(s.pages[p as int])->0;
    lemma_routed::<K, V>(s, plan, node, p, place, key2);
}

/// A search below a child below which the inserted key does not belong
/// finds after the insertion what it found before.
pub proof fn lemma_sibling_search<K: Increment, V: Storable>(
    s: Store,
    plan: Plan,
    s2: Store,
    node: NodeView<K, V>,
    p: PageId,
    place: Place,
    key: K,
    key2: K,
    fuel: nat,
)
    requires
        node_ok::<K, V>(s, plan, node, p, place),
        place.h > 0,
        place.holds(key2.rank()),
        !child_place(node, place, first_greater(node.slots, key2)).holds(key.rank()),
        s2.pages.len() == s.pages.len(),
        forall|q: PageId| #[trigger]
            plan.contains_key(q) && !plan[q].holds(key.rank()) ==> s2.pages[q as int]
                == s.pages[q as int],
    ensures
        search_at::<K, V>(s2, child_page(node, first_greater(node.slots, key2)), key2, fuel)
            == search_at::<K, V>(
            s,
            child_page(node, first_greater(node.slots, key2)),
            key2,
            fuel,
        ),
{
    let i = first_greater(node.slots, key2);
    lemma_routed::<K, V>(s, plan, node, p, place, key2);
    lemma_child_within::<K, V>(s, plan, node, p, place, i);
    let cp = child_place(node, place, i);
    assert forall|q: PageId| #[trigger] plan.contains_key(q) && plan[q].within(cp)
        && plan[q].holds(key2.rank()) implies s2.pages[q as int] == s.pages[q as int] by {
        assert(!plan[q].holds(key.rank()));
    }
    lemma_search_frame::<K, V>(s, plan, s2, child_page(node, i), cp, key2, fuel);
}

/// The page on which a search goes on below a child after an insertion went
/// through the child: the child, or the page of its upper half if it was
/// split and the key is not below the separator.
pub open spec fn target_up<K: Increment, V>(
    child: PageId,
    up: Option<(Slot<K, V>, PageId)>,
    key2: K,
) -> PageId {
    match up {
        Some((sep, page)) => if key2.rank() < sep.0.rank() {
            child
        } else {
            page
        },
        None => child,
    }
}

/// The search below an internal node once the insertion has gone through
/// it: the node, or its two halves, have taken in what the level below
/// handed up, and are written to their pages.
pub proof fn lemma_search_finished<K: Increment, V: Storable>(
    s: Store,
    plan: Plan,
    s2: Store,
    plan2: Plan,
    node: NodeView<K, V>,
    p: PageId,
    place: Place,
    new_id: PageId,
    key: K,
    value: V,
    up: Option<(Slot<K, V>, PageId)>,
    d: Descent<K, V>,
    plan_d: Plan,
    key2: K,
    fuel2: nat,
)
    requires
        store_ok(s),
        tree_ok::<K, V>(s, plan, p, place),
        NodeView::<K, V>::decode(s.pages[p as int]) == Some(node),
        place.h > 0,
        place.holds(key.rank()),
        place.holds(key2.rank()),
        fuel2 > place.h,
        store_ok(s2),
        plan_ok(s2, plan2),
        s2.pages.len() == s.pages.len(),
        s2.next_id >= s.next_id,
        needs_split(node) ==> new_id == s.next_id && s2.next_id > s.next_id && !plan2.contains_key(
            new_id,
        ),
        plan2.contains_key(p),
        plan2[p].h == place.h,
        forall|q: PageId| #[trigger]
            plan.contains_key(q) && !plan[q].holds(key.rank()) ==> plan2.contains_key(q)
                && plan2[q] == plan[q] && s2.pages[q as int] == s.pages[q as int],
        ({
            let parts = parted(node, new_id, key);
            let cplace = if !needs_split(node) {
                place
            } else if parts.go_hi {
                upper_place(node, place)
            } else {
                lower_place(node, place)
            };
            let at = first_greater(parts.cur.slots, key);
            let child = child_page(parts.cur, at);
            let cp = child_place(parts.cur, cplace, at);
            &&& handed_up::<K, V>(s2, plan2, child, cp, up)
            &&& d == finished(s2, p, taken_in(parts.cur, at, up), parts.other, parts.go_hi)
            &&& cp.holds(key2.rank()) ==> search_at::<K, V>(
                s2,
                target_up(child, up, key2),
                key2,
                (fuel2 - 1) as nat,
            ) == (if key2 == key {
                Ok::<Option<V>, BTreeError>(Some(value))
            } else {
                search_at::<K, V>(s, child, key2, (fuel2 - 1) as nat)
            })
        }),
        d.outcome is Ok,
        level_ok::<K, V>(s, plan, p, key, d, plan_d),
    ensures
        search_ok::<K, V>(s, p, key, value, d, key2, fuel2),
{
    let split = needs_split(node);
    let parts = parted(node, new_id, key);
    let parts2 = parted(node, new_id, key2);
    let cur = parts.cur;
    if split {
        lemma_inner_halves::<K, V>(s, plan, node, p, place, new_id, key);
        lemma_inner_halves::<K, V>(s, plan, node, p, place, new_id, key2);
    }
    let cplace = if !split {
        place
    } else if parts.go_hi {
        upper_place(node, place)
    } else {
        lower_place(node, place)
    };
    let cid = cur.id;
    let at = first_greater(cur.slots, key);
    lemma_routed::<K, V>(s, plan, cur, cid, cplace, key);
    let child = child_page(cur, at);
    let cp = child_place(cur, cplace, at);
    let cur2 = taken_in(cur, at, up);
    lemma_absorbed::<K, V>(s, plan, s2, plan2, cur, cid, cplace, key, up);
    // the node that the search begins at, and the half of the node that it came from
    let same_half = !split || parts2.go_hi == parts.go_hi;
    let half = parts2.cur;
    let hplace = if !split {
        place
    } else if parts2.go_hi {
        upper_place(node, place)
    } else {
        lower_place(node, place)
    };
    let x = if same_half {
        cur2
    } else {
        half
    };
    let t = target(p, d, key2);
    assert(x.id == half.id);
    assert(t == x.id) by {
        if split {
            let lo2 = if parts.go_hi {
                parts.other->0
            } else {
                cur2
            };
            assert(lo2.slots.last().0 == node.slots[node.slots.len() as int / 2 - 1].0) by {
                if !parts.go_hi {
                    assert(at < cur.slots.len());
                    assert(cur.slots.last() == node.slots[node.slots.len() as int / 2 - 1]);
                } else {
                    assert(parts.other->0.slots.last() == node.slots[node.slots.len() as int / 2
                        - 1]);
                }
            }
        }
    }
    assert(tree_ok::<K, V>(d.store, plan_d, t, hplace));
    assert(sorted(x.slots) && x.fits()) by {
        if !same_half {
            assert(node_ok::<K, V>(s, plan, half, half.id, hplace));
        }
    }
    x.lemma_round_trip();
    assert(d.store.pages[t as int] == x.encode());
    lemma_search_step::<K, V>(d.store, plan_d, t, hplace, key2, fuel2);
    lemma_search_step::<K, V>(s, plan, p, place, key2, fuel2);
    let j2 = first_greater(half.slots, key2);
    let c_fin = child_page(x, first_greater(x.slots, key2));
    lemma_routed::<K, V>(s, plan, half, half.id, hplace, key2);
    let f = (fuel2 - 1) as nat;
    if same_half && j2 == at {
        // the child that the inserted key went to
        let tc = target_up(child, up, key2);
        let tplace = match up {
            None => cp,
            Some((sep, page)) => if key2.rank() < sep.0.rank() {
                Place { lo: cp.lo, hi: Some(sep.0.rank()), h: cp.h }
            } else {
                Place { lo: Some(sep.0.rank()), hi: cp.hi, h: cp.h }
            },
        };
        assert(tree_ok::<K, V>(s2, plan2, tc, tplace));
        assert(c_fin == tc) by {
            match up {
                None => {},
                Some((sep, page)) => {
                    lemma_taken_in_route(cur, key, sep, page, key2);
                },
            }
        }
        assert forall|q: PageId| #[trigger] plan2.contains_key(q) && plan2[q].within(tplace)
            && plan2[q].holds(key2.rank()) implies d.store.pages[q as int]
            == s2.pages[q as int] by {
            assert(q != p);
            if split {
                assert(q != new_id);
            }
        }
        lemma_search_frame::<K, V>(s2, plan2, d.store, tc, tplace, key2, f);
    } else {
        // a child that the inserted key did not go to
        lemma_child_within::<K, V>(s, plan, half, half.id, hplace, j2);
        assert(!child_place(half, hplace, j2).holds(key.rank())) by {
            if same_half {
                lemma_sibling::<K, V>(s, plan, s, plan, cur, cid, cplace, key, j2);
            } else {
                assert(!hplace.holds(key.rank()));
            }
        }
        lemma_sibling_search::<K, V>(s, plan, d.store, half, half.id, hplace, key, key2, f);
        assert(c_fin == child_page(half, j2)) by {
            if same_half {
                match up {
                    None => {},
                    Some((sep, page)) => {
                        lemma_taken_in_route(cur, key, sep, page, key2);
                    },
                }
            }
        }
        assert(key2 != key);
    }
}

/// **The search after one level of an insertion.** After an insertion that
/// went through a page and succeeded, a search for a key that belongs below
/// the page, begun on the page that the level above is told to route the key
/// to, finds the inserted value if the key is the inserted key, and else
/// what a search on the page found before.
pub proof fn lemma_level_search<K: Increment, V: Storable>(
    s: Store,
    plan: Plan,
    p: PageId,
    key: K,
    value: V,
    fuel: nat,
    key2: K,
    fuel2: nat,
)
    requires
        store_ok(s),
        plan_ok(s, plan),
        tree_ok::<K, V>(s, plan, p, plan[p]),
        plan[p].holds(key.rank()),
        plan[p].holds(key2.rank()),
        insert_at::<K, V>(s, p, key, value, fuel).outcome is Ok,
        fuel2 > plan[p].h,
    ensures
        search_ok::<K, V>(s, p, key, value, insert_at::<K, V>(s, p, key, value, fuel), key2, fuel2),
    decreases fuel,
{
    let place = plan[p];
    if place.h == 0 {
        lemma_leaf_search::<K, V>(s, plan, p, key, value, fuel, key2, fuel2);
    } else {
        let node = NodeView::<K, V>::decode(s.pages[p as int])->0;
        let d = insert_at::<K, V>(s, p, key, value, fuel);
        let plan2 = plan_at::<K, V>(s, plan, p, key, value, fuel);
        let new_id = s.next_id as PageId;
        let split = needs_split(node);
        let s1 = if split {
            s.allocated()
        } else {
            s
        };
        let parts = parted(node, new_id, key);
        let cur = parts.cur;
        assert(fuel > 0);
        lemma_level::<K, V>(s, plan, p, key, value, fuel);
        if split {
            lemma_inner_halves::<K, V>(s, plan, node, p, place, new_id, key);
        }
        let cplace = if !split {
            place
        } else if parts.go_hi {
            upper_place(node, place)
        } else {
            lower_place(node, place)
        };
        let cid = cur.id;
        let at = first_greater(cur.slots, key);
        lemma_routed::<K, V>(s, plan, cur, cid, cplace, key);
        let child = child_page(cur, at);
        let cp = child_place(cur, cplace, at);
        lemma_child_within::<K, V>(s, plan, cur, cid, cplace, at);
        assert forall|q: PageId| #[trigger] plan.contains_key(q) implies s1.pages[q as int]
            == s.pages[q as int] by {}
        lemma_frame::<K, V>(s, plan, s1, plan, child, cp);
        let dc = insert_at::<K, V>(s1, child, key, value, (fuel - 1) as nat);
        let plan_c = plan_at::<K, V>(s1, plan, child, key, value, (fuel - 1) as nat);
        lemma_level::<K, V>(s1, plan, child, key, value, (fuel - 1) as nat);
        let up = dc.outcome->Ok_0;
        assert(d == finished(dc.store, p, taken_in(cur, at, up), parts.other, parts.go_hi));
        assert forall|q: PageId| #[trigger] plan.contains_key(q) && !plan[q].holds(
            key.rank(),
        ) implies plan_c.contains_key(q) && plan_c[q] == plan[q] && dc.store.pages[q as int]
            == s.pages[q as int] by {
            assert(s1.pages[q as int] == s.pages[q as int]);
        }
        assert(plan_c.contains_key(p) && plan_c[p] == place);
        if split {
            assert(!plan_c.contains_key(new_id)) by {
                if plan_c.contains_key(new_id) {
                    assert(plan.contains_key(new_id) || new_id >= s1.next_id);
                }
            }
        }
        let f = (fuel2 - 1) as nat;
        if cp.holds(key2.rank()) {
            lemma_level_search::<K, V>(s1, plan, child, key, value, (fuel - 1) as nat, key2, f);
            lemma_search_frame::<K, V>(s, plan, s1, child, cp, key2, f);
            assert(target(child, dc, key2) == target_up(child, up, key2));
        }
        lemma_search_finished::<K, V>(
            s,
            plan,
            dc.store,
            plan_c,
            node,
            p,
            place,
            new_id,
            key,
            value,
            up,
            d,
            plan2,
            key2,
            fuel2,
        );
    }
}

/// A search with more fuel than the tree has levels finds the same with any
/// such fuel.
pub proof fn lemma_fuel<K: Increment, V: Storable>(
    s: Store,
    plan: Plan,
    p: PageId,
    place: Place,
    key: K,
    fuel: nat,
    fuel2: nat,
)
    requires
        store_ok(s),
        tree_ok::<K, V>(s, plan, p, place),
        place.holds(key.rank()),
        fuel > place.h,
        fuel2 > place.h,
    ensures
        search_at::<K, V>(s, p, key, fuel) == search_at::<K, V>(s, p, key, fuel2),
    decreases place.h,
{
    if place.h > 0 {
        let node = NodeView::<K, V>::decode(s.pages[p as int])->0;
        lemma_routed::<K, V>(s, plan, node, p, place, key);
        let i = first_greater(node.slots, key);
        lemma_child_within::<K, V>(s, plan, node, p, place, i);
        lemma_fuel::<K, V>(
            s,
            plan,
            child_page(node, i),
            child_place(node, place, i),
            key,
            (fuel - 1) as nat,
            (fuel2 - 1) as nat,
        );
    }
}

/// The place of a root: every key belongs below it.
pub open spec fn root_place(h: nat) -> Place {
    Place { lo: None, hi: None, h }
}

/// Whether the store holds a well-formed tree rooted at `root` (the empty
/// tree if `root` is `NO_PAGE`) of which `plan` is a plan: the tree stands
/// well at the place of a root, with fewer levels than a search descends.
pub open spec fn tree_inv<K: Increment, V: Storable>(s: Store, root: PageId, plan: Plan) -> bool {
    &&& store_ok(s)
    &&& plan_ok(s, plan)
    &&& root != NO_PAGE ==> {
        &&& plan.contains_key(root)
        &&& plan[root] == root_place(plan[root].h)
        &&& plan[root].h < MAX_DEPTH
        &&& tree_ok::<K, V>(s, plan, root, plan[root])
    }
}

/// The plan of the tree after an insertion: see `lemma_insert`.
pub open spec fn plan_after<K: Increment, V: Storable>(
    s: Store,
    root: PageId,
    max: u32,
    plan: Plan,
    key: K,
    value: V,
) -> Plan {
    let root1 = if root == NO_PAGE {
        s.next_id as PageId
    } else {
        root
    };
    let s1 = if root == NO_PAGE {
        s.allocated().written(root1, first_root::<K, V>(root1, max).encode())
    } else {
        s
    };
    let plan1 = if root == NO_PAGE {
        plan.insert(root1, root_place(0))
    } else {
        plan
    };
    let d = insert_at::<K, V>(s1, root1, key, value, INSERT_DEPTH as nat);
    let plan2 = plan_at::<K, V>(s1, plan1, root1, key, value, INSERT_DEPTH as nat);
    match d.outcome {
        Ok(Some(_)) => plan2.insert(d.store.next_id as PageId, root_place(plan1[root1].h + 1)),
        _ => plan2,
    }
}

/// A root leaf without a slot, written to a newly allocated page, is a
/// well-formed tree in which a search finds nothing.
pub proof fn lemma_first_root<K: Increment, V: Storable>(
    s: Store,
    max: u32,
    plan: Plan,
    key2: K,
    fuel2: nat,
)
    requires
        store_ok(s),
        plan_ok(s, plan),
        !s.full(),
        fuel2 > 0,
    ensures
        tree_inv::<K, V>(
            s.allocated().written(
                s.next_id as PageId,
                first_root::<K, V>(s.next_id as PageId, max).encode(),
            ),
            s.next_id as PageId,
            plan.insert(s.next_id as PageId, root_place(0)),
        ),
        search_at::<K, V>(
            s.allocated().written(
                s.next_id as PageId,
                first_root::<K, V>(s.next_id as PageId, max).encode(),
            ),
            s.next_id as PageId,
            key2,
            fuel2,
        ) == Ok::<Option<V>, BTreeError>(None),
{
    let id = s.next_id as PageId;
    let node = first_root::<K, V>(id, max);
    let s1 = s.allocated().written(id, node.encode());
    let plan1 = plan.insert(id, root_place(0));
    assert(node.slots.len() * crate::btree::slot::slot_size::<K, V>() == 0) by (nonlinear_arith)
        requires
            node.slots.len() == 0,
    ;
    lemma_leaf_written::<K, V>(s1, plan1, node, root_place(0));
    node.lemma_round_trip();
    lemma_search_leaf::<K, V>(s1, plan1, id, root_place(0), key2, fuel2);
    crate::btree::node::lemma_lower_bound(node.slots, key2, 0);
}

/// An insertion that succeeds has descended through every level of the
/// tree.
pub proof fn lemma_fuel_needed<K: Increment, V: Storable>(
    s: Store,
    plan: Plan,
    p: PageId,
    key: K,
    value: V,
    fuel: nat,
)
    requires
        store_ok(s),
        plan_ok(s, plan),
        tree_ok::<K, V>(s, plan, p, plan[p]),
        plan[p].holds(key.rank()),
        insert_at::<K, V>(s, p, key, value, fuel).outcome is Ok,
    ensures
        fuel > plan[p].h,
    decreases fuel,
{
    let place = plan[p];
    if place.h > 0 {
        let node = NodeView::<K, V>::decode(s.pages[p as int])->0;
        let new_id = s.next_id as PageId;
        let split = needs_split(node);
        let s1 = if split {
            s.allocated()
        } else {
            s
        };
        let parts = parted(node, new_id, key);
        let cur = parts.cur;
        if split {
            lemma_inner_halves::<K, V>(s, plan, node, p, place, new_id, key);
        }
        let cplace = if !split {
            place
        } else if parts.go_hi {
            upper_place(node, place)
        } else {
            lower_place(node, place)
        };
        let at = first_greater(cur.slots, key);
        lemma_routed::<K, V>(s, plan, cur, cur.id, cplace, key);
        let child = child_page(cur, at);
        let cp = child_place(cur, cplace, at);
        lemma_child_within::<K, V>(s, plan, cur, cur.id, cplace, at);
        assert forall|q: PageId| #[trigger] plan.contains_key(q) implies s1.pages[q as int]
            == s.pages[q as int] by {}
        lemma_frame::<K, V>(s, plan, s1, plan, child, cp);
        lemma_fuel_needed::<K, V>(s1, plan, child, key, value, (fuel - 1) as nat);
    }
}

/// **Insertion.** An insertion into a well-formed tree that succeeds leaves
/// a well-formed tree; and a search finds in it the inserted value under the
/// inserted key, and under every other key what it found before.
pub proof fn lemma_insert<K: Increment, V: Storable>(
    s: Store,
    root: PageId,
    max: u32,
    plan: Plan,
    key: K,
    value: V,
    key2: K,
)
    requires
        tree_inv::<K, V>(s, root, plan),
        spec_insert::<K, V>(s, root, max, key, value).outcome is Ok,
    ensures
        ({
            let r = spec_insert::<K, V>(s, root, max, key, value);
            let plan2 = plan_after::<K, V>(s, root, max, plan, key, value);
            &&& r.root != NO_PAGE
            &&& tree_inv::<K, V>(r.store, r.root, plan2)
            &&& spec_get::<K, V>(r.store, r.root, key2) == (if key2 == key {
                Ok::<Option<V>, BTreeError>(Some(value))
            } else {
                spec_get::<K, V>(s, root, key2)
            })
        }),
{
    let r = spec_insert::<K, V>(s, root, max, key, value);
    let root1 = if root == NO_PAGE {
        s.next_id as PageId
    } else {
        root
    };
    let s1 = if root == NO_PAGE {
        s.allocated().written(root1, first_root::<K, V>(root1, max).encode())
    } else {
        s
    };
    let plan1 = if root == NO_PAGE {
        plan.insert(root1, root_place(0))
    } else {
        plan
    };
    let full = MAX_DEPTH as nat;
    let fuel = INSERT_DEPTH as nat;
    if root == NO_PAGE {
        lemma_first_root::<K, V>(s, max, plan, key2, full);
    }
    let place = plan1[root1];
    assert(tree_inv::<K, V>(s1, root1, plan1));
    assert(spec_get::<K, V>(s, root, key2) == search_at::<K, V>(s1, root1, key2, full));
    let d = insert_at::<K, V>(s1, root1, key, value, fuel);
    let plan2 = plan_at::<K, V>(s1, plan1, root1, key, value, fuel);
    lemma_level::<K, V>(s1, plan1, root1, key, value, fuel);
    lemma_fuel_needed::<K, V>(s1, plan1, root1, key, value, fuel);
    match d.outcome {
        Ok(None) => {
            lemma_level_search::<K, V>(s1, plan1, root1, key, value, fuel, key2, full);
        },
        Ok(Some((sep, page))) => {
            let f = fuel;
            lemma_level_search::<K, V>(s1, plan1, root1, key, value, fuel, key2, f);
            lemma_fuel::<K, V>(s1, plan1, root1, place, key2, f, full);
            let rid = d.store.next_id as PageId;
            let top = grown_root::<K, V>(rid, max, sep, page);
            let tplace = root_place(place.h + 1);
            let s3 = d.store.allocated().written(rid, top.encode());
            let plan3 = plan2.insert(rid, tplace);
            assert(r.store == s3 && r.root == rid);
            let lower = Place { lo: None, hi: Some(sep.0.rank()), h: place.h };
            let upper = Place { lo: Some(sep.0.rank()), hi: None, h: place.h };
            assert(top.slots[0] == sep);
            assert(sorted(top.slots));
            assert(child_page(top, 0) == root1);
            assert(child_page(top, 1) == page);
            assert(child_place(top, tplace, 0) == lower);
            assert(child_place(top, tplace, 1) == upper);
            assert(node_ok::<K, V>(d.store, plan2, top, rid, tplace)) by {
                assert forall|i: int| 0 <= i < child_count(top) implies tree_ok::<K, V>(
                    d.store,
                    plan2,
                    #[trigger] child_page(top, i),
                    child_place(top, tplace, i),
                ) by {
                    if i == 0 {
                    } else {
                        assert(i == 1);
                    }
                }
            }
            assert forall|q: PageId| #[trigger] plan2.contains_key(q) && plan2[q].h
                < tplace.h implies plan3.contains_key(q) && plan3[q] == plan2[q]
                && s3.pages[q as int] == d.store.pages[q as int] by {
                assert(q != rid);
            }
            lemma_written::<K, V>(d.store, plan2, s3, plan3, top, tplace);
            // the search
            lemma_search_step::<K, V>(s3, plan3, rid, tplace, key2, full);
            top.lemma_round_trip();
            let t = target(root1, d, key2);
            lemma_first_greater(top.slots, key2, 0);
            assert(child_page(top, first_greater(top.slots, key2)) == t);
            let xplace = if key2.rank() < sep.0.rank() {
                lower
            } else {
                upper
            };
            assert forall|q: PageId| #[trigger] plan2.contains_key(q) && plan2[q].within(xplace)
                && plan2[q].holds(key2.rank()) implies s3.pages[q as int]
                == d.store.pages[q as int] by {
                assert(q != rid);
            }
            lemma_search_frame::<K, V>(d.store, plan2, s3, t, xplace, key2, f);
        },
        Err(_) => {},
    }
}

/// What a run of insertions leaves behind, one pair after the other; the
/// run ends with the first insertion that fails.
pub open spec fn insert_all<K: Increment, V: Storable>(
    s: Store,
    root: PageId,
    max: u32,
    pairs: Seq<(K, V)>,
) -> Inserted
    decreases pairs.len(),
{
    if pairs.len() == 0 {
        Inserted { store: s, root, outcome: Ok(()) }
    } else {
        let before = insert_all::<K, V>(s, root, max, pairs.drop_last());
        if before.outcome is Err {
            before
        } else {
            spec_insert::<K, V>(before.store, before.root, max, pairs.last().0, pairs.last().1)
        }
    }
}

/// The plan of the tree after a run of insertions.
pub open spec fn plan_all<K: Increment, V: Storable>(
    s: Store,
    root: PageId,
    max: u32,
    plan: Plan,
    pairs: Seq<(K, V)>,
) -> Plan
    decreases pairs.len(),
{
    if pairs.len() == 0 {
        plan
    } else {
        let before = insert_all::<K, V>(s, root, max, pairs.drop_last());
        plan_after::<K, V>(
            before.store,
            before.root,
            max,
            plan_all::<K, V>(s, root, max, plan, pairs.drop_last()),
            pairs.last().0,
            pairs.last().1,
        )
    }
}

/// The value that the last of `pairs` with the key `key` has, if any has
/// that key.
pub open spec fn latest<K, V>(pairs: Seq<(K, V)>, key: K) -> Option<V>
    decreases pairs.len(),
{
    if pairs.len() == 0 {
        None
    } else if pairs.last().0 == key {
        Some(pairs.last().1)
    } else {
        latest(pairs.drop_last(), key)
    }
}

/// **Search consistency.** After a run of insertions into a well-formed
/// tree, all of which succeeded, the tree is well-formed, and a search finds
/// under a key the value of the last pair inserted with that key, or, if
/// none was inserted with it, what it found before the run. So in a tree
/// that was empty before the run every inserted key is found, with the
/// value inserted last, and no other key is.
pub proof fn lemma_insert_all<K: Increment, V: Storable>(
    s: Store,
    root: PageId,
    max: u32,
    plan: Plan,
    pairs: Seq<(K, V)>,
    key2: K,
)
    requires
        tree_inv::<K, V>(s, root, plan),
        insert_all::<K, V>(s, root, max, pairs).outcome is Ok,
    ensures
        tree_inv::<K, V>(
            insert_all::<K, V>(s, root, max, pairs).store,
            insert_all::<K, V>(s, root, max, pairs).root,
            plan_all::<K, V>(s, root, max, plan, pairs),
        ),
        spec_get::<K, V>(
            insert_all::<K, V>(s, root, max, pairs).store,
            insert_all::<K, V>(s, root, max, pairs).root,
            key2,
        ) == (match latest(pairs, key2) {
            Some(v) => Ok::<Option<V>, BTreeError>(Some(v)),
            None => spec_get::<K, V>(s, root, key2),
        }),
        root == NO_PAGE ==> spec_get::<K, V>(s, root, key2) == Ok::<Option<V>, BTreeError>(None),
    decreases pairs.len(),
{
    if pairs.len() > 0 {
        let before = insert_all::<K, V>(s, root, max, pairs.drop_last());
        lemma_insert_all::<K, V>(s, root, max, plan, pairs.drop_last(), key2);
        lemma_insert::<K, V>(
            before.store,
            before.root,
            max,
            plan_all::<K, V>(s, root, max, plan, pairs.drop_last()),
            pairs.last().0,
            pairs.last().1,
            key2,
        );
    }
}

} // verus!
