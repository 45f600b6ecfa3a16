//! The shape of the nodes of a B+-tree.
//!
//! An insertion splits a node that has reached half its capacity before it
//! goes on below it. So no node comes to hold more than half its capacity,
//! or two slots where half the capacity is less; every node has the
//! capacity of the tree; and the root alone is marked as the root. The laws
//! here say that an insertion keeps all that.

use vstd::prelude::*;
use crate::btree::laws::{
    child_page, child_place, handed_up, insert_all, lemma_absorbed, lemma_child_within,
    lemma_first_root, lemma_frame, lemma_inner_halves, lemma_insert, lemma_leaf_halves,
    lemma_level, lemma_routed, lower_place, plan_after, plan_all, plan_at, plan_ok, root_place,
    store_ok, tree_inv, tree_ok, upper_place, Place, Plan,
};
use crate::btree::node::{
    first_greater, lemma_first_greater, lemma_lower_bound, lemma_with_slot, sorted, with_slot,
    NodeView,
};
use crate::btree::slot::{slot_size, Either, Slot};
use crate::btree::{
    finished, first_root, grown_root, insert_at, needs_split, parted, spec_insert, taken_in,
    Descent, INSERT_DEPTH,
};
use crate::page::{PageId, NO_PAGE};
use crate::page_cache::Store;
use crate::storable::{Increment, Storable};

verus! {

/// The most slots that an insertion leaves in a node of capacity `max`: half
/// the capacity, or two where that is less.
pub open spec fn most(max: u32) -> int {
    if max as int / 2 >= 2 {
        max as int / 2
    } else {
        2
    }
}

/// Whether `node` has the shape of a node of a tree of capacity `max`: it
/// has that capacity and no more than `most(max)` slots, and is marked as
/// the root only if `may_root`.
pub open spec fn node_shaped<K, V>(node: NodeView<K, V>, may_root: bool, max: u32) -> bool {
    &&& node.max == max
    &&& node.slots.len() <= most(max)
    &&& node.is_root ==> may_root
}

/// Whether the page `bytes` holds a node of that shape.
pub open spec fn page_shaped<K: Increment, V: Storable>(bytes: Seq<u8>, may_root: bool, max: u32)
    -> bool {
    match NodeView::<K, V>::decode(bytes) {
        Some(node) => node_shaped(node, may_root, max),
        None => false,
    }
}

/// Whether every page of the plan holds a node of the shape of a tree of
/// capacity `max`, and none but the page `root` one that is marked as the
/// root.
pub open spec fn shaped<K: Increment, V: Storable>(s: Store, plan: Plan, root: PageId, max: u32)
    -> bool {
    forall|q: PageId| #[trigger]
        plan.contains_key(q) ==> page_shaped::<K, V>(s.pages[q as int], q == root, max)
}

/// What one level of an insertion leaves of the shape of the nodes: every
/// page of the plan holds a node of the shape; and the node on page `p` is
/// marked as the root if it was and was not split.
pub open spec fn level_shaped<K: Increment, V: Storable>(
    s: Store,
    p: PageId,
    root: PageId,
    max: u32,
    d: Descent<K, V>,
    plan2: Plan,
) -> bool {
    &&& shaped::<K, V>(d.store, plan2, root, max)
    &&& NodeView::<K, V>::decode(d.store.pages[p as int])->0.is_root == (NodeView::<K, V>::decode(
        s.pages[p as int],
    )->0.is_root && d.outcome->Ok_0 is None)
}

/// Whether page `p` holds `node`, which stands well at `place`.
pub open spec fn node_ok_at<K: Increment, V: Storable>(
    s: Store,
    plan: Plan,
    node: NodeView<K, V>,
    p: PageId,
    place: Place,
) -> bool {
    &&& tree_ok::<K, V>(s, plan, p, place)
    &&& NodeView::<K, V>::decode(s.pages[p as int]) == Some(node)
}

/// Storing a slot adds at most one slot.
proof fn lemma_stored_len<K: Increment, V>(s: Seq<Slot<K, V>>, slot: Slot<K, V>)
    ensures
        with_slot(s, slot).len() <= s.len() + 1,
{
    lemma_lower_bound(s, slot.0, 0);
}

/// Half of a node of the shape has room for one more slot.
proof fn lemma_half_room(len: int, max: u32)
    requires
        2 <= len <= most(max),
    ensures
        len / 2 + 1 <= most(max),
        len - len / 2 + 1 <= most(max),
{
}

/// The shape of the nodes after an insertion has gone through a leaf.
pub proof fn lemma_leaf_shape<K: Increment, V: Storable>(
    s: Store,
    plan: Plan,
    p: PageId,
    key: K,
    value: V,
    fuel: nat,
    root: PageId,
    max: u32,
)
    requires
        store_ok(s),
        plan_ok(s, plan),
        tree_ok::<K, V>(s, plan, p, plan[p]),
        plan[p].h == 0,
        plan[p].holds(key.rank()),
        insert_at::<K, V>(s, p, key, value, fuel).outcome is Ok,
        shaped::<K, V>(s, plan, root, max),
    ensures
        level_shaped::<K, V>(
            s,
            p,
            root,
            max,
            insert_at::<K, V>(s, p, key, value, fuel),
            plan_at::<K, V>(s, plan, p, key, value, fuel),
        ),
{
    let node = NodeView::<K, V>::decode(s.pages[p as int])->0;
    let d = insert_at::<K, V>(s, p, key, value, fuel);
    let plan2 = plan_at::<K, V>(s, plan, p, key, value, fuel);
    let new_id = s.next_id as PageId;
    let parts = parted(node, new_id, key);
    let slot = Slot(key, Either::<V>::Value(value));
    let cur2 = parts.cur.stored(slot);
    assert(fuel > 0);
    assert(plan.contains_key(p));
    assert(node_shaped(node, p == root, max));
    let m = node.slots.len() as int / 2;
    if needs_split(node) {
        lemma_leaf_halves(node, new_id, key, value);
        let lo2 = if parts.go_hi {
            parts.other->0
        } else {
            cur2
        };
        let hi2 = if parts.go_hi {
            cur2
        } else {
            parts.other->0
        };
        assert(d == finished(s.allocated(), p, cur2, parts.other, parts.go_hi));
        lo2.lemma_round_trip();
        hi2.lemma_round_trip();
        assert(d.store.pages[p as int] == lo2.encode());
        assert(d.store.pages[new_id as int] == hi2.encode());
        lemma_stored_len(node.slots.take(m), slot);
        lemma_stored_len(node.slots.skip(m), slot);
        lemma_half_room(node.slots.len() as int, max);
        assert(node_shaped(lo2, false, max));
        assert(node_shaped(hi2, false, max));
        assert forall|q: PageId| #[trigger] plan2.contains_key(q) implies page_shaped::<K, V>(
            d.store.pages[q as int],
            q == root,
            max,
        ) by {
            if q != p && q != new_id {
                assert(plan.contains_key(q));
                assert(d.store.pages[q as int] == s.pages[q as int]);
            }
        }
    } else {
        assert(d == finished(s, p, cur2, None, false));
        lemma_with_slot(node.slots, slot);
        cur2.lemma_round_trip();
        assert(node_shaped(cur2, p == root, max));
        assert forall|q: PageId| #[trigger] plan2.contains_key(q) implies page_shaped::<K, V>(
            d.store.pages[q as int],
            q == root,
            max,
        ) by {
            if q != p {
                assert(plan.contains_key(q));
                assert(d.store.pages[q as int] == s.pages[q as int]);
            }
        }
    }
}

/// The shape of the nodes once the insertion has gone through an internal
/// node: the node, or its two halves, have taken in what the level below
/// handed up, and are written to their pages.
pub proof fn lemma_shape_finished<K: Increment, V: Storable>(
    s: Store,
    plan: Plan,
    s2: Store,
    plan2: Plan,
    node: NodeView<K, V>,
    p: PageId,
    place: Place,
    new_id: PageId,
    key: K,
    up: Option<(Slot<K, V>, PageId)>,
    d: Descent<K, V>,
    plan_d: Plan,
    root: PageId,
    max: u32,
)
    requires
        node_ok_at::<K, V>(s, plan, node, p, place),
        place.h > 0,
        place.holds(key.rank()),
        node_shaped(node, p == root, max),
        0 <= p < s.next_id <= s.pages.len() <= i32::MAX,
        s2.pages.len() == s.pages.len(),
        s2.next_id >= s.next_id,
        store_ok(s2),
        plan_ok(s2, plan2),
        needs_split(node) ==> new_id == s.next_id && s2.next_id > s.next_id,
        forall|q: PageId| #[trigger]
            plan.contains_key(q) && !plan[q].holds(key.rank()) ==> plan2.contains_key(q)
                && plan2[q] == plan[q] && s2.pages[q as int] == s.pages[q as int],
        ({
            let parts = parted(node, new_id, key);
            let cplace = if !needs_split(node) {
                place
            } else if parts.go_hi {
                upper_place(node, place)
            } else {
                lower_place(node, place)
            };
            let at = first_greater(parts.cur.slots, key);
            &&& handed_up::<K, V>(
                s2,
                plan2,
                child_page(parts.cur, at),
                child_place(parts.cur, cplace, at),
                up,
            )
            &&& d == finished(s2, p, taken_in(parts.cur, at, up), parts.other, parts.go_hi)
        }),
        d.outcome is Ok,
        shaped::<K, V>(s2, plan2, root, max),
        forall|q: PageId| #[trigger]
            plan_d.contains_key(q) ==> q == p || (needs_split(node) && q == new_id)
                || plan2.contains_key(q),
    ensures
        level_shaped::<K, V>(s, p, root, max, d, plan_d),
{
    let split = needs_split(node);
    let parts = parted(node, new_id, key);
    let cur = parts.cur;
    if split {
        lemma_inner_halves::<K, V>(s, plan, node, p, place, new_id, key);
        lemma_half_room(node.slots.len() as int, max);
    }
    let cplace = if !split {
        place
    } else if parts.go_hi {
        upper_place(node, place)
    } else {
        lower_place(node, place)
    };
    let cid = cur.id;
    let at = first_greater(cur.slots, key);
    let cur2 = taken_in(cur, at, up);
    lemma_absorbed::<K, V>(s, plan, s2, plan2, cur, cid, cplace, key, up);
    assert(cur2.slots.len() <= cur.slots.len() + 1 && cur2.max == cur.max && cur2.is_root
        == cur.is_root) by {
        lemma_first_greater(cur.slots, key, 0);
        match up {
            None => {},
            Some((sep, page)) => {
                lemma_stored_len(cur.redirected(at, page).slots, sep);
            },
        }
    }
    if split {
        let other = parts.other->0;
        let lo2 = if parts.go_hi {
            other
        } else {
            cur2
        };
        let hi2 = if parts.go_hi {
            cur2
        } else {
            other
        };
        assert(d.store == s2.written(p, lo2.encode()).written(new_id, hi2.encode()));
        lo2.lemma_round_trip();
        hi2.lemma_round_trip();
        assert(node_shaped(lo2, false, max));
        assert(node_shaped(hi2, false, max));
        assert forall|q: PageId| #[trigger] plan_d.contains_key(q) implies page_shaped::<K, V>(
            d.store.pages[q as int],
            q == root,
            max,
        ) by {
            if q != p && q != new_id {
                assert(plan2.contains_key(q));
                assert(d.store.pages[q as int] == s2.pages[q as int]);
            }
        }
    } else {
        assert(d.store == s2.written(p, cur2.encode()));
        cur2.lemma_round_trip();
        assert(node_shaped(cur2, p == root, max));
        assert forall|q: PageId| #[trigger] plan_d.contains_key(q) implies page_shaped::<K, V>(
            d.store.pages[q as int],
            q == root,
            max,
        ) by {
            if q != p {
                assert(plan2.contains_key(q));
                assert(d.store.pages[q as int] == s2.pages[q as int]);
            }
        }
    }
}

/// **The shape after one level of an insertion.** After an insertion that
/// went through a page and succeeded, every page of the plan holds a node
/// of the shape, if every page did before.
pub proof fn lemma_level_shape<K: Increment, V: Storable>(
    s: Store,
    plan: Plan,
    p: PageId,
    key: K,
    value: V,
    fuel: nat,
    root: PageId,
    max: u32,
)
    requires
        store_ok(s),
        plan_ok(s, plan),
        tree_ok::<K, V>(s, plan, p, plan[p]),
        plan[p].holds(key.rank()),
        insert_at::<K, V>(s, p, key, value, fuel).outcome is Ok,
        shaped::<K, V>(s, plan, root, max),
    ensures
        level_shaped::<K, V>(
            s,
            p,
            root,
            max,
            insert_at::<K, V>(s, p, key, value, fuel),
            plan_at::<K, V>(s, plan, p, key, value, fuel),
        ),
    decreases fuel,
{
    let place = plan[p];
    if place.h == 0 {
        lemma_leaf_shape::<K, V>(s, plan, p, key, value, fuel, root, max);
    } else {
        let node = NodeView::<K, V>::decode(s.pages[p as int])->0;
        let d = insert_at::<K, V>(s, p, key, value, fuel);
        let plan_d = plan_at::<K, V>(s, plan, p, key, value, fuel);
        let new_id = s.next_id as PageId;
        let split = needs_split(node);
        let s1 = if split {
            s.allocated()
        } else {
            s
        };
        let parts = parted(node, new_id, key);
        assert(fuel > 0);
        assert(plan.contains_key(p));
        let cur = parts.cur;
        if split {
            lemma_inner_halves::<K, V>(s, plan, node, p, place, new_id, key);
        }
        let cplace = if !split {
            place
        } else if parts.go_hi {
            upper_place(node, place)
        } else {
            lower_place(node, place)
        };
        let cid = cur.id;
        let at = first_greater(cur.slots, key);
        lemma_routed::<K, V>(s, plan, cur, cid, cplace, key);
        let child = child_page(cur, at);
        let cp = child_place(cur, cplace, at);
        lemma_child_within::<K, V>(s, plan, cur, cid, cplace, at);
        assert forall|q: PageId| #[trigger] plan.contains_key(q) implies s1.pages[q as int]
            == s.pages[q as int] by {}
        lemma_frame::<K, V>(s, plan, s1, plan, child, cp);
        let dc = insert_at::<K, V>(s1, child, key, value, (fuel - 1) as nat);
        let plan_c = plan_at::<K, V>(s1, plan, child, key, value, (fuel - 1) as nat);
        lemma_level::<K, V>(s1, plan, child, key, value, (fuel - 1) as nat);
        lemma_level_shape::<K, V>(s1, plan, child, key, value, (fuel - 1) as nat, root, max);
        let up = dc.outcome->Ok_0;
        assert(d == finished(dc.store, p, taken_in(cur, at, up), parts.other, parts.go_hi));
        assert forall|q: PageId| #[trigger] plan.contains_key(q) && !plan[q].holds(
            key.rank(),
        ) implies plan_c.contains_key(q) && plan_c[q] == plan[q] && dc.store.pages[q as int]
            == s.pages[q as int] by {
            assert(s1.pages[q as int] == s.pages[q as int]);
        }
        lemma_shape_finished::<K, V>(
            s,
            plan,
            dc.store,
            plan_c,
            node,
            p,
            place,
            new_id,
            key,
            up,
            d,
            plan_d,
            root,
            max,
        );
    }
}

/// Whether the store holds a well-formed tree of capacity `max` whose nodes
/// have their shape: every node has the capacity `max` and no more than
/// `most(max)` slots, and the root, and no other node, is marked as the
/// root.
pub open spec fn shape_inv<K: Increment, V: Storable>(
    s: Store,
    root: PageId,
    plan: Plan,
    max: u32,
) -> bool {
    &&& tree_inv::<K, V>(s, root, plan)
    &&& shaped::<K, V>(s, plan, root, max)
    &&& root != NO_PAGE ==> NodeView::<K, V>::decode(s.pages[root as int])->0.is_root
}

/// **The shape after an insertion.** An insertion into a well-formed tree
/// whose nodes have their shape, if it succeeds, leaves such a tree.
pub proof fn lemma_insert_shape<K: Increment, V: Storable>(
    s: Store,
    root: PageId,
    max: u32,
    plan: Plan,
    key: K,
    value: V,
)
    requires
        shape_inv::<K, V>(s, root, plan, max),
        spec_insert::<K, V>(s, root, max, key, value).outcome is Ok,
    ensures
        shape_inv::<K, V>(
            spec_insert::<K, V>(s, root, max, key, value).store,
            spec_insert::<K, V>(s, root, max, key, value).root,
            plan_after::<K, V>(s, root, max, plan, key, value),
            max,
        ),
{
    let r = spec_insert::<K, V>(s, root, max, key, value);
    lemma_insert::<K, V>(s, root, max, plan, key, value, key);
    let root1 = if root == NO_PAGE {
        s.next_id as PageId
    } else {
        root
    };
    let s1 = if root == NO_PAGE {
        s.allocated().written(root1, first_root::<K, V>(root1, max).encode())
    } else {
        s
    };
    let plan1 = if root == NO_PAGE {
        plan.insert(root1, root_place(0))
    } else {
        plan
    };
    let fuel = INSERT_DEPTH as nat;
    if root == NO_PAGE {
        lemma_first_root::<K, V>(s, max, plan, key, 1);
        let node = first_root::<K, V>(root1, max);
        assert(node.slots.len() * slot_size::<K, V>() == 0) by (nonlinear_arith)
            requires
                node.slots.len() == 0,
        ;
        node.lemma_round_trip();
        assert forall|q: PageId| #[trigger] plan1.contains_key(q) implies page_shaped::<K, V>(
            s1.pages[q as int],
            q == root1,
            max,
        ) by {
            if q != root1 {
                assert(plan.contains_key(q));
                assert(s1.pages[q as int] == s.pages[q as int]);
            }
        }
    }
    let d = insert_at::<K, V>(s1, root1, key, value, fuel);
    let plan2 = plan_at::<K, V>(s1, plan1, root1, key, value, fuel);
    lemma_level::<K, V>(s1, plan1, root1, key, value, fuel);
    lemma_level_shape::<K, V>(s1, plan1, root1, key, value, fuel, root1, max);
    match d.outcome {
        Ok(Some((sep, page))) => {
            let rid = d.store.next_id as PageId;
            let top = grown_root::<K, V>(rid, max, sep, page);
            let s3 = d.store.allocated().written(rid, top.encode());
            let plan3 = plan2.insert(rid, root_place(plan1[root1].h + 1));
            assert(r.store == s3 && r.root == rid);
            assert(top.slots[0] == sep);
            assert(sorted(top.slots));
            top.lemma_round_trip();
            assert(node_shaped(top, true, max));
            assert forall|q: PageId| #[trigger] plan3.contains_key(q) implies page_shaped::<K, V>(
                s3.pages[q as int],
                q == rid,
                max,
            ) by {
                if q != rid {
                    assert(plan2.contains_key(q));
                    assert(s3.pages[q as int] == d.store.pages[q as int]);
                    assert(page_shaped::<K, V>(d.store.pages[q as int], q == root1, max));
                }
            }
        },
        _ => {},
    }
}

/// **The shape after a run of insertions.** A run of insertions into a
/// well-formed tree whose nodes have their shape, all of which succeeded,
/// leaves such a tree. The empty tree is such a tree.
pub proof fn lemma_insert_all_shape<K: Increment, V: Storable>(
    s: Store,
    root: PageId,
    max: u32,
    plan: Plan,
    pairs: Seq<(K, V)>,
)
    requires
        shape_inv::<K, V>(s, root, plan, max),
        insert_all::<K, V>(s, root, max, pairs).outcome is Ok,
    ensures
        shape_inv::<K, V>(
            insert_all::<K, V>(s, root, max, pairs).store,
            insert_all::<K, V>(s, root, max, pairs).root,
            plan_all::<K, V>(s, root, max, plan, pairs),
            max,
        ),
    decreases pairs.len(),
{
    if pairs.len() > 0 {
        let before = insert_all::<K, V>(s, root, max, pairs.drop_last());
        lemma_insert_all_shape::<K, V>(s, root, max, plan, pairs.drop_last());
        lemma_insert_shape::<K, V>(
            before.store,
            before.root,
            max,
            plan_all::<K, V>(s, root, max, plan, pairs.drop_last()),
            pairs.last().0,
            pairs.last().1,
        );
    }
}

/// **No node over its capacity.** In a tree of a capacity of two slots or
/// more that a run of insertions into the empty tree has built, every node
/// holds no more slots than its capacity, which is that of the tree.
pub proof fn lemma_within_capacity<K: Increment, V: Storable>(
    s: Store,
    max: u32,
    pairs: Seq<(K, V)>,
    q: PageId,
)
    requires
        store_ok(s),
        max >= 2,
        insert_all::<K, V>(s, NO_PAGE, max, pairs).outcome is Ok,
        plan_all::<K, V>(s, NO_PAGE, max, Map::<PageId, Place>::empty(), pairs).contains_key(q),
    ensures
        ({
            let r = insert_all::<K, V>(s, NO_PAGE, max, pairs);
            let node = NodeView::<K, V>::decode(r.store.pages[q as int]);
            &&& node is Some
            &&& node->0.max == max
            &&& node->0.slots.len() <= max
            &&& node->0.is_root <==> q == r.root
        }),
{
    let plan = Map::<PageId, Place>::empty();
    lemma_insert_all_shape::<K, V>(s, NO_PAGE, max, plan, pairs);
}

} // verus!
