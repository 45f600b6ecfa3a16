//! The chain of the leaves of a B+-tree.
//!
//! The leaves are chained by their next pointers: the last leaf below a
//! child of an internal node points at the first leaf below the child that
//! follows. The laws here say that an insertion keeps the chain, and that
//! the chain gives the slots of the tree in key order.

use vstd::prelude::*;
use vstd::set_lib::{lemma_int_range, lemma_len_subset, lemma_set_disjoint_lens, set_int_range};
use crate::btree::laws::{
    child_count, child_page, child_place, found, handed_up, lemma_absorbed, lemma_child_within,
    lemma_first_root, lemma_frame, lemma_inner_halves, lemma_insert, lemma_leaf_halves,
    lemma_insert_all, lemma_level, lemma_routed, lemma_sibling, lemma_taken_in, lemma_untouched,
    lower_place, node_ok, plan_after, plan_all, plan_at, plan_ok,
    root_place, store_ok, tree_inv, tree_ok, upper_place, insert_all, latest, Place, Plan,
};
use crate::btree::node::{
    first_greater, lemma_first_greater, lemma_with_slot, sorted, NodeView,
};
use crate::btree::order::{lemma_joined_lookup, lookup};
use crate::btree::slot::{Either, Slot};
use crate::btree::{
    chain_at, finished, first_leaf_at, first_root, grown_root, insert_at, lower_half,
    needs_split, parted, search_at, spec_get, spec_insert, spec_scan, taken_in, upper_half,
    BTreeError, Descent, INSERT_DEPTH, MAX_DEPTH,
};
use crate::page::{PageId, NO_PAGE};
use crate::page_cache::Store;
use crate::storable::{Increment, Storable};

verus! {

/// The first leaf below page `p`, which is `h` levels above the leaves.
pub open spec fn first_leaf<K: Increment, V: Storable>(s: Store, p: PageId, h: nat) -> PageId
    decreases h,
{
    if h == 0 {
        p
    } else {
        first_leaf::<K, V>(
            s,
            child_page(NodeView::<K, V>::decode(s.pages[p as int])->0, 0),
            (h - 1) as nat,
        )
    }
}

/// The page that the last leaf below child `i` of `node` is to point at: the
/// first leaf below the child that follows, or what the last leaf below the
/// node is to point at.
pub open spec fn child_next<K: Increment, V: Storable>(
    s: Store,
    node: NodeView<K, V>,
    h: nat,
    next: PageId,
    i: int,
) -> PageId {
    if i + 1 < child_count(node) {
        first_leaf::<K, V>(s, child_page(node, i + 1), (h - 1) as nat)
    } else {
        next
    }
}

/// Marks the child that a statement about all children is applied to.
pub open spec fn at_child(i: int) -> bool {
    true
}

/// Whether the leaves below the children of `node`, which is `h` levels
/// above the leaves, are chained, the last of them pointing at `next`.
pub open spec fn node_chain<K: Increment, V: Storable>(
    s: Store,
    node: NodeView<K, V>,
    h: nat,
    next: PageId,
) -> bool
    decreases h, 0nat,
{
    h > 0 ==> forall|i: int|
        #![trigger at_child(i)]
        at_child(i) && 0 <= i < child_count(node) ==> chain_ok::<K, V>(
            s,
            child_page(node, i),
            (h - 1) as nat,
            child_next::<K, V>(s, node, h, next, i),
        )
}

/// Whether the leaves below page `p`, which is `h` levels above the leaves,
/// are chained, the last of them pointing at `next`.
pub open spec fn chain_ok<K: Increment, V: Storable>(s: Store, p: PageId, h: nat, next: PageId)
    -> bool
    decreases h, 1nat,
{
    if h == 0 {
        NodeView::<K, V>::decode(s.pages[p as int])->0.next == next
    } else {
        node_chain::<K, V>(s, NodeView::<K, V>::decode(s.pages[p as int])->0, h, next)
    }
}

/// The chain below a page is the same in another store that agrees with
/// this one on the pages within the place of the page.
pub proof fn lemma_chain_frame<K: Increment, V: Storable>(
    s: Store,
    plan: Plan,
    s2: Store,
    p: PageId,
    place: Place,
    next: PageId,
)
    requires
        tree_ok::<K, V>(s, plan, p, place),
        forall|q: PageId| #[trigger]
            plan.contains_key(q) && plan[q].within(place) ==> s2.pages[q as int]
                == s.pages[q as int],
    ensures
        first_leaf::<K, V>(s2, p, place.h) == first_leaf::<K, V>(s, p, place.h),
        chain_ok::<K, V>(s, p, place.h, next) ==> chain_ok::<K, V>(s2, p, place.h, next),
    decreases place.h,
{
    let node = NodeView::<K, V>::decode(s.pages[p as int])->0;
    assert(plan.contains_key(p) && plan[p].within(place));
    if place.h > 0 {
        let h = place.h;
        assert forall|i: int| #![trigger at_child(i)] at_child(i) && 0 <= i < child_count(node) implies first_leaf::<K, V>(
            s2,
            child_page(node, i),
            (h - 1) as nat,
        ) == first_leaf::<K, V>(s, child_page(node, i), (h - 1) as nat) && (chain_ok::<K, V>(
            s,
            child_page(node, i),
            (h - 1) as nat,
            child_next::<K, V>(s, node, h, next, i),
        ) ==> chain_ok::<K, V>(
            s2,
            child_page(node, i),
            (h - 1) as nat,
            child_next::<K, V>(s, node, h, next, i),
        )) by {
            assert(at_child(i) && at_child(i + 1) && at_child(i - 1));
            lemma_child_within::<K, V>(s, plan, node, p, place, i);
            let cp = child_place(node, place, i);
            assert forall|q: PageId| #[trigger] plan.contains_key(q) && plan[q].within(
                cp,
            ) implies s2.pages[q as int] == s.pages[q as int] by {
                assert(plan[q].within(place));
            }
            lemma_chain_frame::<K, V>(
                s,
                plan,
                s2,
                child_page(node, i),
                cp,
                child_next::<K, V>(s, node, h, next, i),
            );
        }
        assert(child_count(node) > 0);
        assert(at_child(0));
        if chain_ok::<K, V>(s, p, h, next) {
            assert forall|i: int| #![trigger at_child(i)] at_child(i) && 0 <= i < child_count(node) implies chain_ok::<K, V>(
                s2,
                child_page(node, i),
                (h - 1) as nat,
                child_next::<K, V>(s2, node, h, next, i),
            ) by {
                assert(at_child(i) && at_child(i + 1) && at_child(i - 1));
                assert(chain_ok::<K, V>(
                    s,
                    child_page(node, i),
                    (h - 1) as nat,
                    child_next::<K, V>(s, node, h, next, i),
                ));
                if i + 1 < child_count(node) {
                    assert(first_leaf::<K, V>(s2, child_page(node, i + 1), (h - 1) as nat)
                        == first_leaf::<K, V>(s, child_page(node, i + 1), (h - 1) as nat));
                }
            }
        }
    }
}

/// The chains below the two halves of an internal node: the last leaf below
/// the lower half points at the first leaf below the upper half.
pub proof fn lemma_chain_halves<K: Increment, V: Storable>(
    s: Store,
    plan: Plan,
    node: NodeView<K, V>,
    p: PageId,
    place: Place,
    new_id: PageId,
    next: PageId,
)
    requires
        node_ok::<K, V>(s, plan, node, p, place),
        place.h > 0,
        needs_split(node),
        node_chain::<K, V>(s, node, place.h, next),
    ensures
        child_page(lower_half(node, new_id), 0) == child_page(node, 0),
        child_page(upper_half(node, new_id), 0) == child_page(node, node.slots.len() as int / 2),
        node_chain::<K, V>(
            s,
            lower_half(node, new_id),
            place.h,
            first_leaf::<K, V>(
                s,
                child_page(node, node.slots.len() as int / 2),
                (place.h - 1) as nat,
            ),
        ),
        node_chain::<K, V>(s, upper_half(node, new_id), place.h, next),
{
    let h = place.h;
    let n = node.slots.len() as int;
    let m = n / 2;
    let lo = lower_half(node, new_id);
    let hi = upper_half(node, new_id);
    let mid = first_leaf::<K, V>(s, child_page(node, m), (h - 1) as nat);
    assert(lo.slots[0] == node.slots[0]);
    assert forall|i: int| #![trigger at_child(i)] at_child(i) && 0 <= i < child_count(lo) implies chain_ok::<K, V>(
        s,
        child_page(lo, i),
        (h - 1) as nat,
        child_next::<K, V>(s, lo, h, mid, i),
    ) by {
        assert(at_child(i) && at_child(i + 1) && at_child(i - 1));
        assert(lo.slots[i] == node.slots[i]);
        assert(child_page(lo, i) == child_page(node, i));
        if i + 1 < child_count(lo) {
            assert(lo.slots[i + 1] == node.slots[i + 1]);
            assert(child_page(lo, i + 1) == child_page(node, i + 1));
        }
        assert(child_next::<K, V>(s, lo, h, mid, i) == child_next::<K, V>(s, node, h, next, i));
        assert(chain_ok::<K, V>(
            s,
            child_page(node, i),
            (h - 1) as nat,
            child_next::<K, V>(s, node, h, next, i),
        ));
    }
    assert forall|i: int| #![trigger at_child(i)] at_child(i) && 0 <= i < child_count(hi) implies chain_ok::<K, V>(
        s,
        child_page(hi, i),
        (h - 1) as nat,
        child_next::<K, V>(s, hi, h, next, i),
    ) by {
        assert(at_child(i) && at_child(i + 1) && at_child(i - 1));
        assert(at_child(i + m));
        if i < hi.slots.len() {
            assert(hi.slots[i] == node.slots[i + m]);
        }
        assert(child_page(hi, i) == child_page(node, i + m));
        if i + 1 < child_count(hi) {
            if i + 1 < hi.slots.len() {
                assert(hi.slots[i + 1] == node.slots[i + 1 + m]);
            }
            assert(child_page(hi, i + 1) == child_page(node, i + 1 + m));
        }
        assert(child_next::<K, V>(s, hi, h, next, i) == child_next::<K, V>(
            s,
            node,
            h,
            next,
            i + m,
        ));
        assert(chain_ok::<K, V>(
            s,
            child_page(node, i + m),
            (h - 1) as nat,
            child_next::<K, V>(s, node, h, next, i + m),
        ));
    }
    assert(hi.slots[0] == node.slots[m]);
    assert(at_child(0) && at_child(m));
}

/// The chain below an internal node once it is written to its page, if the
/// pages below it are as they were.
pub proof fn lemma_chain_written<K: Increment, V: Storable>(
    s: Store,
    plan: Plan,
    s2: Store,
    node: NodeView<K, V>,
    place: Place,
    next: PageId,
)
    requires
        node_ok::<K, V>(s, plan, node, node.id, place),
        place.h > 0,
        node.fits(),
        node_chain::<K, V>(s, node, place.h, next),
        0 <= node.id < s2.pages.len(),
        s2.pages[node.id as int] == node.encode(),
        forall|q: PageId| #[trigger]
            plan.contains_key(q) && plan[q].h < place.h ==> s2.pages[q as int]
                == s.pages[q as int],
    ensures
        chain_ok::<K, V>(s2, node.id, place.h, next),
        first_leaf::<K, V>(s2, node.id, place.h) == first_leaf::<K, V>(
            s,
            child_page(node, 0),
            (place.h - 1) as nat,
        ),
{
    let h = place.h;
    node.lemma_round_trip();
    assert forall|i: int| #![trigger at_child(i)] at_child(i) && 0 <= i < child_count(node) implies first_leaf::<K, V>(
        s2,
        child_page(node, i),
        (h - 1) as nat,
    ) == first_leaf::<K, V>(s, child_page(node, i), (h - 1) as nat) && chain_ok::<K, V>(
        s2,
        child_page(node, i),
        (h - 1) as nat,
        child_next::<K, V>(s, node, h, next, i),
    ) by {
        assert(at_child(i) && at_child(i + 1) && at_child(i - 1));
        lemma_child_within::<K, V>(s, plan, node, node.id, place, i);
        let cp = child_place(node, place, i);
        assert forall|q: PageId| #[trigger] plan.contains_key(q) && plan[q].within(
            cp,
        ) implies s2.pages[q as int] == s.pages[q as int] by {
            assert(plan[q].h < place.h);
        }
        assert(chain_ok::<K, V>(
            s,
            child_page(node, i),
            (h - 1) as nat,
            child_next::<K, V>(s, node, h, next, i),
        ));
        lemma_chain_frame::<K, V>(
            s,
            plan,
            s2,
            child_page(node, i),
            cp,
            child_next::<K, V>(s, node, h, next, i),
        );
    }
    assert(child_count(node) > 0);
    assert(at_child(0));
    assert forall|i: int| #![trigger at_child(i)] at_child(i) && 0 <= i < child_count(node) implies chain_ok::<K, V>(
        s2,
        child_page(node, i),
        (h - 1) as nat,
        child_next::<K, V>(s2, node, h, next, i),
    ) by {
        assert(at_child(i) && at_child(i + 1) && at_child(i - 1));
        if i + 1 < child_count(node) {
            assert(first_leaf::<K, V>(s2, child_page(node, i + 1), (h - 1) as nat)
                == first_leaf::<K, V>(s, child_page(node, i + 1), (h - 1) as nat));
        }
    }
}

/// What the level below hands up to an internal node, as far as the chain is
/// concerned: the first leaf below the child is the one it was; and the
/// leaves below the child are chained to what followed them, or, if the
/// child was split, to the leaves below the page of its upper half, and
/// those to what followed.
pub open spec fn chain_handed_up<K: Increment, V: Storable>(
    s: Store,
    s2: Store,
    child: PageId,
    h: nat,
    next: PageId,
    up: Option<(Slot<K, V>, PageId)>,
) -> bool {
    &&& first_leaf::<K, V>(s2, child, h) == first_leaf::<K, V>(s, child, h)
    &&& match up {
        None => chain_ok::<K, V>(s2, child, h, next),
        Some((_, page)) => chain_ok::<K, V>(s2, child, h, first_leaf::<K, V>(s2, page, h))
            && chain_ok::<K, V>(s2, page, h, next),
    }
}

/// The chain below an internal node once the node has taken in what the
/// level below handed up.
pub proof fn lemma_chain_absorbed<K: Increment, V: Storable>(
    s: Store,
    plan: Plan,
    s2: Store,
    plan2: Plan,
    cur: NodeView<K, V>,
    cid: PageId,
    cplace: Place,
    key: K,
    up: Option<(Slot<K, V>, PageId)>,
    cnext: PageId,
)
    requires
        node_ok::<K, V>(s, plan, cur, cid, cplace),
        cplace.h > 0,
        cplace.holds(key.rank()),
        node_chain::<K, V>(s, cur, cplace.h, cnext),
        s2.pages.len() == s.pages.len(),
        s2.next_id >= s.next_id,
        forall|q: PageId| #[trigger]
            plan.contains_key(q) && !plan[q].holds(key.rank()) ==> plan2.contains_key(q)
                && plan2[q] == plan[q] && s2.pages[q as int] == s.pages[q as int],
        handed_up::<K, V>(
            s2,
            plan2,
            child_page(cur, first_greater(cur.slots, key)),
            child_place(cur, cplace, first_greater(cur.slots, key)),
            up,
        ),
        chain_handed_up::<K, V>(
            s,
            s2,
            child_page(cur, first_greater(cur.slots, key)),
            (cplace.h - 1) as nat,
            child_next::<K, V>(s, cur, cplace.h, cnext, first_greater(cur.slots, key)),
            up,
        ),
    ensures
        node_chain::<K, V>(s2, taken_in(cur, first_greater(cur.slots, key), up), cplace.h, cnext),
        first_leaf::<K, V>(
            s2,
            child_page(taken_in(cur, first_greater(cur.slots, key), up), 0),
            (cplace.h - 1) as nat,
        ) == first_leaf::<K, V>(s, child_page(cur, 0), (cplace.h - 1) as nat),
{
    let h = cplace.h;
    let g = (h - 1) as nat;
    let at = first_greater(cur.slots, key);
    let child = child_page(cur, at);
    let cp = child_place(cur, cplace, at);
    let cur2 = taken_in(cur, at, up);
    let n = cur.slots.len() as int;
    lemma_routed::<K, V>(s, plan, cur, cid, cplace, key);
    // below every child the first leaf is the one it was, and the siblings keep their chains
    assert forall|i: int| #![trigger at_child(i)] at_child(i) && 0 <= i < child_count(cur) implies first_leaf::<K, V>(
        s2,
        child_page(cur, i),
        g,
    ) == first_leaf::<K, V>(s, child_page(cur, i), g) && (i != at ==> chain_ok::<K, V>(
        s2,
        child_page(cur, i),
        g,
        child_next::<K, V>(s, cur, h, cnext, i),
    )) by {
        assert(at_child(i) && at_child(i + 1) && at_child(i - 1));
        if i != at {
            lemma_sibling::<K, V>(s, plan, s2, plan2, cur, cid, cplace, key, i);
            lemma_child_within::<K, V>(s, plan, cur, cid, cplace, i);
            let pi = child_place(cur, cplace, i);
            assert forall|q: PageId| #[trigger] plan.contains_key(q) && plan[q].within(
                pi,
            ) implies s2.pages[q as int] == s.pages[q as int] by {
                assert(!plan[q].holds(key.rank()));
            }
            assert(chain_ok::<K, V>(
                s,
                child_page(cur, i),
                g,
                child_next::<K, V>(s, cur, h, cnext, i),
            ));
            lemma_chain_frame::<K, V>(
                s,
                plan,
                s2,
                child_page(cur, i),
                pi,
                child_next::<K, V>(s, cur, h, cnext, i),
            );
        }
    }
    assert(at_child(0) && at_child(at) && at_child(at + 1));
    match up {
        None => {
            assert forall|i: int| #![trigger at_child(i)] at_child(i) && 0 <= i < child_count(cur2) implies chain_ok::<K, V>(
                s2,
                child_page(cur2, i),
                g,
                child_next::<K, V>(s2, cur2, h, cnext, i),
            ) by {
                assert(at_child(i) && at_child(i + 1) && at_child(i - 1));
                if i + 1 < child_count(cur) {
                    assert(first_leaf::<K, V>(s2, child_page(cur, i + 1), g) == first_leaf::<K, V>(
                        s,
                        child_page(cur, i + 1),
                        g,
                    ));
                }
            }
            assert(first_leaf::<K, V>(s2, child_page(cur, 0), g) == first_leaf::<K, V>(
                s,
                child_page(cur, 0),
                g,
            ));
        },
        Some((sep, page)) => {
            lemma_taken_in(cur, key, sep, page);
            // the children of the node as it is now, by the children as they were
            assert forall|i: int| #![trigger at_child(i)] at_child(i) && 0 <= i < child_count(cur2) implies child_page(cur2, i)
                == (if i < at {
                child_page(cur, i)
            } else if i == at {
                child
            } else if i == at + 1 {
                page
            } else {
                child_page(cur, i - 1)
            }) by {
                assert(at_child(i) && at_child(i + 1) && at_child(i - 1));
                if i < at {
                    assert(cur2.slots[i] == cur.slots[i]);
                } else if i > at + 1 {
                    if i < cur2.slots.len() {
                        assert(cur2.slots[i] == cur.slots[i - 1]);
                    }
                }
            }
            assert(child_count(cur2) == child_count(cur) + 1);
            assert forall|i: int| #![trigger at_child(i)] at_child(i) && 0 <= i < child_count(cur2) implies chain_ok::<K, V>(
                s2,
                child_page(cur2, i),
                g,
                child_next::<K, V>(s2, cur2, h, cnext, i),
            ) by {
                assert(at_child(i) && at_child(i + 1) && at_child(i - 1));
                assert(at_child(i + 1) && at_child(at) && at_child(at + 1));
                if i + 1 < child_count(cur2) {
                    let j = i + 1;
                    assert(child_page(cur2, j) == (if j < at {
                        child_page(cur, j)
                    } else if j == at {
                        child
                    } else if j == at + 1 {
                        page
                    } else {
                        child_page(cur, j - 1)
                    }));
                }
                if i < at {
                    assert(first_leaf::<K, V>(s2, child_page(cur, i + 1), g) == first_leaf::<K, V>(
                        s,
                        child_page(cur, i + 1),
                        g,
                    ));
                    assert(child_next::<K, V>(s2, cur2, h, cnext, i) == child_next::<K, V>(
                        s,
                        cur,
                        h,
                        cnext,
                        i,
                    ));
                } else if i == at {
                } else if i == at + 1 {
                    if at + 1 < child_count(cur) {
                        assert(first_leaf::<K, V>(s2, child_page(cur, at + 1), g)
                            == first_leaf::<K, V>(s, child_page(cur, at + 1), g));
                    }
                    assert(child_next::<K, V>(s2, cur2, h, cnext, i) == child_next::<K, V>(
                        s,
                        cur,
                        h,
                        cnext,
                        at,
                    ));
                } else {
                    if i < child_count(cur) {
                        assert(first_leaf::<K, V>(s2, child_page(cur, i), g) == first_leaf::<K, V>(
                            s,
                            child_page(cur, i),
                            g,
                        ));
                    }
                    assert(child_next::<K, V>(s2, cur2, h, cnext, i) == child_next::<K, V>(
                        s,
                        cur,
                        h,
                        cnext,
                        i - 1,
                    ));
                    assert(chain_ok::<K, V>(
                        s2,
                        child_page(cur, i - 1),
                        g,
                        child_next::<K, V>(s, cur, h, cnext, i - 1),
                    ));
                }
            }
            assert(child_page(cur2, 0) == child_page(cur, 0));
            assert(first_leaf::<K, V>(s2, child_page(cur, 0), g) == first_leaf::<K, V>(
                s,
                child_page(cur, 0),
                g,
            ));
        },
    }
}

/// The chain below a node below which a key does not belong is the same
/// after an insertion of the key elsewhere.
pub proof fn lemma_chain_untouched<K: Increment, V: Storable>(
    s: Store,
    plan: Plan,
    s2: Store,
    node: NodeView<K, V>,
    p: PageId,
    place: Place,
    key: K,
    next: PageId,
)
    requires
        node_ok::<K, V>(s, plan, node, p, place),
        place.h > 0,
        !place.holds(key.rank()),
        node_chain::<K, V>(s, node, place.h, next),
        forall|q: PageId| #[trigger]
            plan.contains_key(q) && !plan[q].holds(key.rank()) ==> s2.pages[q as int]
                == s.pages[q as int],
    ensures
        node_chain::<K, V>(s2, node, place.h, next),
        first_leaf::<K, V>(s2, child_page(node, 0), (place.h - 1) as nat) == first_leaf::<K, V>(
            s,
            child_page(node, 0),
            (place.h - 1) as nat,
        ),
{
    let h = place.h;
    let g = (h - 1) as nat;
    assert forall|i: int| #![trigger at_child(i)] at_child(i) && 0 <= i < child_count(
        node,
    ) implies first_leaf::<K, V>(s2, child_page(node, i), g) == first_leaf::<K, V>(
        s,
        child_page(node, i),
        g,
    ) && chain_ok::<K, V>(s2, child_page(node, i), g, child_next::<K, V>(s, node, h, next, i)) by {
        lemma_child_within::<K, V>(s, plan, node, p, place, i);
        let cp = child_place(node, place, i);
        assert forall|q: PageId| #[trigger] plan.contains_key(q) && plan[q].within(
            cp,
        ) implies s2.pages[q as int] == s.pages[q as int] by {
            assert(!plan[q].holds(key.rank()));
        }
        lemma_chain_frame::<K, V>(
            s,
            plan,
            s2,
            child_page(node, i),
            cp,
            child_next::<K, V>(s, node, h, next, i),
        );
    }
    assert(child_count(node) > 0);
    assert(at_child(0));
    assert forall|i: int| #![trigger at_child(i)] at_child(i) && 0 <= i < child_count(
        node,
    ) implies chain_ok::<K, V>(
        s2,
        child_page(node, i),
        g,
        child_next::<K, V>(s2, node, h, next, i),
    ) by {
        assert(at_child(i + 1));
    }
}

/// The chain after the leaf level of an insertion.
pub proof fn lemma_leaf_chain<K: Increment, V: Storable>(
    s: Store,
    plan: Plan,
    p: PageId,
    key: K,
    value: V,
    fuel: nat,
    next: PageId,
)
    requires
        store_ok(s),
        plan_ok(s, plan),
        tree_ok::<K, V>(s, plan, p, plan[p]),
        plan[p].h == 0,
        plan[p].holds(key.rank()),
        insert_at::<K, V>(s, p, key, value, fuel).outcome is Ok,
        chain_ok::<K, V>(s, p, 0, next),
    ensures
        chain_handed_up::<K, V>(
            s,
            insert_at::<K, V>(s, p, key, value, fuel).store,
            p,
            0,
            next,
            insert_at::<K, V>(s, p, key, value, fuel).outcome->Ok_0,
        ),
{
    let node = NodeView::<K, V>::decode(s.pages[p as int])->0;
    let d = insert_at::<K, V>(s, p, key, value, fuel);
    let new_id = s.next_id as PageId;
    let parts = parted(node, new_id, key);
    let slot = Slot(key, Either::<V>::Value(value));
    let cur2 = parts.cur.stored(slot);
    assert(fuel > 0);
    if needs_split(node) {
        lemma_leaf_halves(node, new_id, key, value);
        let lo2 = if parts.go_hi {
            parts.other->0
        } else {
            cur2
        };
        let hi2 = if parts.go_hi {
            cur2
        } else {
            parts.other->0
        };
        assert(d == finished(s.allocated(), p, cur2, parts.other, parts.go_hi));
        lo2.lemma_round_trip();
        hi2.lemma_round_trip();
        assert(d.store.pages[p as int] == lo2.encode());
        assert(d.store.pages[new_id as int] == hi2.encode());
    } else {
        assert(d == finished(s, p, cur2, None, false));
        lemma_with_slot(node.slots, slot);
        cur2.lemma_round_trip();
    }
}

/// The chain below an internal node once the insertion has gone through it:
/// the node, or its two halves, have taken in what the level below handed
/// up, and are written to their pages.
pub proof fn lemma_chain_finished<K: Increment, V: Storable>(
    s: Store,
    plan: Plan,
    s2: Store,
    plan2: Plan,
    node: NodeView<K, V>,
    p: PageId,
    place: Place,
    new_id: PageId,
    key: K,
    up: Option<(Slot<K, V>, PageId)>,
    next: PageId,
    d: Descent<K, V>,
)
    requires
        node_ok::<K, V>(s, plan, node, p, place),
        NodeView::<K, V>::decode(s.pages[p as int]) == Some(node),
        place.h > 0,
        place.holds(key.rank()),
        node_chain::<K, V>(s, node, place.h, next),
        0 <= p < s.next_id <= s.pages.len() <= i32::MAX,
        s2.pages.len() == s.pages.len(),
        s2.next_id >= s.next_id,
        store_ok(s2),
        plan_ok(s2, plan2),
        needs_split(node) ==> new_id == s.next_id && s2.next_id > s.next_id && !plan2.contains_key(
            new_id,
        ),
        plan2.contains_key(p),
        plan2[p].h == place.h,
        forall|q: PageId| #[trigger]
            plan.contains_key(q) && !plan[q].holds(key.rank()) ==> plan2.contains_key(q)
                && plan2[q] == plan[q] && s2.pages[q as int] == s.pages[q as int],
        ({
            let parts = parted(node, new_id, key);
            let cplace = if !needs_split(node) {
                place
            } else if parts.go_hi {
                upper_place(node, place)
            } else {
                lower_place(node, place)
            };
            let cnext = if needs_split(node) && !parts.go_hi {
                first_leaf::<K, V>(
                    s,
                    child_page(node, node.slots.len() as int / 2),
                    (place.h - 1) as nat,
                )
            } else {
                next
            };
            let at = first_greater(parts.cur.slots, key);
            &&& handed_up::<K, V>(
                s2,
                plan2,
                child_page(parts.cur, at),
                child_place(parts.cur, cplace, at),
                up,
            )
            &&& chain_handed_up::<K, V>(
                s,
                s2,
                child_page(parts.cur, at),
                (place.h - 1) as nat,
                child_next::<K, V>(s, parts.cur, place.h, cnext, at),
                up,
            )
            &&& d == finished(s2, p, taken_in(parts.cur, at, up), parts.other, parts.go_hi)
        }),
        d.outcome is Ok,
    ensures
        chain_handed_up::<K, V>(s, d.store, p, place.h, next, d.outcome->Ok_0),
{
    let h = place.h;
    let g = (h - 1) as nat;
    let split = needs_split(node);
    let parts = parted(node, new_id, key);
    let cur = parts.cur;
    if split {
        lemma_inner_halves::<K, V>(s, plan, node, p, place, new_id, key);
        lemma_chain_halves::<K, V>(s, plan, node, p, place, new_id, next);
    }
    let mid = first_leaf::<K, V>(s, child_page(node, node.slots.len() as int / 2), g);
    let cplace = if !split {
        place
    } else if parts.go_hi {
        upper_place(node, place)
    } else {
        lower_place(node, place)
    };
    let cnext = if split && !parts.go_hi {
        mid
    } else {
        next
    };
    let cid = cur.id;
    let at = first_greater(cur.slots, key);
    let cur2 = taken_in(cur, at, up);
    lemma_absorbed::<K, V>(s, plan, s2, plan2, cur, cid, cplace, key, up);
    lemma_chain_absorbed::<K, V>(s, plan, s2, plan2, cur, cid, cplace, key, up, cnext);
    assert(at_child(0));
    if split {
        let other = parts.other->0;
        let oplace = if parts.go_hi {
            lower_place(node, place)
        } else {
            upper_place(node, place)
        };
        let onext = if parts.go_hi {
            mid
        } else {
            next
        };
        lemma_untouched::<K, V>(s, plan, s2, plan2, other, other.id, oplace, key);
        lemma_chain_untouched::<K, V>(s, plan, s2, other, other.id, oplace, key, onext);
        let lo2 = if parts.go_hi {
            other
        } else {
            cur2
        };
        let hi2 = if parts.go_hi {
            cur2
        } else {
            other
        };
        let lower = lower_place(node, place);
        let upper = upper_place(node, place);
        assert(d.store == s2.written(p, lo2.encode()).written(new_id, hi2.encode()));
        assert forall|q: PageId| #[trigger] plan2.contains_key(q) && plan2[q].h
            < place.h implies d.store.pages[q as int] == s2.pages[q as int] by {
            assert(q != p);
            assert(q != new_id);
        }
        lemma_chain_written::<K, V>(s2, plan2, d.store, lo2, lower, mid);
        lemma_chain_written::<K, V>(s2, plan2, d.store, hi2, upper, next);
        assert(d.outcome->Ok_0 == Some((lo2.separator(), new_id)));
        assert(first_leaf::<K, V>(d.store, new_id, h) == mid);
        assert(first_leaf::<K, V>(d.store, p, h) == first_leaf::<K, V>(s, child_page(node, 0), g));
    } else {
        assert(d.store == s2.written(p, cur2.encode()));
        assert forall|q: PageId| #[trigger] plan2.contains_key(q) && plan2[q].h
            < place.h implies d.store.pages[q as int] == s2.pages[q as int] by {
            assert(q != p);
        }
        lemma_chain_written::<K, V>(s2, plan2, d.store, cur2, place, next);
        assert(d.outcome->Ok_0 == None::<(Slot<K, V>, PageId)>);
    }
}

/// **The chain after one level of an insertion.** The first leaf below the
/// page is the one it was; and the leaves below the page are chained to what
/// followed them, or, if the node was split, to the leaves below the page of
/// its upper half, and those to what followed.
pub proof fn lemma_level_chain<K: Increment, V: Storable>(
    s: Store,
    plan: Plan,
    p: PageId,
    key: K,
    value: V,
    fuel: nat,
    next: PageId,
)
    requires
        store_ok(s),
        plan_ok(s, plan),
        tree_ok::<K, V>(s, plan, p, plan[p]),
        plan[p].holds(key.rank()),
        insert_at::<K, V>(s, p, key, value, fuel).outcome is Ok,
        chain_ok::<K, V>(s, p, plan[p].h, next),
    ensures
        chain_handed_up::<K, V>(
            s,
            insert_at::<K, V>(s, p, key, value, fuel).store,
            p,
            plan[p].h,
            next,
            insert_at::<K, V>(s, p, key, value, fuel).outcome->Ok_0,
        ),
    decreases fuel,
{
    let place = plan[p];
    let h = place.h;
    if h == 0 {
        lemma_leaf_chain::<K, V>(s, plan, p, key, value, fuel, next);
    } else {
        let node = NodeView::<K, V>::decode(s.pages[p as int])->0;
        let d = insert_at::<K, V>(s, p, key, value, fuel);
        let new_id = s.next_id as PageId;
        let split = needs_split(node);
        let s1 = if split {
            s.allocated()
        } else {
            s
        };
        let parts = parted(node, new_id, key);
        assert(fuel > 0);
        let g = (h - 1) as nat;
        let cur = parts.cur;
        if split {
            lemma_inner_halves::<K, V>(s, plan, node, p, place, new_id, key);
            lemma_chain_halves::<K, V>(s, plan, node, p, place, new_id, next);
        }
        let mid = first_leaf::<K, V>(s, child_page(node, node.slots.len() as int / 2), g);
        let cplace = if !split {
            place
        } else if parts.go_hi {
            upper_place(node, place)
        } else {
            lower_place(node, place)
        };
        let cnext = if split && !parts.go_hi {
            mid
        } else {
            next
        };
        let cid = cur.id;
        let at = first_greater(cur.slots, key);
        lemma_routed::<K, V>(s, plan, cur, cid, cplace, key);
        let child = child_page(cur, at);
        let cp = child_place(cur, cplace, at);
        lemma_child_within::<K, V>(s, plan, cur, cid, cplace, at);
        let next_c = child_next::<K, V>(s, cur, h, cnext, at);
        assert(at_child(at));
        assert(chain_ok::<K, V>(s, child, g, next_c));
        assert forall|q: PageId| #[trigger] plan.contains_key(q) implies s1.pages[q as int]
            == s.pages[q as int] by {}
        lemma_frame::<K, V>(s, plan, s1, plan, child, cp);
        lemma_chain_frame::<K, V>(s, plan, s1, child, cp, next_c);
        let dc = insert_at::<K, V>(s1, child, key, value, (fuel - 1) as nat);
        let plan_c = plan_at::<K, V>(s1, plan, child, key, value, (fuel - 1) as nat);
        lemma_level::<K, V>(s1, plan, child, key, value, (fuel - 1) as nat);
        lemma_level_chain::<K, V>(s1, plan, child, key, value, (fuel - 1) as nat, next_c);
        let up = dc.outcome->Ok_0;
        assert(d == finished(dc.store, p, taken_in(cur, at, up), parts.other, parts.go_hi));
        assert forall|q: PageId| #[trigger] plan.contains_key(q) && !plan[q].holds(
            key.rank(),
        ) implies plan_c.contains_key(q) && plan_c[q] == plan[q] && dc.store.pages[q as int]
            == s.pages[q as int] by {
            assert(s1.pages[q as int] == s.pages[q as int]);
        }
        assert(plan_c.contains_key(p) && plan_c[p] == place);
        if split {
            assert(!plan_c.contains_key(new_id)) by {
                if plan_c.contains_key(new_id) {
                    assert(plan.contains_key(new_id) || new_id >= s1.next_id);
                }
            }
        }
        assert(chain_handed_up::<K, V>(s, dc.store, child, g, next_c, up));
        lemma_chain_finished::<K, V>(
            s,
            plan,
            dc.store,
            plan_c,
            node,
            p,
            place,
            new_id,
            key,
            up,
            next,
            d,
        );
    }
}

/// Whether the store holds a well-formed tree whose leaves are chained: from
/// the first leaf on, the next pointers lead through every leaf, in the
/// order of the tree, and the last leaf has none.
pub open spec fn chain_inv<K: Increment, V: Storable>(s: Store, root: PageId, plan: Plan) -> bool {
    &&& tree_inv::<K, V>(s, root, plan)
    &&& root != NO_PAGE ==> chain_ok::<K, V>(s, root, plan[root].h, NO_PAGE)
}

/// **The chain after an insertion.** An insertion into a well-formed tree
/// with chained leaves that succeeds leaves a well-formed tree with chained
/// leaves.
pub proof fn lemma_insert_chain<K: Increment, V: Storable>(
    s: Store,
    root: PageId,
    max: u32,
    plan: Plan,
    key: K,
    value: V,
)
    requires
        chain_inv::<K, V>(s, root, plan),
        spec_insert::<K, V>(s, root, max, key, value).outcome is Ok,
    ensures
        chain_inv::<K, V>(
            spec_insert::<K, V>(s, root, max, key, value).store,
            spec_insert::<K, V>(s, root, max, key, value).root,
            plan_after::<K, V>(s, root, max, plan, key, value),
        ),
{
    let r = spec_insert::<K, V>(s, root, max, key, value);
    lemma_insert::<K, V>(s, root, max, plan, key, value, key);
    let root1 = if root == NO_PAGE {
        s.next_id as PageId
    } else {
        root
    };
    let s1 = if root == NO_PAGE {
        s.allocated().written(root1, first_root::<K, V>(root1, max).encode())
    } else {
        s
    };
    let plan1 = if root == NO_PAGE {
        plan.insert(root1, root_place(0))
    } else {
        plan
    };
    let fuel = INSERT_DEPTH as nat;
    if root == NO_PAGE {
        lemma_first_root::<K, V>(s, max, plan, key, 1);
        let node = first_root::<K, V>(root1, max);
        assert(node.slots.len() * crate::btree::slot::slot_size::<K, V>() == 0) by (nonlinear_arith)
            requires
                node.slots.len() == 0,
        ;
        node.lemma_round_trip();
    }
    let place = plan1[root1];
    let h = place.h;
    assert(chain_ok::<K, V>(s1, root1, h, NO_PAGE));
    let d = insert_at::<K, V>(s1, root1, key, value, fuel);
    let plan2 = plan_at::<K, V>(s1, plan1, root1, key, value, fuel);
    lemma_level::<K, V>(s1, plan1, root1, key, value, fuel);
    lemma_level_chain::<K, V>(s1, plan1, root1, key, value, fuel, NO_PAGE);
    match d.outcome {
        Ok(Some((sep, page))) => {
            let rid = d.store.next_id as PageId;
            let top = grown_root::<K, V>(rid, max, sep, page);
            let tplace = root_place(h + 1);
            let s3 = d.store.allocated().written(rid, top.encode());
            let plan3 = plan2.insert(rid, tplace);
            assert(r.store == s3 && r.root == rid);
            let lower = Place { lo: None, hi: Some(sep.0.rank()), h };
            let upper = Place { lo: Some(sep.0.rank()), hi: None, h };
            assert(top.slots[0] == sep);
            assert(sorted(top.slots));
            assert(child_page(top, 0) == root1);
            assert(child_page(top, 1) == page);
            assert(child_place(top, tplace, 0) == lower);
            assert(child_place(top, tplace, 1) == upper);
            assert(node_ok::<K, V>(d.store, plan2, top, rid, tplace)) by {
                assert forall|i: int| 0 <= i < child_count(top) implies tree_ok::<K, V>(
                    d.store,
                    plan2,
                    #[trigger] child_page(top, i),
                    child_place(top, tplace, i),
                ) by {
                    if i == 0 {
                    } else {
                        assert(i == 1);
                    }
                }
            }
            assert(node_chain::<K, V>(d.store, top, h + 1, NO_PAGE)) by {
                assert forall|i: int| #![trigger at_child(i)] at_child(i) && 0 <= i < child_count(
                    top,
                ) implies chain_ok::<K, V>(
                    d.store,
                    child_page(top, i),
                    h,
                    child_next::<K, V>(d.store, top, h + 1, NO_PAGE, i),
                ) by {
                    if i == 0 {
                    } else {
                        assert(i == 1);
                    }
                }
            }
            assert forall|q: PageId| #[trigger] plan2.contains_key(q) && plan2[q].h
                < tplace.h implies s3.pages[q as int] == d.store.pages[q as int] by {
                assert(q != rid);
            }
            lemma_chain_written::<K, V>(d.store, plan2, s3, top, tplace, NO_PAGE);
        },
        _ => {},
    }
}

/// **The chain after a run of insertions.** A run of insertions into a
/// well-formed tree with chained leaves, all of which succeeded, leaves a
/// well-formed tree with chained leaves. The empty tree is such a tree.
pub proof fn lemma_insert_all_chain<K: Increment, V: Storable>(
    s: Store,
    root: PageId,
    max: u32,
    plan: Plan,
    pairs: Seq<(K, V)>,
)
    requires
        chain_inv::<K, V>(s, root, plan),
        insert_all::<K, V>(s, root, max, pairs).outcome is Ok,
    ensures
        chain_inv::<K, V>(
            insert_all::<K, V>(s, root, max, pairs).store,
            insert_all::<K, V>(s, root, max, pairs).root,
            plan_all::<K, V>(s, root, max, plan, pairs),
        ),
    decreases pairs.len(),
{
    if pairs.len() > 0 {
        let before = insert_all::<K, V>(s, root, max, pairs.drop_last());
        lemma_insert_all_chain::<K, V>(s, root, max, plan, pairs.drop_last());
        lemma_insert_chain::<K, V>(
            before.store,
            before.root,
            max,
            plan_all::<K, V>(s, root, max, plan, pairs.drop_last()),
            pairs.last().0,
            pairs.last().1,
        );
    }
}

/// Number of leaves below page `p`, which is `h` levels above the leaves.
pub open spec fn leaf_count<K: Increment, V: Storable>(s: Store, p: PageId, h: nat) -> nat
    decreases h, 1nat, 0nat,
{
    if h == 0 {
        1
    } else {
        count_from::<K, V>(s, NodeView::<K, V>::decode(s.pages[p as int])->0, h, 0)
    }
}

/// Number of leaves below the children of `node` from child `i` on.
pub open spec fn count_from<K: Increment, V: Storable>(
    s: Store,
    node: NodeView<K, V>,
    h: nat,
    i: int,
) -> nat
    decreases h, 0nat, (child_count(node) - i) as nat,
{
    if h == 0 || i < 0 || i >= child_count(node) {
        0
    } else {
        leaf_count::<K, V>(s, child_page(node, i), (h - 1) as nat) + count_from::<K, V>(
            s,
            node,
            h,
            i + 1,
        )
    }
}

/// The slots of the leaves below page `p`, in the order of the tree.
pub open spec fn slots_of<K: Increment, V: Storable>(s: Store, p: PageId, h: nat) -> Seq<
    Slot<K, V>,
>
    decreases h, 1nat, 0nat,
{
    if h == 0 {
        NodeView::<K, V>::decode(s.pages[p as int])->0.slots
    } else {
        slots_from::<K, V>(s, NodeView::<K, V>::decode(s.pages[p as int])->0, h, 0)
    }
}

/// The slots of the leaves below the children of `node` from child `i` on,
/// in the order of the tree.
pub open spec fn slots_from<K: Increment, V: Storable>(
    s: Store,
    node: NodeView<K, V>,
    h: nat,
    i: int,
) -> Seq<Slot<K, V>>
    decreases h, 0nat, (child_count(node) - i) as nat,
{
    if h == 0 || i < 0 || i >= child_count(node) {
        Seq::empty()
    } else {
        slots_of::<K, V>(s, child_page(node, i), (h - 1) as nat) + slots_from::<K, V>(
            s,
            node,
            h,
            i + 1,
        )
    }
}

/// **The walk along the chain.** From the first leaf below a page on, the
/// chain leads through the leaves below the page, gathers their slots in
/// the order of the tree, and goes on with what follows the leaves.
pub proof fn lemma_walk<K: Increment, V: Storable>(
    s: Store,
    plan: Plan,
    p: PageId,
    place: Place,
    next: PageId,
    acc: Seq<Slot<K, V>>,
    fuel: nat,
)
    requires
        store_ok(s),
        tree_ok::<K, V>(s, plan, p, place),
        chain_ok::<K, V>(s, p, place.h, next),
        fuel >= leaf_count::<K, V>(s, p, place.h),
    ensures
        chain_at::<K, V>(s, first_leaf::<K, V>(s, p, place.h), acc, fuel) == chain_at::<K, V>(
            s,
            next,
            acc + slots_of::<K, V>(s, p, place.h),
            (fuel - leaf_count::<K, V>(s, p, place.h)) as nat,
        ),
    decreases place.h, 1nat, 0nat,
{
    let node = NodeView::<K, V>::decode(s.pages[p as int])->0;
    if place.h > 0 {
        assert(at_child(0));
        lemma_walk_from::<K, V>(s, plan, node, p, place, next, acc, fuel, 0);
    }
}

/// The walk along the chain from the first leaf below child `i` of a node
/// on.
pub proof fn lemma_walk_from<K: Increment, V: Storable>(
    s: Store,
    plan: Plan,
    node: NodeView<K, V>,
    p: PageId,
    place: Place,
    next: PageId,
    acc: Seq<Slot<K, V>>,
    fuel: nat,
    i: int,
)
    requires
        store_ok(s),
        node_ok::<K, V>(s, plan, node, p, place),
        place.h > 0,
        node_chain::<K, V>(s, node, place.h, next),
        0 <= i <= child_count(node),
        fuel >= count_from::<K, V>(s, node, place.h, i),
    ensures
        chain_at::<K, V>(
            s,
            if i < child_count(node) {
                first_leaf::<K, V>(s, child_page(node, i), (place.h - 1) as nat)
            } else {
                next
            },
            acc,
            fuel,
        ) == chain_at::<K, V>(
            s,
            next,
            acc + slots_from::<K, V>(s, node, place.h, i),
            (fuel - count_from::<K, V>(s, node, place.h, i)) as nat,
        ),
    decreases place.h, 0nat, (child_count(node) - i) as nat,
{
    let h = place.h;
    let g = (h - 1) as nat;
    if i < child_count(node) {
        let child = child_page(node, i);
        let cp = child_place(node, place, i);
        lemma_child_within::<K, V>(s, plan, node, p, place, i);
        assert(at_child(i));
        let next_i = child_next::<K, V>(s, node, h, next, i);
        let n_i = leaf_count::<K, V>(s, child, g);
        let sl_i = slots_of::<K, V>(s, child, g);
        lemma_walk::<K, V>(s, plan, child, cp, next_i, acc, fuel);
        lemma_walk_from::<K, V>(s, plan, node, p, place, next, acc + sl_i, (fuel - n_i) as nat, i + 1);
        assert(acc + (sl_i + slots_from::<K, V>(s, node, h, i + 1)) =~= (acc + sl_i)
            + slots_from::<K, V>(s, node, h, i + 1));
    } else {
        assert(acc + Seq::<Slot<K, V>>::empty() =~= acc);
    }
}

/// The descent along first pointers finds the first leaf of a well-formed
/// tree.
pub proof fn lemma_first_leaf_at<K: Increment, V: Storable>(
    s: Store,
    plan: Plan,
    p: PageId,
    place: Place,
    fuel: nat,
)
    requires
        store_ok(s),
        tree_ok::<K, V>(s, plan, p, place),
        fuel > place.h,
    ensures
        first_leaf_at::<K, V>(s, p, fuel) == Ok::<PageId, BTreeError>(
            first_leaf::<K, V>(s, p, place.h),
        ),
    decreases place.h,
{
    let node = NodeView::<K, V>::decode(s.pages[p as int])->0;
    if place.h > 0 {
        lemma_child_within::<K, V>(s, plan, node, p, place, 0);
        if node.slots.len() > 0 {
            assert(node.slots[0].1 is Pointer);
        }
        lemma_first_leaf_at::<K, V>(
            s,
            plan,
            child_page(node, 0),
            child_place(node, place, 0),
            (fuel - 1) as nat,
        );
    }
}

/// **The slots of a tree.** The slots of the leaves below a page, in the
/// order of the tree, are in key order and hold values under keys that
/// belong below the page; and a search below the page finds under a key
/// what they hold under it.
pub proof fn lemma_slots<K: Increment, V: Storable>(
    s: Store,
    plan: Plan,
    p: PageId,
    place: Place,
    key: K,
    fuel: nat,
)
    requires
        store_ok(s),
        tree_ok::<K, V>(s, plan, p, place),
    ensures
        sorted(slots_of::<K, V>(s, p, place.h)),
        forall|i: int|
            0 <= i < slots_of::<K, V>(s, p, place.h).len() ==> (#[trigger] slots_of::<K, V>(
                s,
                p,
                place.h,
            )[i]).1 is Value && place.holds(slots_of::<K, V>(s, p, place.h)[i].0.rank()),
        place.holds(key.rank()) && fuel > place.h ==> search_at::<K, V>(s, p, key, fuel) == found(
            lookup(slots_of::<K, V>(s, p, place.h), key),
        ),
    decreases place.h, 1nat, 0nat,
{
    let node = NodeView::<K, V>::decode(s.pages[p as int])->0;
    if place.h > 0 {
        lemma_slots_from::<K, V>(s, plan, node, p, place, 0, key, fuel);
        if place.holds(key.rank()) && fuel > place.h {
            lemma_routed::<K, V>(s, plan, node, p, place, key);
        }
    }
}

/// The slots below the children of a node from child `i` on: see
/// `lemma_slots`.
pub proof fn lemma_slots_from<K: Increment, V: Storable>(
    s: Store,
    plan: Plan,
    node: NodeView<K, V>,
    p: PageId,
    place: Place,
    i: int,
    key: K,
    fuel: nat,
)
    requires
        store_ok(s),
        node_ok::<K, V>(s, plan, node, p, place),
        place.h > 0,
        0 <= i <= child_count(node),
    ensures
        sorted(slots_from::<K, V>(s, node, place.h, i)),
        forall|j: int|
            0 <= j < slots_from::<K, V>(s, node, place.h, i).len() ==> {
                let x = #[trigger] slots_from::<K, V>(s, node, place.h, i)[j];
                &&& x.1 is Value
                &&& place.holds(x.0.rank())
                &&& i > 0 ==> node.slots[i - 1].0.rank() <= x.0.rank()
            },
        place.holds(key.rank()) && fuel > place.h && first_greater(node.slots, key) >= i
            ==> search_at::<K, V>(
            s,
            child_page(node, first_greater(node.slots, key)),
            key,
            (fuel - 1) as nat,
        ) == found(lookup(slots_from::<K, V>(s, node, place.h, i), key)),
    decreases place.h, 0nat, (child_count(node) - i) as nat,
{
    let h = place.h;
    let g = (h - 1) as nat;
    let fg = first_greater(node.slots, key);
    lemma_first_greater(node.slots, key, 0);
    if i < child_count(node) {
        let child = child_page(node, i);
        let cp = child_place(node, place, i);
        lemma_child_within::<K, V>(s, plan, node, p, place, i);
        let a = slots_of::<K, V>(s, child, g);
        let b = slots_from::<K, V>(s, node, h, i + 1);
        lemma_slots::<K, V>(s, plan, child, cp, key, (fuel - 1) as nat);
        lemma_slots_from::<K, V>(s, plan, node, p, place, i + 1, key, fuel);
        let c = slots_from::<K, V>(s, node, h, i);
        assert(c == a + b);
        if i < node.slots.len() {
            let bound = node.slots[i].0.rank();
            assert forall|j: int| 0 <= j < a.len() implies (#[trigger] a[j]).0.rank() < bound by {
                assert(cp.holds(a[j].0.rank()));
            }
            lemma_joined_lookup(a, b, bound, key);
            assert forall|j: int| 0 <= j < c.len() implies {
                let x = #[trigger] c[j];
                &&& x.1 is Value
                &&& place.holds(x.0.rank())
                &&& i > 0 ==> node.slots[i - 1].0.rank() <= x.0.rank()
            } by {
                if j < a.len() {
                    assert(c[j] == a[j]);
                    assert(cp.holds(a[j].0.rank()));
                } else {
                    assert(c[j] == b[j - a.len()]);
                    if i > 0 {
                        assert(node.slots[i - 1].0.rank() < node.slots[i].0.rank());
                    }
                }
            }
            if place.holds(key.rank()) && fuel > place.h && fg >= i {
                if fg == i {
                    assert(key.rank() < bound);
                } else {
                    assert(node.slots[i].0.rank() <= key.rank());
                }
            }
        } else {
            // the last child: nothing follows
            assert(b =~= Seq::<Slot<K, V>>::empty());
            assert(c =~= a);
            assert forall|j: int| 0 <= j < c.len() implies {
                let x = #[trigger] c[j];
                &&& x.1 is Value
                &&& place.holds(x.0.rank())
                &&& i > 0 ==> node.slots[i - 1].0.rank() <= x.0.rank()
            } by {
                assert(cp.holds(a[j].0.rank()));
            }
        }
    } else {
        if place.holds(key.rank()) && fuel > place.h {
            lemma_routed::<K, V>(s, plan, node, p, place, key);
        }
    }
}

/// Whether keys belong at a place: its lower bound lies below its upper
/// bound.
pub open spec fn roomy(place: Place) -> bool {
    place.lo is Some && place.hi is Some ==> place.lo->0 < place.hi->0
}

/// The pages of the leaves below page `p`.
pub open spec fn leaf_pages<K: Increment, V: Storable>(s: Store, p: PageId, h: nat) -> Set<int>
    decreases h, 1nat, 0nat,
{
    if h == 0 {
        set![p as int]
    } else {
        pages_from::<K, V>(s, NodeView::<K, V>::decode(s.pages[p as int])->0, h, 0)
    }
}

/// The pages of the leaves below the children of `node` from child `i` on.
pub open spec fn pages_from<K: Increment, V: Storable>(
    s: Store,
    node: NodeView<K, V>,
    h: nat,
    i: int,
) -> Set<int>
    decreases h, 0nat, (child_count(node) - i) as nat,
{
    if h == 0 || i < 0 || i >= child_count(node) {
        Set::empty()
    } else {
        leaf_pages::<K, V>(s, child_page(node, i), (h - 1) as nat) + pages_from::<K, V>(
            s,
            node,
            h,
            i + 1,
        )
    }
}

/// What holds of the page of a leaf below a page at `place`: it was
/// allocated, and the plan has it as a leaf at a place within `place` at
/// which keys belong.
pub open spec fn leaf_below(s: Store, plan: Plan, place: Place, q: int) -> bool {
    &&& 0 <= q < s.next_id
    &&& plan.contains_key(q as PageId)
    &&& plan[q as PageId].h == 0
    &&& plan[q as PageId].within(place)
    &&& roomy(plan[q as PageId])
}

/// The leaves below a page are as many pages as the chain has to walk
/// through.
pub proof fn lemma_leaf_pages<K: Increment, V: Storable>(
    s: Store,
    plan: Plan,
    p: PageId,
    place: Place,
)
    requires
        store_ok(s),
        tree_ok::<K, V>(s, plan, p, place),
        roomy(place),
    ensures
        leaf_pages::<K, V>(s, p, place.h).finite(),
        leaf_pages::<K, V>(s, p, place.h).len() == leaf_count::<K, V>(s, p, place.h),
        forall|q: int| #[trigger]
            leaf_pages::<K, V>(s, p, place.h).contains(q) ==> leaf_below(s, plan, place, q),
    decreases place.h, 1nat, 0nat,
{
    let node = NodeView::<K, V>::decode(s.pages[p as int])->0;
    if place.h > 0 {
        lemma_pages_from::<K, V>(s, plan, node, p, place, 0);
    } else {
        assert(leaf_pages::<K, V>(s, p, 0) =~= Set::<int>::empty().insert(p as int));
    }
}

/// The leaves below the children of a node from child `i` on: see
/// `lemma_leaf_pages`.
pub proof fn lemma_pages_from<K: Increment, V: Storable>(
    s: Store,
    plan: Plan,
    node: NodeView<K, V>,
    p: PageId,
    place: Place,
    i: int,
)
    requires
        store_ok(s),
        node_ok::<K, V>(s, plan, node, p, place),
        place.h > 0,
        roomy(place),
        0 <= i <= child_count(node),
    ensures
        pages_from::<K, V>(s, node, place.h, i).finite(),
        pages_from::<K, V>(s, node, place.h, i).len() == count_from::<K, V>(s, node, place.h, i),
        forall|q: int| #[trigger]
            pages_from::<K, V>(s, node, place.h, i).contains(q) ==> leaf_below(s, plan, place, q)
                && (i > 0 ==> plan[q as PageId].lo is Some && plan[q as PageId].lo->0
                >= node.slots[i - 1].0.rank()),
    decreases place.h, 0nat, (child_count(node) - i) as nat,
{
    let h = place.h;
    let g = (h - 1) as nat;
    if i < child_count(node) {
        let child = child_page(node, i);
        let cp = child_place(node, place, i);
        lemma_child_within::<K, V>(s, plan, node, p, place, i);
        assert(roomy(cp)) by {
            if i > 0 && i < node.slots.len() {
                assert(node.slots[i - 1].0.rank() < node.slots[i].0.rank());
            }
            if i < node.slots.len() {
                assert(place.admits(node.slots[i].0.rank()));
            }
            if i > 0 {
                assert(place.admits(node.slots[i - 1].0.rank()));
            }
        }
        let a = leaf_pages::<K, V>(s, child, g);
        let b = pages_from::<K, V>(s, node, h, i + 1);
        lemma_leaf_pages::<K, V>(s, plan, child, cp);
        lemma_pages_from::<K, V>(s, plan, node, p, place, i + 1);
        assert(a.disjoint(b)) by {
            assert forall|q: int| a.contains(q) && b.contains(q) implies false by {
                assert(leaf_below(s, plan, cp, q));
                assert(i < node.slots.len());
                let pq = plan[q as PageId];
                assert(pq.hi is Some && pq.hi->0 <= node.slots[i].0.rank());
                assert(pq.lo is Some && pq.lo->0 >= node.slots[i].0.rank());
            }
        }
        lemma_set_disjoint_lens(a, b);
        assert forall|q: int| #[trigger] (a + b).contains(q) implies leaf_below(s, plan, place, q)
            && (i > 0 ==> plan[q as PageId].lo is Some && plan[q as PageId].lo->0
            >= node.slots[i - 1].0.rank()) by {
            if a.contains(q) {
                assert(leaf_below(s, plan, cp, q));
            } else {
                assert(b.contains(q));
                if i > 0 {
                    assert(node.slots[i - 1].0.rank() < node.slots[i].0.rank());
                }
            }
        }
    }
}

/// **The scan.** In a well-formed tree with chained leaves the chain gives,
/// from the first leaf on, the slots of the tree: in key order, each with a
/// value, and under every key what a search finds under it. So the chain has
/// every key of the tree, and no other, in sorted order.
pub proof fn lemma_scan<K: Increment, V: Storable>(s: Store, root: PageId, plan: Plan, key: K)
    requires
        chain_inv::<K, V>(s, root, plan),
    ensures
        spec_scan::<K, V>(s, root) is Ok,
        sorted(spec_scan::<K, V>(s, root)->Ok_0),
        forall|i: int|
            0 <= i < spec_scan::<K, V>(s, root)->Ok_0.len() ==> (#[trigger] spec_scan::<K, V>(
                s,
                root,
            )->Ok_0[i]).1 is Value,
        spec_get::<K, V>(s, root, key) == found(lookup(spec_scan::<K, V>(s, root)->Ok_0, key)),
{
    if root == NO_PAGE {
        crate::btree::node::lemma_lower_bound(Seq::<Slot<K, V>>::empty(), key, 0);
    } else {
        let place = plan[root];
        let h = place.h;
        let fuel = s.pages.len();
        lemma_first_leaf_at::<K, V>(s, plan, root, place, MAX_DEPTH as nat);
        lemma_leaf_pages::<K, V>(s, plan, root, place);
        let leaves = leaf_pages::<K, V>(s, root, h);
        lemma_int_range(0, s.next_id);
        assert(leaves.subset_of(set_int_range(0, s.next_id))) by {
            assert forall|q: int| leaves.contains(q) implies set_int_range(0, s.next_id).contains(
                q,
            ) by {
                assert(leaf_below(s, plan, place, q));
            }
        }
        lemma_len_subset(leaves, set_int_range(0, s.next_id));
        let empty = Seq::<Slot<K, V>>::empty();
        lemma_walk::<K, V>(s, plan, root, place, NO_PAGE, empty, fuel);
        assert(empty + slots_of::<K, V>(s, root, h) =~= slots_of::<K, V>(s, root, h));
        lemma_slots::<K, V>(s, plan, root, place, key, MAX_DEPTH as nat);
    }
}

/// **A tree built by insertions.** After a run of insertions into the empty
/// tree, all of which succeeded, a search finds under a key the value
/// inserted last with that key, and nothing under a key that was not
/// inserted; and the chain of the leaves gives, in key order, exactly the
/// keys that a search finds, each with the value that the search finds.
pub proof fn lemma_built<K: Increment, V: Storable>(s: Store, max: u32, pairs: Seq<(K, V)>, key: K)
    requires
        store_ok(s),
        insert_all::<K, V>(s, NO_PAGE, max, pairs).outcome is Ok,
    ensures
        ({
            let r = insert_all::<K, V>(s, NO_PAGE, max, pairs);
            &&& spec_get::<K, V>(r.store, r.root, key) == Ok::<Option<V>, BTreeError>(
                latest(pairs, key),
            )
            &&& spec_scan::<K, V>(r.store, r.root) is Ok
            &&& sorted(spec_scan::<K, V>(r.store, r.root)->Ok_0)
            &&& found(lookup(spec_scan::<K, V>(r.store, r.root)->Ok_0, key)) == Ok::<
                Option<V>,
                BTreeError,
            >(latest(pairs, key))
        }),
{
    let plan = Map::<PageId, Place>::empty();
    let r = insert_all::<K, V>(s, NO_PAGE, max, pairs);
    lemma_insert_all::<K, V>(s, NO_PAGE, max, plan, pairs, key);
    lemma_insert_all_chain::<K, V>(s, NO_PAGE, max, plan, pairs);
    lemma_scan::<K, V>(r.store, r.root, plan_all::<K, V>(s, NO_PAGE, max, plan, pairs), key);
}

} // verus!
