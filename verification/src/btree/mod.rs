//! The B+-tree index: keys in order over the pages of a cache.
//!
//! An internal node holds, for each child but the last, a slot whose key
//! bounds the child's keys from above and whose pointer leads to the child;
//! its next pointer leads to the last child. Leaves hold the values and are
//! chained by their next pointers.
//!
//! An insertion walks down from the root and splits every node on its way
//! that has reached half its capacity, so that a node with room is never
//! split because of its child. What it does to the pages is `insert_at`, a
//! function of the pages before.
//!
//! A node that was split hands up one separator, that of its lower half
//! (`Node::get_separator`), and the page of its upper half. The parent
//! stores the separator and redirects the pointer that it followed, under
//! the key that bounded the node before, to the upper half; a new root has
//! that one separator and the upper half as its last child. So every key
//! that belonged below the node is routed to one of the halves afterwards.
//! Two fresh separators beside the pointer that was followed, one for each
//! half (`Node::get_separators`), would leave that pointer leading to the
//! lower half for keys that belong to the upper.

pub mod chain;
pub mod laws;
pub mod node;
pub mod order;
pub mod shape;
pub mod slot;

use vstd::prelude::*;
use core::marker::PhantomData;
use crate::btree::node::{has_key, lower_bound, sorted, Node, NodeType, NodeView};
use crate::btree::slot::{Either, Slot};
use crate::page::{PageId, NO_PAGE};
use crate::page_cache::{PageCache, Store};
use crate::storable::{Increment, Storable};

verus! {

/// Why an operation on the tree failed.
#[derive(PartialEq, Eq, Structural, Clone, Copy, Debug)]
pub enum BTreeError {
    /// No frame of the cache is free to bring a page in, or the store has no
    /// page left for a new node.
    OutOfMemory,
    /// A page on the way does not hold a node of this tree.
    Corrupt,
}

/// How many levels a search descends before it gives the tree up as
/// corrupt.
pub const MAX_DEPTH: u32 = 64;

/// How many levels an insertion descends: one fewer than a search, so that
/// a tree that an insertion adds a level to can still be searched.
pub const INSERT_DEPTH: u32 = 63;

/// A B+-tree of keys `K` and values `V`. The tree itself is the id of its
/// root page and the capacity of its nodes; the nodes live in a page cache.
pub struct BTree<K, V> {
    root: PageId,
    max: u32,
    _data: PhantomData<(K, V)>,
}

/// What one level of an insertion leaves behind: the store, and either an
/// error or what the level above has to take in, the separator of the lower
/// half and the page of the upper half if the node was split.
pub struct Descent<K, V> {
    pub store: Store,
    pub outcome: Result<Option<(Slot<K, V>, PageId)>, BTreeError>,
}

/// What an insertion leaves behind: the store, the root, and whether it
/// succeeded.
pub struct Inserted {
    pub store: Store,
    pub root: PageId,
    pub outcome: Result<(), BTreeError>,
}

/// Whether an insertion splits the node on its way down: it has reached half
/// its capacity, and has two slots to part.
pub open spec fn needs_split<K, V>(node: NodeView<K, V>) -> bool {
    node.slots.len() >= node.max as int / 2 && node.slots.len() >= 2
}

/// The lower half of a split node, which stays on the node's page. A leaf
/// takes the upper half as its successor; an internal node gives its last
/// child to the upper half.
pub open spec fn lower_half<K, V>(node: NodeView<K, V>, new_id: PageId) -> NodeView<K, V> {
    NodeView {
        is_root: false,
        slots: node.slots.take(node.slots.len() as int / 2),
        next: if node.t == NodeType::Leaf {
            new_id
        } else {
            NO_PAGE
        },
        ..node
    }
}

/// The upper half of a split node, which goes to the page `new_id`.
pub open spec fn upper_half<K, V>(node: NodeView<K, V>, new_id: PageId) -> NodeView<K, V> {
    NodeView {
        is_root: false,
        slots: node.slots.skip(node.slots.len() as int / 2),
        id: new_id,
        ..node
    }
}

/// The failed descent that leaves `store` behind.
pub open spec fn failed<K, V>(store: Store, e: BTreeError) -> Descent<K, V> {
    Descent { store, outcome: Err(e) }
}

/// A node as an insertion goes through it: the node, or the half of it, that
/// the key belongs to; the other half if the node was split; and whether the
/// key belongs to the upper half.
pub struct Parts<K, V> {
    pub cur: NodeView<K, V>,
    pub other: Option<NodeView<K, V>>,
    pub go_hi: bool,
}

/// Whether `key` belongs to the upper half `hi` of a split node rather than
/// to the lower half `lo`: in a leaf, if it is not below the first key of
/// the upper half; in an internal node, whose keys bound their children from
/// above, if it is not below the last key of the lower half.
pub open spec fn goes_up<K: Increment, V: Storable>(lo: NodeView<K, V>, hi: NodeView<K, V>, key: K)
    -> bool {
    if lo.t == NodeType::Leaf {
        key.rank() >= hi.slots[0].0.rank()
    } else {
        key.rank() >= lo.slots.last().0.rank()
    }
}

/// `node` as the insertion of `key` goes through it, where a split sends the
/// upper half to page `new_id`.
pub open spec fn parted<K: Increment, V: Storable>(node: NodeView<K, V>, new_id: PageId, key: K)
    -> Parts<K, V> {
    if needs_split(node) {
        let lo = lower_half(node, new_id);
        let hi = upper_half(node, new_id);
        if goes_up(lo, hi, key) {
            Parts { cur: hi, other: Some(lo), go_hi: true }
        } else {
            Parts { cur: lo, other: Some(hi), go_hi: false }
        }
    } else {
        Parts { cur: node, other: None, go_hi: false }
    }
}

/// The end of one level of an insertion: the node, or its two halves, are
/// written to their pages, the lower half to page `id`; the level above gets
/// the separator of the lower half and the page of the upper half. A node
/// that does not fit its page is an error.
pub open spec fn finished<K: Increment, V: Storable>(
    s: Store,
    id: PageId,
    cur: NodeView<K, V>,
    other: Option<NodeView<K, V>>,
    go_hi: bool,
) -> Descent<K, V> {
    match other {
        None => {
            if !cur.fits() {
                failed(s, BTreeError::Corrupt)
            } else {
                Descent { store: s.written(id, cur.encode()), outcome: Ok(None) }
            }
        },
        Some(o) => {
            let lo = if go_hi {
                o
            } else {
                cur
            };
            let hi = if go_hi {
                cur
            } else {
                o
            };
            if !lo.fits() || !hi.fits() {
                failed(s, BTreeError::Corrupt)
            } else {
                Descent {
                    store: s.written(id, lo.encode()).written(hi.id, hi.encode()),
                    outcome: Ok(Some((lo.separator(), hi.id))),
                }
            }
        },
    }
}

/// The node that an insertion leaves at one level, given what the level below
/// handed up: the node itself, or the node with the pointer it followed
/// redirected to the upper half of its split child and the separator of the
/// lower half stored.
pub open spec fn taken_in<K: Increment, V: Storable>(
    cur: NodeView<K, V>,
    at: int,
    up: Option<(Slot<K, V>, PageId)>,
) -> NodeView<K, V> {
    match up {
        None => cur,
        Some((sep, page)) => cur.redirected(at, page).stored(sep),
    }
}

/// What the insertion of `key` and `value` does below and at page `id`,
/// descending at most `fuel` levels.
///
/// The node on the page is split if it needs to be, the upper half going to a
/// newly allocated page, and the insertion goes on in the half that the key
/// belongs to: into the slots of a leaf; for an internal node into the child
/// that the key is routed to, whose split, if it was split, the node takes
/// in. The node's page, and that of its other half, are then written.
pub open spec fn insert_at<K: Increment, V: Storable>(
    s: Store,
    id: PageId,
    key: K,
    value: V,
    fuel: nat,
) -> Descent<K, V>
    decreases fuel,
{
    if fuel == 0 || !s.has(id) {
        failed(s, BTreeError::Corrupt)
    } else {
        match NodeView::<K, V>::decode(s.pages[id as int]) {
            None => failed(s, BTreeError::Corrupt),
            Some(node) => {
                if needs_split(node) && s.full() {
                    failed(s, BTreeError::OutOfMemory)
                } else {
                    let s1 = if needs_split(node) {
                        s.allocated()
                    } else {
                        s
                    };
                    let parts = parted(node, s.next_id as PageId, key);
                    if parts.cur.t == NodeType::Leaf {
                        finished(
                            s1,
                            id,
                            parts.cur.stored(Slot(key, Either::Value(value))),
                            parts.other,
                            parts.go_hi,
                        )
                    } else {
                        match parts.cur.route(key) {
                            None => failed(s1, BTreeError::Corrupt),
                            Some((at, child)) => {
                                let d = insert_at::<K, V>(s1, child, key, value, (fuel - 1) as nat);
                                match d.outcome {
                                    Err(e) => failed(d.store, e),
                                    Ok(up) => finished(
                                        d.store,
                                        id,
                                        taken_in(parts.cur, at, up),
                                        parts.other,
                                        parts.go_hi,
                                    ),
                                }
                            },
                        }
                    }
                }
            },
        }
    }
}

/// An empty root leaf on page `id`.
pub open spec fn first_root<K, V>(id: PageId, max: u32) -> NodeView<K, V> {
    NodeView { t: NodeType::Leaf, is_root: true, max, next: NO_PAGE, id, slots: Seq::empty() }
}

/// The root that takes the place of a root that was split: one separator for
/// the lower half, and the upper half as its last child.
pub open spec fn grown_root<K, V>(id: PageId, max: u32, sep: Slot<K, V>, page: PageId) -> NodeView<
    K,
    V,
> {
    NodeView { t: NodeType::Internal, is_root: true, max, next: page, id, slots: seq![sep] }
}

/// What the insertion of `key` and `value` does to a tree rooted at `root`
/// (`NO_PAGE` for the empty tree) whose nodes hold up to `max` slots: an
/// empty tree first gets a root leaf on a new page; the insertion descends
/// from the root; and a root that was split gets a new root above it.
pub open spec fn spec_insert<K: Increment, V: Storable>(
    s: Store,
    root: PageId,
    max: u32,
    key: K,
    value: V,
) -> Inserted {
    if root == NO_PAGE && s.full() {
        Inserted { store: s, root, outcome: Err(BTreeError::OutOfMemory) }
    } else {
        let root1 = if root == NO_PAGE {
            s.next_id as PageId
        } else {
            root
        };
        let s1 = if root == NO_PAGE {
            s.allocated().written(root1, first_root::<K, V>(root1, max).encode())
        } else {
            s
        };
        let d = insert_at::<K, V>(s1, root1, key, value, INSERT_DEPTH as nat);
        match d.outcome {
            Err(e) => Inserted { store: d.store, root: root1, outcome: Err(e) },
            Ok(None) => Inserted { store: d.store, root: root1, outcome: Ok(()) },
            Ok(Some((sep, page))) => {
                let rid = d.store.next_id as PageId;
                let top = grown_root::<K, V>(rid, max, sep, page);
                if d.store.full() {
                    Inserted { store: d.store, root: root1, outcome: Err(BTreeError::OutOfMemory) }
                } else if !top.fits() {
                    Inserted { store: d.store, root: root1, outcome: Err(BTreeError::Corrupt) }
                } else {
                    Inserted {
                        store: d.store.allocated().written(rid, top.encode()),
                        root: rid,
                        outcome: Ok(()),
                    }
                }
            },
        }
    }
}

/// What a search for `key` finds below and at page `id`, descending at most
/// `fuel` levels: at an internal node it follows the pointer of the first
/// slot whose key is strictly greater than `key`, or the next pointer if
/// there is no such slot; at a leaf it takes the value stored under `key`.
pub open spec fn search_at<K: Increment, V: Storable>(s: Store, id: PageId, key: K, fuel: nat)
    -> Result<Option<V>, BTreeError>
    decreases fuel,
{
    if fuel == 0 || !s.has(id) {
        Err(BTreeError::Corrupt)
    } else {
        match NodeView::<K, V>::decode(s.pages[id as int]) {
            None => Err(BTreeError::Corrupt),
            Some(node) => {
                if node.t == NodeType::Leaf {
                    if has_key(node.slots, key) {
                        match node.slots[lower_bound(node.slots, key)].1 {
                            Either::Value(v) => Ok(Some(v)),
                            Either::Pointer(_) => Err(BTreeError::Corrupt),
                        }
                    } else {
                        Ok(None)
                    }
                } else {
                    match node.route(key) {
                        Some((_, child)) => search_at::<K, V>(s, child, key, (fuel - 1) as nat),
                        None => Err(BTreeError::Corrupt),
                    }
                }
            },
        }
    }
}

/// The first leaf below page `id`, found by following first pointers for at
/// most `fuel` levels.
pub open spec fn first_leaf_at<K: Increment, V: Storable>(s: Store, id: PageId, fuel: nat)
    -> Result<PageId, BTreeError>
    decreases fuel,
{
    if fuel == 0 || !s.has(id) {
        Err(BTreeError::Corrupt)
    } else {
        match NodeView::<K, V>::decode(s.pages[id as int]) {
            None => Err(BTreeError::Corrupt),
            Some(node) => {
                if node.t == NodeType::Leaf {
                    Ok(id)
                } else if node.slots.len() > 0 {
                    match node.slots[0].1 {
                        Either::Pointer(child) => first_leaf_at::<K, V>(
                            s,
                            child,
                            (fuel - 1) as nat,
                        ),
                        Either::Value(_) => Err(BTreeError::Corrupt),
                    }
                } else if node.next != NO_PAGE {
                    first_leaf_at::<K, V>(s, node.next, (fuel - 1) as nat)
                } else {
                    Err(BTreeError::Corrupt)
                }
            },
        }
    }
}

/// The slots of the leaves from page `id` on along their next pointers,
/// behind the slots `acc`, through at most `fuel` leaves.
pub open spec fn chain_at<K: Increment, V: Storable>(
    s: Store,
    id: PageId,
    acc: Seq<Slot<K, V>>,
    fuel: nat,
) -> Result<Seq<Slot<K, V>>, BTreeError>
    decreases fuel,
{
    if id == NO_PAGE {
        Ok(acc)
    } else if fuel == 0 || !s.has(id) {
        Err(BTreeError::Corrupt)
    } else {
        match NodeView::<K, V>::decode(s.pages[id as int]) {
            None => Err(BTreeError::Corrupt),
            Some(node) => {
                if node.t == NodeType::Leaf {
                    chain_at::<K, V>(s, node.next, acc + node.slots, (fuel - 1) as nat)
                } else {
                    Err(BTreeError::Corrupt)
                }
            },
        }
    }
}

/// The slots of the tree rooted at `root` as the chain of its leaves gives
/// them, from the first leaf on.
pub open spec fn spec_scan<K: Increment, V: Storable>(s: Store, root: PageId) -> Result<
    Seq<Slot<K, V>>,
    BTreeError,
> {
    if root == NO_PAGE {
        Ok(Seq::empty())
    } else {
        match first_leaf_at::<K, V>(s, root, MAX_DEPTH as nat) {
            Err(e) => Err(e),
            Ok(leaf) => chain_at::<K, V>(s, leaf, Seq::empty(), s.pages.len()),
        }
    }
}

/// What a search for `key` finds in the tree rooted at `root`.
pub open spec fn spec_get<K: Increment, V: Storable>(s: Store, root: PageId, key: K) -> Result<
    Option<V>,
    BTreeError,
> {
    if root == NO_PAGE {
        Ok(None)
    } else {
        search_at::<K, V>(s, root, key, MAX_DEPTH as nat)
    }
}

impl<K: Increment, V: Storable> BTree<K, V> {
    /// The page of the root; `NO_PAGE` while the tree is empty.
    pub closed spec fn root(&self) -> PageId {
        self.root
    }

    /// The capacity of the tree's nodes, in slots.
    pub closed spec fn max(&self) -> u32 {
        self.max
    }

    /// An empty tree whose nodes hold up to `max` slots.
    pub fn new(max: u32) -> (tree: Self)
        ensures
            tree.root() == NO_PAGE,
            tree.max() == max,
    {
        BTree { root: NO_PAGE, max, _data: PhantomData }
    }

    /// The tree rooted at page `root`, whose nodes hold up to `max` slots.
    pub fn open(root: PageId, max: u32) -> (tree: Self)
        ensures
            tree.root() == root,
            tree.max() == max,
    {
        BTree { root, max, _data: PhantomData }
    }

    /// The page of the root; `NO_PAGE` while the tree is empty.
    pub fn root_page(&self) -> (id: PageId)
        ensures
            id == self.root(),
    {
        self.root
    }

    /// Reads the node on page `id`.
    fn read_node(pc: &mut PageCache, id: PageId) -> (r: Option<Node<K, V>>)
        requires
            old(pc).wf(),
            old(pc).available(),
        ensures
            final(pc).steady(old(pc)),
            final(pc).store() == old(pc).store(),
            match r {
                Some(node) => old(pc).store().has(id) && NodeView::<K, V>::decode(
                    old(pc).pages()[id as int],
                ) == Some(node@) && node.wf() && node@.fits(),
                None => !old(pc).store().has(id) || NodeView::<K, V>::decode(
                    old(pc).pages()[id as int],
                ).is_none(),
            },
    {
        match pc.read_page(id) {
            Ok(buf) => Node::<K, V>::from(&buf),
            Err(_) => None,
        }
    }

    /// Writes `node` to page `id`.
    fn write_node(pc: &mut PageCache, id: PageId, node: &Node<K, V>)
        requires
            old(pc).wf(),
            old(pc).available(),
            old(pc).store().has(id),
            node@.fits(),
        ensures
            final(pc).steady(old(pc)),
            final(pc).store() == old(pc).store().written(id, node@.encode()),
    {
        let buf = node.to_page();
        let written = pc.write_page(id, buf.as_slice());
        assert(written is Ok);
    }

    /// Splits `node` if it needs to be split, and tells the half that `key`
    /// belongs to from the other.
    fn part(pc: &mut PageCache, node: Node<K, V>, key: &K) -> (r: Result<
        (Node<K, V>, Option<Node<K, V>>, bool),
        BTreeError,
    >)
        requires
            old(pc).wf(),
            old(pc).available(),
            node.wf(),
        ensures
            final(pc).steady(old(pc)),
            match r {
                Err(e) => e == BTreeError::OutOfMemory && needs_split(node@) && old(
                    pc,
                ).store().full() && final(pc).store() == old(pc).store(),
                Ok((cur, other, go_hi)) => {
                    let parts = parted(node@, old(pc).next_id() as PageId, *key);
                    &&& !(needs_split(node@) && old(pc).store().full())
                    &&& final(pc).store() == (if needs_split(node@) {
                        old(pc).store().allocated()
                    } else {
                        old(pc).store()
                    })
                    &&& cur@ == parts.cur
                    &&& go_hi == parts.go_hi
                    &&& match other {
                        Some(o) => parts.other == Some(o@) && o.wf() && needs_split(node@),
                        None => parts.other.is_none() && !needs_split(node@),
                    }
                    &&& cur.wf()
                },
            },
    {
        let mut node = node;
        if node.almost_full() && node.len() >= 2 {
            let page = match pc.create_page() {
                Ok(page) => page,
                Err(_) => {
                    return Err(BTreeError::OutOfMemory);
                },
            };
            let internal = node.t == NodeType::Internal;
            let next = node.next;
            let ghost whole = node@;
            let mut hi = node.split(page);
            if internal {
                hi.next = next;
                node.next = NO_PAGE;
            }
            assert(node@ == lower_half(whole, page));
            assert(hi@ == upper_half(whole, page));
            let up = if internal {
                !key.less(&node.values[node.values.len() - 1].0)
            } else {
                !key.less(&hi.values[0].0)
            };
            if up {
                Ok((hi, Some(node), true))
            } else {
                Ok((node, Some(hi), false))
            }
        } else {
            Ok((node, None, false))
        }
    }

    /// Ends one level of an insertion: see `finished`.
    fn finish(
        pc: &mut PageCache,
        id: PageId,
        cur: Node<K, V>,
        other: Option<Node<K, V>>,
        go_hi: bool,
    ) -> (r: Result<Option<(Slot<K, V>, PageId)>, BTreeError>)
        requires
            old(pc).wf(),
            old(pc).available(),
            old(pc).store().has(id),
            match other {
                Some(o) => old(pc).store().has(if go_hi {
                    cur.id
                } else {
                    o.id
                }) && Node::<K, V>::has_separator(
                    if go_hi {
                        o@
                    } else {
                        cur@
                    },
                ),
                None => true,
            },
        ensures
            final(pc).steady(old(pc)),
            (Descent { store: final(pc).store(), outcome: r }) == finished(
                old(pc).store(),
                id,
                cur@,
                match other {
                    Some(o) => Some(o@),
                    None => None,
                },
                go_hi,
            ),
    {
        match other {
            None => {
                if !cur.fits_page() {
                    return Err(BTreeError::Corrupt);
                }
                Self::write_node(pc, id, &cur);
                Ok(None)
            },
            Some(o) => {
                let (lo, hi) = if go_hi {
                    (o, cur)
                } else {
                    (cur, o)
                };
                if !lo.fits_page() || !hi.fits_page() {
                    return Err(BTreeError::Corrupt);
                }
                Self::write_node(pc, id, &lo);
                proof {
                    pc.lemma_pages();
                }
                Self::write_node(pc, hi.id, &hi);
                Ok(Some((lo.get_separator(), hi.id)))
            },
        }
    }

    /// One level of an insertion: see `insert_at`.
    fn insert_at(pc: &mut PageCache, id: PageId, key: K, value: V, fuel: u32) -> (r: Result<
        Option<(Slot<K, V>, PageId)>,
        BTreeError,
    >)
        requires
            old(pc).wf(),
            old(pc).available(),
        ensures
            final(pc).steady(old(pc)),
            (Descent { store: final(pc).store(), outcome: r }) == insert_at::<K, V>(
                old(pc).store(),
                id,
                key,
                value,
                fuel as nat,
            ),
        decreases fuel,
    {
        proof {
            pc.lemma_pages();
        }
        if fuel == 0 {
            return Err(BTreeError::Corrupt);
        }
        let node = match Self::read_node(pc, id) {
            Some(node) => node,
            None => {
                return Err(BTreeError::Corrupt);
            },
        };
        let ghost whole = node@;
        let ghost new_id = pc.next_id() as PageId;
        let (mut cur, other, go_hi) = match Self::part(pc, node, &key) {
            Ok(parts) => parts,
            Err(e) => {
                return Err(e);
            },
        };
        proof {
            pc.lemma_pages();
        }
        let ghost cur0 = cur@;
        let ghost mut up: Option<(Slot<K, V>, PageId)> = None;
        let ghost mut hop: int = 0;
        if cur.t == NodeType::Leaf {
            cur.replace(Slot(key, Either::Value(value)));
        } else {
            let (at, child) = match cur.route(&key) {
                Some(found) => found,
                None => {
                    return Err(BTreeError::Corrupt);
                },
            };
            match Self::insert_at(pc, child, key, value, fuel - 1) {
                Err(e) => {
                    return Err(e);
                },
                Ok(None) => {},
                Ok(Some((sep, page))) => {
                    cur.redirect(at, page);
                    cur.replace(sep);
                    proof {
                        up = Some((sep, page));
                    }
                },
            }
            proof {
                hop = at as int;
                assert(cur@ == taken_in(cur0, hop, up));
            }
        }
        proof {
            pc.lemma_pages();
            if other is Some {
                Self::lemma_lower_last(whole, cur0, cur@, key, value, go_hi, new_id);
            }
        }
        Self::finish(pc, id, cur, other, go_hi)
    }

    /// Inserts `value` under `key`, in place of the value stored under it if
    /// there is one. Without a frame to bring pages in, nothing is done;
    /// otherwise the pages are left as `spec_insert` says, also where it ends
    /// in an error on the way.
    pub fn insert(&mut self, pc: &mut PageCache, key: K, value: V) -> (r: Result<(), BTreeError>)
        requires
            old(pc).wf(),
        ensures
            final(pc).steady(old(pc)),
            final(self).max() == old(self).max(),
            !old(pc).available() ==> r == Err::<(), BTreeError>(BTreeError::OutOfMemory)
                && final(pc).store() == old(pc).store()
                && final(self).root() == old(self).root(),
            old(pc).available() ==> (Inserted {
                store: final(pc).store(),
                root: final(self).root(),
                outcome: r,
            }) == spec_insert::<K, V>(
                old(pc).store(),
                old(self).root(),
                old(self).max(),
                key,
                value,
            ),
    {
        if !pc.has_available() {
            return Err(BTreeError::OutOfMemory);
        }
        proof {
            pc.lemma_pages();
        }
        if self.root == NO_PAGE {
            let id = match pc.create_page() {
                Ok(id) => id,
                Err(_) => {
                    return Err(BTreeError::OutOfMemory);
                },
            };
            let node = Node::<K, V>::new(id, self.max, NodeType::Leaf, true);
            proof {
                pc.lemma_pages();
                assert(node@ == first_root::<K, V>(id, self.max));
                assert(node@.slots.len() * crate::btree::slot::slot_size::<K, V>() == 0)
                    by (nonlinear_arith)
                    requires
                        node@.slots.len() == 0,
                ;
            }
            Self::write_node(pc, id, &node);
            self.root = id;
        }
        match Self::insert_at(pc, self.root, key, value, INSERT_DEPTH) {
            Err(e) => Err(e),
            Ok(None) => Ok(()),
            Ok(Some((sep, page))) => {
                proof {
                    pc.lemma_pages();
                }
                let ghost rid = pc.next_id() as PageId;
                let mut top = Node::<K, V>::new(0, self.max, NodeType::Internal, true);
                top.values.push(sep);
                top.next = page;
                if pc.next_page_id() as usize >= pc.capacity() {
                    return Err(BTreeError::OutOfMemory);
                }
                top.id = pc.next_page_id();
                assert(top.values@ =~= seq![sep]);
                assert(top@ == grown_root::<K, V>(rid, self.max, sep, page));
                if !top.fits_page() {
                    return Err(BTreeError::Corrupt);
                }
                let id = match pc.create_page() {
                    Ok(id) => id,
                    Err(_) => {
                        return Err(BTreeError::OutOfMemory);
                    },
                };
                proof {
                    pc.lemma_pages();
                }
                Self::write_node(pc, id, &top);
                self.root = id;
                Ok(())
            },
        }
    }

    /// The page on which a descent for `key` goes on from `node`: none at a
    /// leaf; at an internal node the child that the key is routed to, which a
    /// node of a well-formed tree has for every key.
    pub fn find_child(node: &Node<K, V>, key: &K) -> (r: Result<Option<PageId>, BTreeError>)
        ensures
            r == (if node.t == NodeType::Leaf {
                Ok::<Option<PageId>, BTreeError>(None)
            } else {
                match node@.route(*key) {
                    Some((_, child)) => Ok(Some(child)),
                    None => Err(BTreeError::Corrupt),
                }
            }),
    {
        if node.t == NodeType::Leaf {
            return Ok(None);
        }
        match node.route(key) {
            Some((_, child)) => Ok(Some(child)),
            None => Err(BTreeError::Corrupt),
        }
    }

    /// One level of a search: see `search_at`.
    fn search_at(pc: &mut PageCache, id: PageId, key: K, fuel: u32) -> (r: Result<
        Option<V>,
        BTreeError,
    >)
        requires
            old(pc).wf(),
            old(pc).available(),
        ensures
            final(pc).steady(old(pc)),
            final(pc).store() == old(pc).store(),
            r == search_at::<K, V>(old(pc).store(), id, key, fuel as nat),
        decreases fuel,
    {
        if fuel == 0 {
            return Err(BTreeError::Corrupt);
        }
        let node = match Self::read_node(pc, id) {
            Some(node) => node,
            None => {
                return Err(BTreeError::Corrupt);
            },
        };
        match Self::find_child(&node, &key) {
            Err(e) => Err(e),
            Ok(Some(child)) => Self::search_at(pc, child, key, fuel - 1),
            Ok(None) => match node.get(&key) {
                Some(slot) => match slot.1 {
                    Either::Value(v) => Ok(Some(v)),
                    Either::Pointer(_) => Err(BTreeError::Corrupt),
                },
                None => Ok(None),
            },
        }
    }

    /// The value stored under `key`, if there is one. The pages stay as they
    /// are. A tree that is not empty needs a frame to bring pages in.
    pub fn get(&self, pc: &mut PageCache, key: K) -> (r: Result<Option<V>, BTreeError>)
        requires
            old(pc).wf(),
        ensures
            final(pc).steady(old(pc)),
            final(pc).store() == old(pc).store(),
            r == (if self.root() != NO_PAGE && !old(pc).available() {
                Err(BTreeError::OutOfMemory)
            } else {
                spec_get::<K, V>(old(pc).store(), self.root(), key)
            }),
    {
        if self.root == NO_PAGE {
            return Ok(None);
        }
        if !pc.has_available() {
            return Err(BTreeError::OutOfMemory);
        }
        Self::search_at(pc, self.root, key, MAX_DEPTH)
    }

    /// The first leaf below page `id`: see `first_leaf_at`.
    fn first_leaf_at(pc: &mut PageCache, id: PageId, fuel: u32) -> (r: Result<PageId, BTreeError>)
        requires
            old(pc).wf(),
            old(pc).available(),
        ensures
            final(pc).steady(old(pc)),
            final(pc).store() == old(pc).store(),
            r == first_leaf_at::<K, V>(old(pc).store(), id, fuel as nat),
        decreases fuel,
    {
        if fuel == 0 {
            return Err(BTreeError::Corrupt);
        }
        let node = match Self::read_node(pc, id) {
            Some(node) => node,
            None => {
                return Err(BTreeError::Corrupt);
            },
        };
        if node.t == NodeType::Leaf {
            Ok(id)
        } else if node.values.len() > 0 {
            match node.values[0].1 {
                Either::Pointer(child) => Self::first_leaf_at(pc, child, fuel - 1),
                Either::Value(_) => Err(BTreeError::Corrupt),
            }
        } else if node.next != NO_PAGE {
            Self::first_leaf_at(pc, node.next, fuel - 1)
        } else {
            Err(BTreeError::Corrupt)
        }
    }

    /// The slots of the tree in the order of its leaves: from the first leaf
    /// on, every leaf that the next pointers lead to. The pages stay as they
    /// are. A tree that is not empty needs a frame to bring pages in.
    pub fn scan(&self, pc: &mut PageCache) -> (r: Result<Vec<Slot<K, V>>, BTreeError>)
        requires
            old(pc).wf(),
        ensures
            final(pc).steady(old(pc)),
            final(pc).store() == old(pc).store(),
            match r {
                Ok(slots) => (self.root() == NO_PAGE || old(pc).available()) && spec_scan::<K, V>(
                    old(pc).store(),
                    self.root(),
                ) == Ok::<Seq<Slot<K, V>>, BTreeError>(slots@),
                Err(e) => self.root() != NO_PAGE && (if old(pc).available() {
                    spec_scan::<K, V>(old(pc).store(), self.root()) == Err::<
                        Seq<Slot<K, V>>,
                        BTreeError,
                    >(e)
                } else {
                    e == BTreeError::OutOfMemory
                }),
            },
    {
        let mut out: Vec<Slot<K, V>> = Vec::new();
        if self.root == NO_PAGE {
            return Ok(out);
        }
        if !pc.has_available() {
            return Err(BTreeError::OutOfMemory);
        }
        let mut id = match Self::first_leaf_at(pc, self.root, MAX_DEPTH) {
            Ok(id) => id,
            Err(e) => {
                return Err(e);
            },
        };
        let mut fuel = pc.capacity();
        let ghost s = pc.store();
        let ghost want = spec_scan::<K, V>(s, self.root);
        while id != NO_PAGE
            invariant
                pc.steady(old(pc)),
                pc.available(),
                pc.store() == s,
                s == old(pc).store(),
                want == spec_scan::<K, V>(s, self.root),
                want == chain_at::<K, V>(s, id, out@, fuel as nat),
            decreases fuel,
        {
            if fuel == 0 {
                return Err(BTreeError::Corrupt);
            }
            let node = match Self::read_node(pc, id) {
                Some(node) => node,
                None => {
                    return Err(BTreeError::Corrupt);
                },
            };
            if node.t != NodeType::Leaf {
                return Err(BTreeError::Corrupt);
            }
            let ghost before = out@;
            let mut i: usize = 0;
            while i < node.values.len()
                invariant
                    i <= node.values@.len(),
                    out@ == before + node.values@.subrange(0, i as int),
                decreases node.values@.len() - i,
            {
                out.push(node.values[i]);
                assert(out@ =~= before + node.values@.subrange(0, i + 1));
                i = i + 1;
            }
            assert(node.values@.subrange(0, node.values@.len() as int) =~= node.values@);
            id = node.next;
            fuel = fuel - 1;
        }
        Ok(out)
    }

    /// After a split, the lower half has a separator, also once the insertion
    /// has gone on in it: it has a slot, and the last key of a leaf lies below
    /// the first key of the upper half.
    proof fn lemma_lower_last(
        whole: NodeView<K, V>,
        cur0: NodeView<K, V>,
        cur: NodeView<K, V>,
        key: K,
        value: V,
        go_hi: bool,
        new_id: PageId,
    )
        requires
            sorted(whole.slots),
            needs_split(whole),
            parted(whole, new_id, key).cur == cur0,
            parted(whole, new_id, key).go_hi == go_hi,
            cur.t == cur0.t,
            cur.slots.len() >= cur0.slots.len(),
            cur0.t == NodeType::Leaf ==> cur == cur0.stored(Slot(key, Either::Value(value))),
        ensures
            Node::<K, V>::has_separator(
                if go_hi {
                    parted(whole, new_id, key).other->0
                } else {
                    cur
                },
            ),
    {
        let mid = whole.slots.len() as int / 2;
        let first = whole.slots[mid];
        let lo = lower_half(whole, new_id);
        let lower = if go_hi {
            lo
        } else {
            cur
        };
        assert(upper_half(whole, new_id).slots[0] == first);
        assert(lo.slots.len() > 0);
        if whole.t == NodeType::Leaf {
            assert forall|i: int| 0 <= i < lo.slots.len() implies (#[trigger] lo.slots[i]).0.rank()
                < first.0.rank() by {
                assert(lo.slots[i] == whole.slots[i]);
            }
            let last = lower.slots.last();
            if go_hi {
                assert(last.0.rank() < first.0.rank());
            } else {
                let slot = Slot(key, Either::<V>::Value(value));
                assert(sorted(lo.slots));
                crate::btree::node::lemma_with_slot(lo.slots, slot);
                assert(lower.slots[lower.slots.len() - 1] == last);
                assert(lower.slots.contains(last));
                if last.0 != key {
                    assert(lo.slots.contains(last));
                    let i = choose|i: int| 0 <= i < lo.slots.len() && lo.slots[i] == last;
                    assert(lo.slots[i].0.rank() < first.0.rank());
                }
                assert(last.0.rank() < first.0.rank());
            }
            last.0.lemma_rank(first.0);
        }
    }
}

} // verus!
