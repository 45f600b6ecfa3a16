//! B+-tree nodes and their page layout.
//!
//! A node occupies one page: an 18-byte header (type, root flag, slot count,
//! capacity, next pointer, own page id, all big-endian) followed by the slots
//! at a fixed stride, in key order.

use vstd::prelude::*;
use vstd::slice::slice_subrange;
use crate::btree::slot::{slot_size, Either, Slot};
use crate::buffer::as_slice;
use crate::codec::{
    i32_be, i32_from_be, lemma_i32_round_trip, lemma_record_offsets, lemma_u32_round_trip,
    overwrite, read_i32, read_u32, u32_be, u32_from_be, write_bytes, write_i32, write_u32,
};
use crate::page::{new_page_buf, zero_page, PageBuf, PageId, NO_PAGE, PAGE_SIZE};
use crate::storable::{Increment, Storable};

verus! {

/// Whether a node routes to children or stores values.
#[derive(PartialEq, Eq, Structural, Clone, Copy, Debug)]
pub enum NodeType {
    Internal,
    Leaf,
}

impl NodeType {
    /// The byte that stands for this type on a page.
    pub open spec fn spec_tag(self) -> u8 {
        match self {
            NodeType::Internal => 1,
            NodeType::Leaf => 2,
        }
    }

    /// The type that the byte `value` stands for.
    pub fn from(value: u8) -> (t: NodeType)
        requires
            value == 1 || value == 2,
        ensures
            t.spec_tag() == value,
    {
        if value == 1 {
            NodeType::Internal
        } else {
            NodeType::Leaf
        }
    }

    /// The byte that stands for this type on a page.
    pub fn tag(self) -> (b: u8)
        ensures
            b == self.spec_tag(),
    {
        match self {
            NodeType::Internal => 1,
            NodeType::Leaf => 2,
        }
    }
}

/// Offset of the first slot in a node's page.
pub const NODE_VALUES_START: usize = 18;

/// A node of the tree, as held in memory.
#[derive(PartialEq, Clone, Debug)]
pub struct Node<K, V> {
    pub t: NodeType,
    pub is_root: bool,
    pub max: u32,
    pub next: PageId,
    pub id: PageId,
    pub values: Vec<Slot<K, V>>,
}

/// The mathematical content of a node.
pub struct NodeView<K, V> {
    pub t: NodeType,
    pub is_root: bool,
    pub max: u32,
    pub next: PageId,
    pub id: PageId,
    pub slots: Seq<Slot<K, V>>,
}

/// Whether the keys of `s` are strictly increasing.
pub open spec fn sorted<K: Increment, V>(s: Seq<Slot<K, V>>) -> bool {
    forall|i: int, j: int|
        0 <= i < j < s.len() ==> (#[trigger] s[i]).0.rank() < (#[trigger] s[j]).0.rank()
}

/// Index of the first slot of `s`, from `i` on, whose key is strictly greater
/// than `key`; the length of `s` if there is none.
pub open spec fn first_greater_from<K: Increment, V>(s: Seq<Slot<K, V>>, key: K, i: int) -> int
    decreases s.len() - i,
{
    if i < 0 || i >= s.len() || key.rank() < s[i].0.rank() {
        i
    } else {
        first_greater_from(s, key, i + 1)
    }
}

/// Index of the first slot of `s` whose key is strictly greater than `key`.
pub open spec fn first_greater<K: Increment, V>(s: Seq<Slot<K, V>>, key: K) -> int {
    first_greater_from(s, key, 0)
}

/// Index of the first slot of `s`, from `i` on, whose key is not less than
/// `key`; the length of `s` if there is none.
pub open spec fn lower_bound_from<K: Increment, V>(s: Seq<Slot<K, V>>, key: K, i: int) -> int
    decreases s.len() - i,
{
    if i < 0 || i >= s.len() || key.rank() <= s[i].0.rank() {
        i
    } else {
        lower_bound_from(s, key, i + 1)
    }
}

/// Index of the first slot of `s` whose key is not less than `key`.
pub open spec fn lower_bound<K: Increment, V>(s: Seq<Slot<K, V>>, key: K) -> int {
    lower_bound_from(s, key, 0)
}

/// Whether `s` holds a slot under `key`.
pub open spec fn has_key<K: Increment, V>(s: Seq<Slot<K, V>>, key: K) -> bool {
    lower_bound(s, key) < s.len() && s[lower_bound(s, key)].0 == key
}

/// `s` with `slot` stored under its key: in place of the slot already there,
/// or else at the position that keeps the keys in order.
pub open spec fn with_slot<K: Increment, V>(s: Seq<Slot<K, V>>, slot: Slot<K, V>) -> Seq<
    Slot<K, V>,
> {
    if has_key(s, slot.0) {
        s.update(lower_bound(s, slot.0), slot)
    } else {
        s.insert(lower_bound(s, slot.0), slot)
    }
}

/// What the scan for the first greater key finds.
pub proof fn lemma_first_greater<K: Increment, V>(s: Seq<Slot<K, V>>, key: K, i: int)
    requires
        0 <= i <= s.len(),
    ensures
        i <= first_greater_from(s, key, i) <= s.len(),
        forall|j: int|
            i <= j < first_greater_from(s, key, i) ==> (#[trigger] s[j]).0.rank() <= key.rank(),
        first_greater_from(s, key, i) < s.len() ==> key.rank() < s[first_greater_from(
            s,
            key,
            i,
        )].0.rank(),
    decreases s.len() - i,
{
    if i < s.len() && !(key.rank() < s[i].0.rank()) {
        lemma_first_greater(s, key, i + 1);
    }
}

/// What the scan for the lower bound finds.
pub proof fn lemma_lower_bound<K: Increment, V>(s: Seq<Slot<K, V>>, key: K, i: int)
    requires
        0 <= i <= s.len(),
    ensures
        i <= lower_bound_from(s, key, i) <= s.len(),
        forall|j: int|
            i <= j < lower_bound_from(s, key, i) ==> (#[trigger] s[j]).0.rank() < key.rank(),
        lower_bound_from(s, key, i) < s.len() ==> key.rank() <= s[lower_bound_from(
            s,
            key,
            i,
        )].0.rank(),
    decreases s.len() - i,
{
    if i < s.len() && !(key.rank() <= s[i].0.rank()) {
        lemma_lower_bound(s, key, i + 1);
    }
}

/// Storing a slot keeps the keys in order, makes its key present, and leaves
/// every other key as it was.
pub proof fn lemma_with_slot<K: Increment, V>(s: Seq<Slot<K, V>>, slot: Slot<K, V>)
    requires
        sorted(s),
    ensures
        sorted(with_slot(s, slot)),
        with_slot(s, slot).len() == (if has_key(s, slot.0) {
            s.len()
        } else {
            s.len() + 1
        }),
        with_slot(s, slot).contains(slot),
        forall|x: Slot<K, V>| x.0 != slot.0 ==> (s.contains(x) <==> with_slot(s, slot).contains(x)),
        forall|x: Slot<K, V>| with_slot(s, slot).contains(x) && x.0 == slot.0 ==> x == slot,
{
    let i = lower_bound(s, slot.0);
    let r = with_slot(s, slot);
    lemma_lower_bound(s, slot.0, 0);
    assert forall|a: int| 0 <= a < s.len() && s[a].0.rank() == slot.0.rank() implies s[a].0
        == slot.0 by {
        s[a].0.lemma_rank(slot.0);
    }
    if has_key(s, slot.0) {
        assert(r[i] == slot);
        assert forall|x: Slot<K, V>| x.0 != slot.0 implies (s.contains(x) <==> r.contains(x)) by {
            if s.contains(x) {
                let a = choose|a: int| 0 <= a < s.len() && s[a] == x;
                assert(r[a] == x);
            }
            if r.contains(x) {
                let a = choose|a: int| 0 <= a < r.len() && r[a] == x;
                assert(s[a] == x);
            }
        }
        assert forall|x: Slot<K, V>| r.contains(x) && x.0 == slot.0 implies x == slot by {
            let a = choose|a: int| 0 <= a < r.len() && r[a] == x;
            if a != i {
                assert(s[a].0.rank() == s[i].0.rank());
                assert(false);
            }
        }
    } else {
        assert(r[i] == slot);
        assert(i < s.len() ==> slot.0.rank() < s[i].0.rank()) by {
            if i < s.len() {
                slot.0.lemma_rank(s[i].0);
            }
        }
        assert forall|a: int, b: int| 0 <= a < b < r.len() implies (#[trigger] r[a]).0.rank() < (
        #[trigger] r[b]).0.rank() by {
            let sa = if a < i { a } else { a - 1 };
            let sb = if b < i { b } else { b - 1 };
            if a != i && b != i {
                assert(r[a] == s[sa]);
                assert(r[b] == s[sb]);
            } else if a == i {
                assert(r[b] == s[sb]);
                if sb > i {
                    assert(s[i].0.rank() < s[sb].0.rank());
                }
            } else {
                assert(r[a] == s[sa]);
            }
        }
        assert forall|x: Slot<K, V>| x.0 != slot.0 implies (s.contains(x) <==> r.contains(x)) by {
            if s.contains(x) {
                let a = choose|a: int| 0 <= a < s.len() && s[a] == x;
                let ra = if a < i { a } else { a + 1 };
                assert(r[ra] == x);
            }
            if r.contains(x) {
                let a = choose|a: int| 0 <= a < r.len() && r[a] == x;
                let sa = if a < i { a } else { a - 1 };
                assert(s[sa] == x);
            }
        }
        assert forall|x: Slot<K, V>| r.contains(x) && x.0 == slot.0 implies x == slot by {
            let a = choose|a: int| 0 <= a < r.len() && r[a] == x;
            if a != i {
                let sa = if a < i { a } else { a - 1 };
                assert(s[sa] == x);
                assert(s[sa].0.rank() == slot.0.rank());
                if sa < i {
                    assert(s[sa].0.rank() < slot.0.rank());
                } else {
                    assert(s[i].0.rank() <= s[sa].0.rank());
                }
                assert(false);
            }
        }
    }
}

impl<K: Increment, V: Storable> NodeView<K, V> {
    /// Whether the slots fit in a page behind the header.
    pub open spec fn fits(self) -> bool {
        NODE_VALUES_START + self.slots.len() * slot_size::<K, V>() <= PAGE_SIZE
    }

    /// The 18 header bytes.
    pub open spec fn header_bytes(self) -> Seq<u8> {
        seq![self.t.spec_tag(), if self.is_root { 1u8 } else { 0u8 }] + u32_be(
            self.slots.len() as u32,
        ) + u32_be(self.max) + i32_be(self.next) + i32_be(self.id)
    }

    /// A zeroed page with the header and the first `n` slots written to it.
    pub closed spec fn encode_upto(self, n: nat) -> Seq<u8>
        decreases n,
    {
        if n == 0 {
            overwrite(zero_page(), 0, self.header_bytes())
        } else {
            overwrite(
                self.encode_upto((n - 1) as nat),
                NODE_VALUES_START + (n - 1) * slot_size::<K, V>(),
                self.slots[n - 1].spec_bytes(),
            )
        }
    }

    /// The page that holds this node.
    pub closed spec fn encode(self) -> Seq<u8> {
        self.encode_upto(self.slots.len())
    }

    /// What the bytes of slot `i` in `bytes` decode to.
    pub open spec fn raw_slot(bytes: Seq<u8>, i: int) -> Option<Slot<K, V>> {
        Slot::<K, V>::spec_from_bytes(
            bytes.subrange(
                NODE_VALUES_START + i * slot_size::<K, V>(),
                NODE_VALUES_START + i * slot_size::<K, V>() + slot_size::<K, V>(),
            ),
        )
    }

    /// The slot count that the header of `bytes` declares.
    pub open spec fn raw_len(bytes: Seq<u8>) -> nat {
        u32_from_be(bytes.subrange(2, 6)) as nat
    }

    /// The slots that `bytes` holds, each decoded on its own.
    pub open spec fn raw_slots(bytes: Seq<u8>) -> Seq<Slot<K, V>> {
        Seq::new(Self::raw_len(bytes), |i: int| Self::raw_slot(bytes, i).unwrap())
    }

    /// Whether `bytes` is a page that holds a node: a known type, a slot count
    /// that fits, known slot tags, and keys in strictly increasing order.
    pub open spec fn valid_page(bytes: Seq<u8>) -> bool {
        &&& bytes.len() == PAGE_SIZE
        &&& (bytes[0] == 1 || bytes[0] == 2)
        &&& NODE_VALUES_START + Self::raw_len(bytes) * slot_size::<K, V>() <= PAGE_SIZE
        &&& forall|i: int| 0 <= i < Self::raw_len(bytes) ==> Self::raw_slot(bytes, i).is_some()
        &&& sorted(Self::raw_slots(bytes))
    }

    /// The node that a page holds, if it holds one.
    pub closed spec fn decode(bytes: Seq<u8>) -> Option<NodeView<K, V>> {
        Self::decoded(bytes)
    }

    /// What `decode` gives, byte by byte: the type from byte 0, the root mark
    /// from byte 1, then the slot count, the capacity, the next page and the
    /// page's own id, big-endian, and the slots from byte 18 on.
    pub open spec fn decoded(bytes: Seq<u8>) -> Option<NodeView<K, V>> {
        if Self::valid_page(bytes) {
            Some(
                NodeView {
                    t: if bytes[0] == 1 {
                        NodeType::Internal
                    } else {
                        NodeType::Leaf
                    },
                    is_root: bytes[1] > 0,
                    max: u32_from_be(bytes.subrange(6, 10)),
                    next: i32_from_be(bytes.subrange(10, 14)),
                    id: i32_from_be(bytes.subrange(14, 18)),
                    slots: Self::raw_slots(bytes),
                },
            )
        } else {
            None
        }
    }

    /// The separator that stands for the node in its parent: a pointer to the
    /// node, under the successor of its last key for a leaf, under its last key
    /// otherwise.
    pub open spec fn separator(self) -> Slot<K, V> {
        Slot(
            if self.t == NodeType::Leaf {
                self.slots.last().0.spec_next()
            } else {
                self.slots.last().0
            },
            Either::Pointer(self.id),
        )
    }

    /// Where a descent for `key` goes on from this node: the index and the
    /// pointer of the first slot whose key is strictly greater, or else the
    /// slot count and the next pointer. `None` where that slot holds no
    /// pointer, or the next pointer is needed and there is none.
    pub open spec fn route(self, key: K) -> Option<(int, PageId)> {
        let i = first_greater(self.slots, key);
        if i < self.slots.len() {
            match self.slots[i].1 {
                Either::Pointer(p) => Some((i, p)),
                Either::Value(_) => None,
            }
        } else if self.next == NO_PAGE {
            None
        } else {
            Some((i, self.next))
        }
    }

    /// The node with the pointer that `route` gave at `at` redirected to
    /// `page`.
    pub open spec fn redirected(self, at: int, page: PageId) -> NodeView<K, V> {
        if at < self.slots.len() {
            NodeView {
                slots: self.slots.update(at, Slot(self.slots[at].0, Either::Pointer(page))),
                ..self
            }
        } else {
            NodeView { next: page, ..self }
        }
    }

    /// The node with `slot` stored under its key.
    pub open spec fn stored(self, slot: Slot<K, V>) -> NodeView<K, V> {
        NodeView { slots: with_slot(self.slots, slot), ..self }
    }

    /// Where the header and each written slot lie in a partly encoded page.
    pub proof fn lemma_encode_layout(self, n: nat)
        requires
            n <= self.slots.len(),
            self.fits(),
        ensures
            self.encode_upto(n).len() == PAGE_SIZE,
            self.encode_upto(n).subrange(0, NODE_VALUES_START as int) == self.header_bytes(),
            forall|j: int|
                0 <= j < n ==> #[trigger] self.encode_upto(n).subrange(
                    NODE_VALUES_START + j * slot_size::<K, V>(),
                    NODE_VALUES_START + j * slot_size::<K, V>() + slot_size::<K, V>(),
                ) == self.slots[j].spec_bytes(),
        decreases n,
    {
        let s = slot_size::<K, V>() as int;
        lemma_u32_round_trip(self.slots.len() as u32);
        lemma_u32_round_trip(self.max);
        lemma_i32_round_trip(self.next);
        lemma_i32_round_trip(self.id);
        if n == 0 {
            assert(self.encode_upto(0).subrange(0, NODE_VALUES_START as int)
                =~= self.header_bytes());
        } else {
            let prev = self.encode_upto((n - 1) as nat);
            let cur = self.encode_upto(n);
            self.lemma_encode_layout((n - 1) as nat);
            self.slots[n - 1].lemma_round_trip();
            lemma_record_offsets(n - 1, self.slots.len() as int, s);
            assert(cur.subrange(0, NODE_VALUES_START as int) =~= prev.subrange(
                0,
                NODE_VALUES_START as int,
            ));
            assert forall|j: int| 0 <= j < n implies #[trigger] cur.subrange(
                NODE_VALUES_START + j * s,
                NODE_VALUES_START + j * s + s,
            ) == self.slots[j].spec_bytes() by {
                lemma_record_offsets(j, n as int, s);
                if j < n - 1 {
                    lemma_record_offsets(j, n - 1, s);
                    assert(cur.subrange(NODE_VALUES_START + j * s, NODE_VALUES_START + j * s + s)
                        =~= prev.subrange(
                        NODE_VALUES_START + j * s,
                        NODE_VALUES_START + j * s + s,
                    ));
                } else {
                    assert(cur.subrange(NODE_VALUES_START + j * s, NODE_VALUES_START + j * s + s)
                        =~= self.slots[j].spec_bytes());
                }
            }
        }
    }

    /// What the bytes of a page decode to.
    pub proof fn lemma_decode(bytes: Seq<u8>)
        ensures
            Self::decode(bytes) == Self::decoded(bytes),
    {
    }

    /// Behind the header and the first `n` slots a partly encoded page holds
    /// zeros.
    proof fn lemma_encode_tail(self, n: nat)
        requires
            n <= self.slots.len(),
            self.fits(),
        ensures
            self.encode_upto(n).len() == PAGE_SIZE,
            forall|p: int|
                NODE_VALUES_START + n * slot_size::<K, V>() <= p < PAGE_SIZE
                    ==> #[trigger] self.encode_upto(n)[p] == 0,
        decreases n,
    {
        let s = slot_size::<K, V>() as int;
        self.lemma_encode_layout(n);
        if n > 0 {
            self.lemma_encode_tail((n - 1) as nat);
            self.lemma_encode_layout((n - 1) as nat);
            self.slots[n - 1].lemma_round_trip();
            lemma_record_offsets(n - 1, self.slots.len() as int, s);
            assert((n - 1) * s + s == n * s) by (nonlinear_arith);
        }
    }

    /// **The layout of a page.** The page of a node has the 18 header bytes
    /// first, then the slots one after the other, each `slot_size` bytes
    /// long, and zeros behind them.
    pub proof fn lemma_layout(self)
        requires
            self.fits(),
        ensures
            self.encode().len() == PAGE_SIZE,
            self.encode().subrange(0, NODE_VALUES_START as int) == self.header_bytes(),
            forall|j: int|
                0 <= j < self.slots.len() ==> #[trigger] self.encode().subrange(
                    NODE_VALUES_START + j * slot_size::<K, V>(),
                    NODE_VALUES_START + j * slot_size::<K, V>() + slot_size::<K, V>(),
                ) == self.slots[j].spec_bytes(),
            forall|p: int|
                NODE_VALUES_START + self.slots.len() * slot_size::<K, V>() <= p < PAGE_SIZE
                    ==> #[trigger] self.encode()[p] == 0,
    {
        self.lemma_encode_layout(self.slots.len());
        self.lemma_encode_tail(self.slots.len());
    }

    /// Decoding the page of a node gives the node back.
    pub proof fn lemma_round_trip(self)
        requires
            self.fits(),
            sorted(self.slots),
        ensures
            self.encode().len() == PAGE_SIZE,
            Self::decode(self.encode()) == Some(self),
    {
        let e = self.encode();
        let n = self.slots.len();
        assert(n <= PAGE_SIZE) by (nonlinear_arith)
            requires
                n * slot_size::<K, V>() <= PAGE_SIZE,
                slot_size::<K, V>() >= 1,
        ;
        self.lemma_encode_layout(n);
        let h = self.header_bytes();
        lemma_u32_round_trip(n as u32);
        lemma_u32_round_trip(self.max);
        lemma_i32_round_trip(self.next);
        lemma_i32_round_trip(self.id);
        assert(e.subrange(0, 18) == h);
        assert(e[0] == h[0]);
        assert(e[1] == h[1]);
        assert(e.subrange(2, 6) =~= h.subrange(2, 6));
        assert(h.subrange(2, 6) =~= u32_be(n as u32));
        assert(e.subrange(6, 10) =~= h.subrange(6, 10));
        assert(h.subrange(6, 10) =~= u32_be(self.max));
        assert(e.subrange(10, 14) =~= h.subrange(10, 14));
        assert(h.subrange(10, 14) =~= i32_be(self.next));
        assert(e.subrange(14, 18) =~= h.subrange(14, 18));
        assert(h.subrange(14, 18) =~= i32_be(self.id));
        assert(Self::raw_len(e) == n);
        assert forall|i: int| 0 <= i < n implies Self::raw_slot(e, i) == Some(self.slots[i]) by {
            self.slots[i].lemma_round_trip();
        }
        assert(Self::raw_slots(e) =~= self.slots);
    }
}

impl<K: Increment, V: Storable> Node<K, V> {
    /// The mathematical content of the node.
    pub open spec fn view(&self) -> NodeView<K, V> {
        NodeView {
            t: self.t,
            is_root: self.is_root,
            max: self.max,
            next: self.next,
            id: self.id,
            slots: self.values@,
        }
    }

    /// The node's invariant: its keys are strictly increasing.
    pub open spec fn wf(&self) -> bool {
        sorted(self.values@)
    }

    /// Whether every slot holds a page pointer.
    pub open spec fn routes(&self) -> bool {
        forall|i: int| 0 <= i < self.values@.len() ==> (#[trigger] self.values@[i]).1 is Pointer
    }

    /// Whether a separator can be formed: there is a last key, and for a leaf
    /// it has a successor.
    pub open spec fn has_separator(v: NodeView<K, V>) -> bool {
        v.slots.len() > 0 && (v.t == NodeType::Leaf ==> v.slots.last().0.has_next())
    }

    /// An empty node.
    pub fn new(id: PageId, max: u32, t: NodeType, is_root: bool) -> (node: Self)
        ensures
            node@ == (NodeView::<K, V> { t, is_root, max, next: NO_PAGE, id, slots: Seq::empty() }),
            node.wf(),
    {
        Node { t, is_root, max, next: NO_PAGE, id, values: Vec::new() }
    }

    /// Number of slots.
    pub fn len(&self) -> (n: usize)
        ensures
            n == self@.slots.len(),
    {
        self.values.len()
    }

    /// Reads the node that a page holds; `None` if the page holds none.
    pub fn from(buf: &PageBuf) -> (r: Option<Self>)
        ensures
            match r {
                Some(node) => NodeView::<K, V>::decode(buf@) == Some(node@) && node.wf()
                    && node@.fits(),
                None => NodeView::<K, V>::decode(buf@).is_none(),
            },
    {
        if buf.len() != PAGE_SIZE {
            return None;
        }
        let tag = buf[0];
        if tag != 1 && tag != 2 {
            return None;
        }
        let t = NodeType::from(tag);
        let is_root = buf[1] > 0;
        let len = read_u32(buf.as_slice(), 2) as usize;
        let max = read_u32(buf.as_slice(), 6);
        let next = read_i32(buf.as_slice(), 10);
        let id = read_i32(buf.as_slice(), 14);
        let size = Slot::<K, V>::size();
        if len > (PAGE_SIZE - NODE_VALUES_START) / size {
            proof {
                assert(NODE_VALUES_START + len * size > PAGE_SIZE) by (nonlinear_arith)
                    requires
                        len > (PAGE_SIZE - NODE_VALUES_START) / size as int,
                        size > 0,
                ;
            }
            return None;
        }
        proof {
            assert(NODE_VALUES_START + len * size <= PAGE_SIZE) by (nonlinear_arith)
                requires
                    len <= (PAGE_SIZE - NODE_VALUES_START) / size as int,
                    size > 0,
            ;
        }
        let mut values: Vec<Slot<K, V>> = Vec::new();
        let mut i: usize = 0;
        let mut from: usize = NODE_VALUES_START;
        while i < len
            invariant
                i <= len,
                len == NodeView::<K, V>::raw_len(buf@),
                size == slot_size::<K, V>(),
                buf.len() == PAGE_SIZE,
                NODE_VALUES_START + len * size <= PAGE_SIZE,
                from == NODE_VALUES_START + i * size,
                values@.len() == i,
                forall|j: int|
                    0 <= j < i ==> NodeView::<K, V>::raw_slot(buf@, j) == Some(
                        #[trigger] values@[j],
                    ),
                sorted(values@),
            decreases len - i,
        {
            proof {
                lemma_record_offsets(i as int, len as int, size as int);
            }
            let slot = match Slot::<K, V>::from(slice_subrange(buf.as_slice(), from, from + size)) {
                Some(slot) => slot,
                None => {
                    assert(NodeView::<K, V>::raw_slot(buf@, i as int).is_none());
                    return None;
                },
            };
            if i > 0 {
                let prev = &values[i - 1];
                if !prev.0.less(&slot.0) {
                    proof {
                        let raw = NodeView::<K, V>::raw_slots(buf@);
                        assert(raw[i - 1] == values@[i - 1]);
                        assert(raw[i as int] == slot);
                        assert(!(raw[i - 1].0.rank() < raw[i as int].0.rank()));
                        assert(!sorted(raw));
                    }
                    return None;
                }
            }
            values.push(slot);
            i = i + 1;
            from = from + size;
        }
        proof {
            assert(values@ =~= NodeView::<K, V>::raw_slots(buf@));
            assert forall|j: int| 0 <= j < len implies NodeView::<K, V>::raw_slot(
                buf@,
                j,
            ).is_some() by {
                assert(NodeView::<K, V>::raw_slot(buf@, j) == Some(values@[j]));
            }
            assert(NodeView::<K, V>::valid_page(buf@));
        }
        Some(Node { t, is_root, max, next, id, values })
    }

    /// Lays the node out on a fresh page.
    pub fn to_page(&self) -> (buf: PageBuf)
        requires
            self@.fits(),
        ensures
            buf@ == self@.encode(),
            buf.len() == PAGE_SIZE,
    {
        let mut buf = new_page_buf();
        let size = Slot::<K, V>::size();
        let len = self.values.len();
        proof {
            lemma_u32_round_trip(len as u32);
            lemma_u32_round_trip(self.max);
            lemma_i32_round_trip(self.next);
            lemma_i32_round_trip(self.id);
        }
        buf.set(0, self.t.tag());
        buf.set(
            1,
            if self.is_root {
                1u8
            } else {
                0u8
            },
        );
        write_u32(&mut buf, 2, len as u32);
        write_u32(&mut buf, 6, self.max);
        write_i32(&mut buf, 10, self.next);
        write_i32(&mut buf, 14, self.id);
        assert(buf@ =~= self@.encode_upto(0));
        let mut i: usize = 0;
        let mut from: usize = NODE_VALUES_START;
        while i < len
            invariant
                i <= len,
                len == self.values@.len(),
                size == slot_size::<K, V>(),
                self@.fits(),
                buf.len() == PAGE_SIZE,
                from == NODE_VALUES_START + i * size,
                buf@ == self@.encode_upto(i as nat),
            decreases len - i,
        {
            proof {
                lemma_record_offsets(i as int, len as int, size as int);
                self.values@[i as int].lemma_round_trip();
            }
            let slot = self.values[i].to_bytes();
            write_bytes(&mut buf, from, as_slice(&slot));
            i = i + 1;
            from = from + size;
        }
        buf
    }

    /// Moves the upper half of the slots into a new node on page `id`. A leaf
    /// also hands its successor to the new node and takes the new node as its
    /// own.
    pub fn split(&mut self, id: PageId) -> (new: Node<K, V>)
        requires
            old(self).values@.len() > 0,
        ensures
            final(self).values@ == old(self).values@.take(old(self).values@.len() as int / 2),
            new.values@ == old(self).values@.skip(old(self).values@.len() as int / 2),
            final(self).t == old(self).t,
            final(self).max == old(self).max,
            final(self).id == old(self).id,
            !final(self).is_root,
            new.t == old(self).t,
            new.max == old(self).max,
            new.id == id,
            !new.is_root,
            old(self).t == NodeType::Leaf ==> new.next == old(self).next && final(self).next
                == id,
            old(self).t != NodeType::Leaf ==> new.next == NO_PAGE && final(self).next == old(
                self,
            ).next,
            old(self).wf() ==> final(self).wf() && new.wf(),
    {
        let mid = self.values.len() / 2;
        let rest = self.values.split_off(mid);
        self.is_root = false;
        let mut new = Node { t: self.t, is_root: false, max: self.max, next: NO_PAGE, id, values: rest };
        if self.t == NodeType::Leaf {
            new.next = self.next;
            self.next = new.id;
        }
        new
    }

    /// The separator that stands for this node in its parent.
    pub fn get_separator(&self) -> (s: Slot<K, V>)
        requires
            Self::has_separator(self@),
        ensures
            s == self@.separator(),
    {
        let ls = &self.values[self.values.len() - 1];
        let k = if self.t == NodeType::Leaf {
            ls.0.next()
        } else {
            ls.0
        };
        Slot(k, Either::Pointer(self.id))
    }

    /// The separators of this node and of the node split off from it, if one
    /// was.
    pub fn get_separators(self, other: Option<Node<K, V>>) -> (r: Option<(Slot<K, V>, Slot<K, V>)>)
        requires
            other is Some ==> Self::has_separator(self@) && Self::has_separator(other->0@),
        ensures
            r == (match other {
                Some(o) => Some((self@.separator(), o@.separator())),
                None => None,
            }),
    {
        match other {
            Some(other) => Some((self.get_separator(), other.get_separator())),
            None => None,
        }
    }

    /// Index of the first slot whose key is strictly greater than `key`.
    pub fn upper_index(&self, key: &K) -> (i: usize)
        ensures
            i == first_greater(self.values@, *key),
            i <= self.values@.len(),
    {
        let mut i: usize = 0;
        while i < self.values.len() && !key.less(&self.values[i].0)
            invariant
                i <= self.values@.len(),
                first_greater(self.values@, *key) == first_greater_from(
                    self.values@,
                    *key,
                    i as int,
                ),
            decreases self.values@.len() - i,
        {
            i = i + 1;
        }
        i
    }

    /// Index of the first slot whose key is not less than `key`.
    pub fn lower_index(&self, key: &K) -> (i: usize)
        ensures
            i == lower_bound(self.values@, *key),
            i <= self.values@.len(),
    {
        let mut i: usize = 0;
        while i < self.values.len() && self.values[i].0.less(key)
            invariant
                i <= self.values@.len(),
                lower_bound(self.values@, *key) == lower_bound_from(self.values@, *key, i as int),
            decreases self.values@.len() - i,
        {
            i = i + 1;
        }
        i
    }

    /// The child to descend into for `key`: the pointer of the first slot whose
    /// key is strictly greater, else the next pointer. `None` for a leaf, and
    /// where the next pointer is needed and there is none.
    pub fn find_child(&self, key: K) -> (r: Option<PageId>)
        requires
            self.t == NodeType::Internal && first_greater(self.values@, key) < self.values@.len()
                ==> self.values@[first_greater(self.values@, key)].1 is Pointer,
        ensures
            self.t == NodeType::Leaf ==> r is None,
            self.t == NodeType::Internal ==> r == (if first_greater(self.values@, key)
                < self.values@.len() {
                Some(self.values@[first_greater(self.values@, key)].1->Pointer_0)
            } else if self.next == NO_PAGE {
                None
            } else {
                Some(self.next)
            }),
    {
        if self.t == NodeType::Leaf {
            return None;
        }
        let i = self.upper_index(&key);
        if i < self.values.len() {
            match self.values[i].1 {
                Either::Pointer(ptr) => Some(ptr),
                Either::Value(_) => None,
            }
        } else if self.next == NO_PAGE {
            None
        } else {
            Some(self.next)
        }
    }

    /// The pointer of the first slot, if there is a slot.
    pub fn first_ptr(&self) -> (r: Option<PageId>)
        requires
            self.values@.len() > 0 ==> self.values@[0].1 is Pointer,
        ensures
            self.values@.len() == 0 ==> r is None,
            self.values@.len() > 0 ==> r == Some(self.values@[0].1->Pointer_0),
    {
        if self.values.len() == 0 {
            None
        } else {
            match self.values[0].1 {
                Either::Pointer(ptr) => Some(ptr),
                Either::Value(_) => None,
            }
        }
    }

    /// The greatest key, if there is a slot.
    pub fn last_key(&self) -> (r: Option<K>)
        ensures
            self.values@.len() == 0 ==> r is None,
            self.values@.len() > 0 ==> r == Some(self.values@.last().0),
    {
        if self.values.len() == 0 {
            None
        } else {
            Some(self.values[self.values.len() - 1].0)
        }
    }

    /// The smallest key, if there is a slot.
    pub fn first_key(&self) -> (r: Option<K>)
        ensures
            self.values@.len() == 0 ==> r is None,
            self.values@.len() > 0 ==> r == Some(self.values@[0].0),
    {
        if self.values.len() == 0 {
            None
        } else {
            Some(self.values[0].0)
        }
    }

    /// Whether the node has reached half its capacity, the point at which an
    /// insertion splits it on the way down.
    pub fn almost_full(&self) -> (b: bool)
        ensures
            b == (self.values@.len() >= self.max as int / 2),
    {
        self.values.len() >= self.max as usize / 2
    }

    /// The slot stored under `key`, if there is one.
    pub fn get(&self, key: &K) -> (r: Option<Slot<K, V>>)
        ensures
            r == (if has_key(self.values@, *key) {
                Some(self.values@[lower_bound(self.values@, *key)])
            } else {
                None
            }),
    {
        let i = self.lower_index(key);
        if i < self.values.len() && self.values[i].0.same(key) {
            Some(self.values[i])
        } else {
            None
        }
    }

    /// Adds `slot` unless its key is present already; says whether it was added.
    pub fn insert(&mut self, slot: Slot<K, V>) -> (added: bool)
        requires
            old(self).wf(),
        ensures
            added == !has_key(old(self).values@, slot.0),
            final(self).values@ == (if added {
                with_slot(old(self).values@, slot)
            } else {
                old(self).values@
            }),
            final(self).wf(),
            final(self)@ == (NodeView { slots: final(self).values@, ..old(self)@ }),
    {
        let i = self.lower_index(&slot.0);
        if i < self.values.len() && self.values[i].0.same(&slot.0) {
            false
        } else {
            proof {
                lemma_with_slot(self.values@, slot);
            }
            self.values.insert(i, slot);
            true
        }
    }

    /// Stores `slot` under its key, in place of the slot already there if there
    /// is one, which is returned.
    pub fn replace(&mut self, slot: Slot<K, V>) -> (prev: Option<Slot<K, V>>)
        requires
            old(self).wf(),
        ensures
            final(self).values@ == with_slot(old(self).values@, slot),
            final(self).values@.len() >= old(self).values@.len(),
            prev == (if has_key(old(self).values@, slot.0) {
                Some(old(self).values@[lower_bound(old(self).values@, slot.0)])
            } else {
                None
            }),
            final(self).wf(),
            final(self)@ == (NodeView { slots: final(self).values@, ..old(self)@ }),
    {
        let i = self.lower_index(&slot.0);
        proof {
            lemma_with_slot(self.values@, slot);
        }
        if i < self.values.len() && self.values[i].0.same(&slot.0) {
            let prev = self.values[i];
            self.values.set(i, slot);
            Some(prev)
        } else {
            self.values.insert(i, slot);
            None
        }
    }

    /// Whether the slots fit in a page behind the header.
    pub fn fits_page(&self) -> (b: bool)
        ensures
            b == self@.fits(),
    {
        let size = Slot::<K, V>::size();
        let cap = (PAGE_SIZE - NODE_VALUES_START) / size;
        let len = self.values.len();
        proof {
            if len <= cap {
                assert(NODE_VALUES_START + len * size <= PAGE_SIZE) by (nonlinear_arith)
                    requires
                        len <= (PAGE_SIZE - NODE_VALUES_START) / size as int,
                        size > 0,
                ;
            } else {
                assert(NODE_VALUES_START + len * size > PAGE_SIZE) by (nonlinear_arith)
                    requires
                        len > (PAGE_SIZE - NODE_VALUES_START) / size as int,
                        size > 0,
                ;
            }
        }
        len <= cap
    }

    /// Where a descent for `key` goes on from this node.
    pub fn route(&self, key: &K) -> (r: Option<(usize, PageId)>)
        ensures
            match r {
                Some((at, page)) => self@.route(*key) == Some((at as int, page)) && at
                    <= self.values@.len(),
                None => self@.route(*key).is_none(),
            },
    {
        let i = self.upper_index(key);
        if i < self.values.len() {
            match self.values[i].1 {
                Either::Pointer(p) => Some((i, p)),
                Either::Value(_) => None,
            }
        } else if self.next == NO_PAGE {
            None
        } else {
            Some((i, self.next))
        }
    }

    /// Redirects the pointer that `route` gave at `at` to `page`.
    pub fn redirect(&mut self, at: usize, page: PageId)
        requires
            at <= old(self).values@.len(),
            old(self).wf(),
        ensures
            final(self)@ == old(self)@.redirected(at as int, page),
            final(self).wf(),
    {
        if at < self.values.len() {
            let k = self.values[at].0;
            self.values.set(at, Slot(k, Either::Pointer(page)));
        } else {
            self.next = page;
        }
    }
}

} // verus!
