//! Heap nodes: the pages of the heap list.
//!
//! A page starts with the id of the next page and the number of slots, both
//! big-endian. The slot directory follows and grows upwards; the bytes of the
//! tuples are packed against the end of the page and grow downwards.

use vstd::prelude::*;
use vstd::slice::{slice_subrange, slice_to_vec};
use bytes::BytesMut;
use crate::buffer::{as_slice, contents, from_slice};
use crate::codec::{
    i32_be, i32_from_be, lemma_i32_round_trip, lemma_u32_round_trip, overwrite, read_i32,
    read_u32, u32_be, u32_from_be, write_bytes, write_i32, write_u32,
};
use crate::page::{is_page, zero_page, PageBuf, PageId, PAGE_SIZE};
use crate::table::tuple::{RId, Slot, Tuple, TupleMeta};

verus! {

/// Offset of the slot directory in the page.
pub const SLOTS_START: usize = 8;

/// A heap node as held in memory.
pub struct Node {
    next_page_id: PageId,
    len: u32,
    free_end: u32,
    buf: PageBuf,
}

/// The mathematical content of a heap node: the next page, and the meta data
/// and bytes of every tuple, by slot.
pub struct NodeView {
    pub next_page_id: PageId,
    pub entries: Seq<(TupleMeta, Seq<u8>)>,
}

/// Number of tuple bytes that the first `n` entries take.
pub open spec fn used(entries: Seq<(TupleMeta, Seq<u8>)>, n: nat) -> nat
    decreases n,
{
    if n == 0 {
        0
    } else {
        used(entries, (n - 1) as nat) + entries[n - 1].1.len()
    }
}

/// The slot count that the header of `bytes` declares.
pub open spec fn raw_count(bytes: Seq<u8>) -> nat {
    u32_from_be(bytes.subrange(4, 8)) as nat
}

/// Slot `i` of the directory of `bytes`.
pub open spec fn raw_slot(bytes: Seq<u8>, i: int) -> Slot {
    Slot::spec_from_bytes(bytes.subrange(SLOTS_START + 9 * i, SLOTS_START + 9 * i + 9))
}

/// Where the bytes of tuple `i` end: at the end of the page for the first
/// tuple, where the tuple before starts for the others.
pub open spec fn raw_end(bytes: Seq<u8>, i: int) -> int {
    if i <= 0 {
        PAGE_SIZE as int
    } else {
        raw_slot(bytes, i - 1).offset as int
    }
}

/// Whether `bytes` is a page that holds a heap node: the directory fits, the
/// tuples are packed against the end of the page, and none reaches into the
/// directory.
pub open spec fn valid_page(bytes: Seq<u8>) -> bool {
    &&& is_page(bytes)
    &&& SLOTS_START + 9 * raw_count(bytes) <= PAGE_SIZE
    &&& forall|i: int|
        0 <= i < raw_count(bytes) ==> {
            &&& (#[trigger] raw_slot(bytes, i)).offset + raw_slot(bytes, i).len == raw_end(bytes, i)
            &&& raw_slot(bytes, i).offset >= SLOTS_START + 9 * raw_count(bytes)
        }
}

/// The entries that a valid page holds.
pub open spec fn raw_entries(bytes: Seq<u8>) -> Seq<(TupleMeta, Seq<u8>)> {
    Seq::new(
        raw_count(bytes),
        |i: int|
            (
                raw_slot(bytes, i).meta,
                bytes.subrange(
                    raw_slot(bytes, i).offset as int,
                    raw_slot(bytes, i).offset + raw_slot(bytes, i).len,
                ),
            ),
    )
}

impl NodeView {
    /// The node that a page holds, if it holds one.
    pub open spec fn decode(bytes: Seq<u8>) -> Option<NodeView> {
        if valid_page(bytes) {
            Some(
                NodeView {
                    next_page_id: i32_from_be(bytes.subrange(0, 4)),
                    entries: raw_entries(bytes),
                },
            )
        } else {
            None
        }
    }

    /// Whether the node admits one more tuple of `n` bytes: its slot and its
    /// bytes fit between the directory and the tuples.
    pub open spec fn admits(self, n: nat) -> bool {
        SLOTS_START + 9 * (self.entries.len() + 1) + used(self.entries, self.entries.len()) + n
            <= PAGE_SIZE
    }

    /// The node with one more tuple.
    pub open spec fn inserted(self, meta: TupleMeta, data: Seq<u8>) -> NodeView {
        NodeView { entries: self.entries.push((meta, data)), ..self }
    }
}

/// The page `bytes` with `next` for its next page id.
pub open spec fn with_next(bytes: Seq<u8>, next: PageId) -> Seq<u8> {
    overwrite(bytes, 0, i32_be(next))
}

/// The page `bytes` with one more tuple: its slot record written behind the
/// directory, its bytes in front of the tuples, and the slot count raised.
pub open spec fn appended(bytes: Seq<u8>, meta: TupleMeta, data: Seq<u8>) -> Seq<u8> {
    let count = raw_count(bytes) as int;
    let offset = raw_end(bytes, count) - data.len();
    let slot = Slot { offset: offset as u32, len: data.len() as u32, meta };
    overwrite(
        overwrite(overwrite(bytes, SLOTS_START + 9 * count, slot.spec_bytes()), offset, data),
        4,
        u32_be((count + 1) as u32),
    )
}

/// A zeroed page holds the empty node, with page 0 for its next page.
pub proof fn lemma_zero_page()
    ensures
        NodeView::decode(zero_page()) == Some(
            NodeView { next_page_id: 0, entries: Seq::empty() },
        ),
{
    let z = zero_page();
    assert(z.subrange(4, 8) =~= seq![0u8, 0u8, 0u8, 0u8]);
    assert(z.subrange(0, 4) =~= seq![0u8, 0u8, 0u8, 0u8]);
    assert(raw_entries(z) =~= Seq::empty());
}

/// The tuples of a valid page take the bytes from where the last one starts
/// to the end of the page.
pub proof fn lemma_used(bytes: Seq<u8>, n: nat)
    requires
        valid_page(bytes),
        n <= raw_count(bytes),
    ensures
        used(raw_entries(bytes), n) == PAGE_SIZE - raw_end(bytes, n as int),
    decreases n,
{
    if n > 0 {
        lemma_used(bytes, (n - 1) as nat);
        let s = raw_slot(bytes, n - 1);
        assert(raw_entries(bytes)[n - 1].1.len() == s.len);
    }
}

/// A page has room for 454 slots at most.
pub proof fn lemma_decode_count(bytes: Seq<u8>)
    requires
        NodeView::decode(bytes) is Some,
    ensures
        NodeView::decode(bytes)->0.entries.len() <= 454,
{
}

/// A page that holds a node holds, with another next page id written to it,
/// the node with that next page.
pub proof fn lemma_decode_with_next(bytes: Seq<u8>, next: PageId)
    requires
        NodeView::decode(bytes) is Some,
    ensures
        is_page(with_next(bytes, next)),
        NodeView::decode(with_next(bytes, next)) == Some(
            NodeView { next_page_id: next, ..NodeView::decode(bytes)->0 },
        ),
{
    let after = with_next(bytes, next);
    lemma_i32_round_trip(next);
    Node::lemma_header(bytes, after);
    assert(after.subrange(0, 4) =~= i32_be(next));
}

/// A page that holds a node which admits a tuple holds, with the tuple
/// appended to it, the node with that tuple behind its tuples.
pub proof fn lemma_decode_appended(bytes: Seq<u8>, meta: TupleMeta, data: Seq<u8>)
    requires
        NodeView::decode(bytes) is Some,
        NodeView::decode(bytes)->0.admits(data.len()),
    ensures
        is_page(appended(bytes, meta, data)),
        NodeView::decode(appended(bytes, meta, data)) == Some(
            NodeView::decode(bytes)->0.inserted(meta, data),
        ),
{
    let count = raw_count(bytes) as int;
    lemma_used(bytes, count as nat);
    Node::lemma_page_end(bytes, count);
    let offset = raw_end(bytes, count) - data.len();
    let slot = Slot { offset: offset as u32, len: data.len() as u32, meta };
    let at = SLOTS_START + 9 * count;
    let first = overwrite(bytes, at, slot.spec_bytes());
    let second = overwrite(first, offset, data);
    let after = appended(bytes, meta, data);
    slot.lemma_round_trip();
    lemma_u32_round_trip((count + 1) as u32);
    Node::lemma_three_writes(
        bytes,
        first,
        second,
        after,
        at,
        slot.spec_bytes(),
        offset,
        data,
        u32_be((count + 1) as u32),
    );
    Node::lemma_appended(bytes, after, slot, data);
}

impl Node {
    /// The bytes of the node's page.
    pub closed spec fn page(&self) -> Seq<u8> {
        self.buf@
    }

    /// The mathematical content of the node.
    pub closed spec fn view(&self) -> NodeView {
        NodeView { next_page_id: self.next_page_id, entries: raw_entries(self.buf@) }
    }

    /// The node's invariant: its bytes are a valid page, of which it has the
    /// slot count and the start of the tuples at hand.
    pub closed spec fn wf(&self) -> bool {
        &&& valid_page(self.buf@)
        &&& self.next_page_id == i32_from_be(self.buf@.subrange(0, 4))
        &&& self.len == raw_count(self.buf@)
        &&& self.free_end == raw_end(self.buf@, self.len as int)
    }

    /// The page of a node holds the node.
    pub proof fn lemma_page(&self)
        requires
            self.wf(),
        ensures
            is_page(self.page()),
            NodeView::decode(self.page()) == Some(self@),
    {
    }

    /// Reads the node that a page holds; `None` if the page holds none.
    pub fn from(buf: &PageBuf) -> (r: Option<Node>)
        ensures
            match r {
                Some(node) => NodeView::decode(buf@) == Some(node@) && node.wf() && node.page()
                    == buf@,
                None => NodeView::decode(buf@).is_none(),
            },
    {
        if buf.len() != PAGE_SIZE {
            return None;
        }
        let next_page_id = read_i32(buf.as_slice(), 0);
        let count = read_u32(buf.as_slice(), 4);
        if count as usize > (PAGE_SIZE - SLOTS_START) / 9 {
            return None;
        }
        let dir_end = SLOTS_START + 9 * (count as usize);
        let mut end: u32 = PAGE_SIZE as u32;
        let mut i: usize = 0;
        while i < count as usize
            invariant
                i <= count,
                count == raw_count(buf@),
                buf.len() == PAGE_SIZE,
                dir_end == SLOTS_START + 9 * count,
                dir_end <= PAGE_SIZE,
                end == raw_end(buf@, i as int),
                end <= PAGE_SIZE,
                forall|j: int|
                    0 <= j < i ==> {
                        &&& (#[trigger] raw_slot(buf@, j)).offset + raw_slot(buf@, j).len
                            == raw_end(buf@, j)
                        &&& raw_slot(buf@, j).offset >= dir_end
                    },
            decreases count - i,
        {
            let slot = Slot::from(slice_subrange(buf.as_slice(), SLOTS_START + 9 * i, SLOTS_START + 9 * i + 9));
            assert(slot == raw_slot(buf@, i as int));
            if slot.offset as usize > PAGE_SIZE || slot.len as usize > PAGE_SIZE || slot.offset
                + slot.len != end || (slot.offset as usize) < dir_end {
                return None;
            }
            end = slot.offset;
            i = i + 1;
        }
        Some(Node { next_page_id, len: count, free_end: end, buf: slice_to_vec(buf.as_slice()) })
    }

    /// The page that holds the node.
    pub fn to_page(&self) -> (buf: PageBuf)
        requires
            self.wf(),
        ensures
            buf@ == self.page(),
            is_page(buf@),
            NodeView::decode(buf@) == Some(self@),
    {
        slice_to_vec(self.buf.as_slice())
    }

    /// Bytes that differ from the node's in the next page id at most hold the
    /// same entries.
    proof fn lemma_header(was: Seq<u8>, bytes: Seq<u8>)
        requires
            valid_page(was),
            bytes.len() == was.len(),
            forall|j: int| 4 <= j < bytes.len() ==> bytes[j] == was[j],
        ensures
            valid_page(bytes),
            raw_count(bytes) == raw_count(was),
            raw_entries(bytes) == raw_entries(was),
            forall|i: int| 0 <= i <= raw_count(was) ==> raw_end(bytes, i) == raw_end(was, i),
    {
        let old = was;
        let count = raw_count(old);
        assert(bytes.subrange(4, 8) =~= old.subrange(4, 8));
        assert(raw_count(bytes) == count);
        assert forall|i: int| 0 <= i < count implies #[trigger] raw_slot(bytes, i) == raw_slot(
            old,
            i,
        ) by {
            assert(bytes.subrange(SLOTS_START + 9 * i, SLOTS_START + 9 * i + 9) =~= old.subrange(
                SLOTS_START + 9 * i,
                SLOTS_START + 9 * i + 9,
            ));
        }
        assert forall|i: int| 0 <= i <= count implies raw_end(bytes, i) == raw_end(old, i) by {
            if i > 0 {
                assert(raw_slot(bytes, i - 1) == raw_slot(old, i - 1));
            }
        }
        assert forall|i: int| 0 <= i < count implies {
            &&& (#[trigger] raw_slot(bytes, i)).offset + raw_slot(bytes, i).len == raw_end(
                bytes,
                i,
            )
            &&& raw_slot(bytes, i).offset >= SLOTS_START + 9 * count
        } by {
            assert(raw_slot(bytes, i) == raw_slot(old, i));
            assert(raw_end(bytes, i) == raw_end(old, i));
        }
        assert forall|i: int| 0 <= i < count implies raw_entries(bytes)[i] == raw_entries(
            old,
        )[i] by {
            let s = raw_slot(old, i);
            assert(raw_slot(bytes, i) == s);
            Self::lemma_ends(old, i);
            assert(bytes.subrange(s.offset as int, s.offset + s.len) =~= old.subrange(
                s.offset as int,
                s.offset + s.len,
            ));
        }
        assert(raw_entries(bytes) =~= raw_entries(old));
    }

    /// The id of the next page.
    pub fn next_page_id(&self) -> (id: PageId)
        ensures
            id == self@.next_page_id,
    {
        self.next_page_id
    }

    /// Makes `id` the next page.
    pub fn set_next_page_id(&mut self, id: PageId)
        requires
            old(self).wf(),
        ensures
            final(self).wf(),
            final(self)@ == (NodeView { next_page_id: id, ..old(self)@ }),
            final(self).page() == with_next(old(self).page(), id),
    {
        self.next_page_id = id;
        proof {
            lemma_i32_round_trip(id);
        }
        write_i32(&mut self.buf, 0, id);
        proof {
            Self::lemma_header(old(self).buf@, self.buf@);
            assert(self.buf@.subrange(0, 4) =~= i32_be(id));
        }
    }

    /// Number of tuples.
    pub fn len(&self) -> (n: u32)
        requires
            self.wf(),
        ensures
            n == self@.entries.len(),
    {
        self.len
    }

    /// Whether the node admits one more tuple of `n` bytes.
    pub fn admits(&self, n: usize) -> (b: bool)
        requires
            self.wf(),
        ensures
            b == self@.admits(n as nat),
    {
        proof {
            lemma_used(self.buf@, self.len as nat);
        }
        let dir_end = SLOTS_START + 9 * (self.len as usize + 1);
        n <= PAGE_SIZE && dir_end + n <= self.free_end as usize
    }

    /// Appends a tuple if the node admits it, and gives its slot.
    pub fn insert(&mut self, tuple_data: &BytesMut, meta: &TupleMeta) -> (r: Option<u32>)
        requires
            old(self).wf(),
        ensures
            final(self).wf(),
            r is Some <==> old(self)@.admits(contents(*tuple_data).len()),
            match r {
                Some(slot_id) => slot_id == old(self)@.entries.len() && final(self)@ == old(
                    self,
                )@.inserted(*meta, contents(*tuple_data)),
                None => final(self)@ == old(self)@ && final(self).page() == old(self).page(),
            },
            r is Some ==> final(self).page() == appended(
                old(self).page(),
                *meta,
                contents(*tuple_data),
            ),
    {
        let data = as_slice(tuple_data);
        let n = data.len();
        if !self.admits(n) {
            return None;
        }
        proof {
            lemma_used(self.buf@, self.len as nat);
        }
        let slot_id = self.len;
        let offset = self.free_end - n as u32;
        let slot = Slot { offset, len: n as u32, meta: *meta };
        let record = slot.to_bytes();
        let at = SLOTS_START + 9 * (slot_id as usize);
        let ghost before = self.buf@;
        proof {
            slot.lemma_round_trip();
            lemma_u32_round_trip((slot_id + 1) as u32);
        }
        write_bytes(&mut self.buf, at, record.as_slice());
        let ghost first = self.buf@;
        write_bytes(&mut self.buf, offset as usize, data);
        let ghost second = self.buf@;
        write_u32(&mut self.buf, 4, slot_id + 1);
        self.len = slot_id + 1;
        self.free_end = offset;
        proof {
            let after = self.buf@;
            Self::lemma_three_writes(
                before,
                first,
                second,
                after,
                at as int,
                record@,
                offset as int,
                contents(*tuple_data),
                u32_be((slot_id + 1) as u32),
            );
            Self::lemma_appended(before, after, slot, contents(*tuple_data));
            assert(after == appended(before, *meta, contents(*tuple_data)));
        }
        Some(slot_id)
    }

    /// What a page holds after a record, the bytes of a tuple and the slot
    /// count were written to it, none over another.
    proof fn lemma_three_writes(
        before: Seq<u8>,
        first: Seq<u8>,
        second: Seq<u8>,
        after: Seq<u8>,
        at: int,
        record: Seq<u8>,
        offset: int,
        data: Seq<u8>,
        count: Seq<u8>,
    )
        requires
            first == overwrite(before, at, record),
            second == overwrite(first, offset, data),
            after == overwrite(second, 4, count),
            count.len() == 4,
            record.len() == 9,
            8 <= at,
            at + 9 <= offset,
            offset + data.len() <= before.len(),
        ensures
            after.len() == before.len(),
            after.subrange(4, 8) == count,
            after.subrange(at, at + 9) == record,
            after.subrange(offset, offset + data.len()) == data,
            after.subrange(0, 4) == before.subrange(0, 4),
            forall|j: int|
                0 <= j < after.len() && !(4 <= j < 8) && !(at <= j < at + 9) && !(offset <= j
                    < offset + data.len()) ==> after[j] == before[j],
    {
        assert(after.subrange(4, 8) =~= count);
        assert(after.subrange(at, at + 9) =~= record);
        assert(after.subrange(offset, offset + data.len()) =~= data);
        assert(after.subrange(0, 4) =~= before.subrange(0, 4));
    }

    /// Whether `after` is `before` with the slot record `slot` behind the
    /// directory, the bytes `data` where the slot says, and the slot count
    /// raised.
    spec fn is_appended(before: Seq<u8>, after: Seq<u8>, slot: Slot, data: Seq<u8>) -> bool {
        &&& valid_page(before)
        &&& raw_count(before) < u32::MAX
        &&& slot.offset + slot.len == raw_end(before, raw_count(before) as int)
        &&& slot.len == data.len()
        &&& slot.offset >= SLOTS_START + 9 * (raw_count(before) + 1)
        &&& after.len() == before.len()
        &&& after.subrange(4, 8) == u32_be((raw_count(before) + 1) as u32)
        &&& after.subrange(
            SLOTS_START + 9 * raw_count(before),
            SLOTS_START + 9 * raw_count(before) + 9,
        ) == slot.spec_bytes()
        &&& after.subrange(slot.offset as int, slot.offset + slot.len) == data
        &&& forall|j: int|
            0 <= j < after.len() && !(4 <= j < 8) && !(SLOTS_START + 9 * raw_count(before) <= j
                < SLOTS_START + 9 * raw_count(before) + 9) && !(slot.offset <= j < slot.offset
                + slot.len) ==> after[j] == before[j]
    }

    /// The slots of the page before are the slots of the page after, which
    /// has the new slot behind them.
    proof fn lemma_appended_slots(before: Seq<u8>, after: Seq<u8>, slot: Slot, data: Seq<u8>)
        requires
            Self::is_appended(before, after, slot, data),
        ensures
            raw_count(after) == raw_count(before) + 1,
            raw_slot(after, raw_count(before) as int) == slot,
            forall|i: int|
                0 <= i < raw_count(before) ==> #[trigger] raw_slot(after, i) == raw_slot(
                    before,
                    i,
                ),
            forall|i: int|
                0 <= i <= raw_count(before) ==> #[trigger] raw_end(after, i) == raw_end(before, i),
    {
        let count = raw_count(before) as int;
        slot.lemma_round_trip();
        lemma_u32_round_trip((count + 1) as u32);
        Self::lemma_page_end(before, count);
        assert forall|i: int| 0 <= i < count implies #[trigger] raw_slot(after, i) == raw_slot(
            before,
            i,
        ) by {
            assert(after.subrange(SLOTS_START + 9 * i, SLOTS_START + 9 * i + 9) =~= before.subrange(
                SLOTS_START + 9 * i,
                SLOTS_START + 9 * i + 9,
            ));
        }
        assert forall|i: int| 0 <= i <= count implies #[trigger] raw_end(after, i) == raw_end(
            before,
            i,
        ) by {
            if i > 0 {
                assert(raw_slot(after, i - 1) == raw_slot(before, i - 1));
            }
        }
    }

    /// A valid page with one more slot record, the bytes of its tuple, and the
    /// slot count raised is a valid page with one more entry.
    proof fn lemma_appended(before: Seq<u8>, after: Seq<u8>, slot: Slot, data: Seq<u8>)
        requires
            Self::is_appended(before, after, slot, data),
        ensures
            valid_page(after),
            raw_count(after) == raw_count(before) + 1,
            raw_end(after, raw_count(after) as int) == slot.offset,
            raw_entries(after) == raw_entries(before).push((slot.meta, data)),
    {
        let count = raw_count(before) as int;
        Self::lemma_appended_slots(before, after, slot, data);
        Self::lemma_page_end(before, count);
        assert forall|i: int| 0 <= i < count + 1 implies {
            &&& (#[trigger] raw_slot(after, i)).offset + raw_slot(after, i).len == raw_end(
                after,
                i,
            )
            &&& raw_slot(after, i).offset >= SLOTS_START + 9 * (count + 1)
        } by {
            assert(raw_end(after, i) == raw_end(before, i));
            if i < count {
                assert(raw_slot(after, i) == raw_slot(before, i));
                Self::lemma_offsets(before, i, count);
            }
        }
        Self::lemma_appended_entries(before, after, slot, data);
    }

    /// The entries of the page before are the entries of the page after,
    /// which has the new entry behind them.
    proof fn lemma_appended_entries(before: Seq<u8>, after: Seq<u8>, slot: Slot, data: Seq<u8>)
        requires
            Self::is_appended(before, after, slot, data),
            raw_count(after) == raw_count(before) + 1,
            raw_slot(after, raw_count(before) as int) == slot,
            forall|i: int|
                0 <= i < raw_count(before) ==> #[trigger] raw_slot(after, i) == raw_slot(
                    before,
                    i,
                ),
        ensures
            raw_entries(after) == raw_entries(before).push((slot.meta, data)),
    {
        let count = raw_count(before) as int;
        let want = raw_entries(before).push((slot.meta, data));
        assert forall|i: int| 0 <= i < count + 1 implies raw_entries(after)[i] == want[i] by {
            if i < count {
                let s = raw_slot(before, i);
                assert(raw_slot(after, i) == s);
                Self::lemma_offsets(before, i, count);
                assert(after.subrange(s.offset as int, s.offset + s.len) =~= before.subrange(
                    s.offset as int,
                    s.offset + s.len,
                ));
            }
        }
        assert(raw_entries(after) =~= want);
    }

    /// In a valid page, the tuples end within the page.
    proof fn lemma_page_end(bytes: Seq<u8>, n: int)
        requires
            valid_page(bytes),
            0 <= n <= raw_count(bytes),
        ensures
            raw_end(bytes, n) <= PAGE_SIZE,
    {
        if n > 0 {
            Self::lemma_ends(bytes, n - 1);
        }
    }

    /// In a valid page, tuple `i` lies at or behind where tuple `n` ends.
    proof fn lemma_offsets(bytes: Seq<u8>, i: int, n: int)
        requires
            valid_page(bytes),
            0 <= i < n <= raw_count(bytes),
        ensures
            raw_end(bytes, n) <= raw_slot(bytes, i).offset,
            raw_slot(bytes, i).offset + raw_slot(bytes, i).len <= PAGE_SIZE,
        decreases n - i,
    {
        if i + 1 < n {
            Self::lemma_offsets(bytes, i + 1, n);
            assert(raw_slot(bytes, i + 1).offset + raw_slot(bytes, i + 1).len == raw_end(
                bytes,
                i + 1,
            ));
        }
        Self::lemma_ends(bytes, i);
    }

    /// In a valid page, no tuple ends behind the page.
    proof fn lemma_ends(bytes: Seq<u8>, i: int)
        requires
            valid_page(bytes),
            0 <= i < raw_count(bytes),
        ensures
            raw_slot(bytes, i).offset + raw_slot(bytes, i).len <= PAGE_SIZE,
        decreases i,
    {
        if i > 0 {
            Self::lemma_ends(bytes, i - 1);
        }
    }

    /// The tuple in the slot of `r_id`, with its meta data; `None` if the
    /// node has no such slot.
    pub fn get(&self, r_id: &RId) -> (r: Option<(TupleMeta, Tuple)>)
        requires
            self.wf(),
        ensures
            r is Some <==> r_id.slot_id < self@.entries.len(),
            match r {
                Some((meta, tuple)) => meta == self@.entries[r_id.slot_id as int].0 && contents(
                    tuple.data,
                ) == self@.entries[r_id.slot_id as int].1 && tuple.rid == *r_id,
                None => true,
            },
    {
        if r_id.slot_id >= self.len {
            return None;
        }
        let i = r_id.slot_id as usize;
        proof {
            Self::lemma_ends(self.buf@, i as int);
        }
        let slot = Slot::from(
            slice_subrange(self.buf.as_slice(), SLOTS_START + 9 * i, SLOTS_START + 9 * i + 9),
        );
        assert(slot == raw_slot(self.buf@, i as int));
        let data = from_slice(
            slice_subrange(
                self.buf.as_slice(),
                slot.offset as usize,
                slot.offset as usize + slot.len as usize,
            ),
        );
        Some((slot.meta, Tuple { rid: *r_id, data }))
    }
}

} // verus!
