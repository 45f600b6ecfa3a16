//! The heap list: tuples appended to a chain of heap nodes, found again by
//! their record ids, and iterated in the order in which they were inserted.

use vstd::prelude::*;
use bytes::BytesMut;
use crate::buffer::contents;
use crate::error::Error;
use crate::page::{zero_page, PageId, NO_PAGE, PAGE_SIZE};
use crate::page_cache::{PageCache, Store};
use crate::table::node::{
    appended, lemma_decode_appended, lemma_decode_with_next, lemma_zero_page, used, with_next,
    Node, NodeView, SLOTS_START,
};
use crate::table::tuple::{RId, Tuple, TupleMeta, SLOT_SIZE};

verus! {

/// The greatest number of slots that a heap node has room for.
pub const MAX_SLOTS: u64 = 454;

/// A heap list: the ids of its first and its last page, `NO_PAGE` both while
/// the list has no page. The pages live in a page cache.
#[derive(Debug, PartialEq, Eq, Clone, Copy)]
pub struct List {
    pub first_page_id: PageId,
    pub last_page_id: PageId,
}

/// Where an iteration stands, and where it ends: the record id of the next
/// tuple, and the record id one past the last tuple that the list had when
/// the iteration began.
#[derive(Debug, PartialEq, Eq, Clone, Copy)]
pub struct Iter {
    pub r_id: RId,
    pub end: RId,
}

/// What an insertion leaves behind.
pub struct Inserted {
    pub store: Store,
    pub first: PageId,
    pub last: PageId,
    pub result: Result<Option<RId>, Error>,
}

/// Whether a tuple of `n` bytes is too large even for an empty page.
pub open spec fn too_large(n: nat) -> bool {
    SLOTS_START + SLOT_SIZE + n > PAGE_SIZE
}

/// What the insertion of a tuple does to a list: a list without a page gets
/// its first page; the tuple goes to the last page if that admits it, else
/// to a new page, which the last page gets for its next page and which is
/// the last page from then on. A tuple too large for an empty page changes
/// nothing.
pub open spec fn spec_insert(
    s: Store,
    first: PageId,
    last: PageId,
    data: Seq<u8>,
    meta: TupleMeta,
) -> Inserted {
    if too_large(data.len()) {
        Inserted { store: s, first, last, result: Err(Error::TupleTooLarge) }
    } else if last == NO_PAGE && s.full() {
        Inserted { store: s, first, last, result: Err(Error::Disk) }
    } else {
        let s1 = if last == NO_PAGE {
            s.allocated()
        } else {
            s
        };
        let first1 = if last == NO_PAGE {
            s.next_id as PageId
        } else {
            first
        };
        let last1 = if last == NO_PAGE {
            s.next_id as PageId
        } else {
            last
        };
        if !s1.has(last1) {
            Inserted { store: s1, first: first1, last: last1, result: Err(Error::Disk) }
        } else {
            match NodeView::decode(s1.pages[last1 as int]) {
                None => Inserted {
                    store: s1,
                    first: first1,
                    last: last1,
                    result: Err(Error::Corrupt),
                },
                Some(node) => {
                    if node.admits(data.len()) {
                        Inserted {
                            store: s1.written(last1, appended(s1.pages[last1 as int], meta, data)),
                            first: first1,
                            last: last1,
                            result: Ok(
                                Some(RId { page_id: last1, slot_id: node.entries.len() as u32 }),
                            ),
                        }
                    } else if s1.full() {
                        Inserted {
                            store: s1,
                            first: first1,
                            last: last1,
                            result: Err(Error::Disk),
                        }
                    } else {
                        let page = s1.next_id as PageId;
                        Inserted {
                            store: s1.allocated().written(
                                last1,
                                with_next(s1.pages[last1 as int], page),
                            ).written(page, appended(zero_page(), meta, data)),
                            first: first1,
                            last: page,
                            result: Ok(Some(RId { page_id: page, slot_id: 0 })),
                        }
                    }
                },
            }
        }
    }
}

/// The tuple that a list has under `r_id`, with its meta data: none while
/// the list has no page, or where the page of `r_id` has no such slot.
pub open spec fn spec_get(s: Store, first: PageId, last: PageId, r_id: RId) -> Result<
    Option<(TupleMeta, Seq<u8>)>,
    Error,
> {
    if first == NO_PAGE || last == NO_PAGE {
        Ok(None)
    } else if !s.has(r_id.page_id) {
        Err(Error::Disk)
    } else {
        match NodeView::decode(s.pages[r_id.page_id as int]) {
            None => Err(Error::Corrupt),
            Some(node) => if r_id.slot_id < node.entries.len() {
                Ok(Some(node.entries[r_id.slot_id as int]))
            } else {
                Ok(None)
            },
        }
    }
}

/// Where an iteration over the list starts and ends: at the first slot of the
/// first page, and behind the last slot of the last page.
pub open spec fn spec_iter(s: Store, first: PageId, last: PageId) -> Result<Iter, Error> {
    if last == NO_PAGE {
        Ok(
            Iter {
                r_id: RId { page_id: first, slot_id: 0 },
                end: RId { page_id: first, slot_id: 0 },
            },
        )
    } else if !s.has(last) {
        Err(Error::Disk)
    } else {
        match NodeView::decode(s.pages[last as int]) {
            None => Err(Error::Corrupt),
            Some(node) => Ok(
                Iter {
                    r_id: RId { page_id: first, slot_id: 0 },
                    end: RId { page_id: last, slot_id: node.entries.len() as u32 },
                },
            ),
        }
    }
}

/// One step of an iteration: what it yields, and where it stands afterwards.
pub struct Step {
    pub item: Option<Result<(TupleMeta, Seq<u8>), Error>>,
    pub iter: Iter,
}

/// One step of an iteration. At its end the iteration yields nothing. Else
/// it yields the tuple under its record id and moves on: by one slot within
/// a page, to the first slot of the next page behind the last slot. It
/// yields nothing where there is no tuple under its record id, or no next
/// page to move on to; and an error, without moving on, where the page
/// cannot be read.
pub open spec fn spec_next(s: Store, first: PageId, last: PageId, it: Iter) -> Step {
    if it.end == it.r_id {
        Step { item: None, iter: it }
    } else {
        match spec_get(s, first, last, it.r_id) {
            Err(e) => Step { item: Some(Err(e)), iter: it },
            Ok(None) => Step { item: None, iter: it },
            Ok(Some(entry)) => {
                let node = NodeView::decode(s.pages[it.r_id.page_id as int])->0;
                if it.r_id.page_id == it.end.page_id && it.r_id.slot_id + 1 == it.end.slot_id {
                    Step {
                        item: Some(Ok(entry)),
                        iter: Iter {
                            r_id: RId { slot_id: (it.r_id.slot_id + 1) as u32, ..it.r_id },
                            ..it
                        },
                    }
                } else if it.r_id.slot_id + 1 < node.entries.len() {
                    Step {
                        item: Some(Ok(entry)),
                        iter: Iter {
                            r_id: RId { slot_id: (it.r_id.slot_id + 1) as u32, ..it.r_id },
                            ..it
                        },
                    }
                } else if node.next_page_id == 0 {
                    Step { item: None, iter: it }
                } else {
                    Step {
                        item: Some(Ok(entry)),
                        iter: Iter { r_id: RId { page_id: node.next_page_id, slot_id: 0 }, ..it },
                    }
                }
            },
        }
    }
}

/// What an iteration yields from `it` on, behind the tuples `acc` that it has
/// yielded already, in at most `fuel` steps: of each tuple its meta data, its
/// bytes and its record id.
pub open spec fn collected(
    s: Store,
    first: PageId,
    last: PageId,
    it: Iter,
    acc: Seq<(TupleMeta, Seq<u8>, RId)>,
    fuel: nat,
) -> Result<Seq<(TupleMeta, Seq<u8>, RId)>, Error>
    decreases fuel,
{
    if fuel == 0 {
        Err(Error::Corrupt)
    } else {
        let step = spec_next(s, first, last, it);
        match step.item {
            None => Ok(acc),
            Some(Err(e)) => Err(e),
            Some(Ok(entry)) => collected(
                s,
                first,
                last,
                step.iter,
                acc.push((entry.0, entry.1, it.r_id)),
                (fuel - 1) as nat,
            ),
        }
    }
}

/// The number of steps after which a scan gives the list up as corrupt: more
/// than its pages have slots.
pub open spec fn scan_limit(s: Store) -> nat {
    (s.pages.len() * MAX_SLOTS + 1) as nat
}

/// The tuples of the list with their meta data and record ids, in the order
/// of an iteration.
pub open spec fn spec_scan(s: Store, first: PageId, last: PageId) -> Result<
    Seq<(TupleMeta, Seq<u8>, RId)>,
    Error,
> {
    match spec_iter(s, first, last) {
        Err(e) => Err(e),
        Ok(it) => collected(s, first, last, it, Seq::empty(), scan_limit(s)),
    }
}

/// Whether the store holds a list with the given first and last pages: both
/// pages were allocated, or the list has none; and the last page holds a
/// node.
pub open spec fn list_wf(s: Store, first: PageId, last: PageId) -> bool {
    &&& 0 <= s.next_id <= s.pages.len() <= i32::MAX
    &&& last == NO_PAGE ==> first == NO_PAGE
    &&& last != NO_PAGE ==> 0 <= first < s.next_id && 0 <= last < s.next_id && NodeView::decode(
        s.pages[last as int],
    ) is Some
}

/// **Insertion.** A tuple that a well-formed list took in is found under
/// the record id that the insertion gave, with its meta data; the list stays
/// well-formed; and every other record id on a page that was allocated
/// gives what it gave, if the list had a page.
pub proof fn lemma_insert_then_get(
    s: Store,
    first: PageId,
    last: PageId,
    data: Seq<u8>,
    meta: TupleMeta,
    other: RId,
)
    requires
        list_wf(s, first, last),
        spec_insert(s, first, last, data, meta).result is Ok,
    ensures
        ({
            let r = spec_insert(s, first, last, data, meta);
            &&& r.result->Ok_0 is Some
            &&& list_wf(r.store, r.first, r.last)
            &&& spec_get(r.store, r.first, r.last, r.result->Ok_0->0) == Ok::<
                Option<(TupleMeta, Seq<u8>)>,
                Error,
            >(Some((meta, data)))
            &&& last != NO_PAGE && other != r.result->Ok_0->0 && 0 <= other.page_id < s.next_id
                ==> spec_get(r.store, r.first, r.last, other) == spec_get(s, first, last, other)
        }),
{
    let r = spec_insert(s, first, last, data, meta);
    let s1 = if last == NO_PAGE {
        s.allocated()
    } else {
        s
    };
    let last1 = if last == NO_PAGE {
        s.next_id as PageId
    } else {
        last
    };
    lemma_zero_page();
    let bytes = s1.pages[last1 as int];
    let node = NodeView::decode(bytes)->0;
    if node.admits(data.len()) {
        lemma_decode_appended(bytes, meta, data);
        if other.page_id != last1 && 0 <= other.page_id < s.next_id {
            assert(r.store.pages[other.page_id as int] == s.pages[other.page_id as int]);
        }
    } else {
        let page = s1.next_id as PageId;
        lemma_decode_with_next(bytes, page);
        assert(used(Seq::<(TupleMeta, Seq<u8>)>::empty(), 0) == 0);
        lemma_decode_appended(zero_page(), meta, data);
        if other.page_id != last1 && 0 <= other.page_id < s.next_id {
            assert(r.store.pages[other.page_id as int] == s.pages[other.page_id as int]);
        }
    }
}

/// What an iteration yields depends on the pages of the store alone.
pub proof fn lemma_collected_pages(
    a: Store,
    b: Store,
    first: PageId,
    last: PageId,
    it: Iter,
    acc: Seq<(TupleMeta, Seq<u8>, RId)>,
    fuel: nat,
)
    requires
        a.pages == b.pages,
    ensures
        spec_get(a, first, last, it.r_id) == spec_get(b, first, last, it.r_id),
        spec_next(a, first, last, it) == spec_next(b, first, last, it),
        collected(a, first, last, it, acc, fuel) == collected(b, first, last, it, acc, fuel),
    decreases fuel,
{
    if fuel > 0 {
        let step = spec_next(a, first, last, it);
        match step.item {
            Some(Ok(entry)) => {
                lemma_collected_pages(
                    a,
                    b,
                    first,
                    last,
                    step.iter,
                    acc.push((entry.0, entry.1, it.r_id)),
                    (fuel - 1) as nat,
                );
            },
            _ => {},
        }
    }
}

/// **Durability.** Two stores with the same pages hold the same list: every
/// record id gives the same tuple, and an iteration yields the same tuples in
/// the same order. Such are the store of a cache and the store of the cache
/// that `PageCache::reopen` makes of it.
pub proof fn lemma_durable(a: Store, b: Store, first: PageId, last: PageId, r_id: RId)
    requires
        a.pages == b.pages,
    ensures
        spec_get(a, first, last, r_id) == spec_get(b, first, last, r_id),
        spec_iter(a, first, last) == spec_iter(b, first, last),
        spec_scan(a, first, last) == spec_scan(b, first, last),
{
    match spec_iter(a, first, last) {
        Ok(it) => {
            lemma_collected_pages(a, b, first, last, it, Seq::empty(), scan_limit(a));
        },
        Err(_) => {},
    }
}

impl List {
    /// The list whose first and last pages are those given.
    pub fn new(first_page_id: PageId, last_page_id: PageId) -> (list: List)
        ensures
            list.first_page_id == first_page_id,
            list.last_page_id == last_page_id,
    {
        List { first_page_id, last_page_id }
    }

    /// A list without a page.
    pub fn default() -> (list: List)
        ensures
            list.first_page_id == NO_PAGE,
            list.last_page_id == NO_PAGE,
    {
        List { first_page_id: NO_PAGE, last_page_id: NO_PAGE }
    }

    /// Reads the node on page `id`.
    fn read_node(pc: &mut PageCache, id: PageId) -> (r: Result<Node, Error>)
        requires
            old(pc).wf(),
            old(pc).available(),
        ensures
            final(pc).steady(old(pc)),
            final(pc).store() == old(pc).store(),
            match r {
                Ok(node) => old(pc).store().has(id) && node.wf() && node.page() == old(
                    pc,
                ).pages()[id as int] && NodeView::decode(old(pc).pages()[id as int]) == Some(
                    node@,
                ),
                Err(e) => if old(pc).store().has(id) {
                    e == Error::Corrupt && NodeView::decode(old(pc).pages()[id as int]).is_none()
                } else {
                    e == Error::Disk
                },
            },
    {
        match pc.read_page(id) {
            Ok(buf) => match Node::from(&buf) {
                Some(node) => Ok(node),
                None => Err(Error::Corrupt),
            },
            Err(_) => Err(Error::Disk),
        }
    }

    /// Writes `node` to page `id`.
    fn write_node(pc: &mut PageCache, id: PageId, node: &Node)
        requires
            old(pc).wf(),
            old(pc).available(),
            old(pc).store().has(id),
            node.wf(),
        ensures
            final(pc).steady(old(pc)),
            final(pc).store() == old(pc).store().written(id, node.page()),
    {
        let buf = node.to_page();
        let written = pc.write_page(id, buf.as_slice());
        assert(written is Ok);
    }

    /// Appends a tuple and gives its record id. Without a frame to bring
    /// pages in, nothing is done; otherwise the pages are left as
    /// `spec_insert` says.
    pub fn insert(&mut self, pc: &mut PageCache, tuple_data: &BytesMut, meta: &TupleMeta) -> (r:
        Result<Option<RId>, Error>)
        requires
            old(pc).wf(),
        ensures
            final(pc).steady(old(pc)),
            if old(pc).available() {
                (Inserted {
                    store: final(pc).store(),
                    first: final(self).first_page_id,
                    last: final(self).last_page_id,
                    result: r,
                }) == spec_insert(
                    old(pc).store(),
                    old(self).first_page_id,
                    old(self).last_page_id,
                    contents(*tuple_data),
                    *meta,
                )
            } else {
                r == Err::<Option<RId>, Error>(Error::OutOfMemory) && final(pc).store() == old(
                    pc,
                ).store() && *final(self) == *old(self)
            },
    {
        if !pc.has_available() {
            return Err(Error::OutOfMemory);
        }
        let n = tuple_data.len();
        if n > PAGE_SIZE - SLOTS_START - SLOT_SIZE {
            return Err(Error::TupleTooLarge);
        }
        proof {
            pc.lemma_pages();
        }
        if self.last_page_id == NO_PAGE {
            let page = match pc.create_page() {
                Ok(page) => page,
                Err(_) => {
                    return Err(Error::Disk);
                },
            };
            self.first_page_id = page;
            self.last_page_id = page;
        }
        proof {
            pc.lemma_pages();
        }
        let mut node = match Self::read_node(pc, self.last_page_id) {
            Ok(node) => node,
            Err(e) => {
                return Err(e);
            },
        };
        match node.insert(tuple_data, meta) {
            Some(slot_id) => {
                Self::write_node(pc, self.last_page_id, &node);
                return Ok(Some(RId { page_id: self.last_page_id, slot_id }));
            },
            None => {},
        }
        let page = match pc.create_page() {
            Ok(page) => page,
            Err(_) => {
                return Err(Error::Disk);
            },
        };
        proof {
            pc.lemma_pages();
        }
        node.set_next_page_id(page);
        Self::write_node(pc, self.last_page_id, &node);
        self.last_page_id = page;
        proof {
            pc.lemma_pages();
            lemma_zero_page();
        }
        let zeros = crate::page::new_page_buf();
        let mut fresh = match Node::from(&zeros) {
            Some(node) => node,
            None => vstd::pervasive::unreached(),
        };
        proof {
            assert(used(Seq::<(TupleMeta, Seq<u8>)>::empty(), 0) == 0);
        }
        match fresh.insert(tuple_data, meta) {
            Some(slot_id) => {
                proof {
                    pc.lemma_pages();
                }
                Self::write_node(pc, page, &fresh);
                Ok(Some(RId { page_id: page, slot_id }))
            },
            None => vstd::pervasive::unreached(),
        }
    }

    /// The tuple under `r_id`, with its meta data. The pages stay as they
    /// are.
    pub fn get(&self, pc: &mut PageCache, r_id: RId) -> (r: Result<Option<(TupleMeta, Tuple)>, Error>)
        requires
            old(pc).wf(),
        ensures
            final(pc).steady(old(pc)),
            final(pc).store() == old(pc).store(),
            Self::matches_get(
                r,
                if (self.first_page_id == NO_PAGE || self.last_page_id == NO_PAGE) || old(
                    pc,
                ).available() {
                    spec_get(old(pc).store(), self.first_page_id, self.last_page_id, r_id)
                } else {
                    Err(Error::OutOfMemory)
                },
                r_id,
            ),
    {
        if self.first_page_id == NO_PAGE || self.last_page_id == NO_PAGE {
            return Ok(None);
        }
        if !pc.has_available() {
            return Err(Error::OutOfMemory);
        }
        let node = match Self::read_node(pc, r_id.page_id) {
            Ok(node) => node,
            Err(e) => {
                return Err(e);
            },
        };
        Ok(node.get(&r_id))
    }

    /// Whether `r` is `want` with the bytes in a buffer and the record id
    /// beside them.
    pub open spec fn matches_get(
        r: Result<Option<(TupleMeta, Tuple)>, Error>,
        want: Result<Option<(TupleMeta, Seq<u8>)>, Error>,
        r_id: RId,
    ) -> bool {
        match (r, want) {
            (Ok(Some((meta, tuple))), Ok(Some(entry))) => meta == entry.0 && contents(tuple.data)
                == entry.1 && tuple.rid == r_id,
            (Ok(None), Ok(None)) => true,
            (Err(e), Err(w)) => e == w,
            _ => false,
        }
    }

    /// Begins an iteration over the tuples that the list has now.
    pub fn iter(&self, pc: &mut PageCache) -> (r: Result<Iter, Error>)
        requires
            old(pc).wf(),
        ensures
            final(pc).steady(old(pc)),
            final(pc).store() == old(pc).store(),
            r == (if self.last_page_id == NO_PAGE || old(pc).available() {
                spec_iter(old(pc).store(), self.first_page_id, self.last_page_id)
            } else {
                Err(Error::OutOfMemory)
            }),
    {
        let r_id = RId { page_id: self.first_page_id, slot_id: 0 };
        if self.last_page_id == NO_PAGE {
            return Ok(Iter { r_id, end: r_id });
        }
        if !pc.has_available() {
            return Err(Error::OutOfMemory);
        }
        let node = match Self::read_node(pc, self.last_page_id) {
            Ok(node) => node,
            Err(e) => {
                return Err(e);
            },
        };
        Ok(Iter { r_id, end: RId { page_id: self.last_page_id, slot_id: node.len() } })
    }
}

impl List {
    /// Whether the tuples `have` are the entries `want`, in order.
    pub open spec fn matches_all(
        have: Seq<(TupleMeta, Tuple)>,
        want: Seq<(TupleMeta, Seq<u8>, RId)>,
    ) -> bool {
        &&& have.len() == want.len()
        &&& forall|i: int|
            0 <= i < have.len() ==> (#[trigger] have[i]).0 == want[i].0 && contents(have[i].1.data)
                == want[i].1 && have[i].1.rid == want[i].2
    }

    /// The tuples of the list with their meta data, in the order in which
    /// they were inserted: what an iteration yields, to its end. The pages
    /// stay as they are.
    pub fn scan(&self, pc: &mut PageCache) -> (r: Result<Vec<(TupleMeta, Tuple)>, Error>)
        requires
            old(pc).wf(),
        ensures
            final(pc).steady(old(pc)),
            final(pc).store() == old(pc).store(),
            old(pc).available() ==> (match (
                r,
                spec_scan(old(pc).store(), self.first_page_id, self.last_page_id),
            ) {
                (Ok(have), Ok(want)) => Self::matches_all(have@, want),
                (Err(e), Err(w)) => e == w,
                _ => false,
            }),
            !old(pc).available() ==> r is Err && r->Err_0 == Error::OutOfMemory,
    {
        if !pc.has_available() {
            return Err(Error::OutOfMemory);
        }
        proof {
            pc.lemma_pages();
        }
        let mut it = match self.iter(pc) {
            Ok(it) => it,
            Err(e) => {
                return Err(e);
            },
        };
        let mut fuel: u64 = (pc.capacity() as u64) * MAX_SLOTS + 1;
        let mut out: Vec<(TupleMeta, Tuple)> = Vec::new();
        let ghost mut acc: Seq<(TupleMeta, Seq<u8>, RId)> = Seq::empty();
        let ghost s = pc.store();
        let ghost want = spec_scan(s, self.first_page_id, self.last_page_id);
        while fuel > 0
            invariant
                pc.steady(old(pc)),
                pc.available(),
                pc.store() == s,
                s == old(pc).store(),
                Self::matches_all(out@, acc),
                want == spec_scan(s, self.first_page_id, self.last_page_id),
                want == collected(s, self.first_page_id, self.last_page_id, it, acc, fuel as nat),
            decreases fuel,
        {
            let ghost before = it;
            match it.next(self, pc) {
                None => {
                    return Ok(out);
                },
                Some(Err(e)) => {
                    return Err(e);
                },
                Some(Ok(entry)) => {
                    proof {
                        let step = spec_next(s, self.first_page_id, self.last_page_id, before);
                        let item = step.item->0->Ok_0;
                        acc = acc.push((item.0, item.1, before.r_id));
                    }
                    out.push(entry);
                },
            }
            fuel = fuel - 1;
        }
        Err(Error::Corrupt)
    }
}

impl Iter {
    /// Whether `r` is `want` with the bytes in a buffer and the record id
    /// `r_id` beside them.
    pub open spec fn matches_item(
        r: Option<Result<(TupleMeta, Tuple), Error>>,
        want: Option<Result<(TupleMeta, Seq<u8>), Error>>,
        r_id: RId,
    ) -> bool {
        match (r, want) {
            (Some(Ok((meta, tuple))), Some(Ok(entry))) => meta == entry.0 && contents(tuple.data)
                == entry.1 && tuple.rid == r_id,
            (Some(Err(e)), Some(Err(w))) => e == w,
            (None, None) => true,
            _ => false,
        }
    }

    /// The next tuple of the iteration, with its meta data; `None` at the
    /// end. The pages stay as they are. Without a frame to bring pages in,
    /// an iteration that is not at its end yields an error and stays where it
    /// is.
    pub fn next(&mut self, list: &List, pc: &mut PageCache) -> (r: Option<
        Result<(TupleMeta, Tuple), Error>,
    >)
        requires
            old(pc).wf(),
        ensures
            final(pc).steady(old(pc)),
            final(pc).store() == old(pc).store(),
            if old(self).end == old(self).r_id || old(pc).available() || list.first_page_id
                == NO_PAGE || list.last_page_id == NO_PAGE {
                let step = spec_next(
                    old(pc).store(),
                    list.first_page_id,
                    list.last_page_id,
                    *old(self),
                );
                Self::matches_item(r, step.item, old(self).r_id) && *final(self) == step.iter
            } else {
                r == Some(Err::<(TupleMeta, Tuple), Error>(Error::OutOfMemory)) && *final(self)
                    == *old(self)
            },
    {
        if self.end.page_id == self.r_id.page_id && self.end.slot_id == self.r_id.slot_id {
            return None;
        }
        if list.first_page_id == NO_PAGE || list.last_page_id == NO_PAGE {
            return None;
        }
        if !pc.has_available() {
            return Some(Err(Error::OutOfMemory));
        }
        let node = match List::read_node(pc, self.r_id.page_id) {
            Ok(node) => node,
            Err(e) => {
                return Some(Err(e));
            },
        };
        let entry = match node.get(&self.r_id) {
            Some(entry) => entry,
            None => {
                return None;
            },
        };
        let len = node.len();
        if self.r_id.page_id == self.end.page_id && self.end.slot_id > 0 && self.r_id.slot_id
            == self.end.slot_id - 1 {
            self.r_id.slot_id = self.r_id.slot_id + 1;
            return Some(Ok(entry));
        } else if self.r_id.slot_id + 1 < len {
            self.r_id.slot_id = self.r_id.slot_id + 1;
        } else if node.next_page_id() == 0 {
            return None;
        } else {
            self.r_id = RId { page_id: node.next_page_id(), slot_id: 0 };
        }
        Some(Ok(entry))
    }
}

} // verus!
