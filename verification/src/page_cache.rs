//! The page cache: a fixed pool of frames in front of the backing store.
//!
//! The cache answers for every page of the store. What it answers is the
//! page's *logical* content, `pages()`: the frame's bytes while the page is
//! resident, the store's bytes otherwise. Fetching, evicting and flushing move
//! bytes between frames and store and never change a logical page; only
//! `write`, `write_page` and the allocation of a new page do.
//!
//! Which page leaves the pool when a frame is needed and none is free is the
//! replacer's choice among the pages without a pin. What the replacer knows
//! of the resident pages is `accesses()`, and every operation says what it
//! does to it.

use vstd::prelude::*;
use vstd::slice::slice_to_vec;
use crate::disk::Memory;
use crate::error::Error;
use crate::page::{is_page, new_page_buf, zero_page, PageBuf, PageId, NO_PAGE, PAGE_SIZE};
use crate::replacer::{is_victim, noted, tick, Access, LruK};

verus! {

/// Number of frames of a cache made by `PageCache::new`.
pub const POOL_SIZE: usize = 8;

/// One frame of the pool: a resident page with its pin count and dirty flag,
/// or a free frame (`id == NO_PAGE`).
pub struct Frame {
    id: PageId,
    data: PageBuf,
    pin: u32,
    dirty: bool,
}

/// A pin on a resident page. Each guard stands for one pin, to be given back
/// with `PageCache::unpin`.
#[derive(Debug)]
pub struct PinGuard {
    pub id: PageId,
    pub frame: usize,
}

/// What the structures above the cache see of it: the logical content of
/// every page, and the id that the next new page gets.
pub struct Store {
    pub pages: Seq<Seq<u8>>,
    pub next_id: int,
}

impl Store {
    /// Whether `id` is a page of the store.
    pub open spec fn has(self, id: PageId) -> bool {
        0 <= id < self.pages.len()
    }

    /// Whether every page id has been handed out.
    pub open spec fn full(self) -> bool {
        self.next_id >= self.pages.len()
    }

    /// The store after a new page was allocated, zeroed.
    pub open spec fn allocated(self) -> Store {
        Store { pages: self.pages.update(self.next_id, zero_page()), next_id: self.next_id + 1 }
    }

    /// The store after `data` was written to page `id`.
    pub open spec fn written(self, id: PageId, data: Seq<u8>) -> Store {
        Store { pages: self.pages.update(id as int, data), ..self }
    }
}

/// The page cache.
pub struct PageCache {
    frames: Vec<Frame>,
    disk: Memory,
    replacer: LruK,
    next_id: PageId,
}

impl PageCache {
    spec fn holds(&self, id: PageId, i: int) -> bool {
        0 <= i < self.frames@.len() && self.frames@[i].id == id && id != NO_PAGE
    }

    /// Whether page `id` is in a frame.
    pub closed spec fn resident(&self, id: PageId) -> bool {
        exists|i: int| self.holds(id, i)
    }

    /// The frame that holds page `id`, if it is resident.
    pub closed spec fn frame_of(&self, id: PageId) -> int {
        choose|i: int| self.holds(id, i)
    }

    /// Number of pins on page `id`.
    pub closed spec fn pin_count(&self, id: PageId) -> nat {
        if self.resident(id) {
            self.frames@[self.frame_of(id)].pin as nat
        } else {
            0
        }
    }

    /// The content of every page of the store as the cache answers for it.
    pub closed spec fn pages(&self) -> Seq<Seq<u8>> {
        Seq::new(
            self.disk@.len(),
            |p: int|
                if self.resident(p as PageId) {
                    self.frames@[self.frame_of(p as PageId)].data@
                } else {
                    self.disk@[p]
                },
        )
    }

    /// The content of every page as the backing store has it.
    pub closed spec fn disk_pages(&self) -> Seq<Seq<u8>> {
        self.disk@
    }

    /// The id that the next new page gets.
    pub closed spec fn next_id(&self) -> int {
        self.next_id as int
    }

    /// The logical pages and the next page id together.
    pub open spec fn store(&self) -> Store {
        Store { pages: self.pages(), next_id: self.next_id() }
    }

    /// Number of frames in the pool.
    pub closed spec fn pool_size(&self) -> nat {
        self.frames@.len()
    }

    /// Whether some frame is free or holds an unpinned page: whether a page
    /// that is not resident can be brought in.
    pub closed spec fn available(&self) -> bool {
        exists|i: int| 0 <= i < self.frames@.len() && (#[trigger] self.frames@[i]).pin == 0
    }

    /// Number of the first `n` of `frames` that have no pin.
    spec fn free_upto(frames: Seq<Frame>, n: nat) -> nat
        decreases n,
    {
        if n == 0 {
            0
        } else {
            Self::free_upto(frames, (n - 1) as nat) + if frames[n - 1].pin == 0 {
                1nat
            } else {
                0nat
            }
        }
    }

    /// Number of frames without a pin: the free frames, and the frames of the
    /// resident pages that no guard holds. A page that is not resident can be
    /// brought in while there is one.
    pub closed spec fn unpinned(&self) -> nat {
        Self::free_upto(self.frames@, self.frames@.len())
    }

    /// Whether every pin of `before` is a pin of this cache: a guard taken
    /// from `before` stands for a pin still.
    pub open spec fn keeps_guards(&self, before: &PageCache) -> bool {
        forall|g: PinGuard| #[trigger] before.pinned_by(&g) ==> self.pinned_by(&g)
    }

    /// Whether the backing store holds of every page what it held in
    /// `before`, or what the cache answered for it then: pages are written
    /// back, and nothing else is written.
    pub open spec fn settled(&self, before: &PageCache) -> bool {
        &&& self.disk_pages().len() == before.disk_pages().len()
        &&& forall|p: int|
            0 <= p < self.disk_pages().len() ==> #[trigger] self.disk_pages()[p]
                == before.disk_pages()[p] || self.disk_pages()[p] == before.pages()[p]
    }

    /// Whether `guard` is a pin of this cache: its frame holds its page, with
    /// at least one pin.
    pub closed spec fn pinned_by(&self, guard: &PinGuard) -> bool {
        self.holds(guard.id, guard.frame as int) && self.frames@[guard.frame as int].pin > 0
    }

    /// What the replacer knows of the resident pages: of each its last
    /// accesses, and whether it may leave the pool.
    pub closed spec fn accesses(&self) -> Map<PageId, Access> {
        self.replacer@
    }

    /// The depth K of the replacer's access histories.
    pub closed spec fn depth(&self) -> nat {
        self.replacer.k()
    }

    /// The timestamp that the next access gets.
    pub closed spec fn clock(&self) -> u64 {
        self.replacer.clock()
    }

    /// Whether some frame holds no page.
    pub closed spec fn has_free(&self) -> bool {
        exists|i: int| 0 <= i < self.frames@.len() && (#[trigger] self.frames@[i]).id == NO_PAGE
    }

    /// Whether the replacer knows what it knew in `before`.
    pub open spec fn unnoted(&self, before: &PageCache) -> bool {
        &&& self.depth() == before.depth()
        &&& self.clock() == before.clock()
        &&& self.accesses() == before.accesses()
    }

    /// What the replacer knows once room was made for a page in `before`:
    /// what it knew, but for the victim, which left the pool if no frame
    /// was free.
    pub open spec fn room_made(&self, before: &PageCache) -> bool {
        &&& self.depth() == before.depth()
        &&& self.clock() == before.clock()
        &&& if before.has_free() || !before.available() {
            self.accesses() == before.accesses()
        } else {
            exists|v: PageId|
                is_victim(before.accesses(), before.depth(), v) && self.accesses()
                    == before.accesses().remove(v)
        }
    }

    /// What the replacer knows once page `id` was accessed in `before`, and
    /// brought in if it was not resident: the access is recorded; and if the
    /// page had to be brought in and no frame was free, the victim has left
    /// the pool. `evictable` says whether the page may leave the pool
    /// afterwards.
    pub open spec fn loaded(&self, before: &PageCache, id: PageId, evictable: bool) -> bool {
        &&& self.depth() == before.depth()
        &&& self.clock() == tick(before.clock())
        &&& if before.resident(id) || before.has_free() {
            self.accesses() == noted(
                before.accesses(),
                id,
                before.clock(),
                before.depth(),
                evictable,
            )
        } else {
            exists|v: PageId|
                is_victim(before.accesses(), before.depth(), v) && self.accesses() == noted(
                    before.accesses().remove(v),
                    id,
                    before.clock(),
                    before.depth(),
                    evictable,
                )
        }
    }

    /// The cache's invariant.
    pub closed spec fn wf(&self) -> bool {
        &&& self.disk.wf()
        &&& self.replacer.wf()
        &&& 0 <= self.next_id <= self.disk@.len()
        &&& forall|i: int|
            0 <= i < self.frames@.len() ==> {
                let f = #[trigger] self.frames@[i];
                &&& is_page(f.data@)
                &&& (f.id == NO_PAGE || 0 <= f.id < self.disk@.len())
                &&& (f.id == NO_PAGE ==> f.pin == 0 && !f.dirty)
                &&& (f.id != NO_PAGE && !f.dirty ==> f.data@ == self.disk@[f.id as int])
                &&& (f.id != NO_PAGE ==> self.replacer@.contains_key(f.id)
                    && self.replacer@[f.id].evictable == (f.pin == 0))
            }
        &&& forall|i: int, j: int|
            0 <= i < j < self.frames@.len() && (#[trigger] self.frames@[i]).id != NO_PAGE ==> (
            #[trigger] self.frames@[j]).id != self.frames@[i].id
        &&& forall|id: PageId| #[trigger]
            self.replacer@.contains_key(id) ==> self.resident(id)
    }

    /// What the invariant says of the logical pages.
    pub proof fn lemma_pages(&self)
        requires
            self.wf(),
        ensures
            self.pages().len() == self.disk_pages().len(),
            self.pages().len() <= i32::MAX,
            0 <= self.next_id() <= self.pages().len(),
            forall|p: int| 0 <= p < self.pages().len() ==> is_page(#[trigger] self.pages()[p]),
            forall|id: PageId| self.resident(id) ==> 0 <= id < self.pages().len(),
            forall|id: PageId| !self.resident(id) ==> self.pin_count(id) == 0,
    {
        self.disk.lemma_pages();
        assert forall|p: int| 0 <= p < self.pages().len() implies is_page(
            #[trigger] self.pages()[p],
        ) by {
            if self.resident(p as PageId) {
                let i = self.frame_of(p as PageId);
                assert(self.holds(p as PageId, i));
            }
        }
        assert forall|id: PageId| self.resident(id) implies 0 <= id < self.pages().len() by {
            let i = self.frame_of(id);
            assert(self.holds(id, i));
        }
    }

    /// What the invariant says of the replacer: it knows the resident pages
    /// and no others, and a page may leave the pool exactly if it has no pin.
    pub proof fn lemma_accesses(&self)
        requires
            self.wf(),
        ensures
            forall|id: PageId| self.accesses().contains_key(id) <==> self.resident(id),
            forall|id: PageId|
                self.resident(id) ==> (#[trigger] self.accesses()[id]).evictable == (
                self.pin_count(id) == 0),
            self.has_free() ==> self.available(),
            self.depth() >= 1,
    {
        assert forall|id: PageId| self.resident(id) implies self.accesses().contains_key(id) && (
        #[trigger] self.accesses()[id]).evictable == (self.pin_count(id) == 0) by {
            let i = self.frame_of(id);
            assert(self.holds(id, i));
        }
        if self.has_free() {
            let i = choose|i: int|
                0 <= i < self.frames@.len() && (#[trigger] self.frames@[i]).id == NO_PAGE;
            assert(self.frames@[i].pin == 0);
        }
        self.replacer.lemma_depth();
    }

    proof fn lemma_free_upto(frames: Seq<Frame>, n: nat)
        requires
            n <= frames.len(),
        ensures
            Self::free_upto(frames, n) <= n,
            Self::free_upto(frames, n) > 0 <==> exists|j: int|
                0 <= j < n && (#[trigger] frames[j]).pin == 0,
        decreases n,
    {
        if n > 0 {
            Self::lemma_free_upto(frames, (n - 1) as nat);
            if Self::free_upto(frames, (n - 1) as nat) > 0 {
                let j = choose|j: int| 0 <= j < n - 1 && (#[trigger] frames[j]).pin == 0;
                assert(frames[j].pin == 0);
            }
            if exists|j: int| 0 <= j < n && (#[trigger] frames[j]).pin == 0 {
                let j = choose|j: int| 0 <= j < n && (#[trigger] frames[j]).pin == 0;
                if j < n - 1 {
                    assert(frames[j].pin == 0);
                }
            }
        }
    }

    proof fn lemma_free_all(frames: Seq<Frame>, n: nat)
        requires
            n <= frames.len(),
            forall|j: int| 0 <= j < n ==> (#[trigger] frames[j]).pin == 0,
        ensures
            Self::free_upto(frames, n) == n,
        decreases n,
    {
        if n > 0 {
            Self::lemma_free_all(frames, (n - 1) as nat);
        }
    }

    /// Frames that differ in frame `i` at most, as far as pins go, have as
    /// many frames without a pin, but for frame `i`.
    proof fn lemma_free_one(a: Seq<Frame>, b: Seq<Frame>, i: int, n: nat)
        requires
            n <= a.len(),
            a.len() == b.len(),
            forall|j: int|
                0 <= j < a.len() && j != i ==> ((#[trigger] a[j]).pin == 0) == (b[j].pin == 0),
        ensures
            Self::free_upto(b, n) + (if 0 <= i < n && a[i].pin == 0 {
                1nat
            } else {
                0nat
            }) == Self::free_upto(a, n) + (if 0 <= i < n && b[i].pin == 0 {
                1nat
            } else {
                0nat
            }),
        decreases n,
    {
        if n > 0 {
            Self::lemma_free_one(a, b, i, (n - 1) as nat);
            if n - 1 != i {
                assert((a[n - 1].pin == 0) == (b[n - 1].pin == 0));
            }
        }
    }

    /// How the number of frames without a pin changes with frame `i`.
    proof fn lemma_unpinned_one(&self, before: &PageCache, i: int)
        requires
            self.frames@.len() == before.frames@.len(),
            0 <= i < self.frames@.len(),
            forall|j: int|
                0 <= j < self.frames@.len() && j != i ==> (#[trigger] self.frames@[j]).pin
                    == before.frames@[j].pin,
        ensures
            self.unpinned() + (if before.frames@[i].pin == 0 {
                1nat
            } else {
                0nat
            }) == before.unpinned() + (if self.frames@[i].pin == 0 {
                1nat
            } else {
                0nat
            }),
    {
        assert forall|j: int| 0 <= j < before.frames@.len() && j != i implies ((
        #[trigger] before.frames@[j]).pin == 0) == (self.frames@[j].pin == 0) by {
            assert(self.frames@[j].pin == before.frames@[j].pin);
        }
        Self::lemma_free_one(before.frames@, self.frames@, i, self.frames@.len());
    }

    /// **Room.** A page that is not resident can be brought in exactly while
    /// some frame has no pin; and there are no more such frames than frames.
    pub proof fn lemma_unpinned(&self)
        ensures
            self.available() <==> self.unpinned() > 0,
            self.unpinned() <= self.pool_size(),
    {
        Self::lemma_free_upto(self.frames@, self.frames@.len());
    }

    /// **No pinned page leaves.** The replacer's victim is a resident page
    /// without a pin.
    pub proof fn lemma_victim_unpinned(&self, v: PageId)
        requires
            self.wf(),
            is_victim(self.accesses(), self.depth(), v),
        ensures
            self.resident(v),
            self.pin_count(v) == 0,
    {
        self.lemma_accesses();
    }

    proof fn lemma_frame(&self, i: int)
        requires
            self.wf(),
            0 <= i < self.frames@.len(),
            self.frames@[i].id != NO_PAGE,
        ensures
            self.resident(self.frames@[i].id),
            self.frame_of(self.frames@[i].id) == i,
            self.pin_count(self.frames@[i].id) == self.frames@[i].pin,
            self.pages()[self.frames@[i].id as int] == self.frames@[i].data@,
    {
        let id = self.frames@[i].id;
        assert(self.holds(id, i));
        let j = self.frame_of(id);
        assert(self.holds(id, j));
        assert(i == j);
    }

    /// A cache of `POOL_SIZE` frames over `disk`, which hands out page ids from
    /// `next_id` on (from 0 if `next_id` is negative; none if it lies past the
    /// end of the store). No page is resident. Of `replacer` the depth K is
    /// kept; what it had registered is forgotten.
    pub fn new(disk: Memory, replacer: LruK, next_id: PageId) -> (pc: PageCache)
        requires
            disk.wf(),
        ensures
            pc.wf(),
            pc.pages() == disk@,
            pc.disk_pages() == disk@,
            pc.pool_size() == POOL_SIZE,
            pc.next_id() == (if next_id < 0 {
                0
            } else if next_id > disk@.len() {
                disk@.len() as int
            } else {
                next_id as int
            }),
            forall|id: PageId| !pc.resident(id),
            forall|id: PageId| pc.pin_count(id) == 0,
            pc.available(),
            pc.unpinned() == POOL_SIZE,
            pc.accesses() == Map::<PageId, Access>::empty(),
            pc.clock() == 0,
            pc.depth() == (if replacer.k() == 0 {
                1
            } else {
                replacer.k()
            }),
    {
        Self::with_pool_size(disk, replacer, next_id, POOL_SIZE)
    }

    /// As `new`, with a pool of `pool_size` frames.
    pub fn with_pool_size(disk: Memory, replacer: LruK, next_id: PageId, pool_size: usize) -> (pc:
        PageCache)
        requires
            disk.wf(),
        ensures
            pc.wf(),
            pc.pages() == disk@,
            pc.disk_pages() == disk@,
            pc.pool_size() == pool_size,
            pc.next_id() == (if next_id < 0 {
                0
            } else if next_id > disk@.len() {
                disk@.len() as int
            } else {
                next_id as int
            }),
            forall|id: PageId| !pc.resident(id),
            forall|id: PageId| pc.pin_count(id) == 0,
            pc.available() == (pool_size > 0),
            pc.unpinned() == pool_size,
            pc.accesses() == Map::<PageId, Access>::empty(),
            pc.clock() == 0,
            pc.depth() == (if replacer.k() == 0 {
                1
            } else {
                replacer.k()
            }),
    {
        let capacity = disk.capacity();
        let next_id = if next_id < 0 {
            0
        } else if next_id as usize > capacity {
            capacity as PageId
        } else {
            next_id
        };
        let mut frames: Vec<Frame> = Vec::new();
        let mut i: usize = 0;
        while i < pool_size
            invariant
                i <= pool_size,
                frames@.len() == i,
                forall|j: int|
                    0 <= j < i ==> {
                        let f = #[trigger] frames@[j];
                        f.id == NO_PAGE && f.pin == 0 && !f.dirty && is_page(f.data@)
                    },
            decreases pool_size - i,
        {
            frames.push(Frame { id: NO_PAGE, data: new_page_buf(), pin: 0, dirty: false });
            i = i + 1;
        }
        let pc = PageCache { frames, disk, replacer: LruK::new(replacer.depth()), next_id };
        proof {
            assert forall|id: PageId| !pc.resident(id) by {
                if pc.resident(id) {
                    let j = pc.frame_of(id);
                    assert(pc.holds(id, j));
                }
            }
            assert(pc.pages() =~= disk@);
            if pool_size > 0 {
                assert(pc.frames@[0].pin == 0);
            }
            Self::lemma_free_all(pc.frames@, pool_size as nat);
        }
        pc
    }

    /// Gives the backing store back, as it is: pages written since the last
    /// flush are lost with the frames.
    pub fn into_disk(self) -> (disk: Memory)
        requires
            self.wf(),
        ensures
            disk.wf(),
            disk@ == self.disk_pages(),
    {
        self.disk
    }

    /// Flushes the cache and opens a new one over its backing store, with the
    /// same pool size: every page that the old cache answered for, the new
    /// one answers for with the same content.
    pub fn reopen(self, replacer: LruK, next_id: PageId) -> (pc: PageCache)
        requires
            self.wf(),
        ensures
            pc.wf(),
            pc.pages() == self.pages(),
            pc.disk_pages() == self.pages(),
            pc.pool_size() == self.pool_size(),
            pc.next_id() == (if next_id < 0 {
                0
            } else if next_id > self.pages().len() {
                self.pages().len() as int
            } else {
                next_id as int
            }),
            forall|id: PageId| !pc.resident(id),
            forall|id: PageId| pc.pin_count(id) == 0,
            pc.unpinned() == self.pool_size(),
            pc.available() == (self.pool_size() > 0),
            pc.accesses() == Map::<PageId, Access>::empty(),
            pc.clock() == 0,
            pc.depth() == (if replacer.k() == 0 {
                1
            } else {
                replacer.k()
            }),
    {
        let mut old_cache = self;
        old_cache.flush_all();
        let pool_size = old_cache.frames.len();
        let disk = old_cache.into_disk();
        Self::with_pool_size(disk, replacer, next_id, pool_size)
    }

    /// Number of pages of the backing store.
    pub fn capacity(&self) -> (n: usize)
        requires
            self.wf(),
        ensures
            n == self.pages().len(),
    {
        self.disk.capacity()
    }

    /// The id that the next new page gets.
    pub fn next_page_id(&self) -> (id: PageId)
        requires
            self.wf(),
        ensures
            id == self.next_id(),
    {
        self.next_id
    }

    fn find_frame(&self, id: PageId) -> (r: Option<usize>)
        requires
            self.wf(),
        ensures
            r is Some <==> self.resident(id),
            r is Some ==> self.holds(id, r->0 as int) && self.frame_of(id) == r->0,
    {
        if id == NO_PAGE {
            proof {
                if self.resident(id) {
                    let j = self.frame_of(id);
                    assert(self.holds(id, j));
                }
            }
            return None;
        }
        let mut i: usize = 0;
        while i < self.frames.len()
            invariant
                self.wf(),
                i <= self.frames@.len(),
                id != NO_PAGE,
                forall|j: int| 0 <= j < i ==> !self.holds(id, j),
            decreases self.frames@.len() - i,
        {
            if self.frames[i].id == id {
                proof {
                    self.lemma_frame(i as int);
                }
                return Some(i);
            }
            i = i + 1;
        }
        None
    }

    /// Whether a page that is not resident can be brought in.
    pub fn has_available(&self) -> (b: bool)
        requires
            self.wf(),
        ensures
            b == self.available(),
    {
        let mut i: usize = 0;
        while i < self.frames.len()
            invariant
                i <= self.frames@.len(),
                forall|j: int| 0 <= j < i ==> (#[trigger] self.frames@[j]).pin != 0,
            decreases self.frames@.len() - i,
        {
            if self.frames[i].pin == 0 {
                return true;
            }
            i = i + 1;
        }
        false
    }

    /// Whether page `id` is in a frame.
    pub fn is_resident(&self, id: PageId) -> (b: bool)
        requires
            self.wf(),
        ensures
            b == self.resident(id),
    {
        self.find_frame(id).is_some()
    }

    /// Number of frames without a pin.
    pub fn unpinned_frames(&self) -> (n: usize)
        requires
            self.wf(),
        ensures
            n == self.unpinned(),
    {
        let mut n: usize = 0;
        let mut i: usize = 0;
        while i < self.frames.len()
            invariant
                i <= self.frames@.len(),
                n == Self::free_upto(self.frames@, i as nat),
                n <= i,
            decreases self.frames@.len() - i,
        {
            if self.frames[i].pin == 0 {
                n = n + 1;
            }
            i = i + 1;
        }
        n
    }

    /// How a cache differs from the one it came from by a change to frame `i`
    /// alone: pages in other frames, and pages in no frame, are as they were.
    proof fn lemma_changed(&self, before: &PageCache, i: int)
        requires
            before.wf(),
            self.wf(),
            self.frames@.len() == before.frames@.len(),
            self.disk@.len() == before.disk@.len(),
            0 <= i < self.frames@.len(),
            forall|j: int|
                0 <= j < self.frames@.len() && j != i ==> (#[trigger] self.frames@[j])
                    == before.frames@[j],
        ensures
            forall|id: PageId|
                id != before.frames@[i].id && id != self.frames@[i].id ==> #[trigger] self.resident(
                    id,
                ) == before.resident(id) && (self.resident(id) ==> self.frame_of(id)
                    == before.frame_of(id)) && self.pin_count(id) == before.pin_count(id),
            forall|p: int|
                0 <= p < self.disk@.len() && p != before.frames@[i].id && p != self.frames@[i].id
                    && (!before.resident(p as PageId) ==> self.disk@[p] == before.disk@[p])
                    ==> #[trigger] self.pages()[p] == before.pages()[p],
    {
        self.disk.lemma_pages();
        assert forall|id: PageId|
            id != before.frames@[i].id && id != self.frames@[i].id implies #[trigger] self.resident(
            id,
        ) == before.resident(id) && (self.resident(id) ==> self.frame_of(id) == before.frame_of(
            id,
        )) && self.pin_count(id) == before.pin_count(id) by {
            if before.resident(id) {
                let j = before.frame_of(id);
                assert(before.holds(id, j));
                assert(self.holds(id, j));
                self.lemma_frame(j);
                before.lemma_frame(j);
            }
            if self.resident(id) {
                let j = self.frame_of(id);
                assert(self.holds(id, j));
                assert(before.holds(id, j));
                self.lemma_frame(j);
                before.lemma_frame(j);
            }
            if !self.resident(id) {
                assert(!before.resident(id));
                assert(self.pin_count(id) == before.pin_count(id));
            }
        }
        assert forall|p: int|
            0 <= p < self.disk@.len() && p != before.frames@[i].id && p != self.frames@[i].id && (
            !before.resident(p as PageId) ==> self.disk@[p] == before.disk@[p])
            implies #[trigger] self.pages()[p] == before.pages()[p] by {
            let id = p as PageId;
            assert(self.resident(id) == before.resident(id));
            if before.resident(id) {
                let j = before.frame_of(id);
                assert(before.holds(id, j));
                assert(self.holds(id, j));
                self.lemma_frame(j);
                before.lemma_frame(j);
            }
        }
    }

    /// Frees a frame: a free one if there is one, else that of the replacer's
    /// victim, whose page is first written back if it is dirty. Pinned pages
    /// stay where they are.
    fn acquire_frame(&mut self) -> (r: Option<usize>)
        requires
            old(self).wf(),
        ensures
            final(self).wf(),
            final(self).pages() == old(self).pages(),
            final(self).next_id() == old(self).next_id(),
            final(self).pool_size() == old(self).pool_size(),
            final(self).available() == old(self).available(),
            r is Some <==> old(self).available(),
            r is Some ==> r->0 < final(self).frames@.len() && final(self).frames@[r->0 as int].id
                == NO_PAGE,
            forall|id: PageId| final(self).pin_count(id) == old(self).pin_count(id),
            forall|id: PageId| final(self).resident(id) ==> old(self).resident(id),
            forall|id: PageId|
                old(self).resident(id) && old(self).pin_count(id) > 0 ==> final(self).resident(id)
                    && final(self).frame_of(id) == old(self).frame_of(id),
            final(self).room_made(old(self)),
            final(self).unpinned() == old(self).unpinned(),
            final(self).settled(old(self)),
    {
        let mut i: usize = 0;
        while i < self.frames.len()
            invariant
                i <= self.frames@.len(),
                *self == *old(self),
                self.wf(),
                forall|j: int| 0 <= j < i ==> (#[trigger] self.frames@[j]).id != NO_PAGE,
            decreases self.frames@.len() - i,
        {
            if self.frames[i].id == NO_PAGE {
                proof {
                    self.lemma_accesses();
                }
                return Some(i);
            }
            i = i + 1;
        }
        assert(!self.has_free());
        let victim = self.replacer.victim();
        match victim {
            None => {
                proof {
                    assert forall|j: int| 0 <= j < self.frames@.len() implies (
                    #[trigger] self.frames@[j]).pin != 0 by {
                        let f = self.frames@[j];
                        assert(self.replacer@.contains_key(f.id));
                    }
                    assert(!self.available());
                }
                None
            },
            Some(vid) => {
                let found = self.find_frame(vid);
                let v = found.unwrap();
                proof {
                    self.disk.lemma_pages();
                }
                if self.frames[v].dirty {
                    let written = self.disk.write_page(vid, self.frames[v].data.as_slice());
                    assert(written is Ok);
                }
                self.frames.set(v, Frame { id: NO_PAGE, data: new_page_buf(), pin: 0, dirty: false });
                self.replacer.remove(vid);
                proof {
                    let before = old(self);
                    assert(before.frames@[v as int].pin == 0);
                    assert forall|j: int| 0 <= j < self.frames@.len() && j != v implies (
                    #[trigger] self.frames@[j]) == before.frames@[j] by {}
                    assert forall|id: PageId| #[trigger]
                        self.replacer@.contains_key(id) implies self.resident(id) by {
                        assert(before.resident(id));
                        let j = before.frame_of(id);
                        assert(before.holds(id, j));
                        assert(self.holds(id, j));
                    }
                    assert(self.wf());
                    self.lemma_changed(before, v as int);
                    before.lemma_frame(v as int);
                    assert(!self.resident(vid)) by {
                        if self.resident(vid) {
                            let j = self.frame_of(vid);
                            assert(self.holds(vid, j));
                            assert(before.holds(vid, j));
                        }
                    }
                    assert(self.pages() =~= before.pages());
                    assert(self.frames@[v as int].pin == 0);
                    assert forall|id: PageId| self.pin_count(id) == before.pin_count(id) by {
                        if id != vid && id != NO_PAGE {
                            assert(self.resident(id) == before.resident(id));
                        }
                        if id == NO_PAGE {
                            if self.resident(id) {
                                assert(self.holds(id, self.frame_of(id)));
                            }
                            if before.resident(id) {
                                assert(before.holds(id, before.frame_of(id)));
                            }
                        }
                    }
                    assert forall|id: PageId| self.resident(id) implies before.resident(id) by {
                        let j = self.frame_of(id);
                        assert(self.holds(id, j));
                        assert(before.holds(id, j));
                    }
                    self.lemma_unpinned_one(before, v as int);
                    assert(!before.has_free());
                    assert(before.available());
                    assert(is_victim(before.accesses(), before.depth(), vid));
                    assert(self.accesses() == before.accesses().remove(vid));
                }
                Some(v)
            },
        }
    }

    /// Puts page `id` into the free frame `i`.
    fn install(&mut self, i: usize, id: PageId, data: PageBuf, pin: u32, dirty: bool)
        requires
            old(self).wf(),
            i < old(self).frames@.len(),
            old(self).frames@[i as int].id == NO_PAGE,
            0 <= id < old(self).disk@.len(),
            !old(self).resident(id),
            is_page(data@),
            !dirty ==> data@ == old(self).disk@[id as int],
        ensures
            final(self).wf(),
            final(self).holds(id, i as int),
            final(self).resident(id),
            final(self).frame_of(id) == i,
            final(self).pin_count(id) == pin,
            final(self).pages() == old(self).pages().update(id as int, data@),
            final(self).disk_pages() == old(self).disk_pages(),
            final(self).next_id() == old(self).next_id(),
            final(self).pool_size() == old(self).pool_size(),
            forall|other: PageId|
                other != id ==> final(self).resident(other) == old(self).resident(other) && (
                final(self).resident(other) ==> final(self).frame_of(other) == old(self).frame_of(
                    other,
                )) && final(self).pin_count(other) == old(self).pin_count(other),
            forall|j: int|
                0 <= j < final(self).frames@.len() && j != i ==> final(self).frames@[j] == old(
                    self,
                ).frames@[j],
            final(self).depth() == old(self).depth(),
            final(self).clock() == tick(old(self).clock()),
            final(self).accesses() == noted(
                old(self).accesses(),
                id,
                old(self).clock(),
                old(self).depth(),
                pin == 0,
            ),
            final(self).unpinned() + (if pin == 0 {
                0nat
            } else {
                1nat
            }) == old(self).unpinned(),
    {
        self.frames.set(i, Frame { id, data, pin, dirty });
        self.replacer.record_access(id);
        self.replacer.set_evictable(id, pin == 0);
        proof {
            let before = old(self);
            assert(self.replacer@ =~= noted(
                before.replacer@,
                id,
                before.replacer.clock(),
                before.replacer.k(),
                pin == 0,
            ));
            self.lemma_unpinned_one(before, i as int);
            assert forall|j: int| 0 <= j < self.frames@.len() && j != i implies (
            #[trigger] self.frames@[j]) == before.frames@[j] by {}
            assert(self.holds(id, i as int));
            assert forall|p: PageId| #[trigger] self.replacer@.contains_key(p) implies self.resident(
                p,
            ) by {
                if p != id {
                    assert(before.resident(p));
                    let j = before.frame_of(p);
                    assert(before.holds(p, j));
                    assert(self.holds(p, j));
                }
            }
            assert forall|a: int, b: int|
                0 <= a < b < self.frames@.len() && (#[trigger] self.frames@[a]).id
                    != NO_PAGE implies (#[trigger] self.frames@[b]).id != self.frames@[a].id by {
                if a == i && self.frames@[b].id == id {
                    assert(before.holds(id, b));
                }
                if b == i && self.frames@[a].id == id {
                    assert(before.holds(id, a));
                }
            }
            assert(self.wf());
            self.lemma_frame(i as int);
            self.lemma_changed(before, i as int);
            self.disk.lemma_pages();
            assert forall|other: PageId| other != id implies self.resident(other)
                == before.resident(other) && (self.resident(other) ==> self.frame_of(other)
                == before.frame_of(other)) && self.pin_count(other) == before.pin_count(other) by {
                if other == NO_PAGE {
                    if self.resident(other) {
                        assert(self.holds(other, self.frame_of(other)));
                    }
                    if before.resident(other) {
                        assert(before.holds(other, before.frame_of(other)));
                    }
                }
            }
            assert(self.pages() =~= before.pages().update(id as int, data@));
        }
    }

    /// Makes page `id` resident without pinning it, and records the access.
    fn load(&mut self, id: PageId) -> (r: Result<usize, Error>)
        requires
            old(self).wf(),
        ensures
            final(self).wf(),
            final(self).pages() == old(self).pages(),
            final(self).next_id() == old(self).next_id(),
            final(self).pool_size() == old(self).pool_size(),
            final(self).available() == old(self).available(),
            forall|p: PageId| final(self).pin_count(p) == old(self).pin_count(p),
            forall|p: PageId|
                old(self).resident(p) && old(self).pin_count(p) > 0 ==> final(self).resident(p)
                    && final(self).frame_of(p) == old(self).frame_of(p),
            old(self).resident(id) ==> r is Ok && r->Ok_0 == old(self).frame_of(id),
            r is Ok ==> final(self).loaded(old(self), id, old(self).pin_count(id) == 0),
            r is Err ==> final(self).unnoted(old(self)),
            final(self).unpinned() == old(self).unpinned(),
            final(self).settled(old(self)),
            match r {
                Ok(i) => final(self).holds(id, i as int) && final(self).frame_of(id) == i,
                Err(e) => !old(self).resident(id) && (if 0 <= id < old(self).pages().len() {
                    e == Error::OutOfMemory && !old(self).available()
                } else {
                    e == Error::Disk
                }),
            },
    {
        proof {
            self.lemma_pages();
        }
        if id < 0 || id as usize >= self.disk.capacity() {
            return Err(Error::Disk);
        }
        match self.find_frame(id) {
            Some(i) => {
                self.replacer.record_access(id);
                proof {
                    let before = old(self);
                    assert(self.frames@ == before.frames@);
                    assert forall|p: PageId| self.resident(p) == before.resident(p) by {
                        if self.resident(p) {
                            assert(before.holds(p, self.frame_of(p)));
                        }
                        if before.resident(p) {
                            assert(self.holds(p, before.frame_of(p)));
                        }
                    }
                    assert(self.wf());
                    assert forall|p: PageId| self.resident(p) implies self.frame_of(p)
                        == before.frame_of(p) by {
                        let j = self.frame_of(p);
                        assert(self.holds(p, j));
                        before.lemma_frame(j);
                    }
                    assert(self.pages() =~= before.pages());
                    if before.available() {
                        let j = choose|j: int|
                            0 <= j < before.frames@.len() && (#[trigger] before.frames@[j]).pin
                                == 0;
                        assert(self.frames@[j].pin == 0);
                    }
                    if self.available() {
                        let j = choose|j: int|
                            0 <= j < self.frames@.len() && (#[trigger] self.frames@[j]).pin == 0;
                        assert(before.frames@[j].pin == 0);
                    }
                }
                Ok(i)
            },
            None => {
                let i = match self.acquire_frame() {
                    Some(i) => i,
                    None => {
                        return Err(Error::OutOfMemory);
                    },
                };
                let ghost mid = *self;
                let data = match self.disk.read_page(id) {
                    Ok(data) => data,
                    Err(_) => {
                        return Err(Error::Disk);
                    },
                };
                proof {
                    self.lemma_pages();
                    assert(!self.resident(id));
                    assert(self.pages()[id as int] == self.disk@[id as int]);
                }
                self.install(i, id, data, 0, false);
                proof {
                    assert(self.pages() =~= old(self).pages());
                    assert(self.frames@[i as int].pin == 0);
                    assert forall|p: PageId|
                        old(self).resident(p) && old(self).pin_count(p) > 0 implies self.resident(
                        p,
                    ) && self.frame_of(p) == old(self).frame_of(p) by {
                        assert(mid.resident(p));
                    }
                }
                Ok(i)
            },
        }
    }

    /// Telling the replacer whether a page that was just accessed may leave
    /// the pool changes that and nothing else of what it knows.
    proof fn lemma_reflagged(
        &self,
        mid: &PageCache,
        before: &PageCache,
        id: PageId,
        was: bool,
        flag: bool,
    )
        requires
            mid.loaded(before, id, was),
            self.depth() == mid.depth(),
            self.clock() == mid.clock(),
            self.accesses() == mid.accesses().insert(
                id,
                Access { history: mid.accesses()[id].history, evictable: flag },
            ),
        ensures
            self.loaded(before, id, flag),
    {
        let m = before.accesses();
        let now = before.clock();
        let k = before.depth();
        if before.resident(id) || before.has_free() {
            assert(self.accesses() =~= noted(m, id, now, k, flag));
        } else {
            let v = choose|v: PageId|
                is_victim(m, k, v) && mid.accesses() == noted(m.remove(v), id, now, k, was);
            assert(self.accesses() =~= noted(m.remove(v), id, now, k, flag));
        }
    }

    /// What a successful fetch of page `id` does: the page is resident, in
    /// the frame that it was in if it was resident, with one more pin, which
    /// the guard stands for; no other pin count changes, no logical page
    /// changes, and every pinned page stays in its frame.
    pub open spec fn fetched(&self, before: &PageCache, id: PageId, guard: &PinGuard) -> bool {
        &&& self.wf()
        &&& self.pages() == before.pages()
        &&& self.next_id() == before.next_id()
        &&& self.pool_size() == before.pool_size()
        &&& guard.id == id
        &&& self.pinned_by(guard)
        &&& self.resident(id)
        &&& guard.frame == self.frame_of(id)
        &&& before.resident(id) ==> guard.frame == before.frame_of(id)
        &&& self.pin_count(id) == before.pin_count(id) + 1
        &&& forall|p: PageId| p != id ==> self.pin_count(p) == before.pin_count(p)
        &&& forall|p: PageId|
            before.resident(p) && before.pin_count(p) > 0 ==> self.resident(p) && self.frame_of(p)
                == before.frame_of(p)
        &&& self.loaded(before, id, false)
        &&& self.unpinned() + (if before.pin_count(id) == 0 {
            1nat
        } else {
            0nat
        }) == before.unpinned()
        &&& self.available() == (self.unpinned() > 0)
        &&& self.settled(before)
        &&& self.keeps_guards(before)
    }

    /// **One frame for a page.** Two fetches of a page, one after the other,
    /// pin the same frame, and the page has two more pins.
    pub proof fn lemma_fetch_twice(
        &self,
        first: &PageCache,
        second: &PageCache,
        id: PageId,
        a: &PinGuard,
        b: &PinGuard,
    )
        requires
            first.fetched(self, id, a),
            second.fetched(first, id, b),
        ensures
            a.frame == b.frame,
            second.pin_count(id) == self.pin_count(id) + 2,
            second.pinned_by(a),
            second.pages() == self.pages(),
    {
    }

    /// Pins page `id`, bringing it in from the backing store if it is not
    /// resident. Fetching a resident page pins the frame it is in.
    pub fn fetch_page(&mut self, id: PageId) -> (r: Result<PinGuard, Error>)
        requires
            old(self).wf(),
        ensures
            final(self).wf(),
            final(self).pages() == old(self).pages(),
            final(self).next_id() == old(self).next_id(),
            final(self).pool_size() == old(self).pool_size(),
            forall|p: PageId| p != id ==> final(self).pin_count(p) == old(self).pin_count(p),
            forall|p: PageId|
                old(self).resident(p) && old(self).pin_count(p) > 0 ==> final(self).resident(p)
                    && final(self).frame_of(p) == old(self).frame_of(p),
            final(self).keeps_guards(old(self)),
            match r {
                Ok(guard) => final(self).fetched(old(self), id, &guard),
                Err(e) => {
                    &&& final(self).pin_count(id) == old(self).pin_count(id)
                    &&& final(self).available() == old(self).available()
                    &&& e == (if 0 <= id < old(self).pages().len() {
                        Error::OutOfMemory
                    } else {
                        Error::Disk
                    })
                    &&& if old(self).resident(id) {
                        final(self).loaded(old(self), id, false)
                    } else {
                        final(self).unnoted(old(self))
                    }
                    &&& final(self).unpinned() == old(self).unpinned()
                    &&& final(self).settled(old(self))
                },
            },
            r is Ok <==> 0 <= id < old(self).pages().len() && (if old(self).resident(id) {
                old(self).pin_count(id) < u32::MAX
            } else {
                old(self).available()
            }),
    {
        let i = match self.load(id) {
            Ok(i) => i,
            Err(e) => {
                return Err(e);
            },
        };
        proof {
            self.lemma_frame(i as int);
            self.lemma_pages();
            old(self).lemma_pages();
        }
        if self.frames[i].pin == u32::MAX {
            return Err(Error::OutOfMemory);
        }
        let ghost mid = *self;
        self.frames[i].pin = self.frames[i].pin + 1;
        self.replacer.set_evictable(id, false);
        proof {
            self.lemma_repinned(&mid, i as int);
            assert(self.holds(id, i as int));
            assert(self.resident(id));
            assert(self.frame_of(id) == i);
            assert(mid.pin_count(id) == old(self).pin_count(id));
            assert(self.pages() =~= old(self).pages());
            self.lemma_reflagged(&mid, old(self), id, old(self).pin_count(id) == 0, false);
            self.lemma_unpinned();
            assert(mid.frames@[i as int].pin == old(self).pin_count(id));
        }
        Ok(PinGuard { id, frame: i })
    }

    /// What changes when only the pin count or the bytes of the page in frame
    /// `i` change, and the replacer is told of the pin count.
    proof fn lemma_repinned(&self, before: &PageCache, i: int)
        requires
            before.wf(),
            0 <= i < before.frames@.len(),
            before.frames@[i].id != NO_PAGE,
            self.frames@.len() == before.frames@.len(),
            forall|j: int|
                0 <= j < self.frames@.len() && j != i ==> (#[trigger] self.frames@[j])
                    == before.frames@[j],
            self.frames@[i].id == before.frames@[i].id,
            is_page(self.frames@[i].data@),
            !self.frames@[i].dirty ==> self.frames@[i].data@ == before.frames@[i].data@
                && !before.frames@[i].dirty,
            self.disk == before.disk,
            0 <= self.next_id <= self.disk@.len(),
            self.replacer.wf(),
            self.replacer@ == before.replacer@.insert(
                self.frames@[i].id,
                Access {
                    history: before.replacer@[self.frames@[i].id].history,
                    evictable: self.frames@[i].pin == 0,
                },
            ),
        ensures
            self.wf(),
            self.pages() == before.pages().update(
                self.frames@[i].id as int,
                self.frames@[i].data@,
            ),
            forall|p: PageId| self.resident(p) == before.resident(p),
            forall|p: PageId| self.resident(p) ==> self.frame_of(p) == before.frame_of(p),
            forall|p: PageId|
                p != self.frames@[i].id ==> self.pin_count(p) == before.pin_count(p),
            self.pin_count(self.frames@[i].id) == self.frames@[i].pin,
            self.unpinned() + (if before.frames@[i].pin == 0 {
                1nat
            } else {
                0nat
            }) == before.unpinned() + (if self.frames@[i].pin == 0 {
                1nat
            } else {
                0nat
            }),
            self.disk_pages() == before.disk_pages(),
    {
        let id = self.frames@[i].id;
        self.lemma_unpinned_one(before, i);
        assert forall|p: PageId| self.resident(p) == before.resident(p) by {
            if self.resident(p) {
                assert(before.holds(p, self.frame_of(p)));
            }
            if before.resident(p) {
                assert(self.holds(p, before.frame_of(p)));
            }
        }
        assert(self.wf());
        self.lemma_frame(i);
        before.lemma_frame(i);
        self.lemma_changed(before, i);
        self.disk.lemma_pages();
        assert forall|p: PageId| self.resident(p) implies self.frame_of(p) == before.frame_of(
            p,
        ) by {
            let j = self.frame_of(p);
            assert(self.holds(p, j));
            before.lemma_frame(j);
        }
        assert forall|p: PageId| p != id implies self.pin_count(p) == before.pin_count(p) by {
            if p == NO_PAGE {
                if self.resident(p) {
                    assert(self.holds(p, self.frame_of(p)));
                }
            }
        }
        assert(self.pages() =~= before.pages().update(id as int, self.frames@[i].data@));
    }

    /// Gives one pin back. A page that loses its last pin may be evicted.
    pub fn unpin(&mut self, guard: PinGuard)
        requires
            old(self).wf(),
            old(self).pinned_by(&guard),
        ensures
            final(self).wf(),
            final(self).pages() == old(self).pages(),
            final(self).next_id() == old(self).next_id(),
            final(self).pool_size() == old(self).pool_size(),
            final(self).pin_count(guard.id) == old(self).pin_count(guard.id) - 1,
            forall|p: PageId|
                p != guard.id ==> final(self).pin_count(p) == old(self).pin_count(p),
            forall|p: PageId| final(self).resident(p) == old(self).resident(p),
            forall|p: PageId|
                final(self).resident(p) ==> final(self).frame_of(p) == old(self).frame_of(p),
            old(self).available() ==> final(self).available(),
            final(self).pin_count(guard.id) == 0 ==> final(self).available(),
            final(self).unpinned() == old(self).unpinned() + (if final(self).pin_count(guard.id)
                == 0 {
                1nat
            } else {
                0nat
            }),
            final(self).available() == (final(self).unpinned() > 0),
            forall|g: PinGuard| #[trigger]
                old(self).pinned_by(&g) && (g.id != guard.id || final(self).pin_count(guard.id)
                    > 0) ==> final(self).pinned_by(&g),
            final(self).disk_pages() == old(self).disk_pages(),
            final(self).depth() == old(self).depth(),
            final(self).clock() == old(self).clock(),
            final(self).accesses() == old(self).accesses().insert(
                guard.id,
                Access {
                    history: old(self).accesses()[guard.id].history,
                    evictable: final(self).pin_count(guard.id) == 0,
                },
            ),
    {
        let i = guard.frame;
        proof {
            self.lemma_frame(i as int);
            self.lemma_pages();
        }
        self.frames[i].pin = self.frames[i].pin - 1;
        let unpinned = self.frames[i].pin == 0;
        self.replacer.set_evictable(guard.id, unpinned);
        proof {
            self.lemma_repinned(old(self), i as int);
            self.lemma_unpinned();
            assert(self.pages() =~= old(self).pages());
            if old(self).available() {
                let j = choose|j: int|
                    0 <= j < old(self).frames@.len() && (#[trigger] old(self).frames@[j]).pin
                        == 0;
                assert(self.frames@[j].pin == 0);
            }
            if unpinned {
                assert(self.frames@[i as int].pin == 0);
            }
        }
    }

    /// The bytes of a pinned page.
    pub fn read(&self, guard: &PinGuard) -> (data: &PageBuf)
        requires
            self.wf(),
            self.pinned_by(guard),
        ensures
            data@ == self.pages()[guard.id as int],
            is_page(data@),
    {
        proof {
            self.lemma_frame(guard.frame as int);
        }
        &self.frames[guard.frame].data
    }

    /// Replaces the bytes of a pinned page and marks it dirty.
    pub fn write(&mut self, guard: &PinGuard, data: &[u8])
        requires
            old(self).wf(),
            old(self).pinned_by(guard),
            data@.len() == PAGE_SIZE,
        ensures
            final(self).wf(),
            final(self).pinned_by(guard),
            final(self).pages() == old(self).pages().update(guard.id as int, data@),
            final(self).next_id() == old(self).next_id(),
            final(self).pool_size() == old(self).pool_size(),
            final(self).available() == old(self).available(),
            forall|p: PageId| final(self).pin_count(p) == old(self).pin_count(p),
            forall|p: PageId| final(self).resident(p) == old(self).resident(p),
            forall|p: PageId|
                final(self).resident(p) ==> final(self).frame_of(p) == old(self).frame_of(p),
            final(self).unnoted(old(self)),
            final(self).unpinned() == old(self).unpinned(),
            final(self).disk_pages() == old(self).disk_pages(),
            final(self).keeps_guards(old(self)),
    {
        let i = guard.frame;
        self.put(i, data);
    }

    /// Replaces the bytes of the page in frame `i` and marks it dirty.
    fn put(&mut self, i: usize, data: &[u8])
        requires
            old(self).wf(),
            i < old(self).frames@.len(),
            old(self).frames@[i as int].id != NO_PAGE,
            data@.len() == PAGE_SIZE,
        ensures
            final(self).wf(),
            final(self).frames@.len() == old(self).frames@.len(),
            final(self).frames@[i as int].id == old(self).frames@[i as int].id,
            final(self).frames@[i as int].pin == old(self).frames@[i as int].pin,
            final(self).pages() == old(self).pages().update(
                old(self).frames@[i as int].id as int,
                data@,
            ),
            final(self).next_id() == old(self).next_id(),
            final(self).pool_size() == old(self).pool_size(),
            final(self).available() == old(self).available(),
            forall|p: PageId| final(self).pin_count(p) == old(self).pin_count(p),
            forall|p: PageId| final(self).resident(p) == old(self).resident(p),
            forall|p: PageId|
                final(self).resident(p) ==> final(self).frame_of(p) == old(self).frame_of(p),
            final(self).unnoted(old(self)),
            final(self).has_free() == old(self).has_free(),
            final(self).unpinned() == old(self).unpinned(),
            final(self).disk_pages() == old(self).disk_pages(),
    {
        proof {
            self.lemma_frame(i as int);
            self.lemma_pages();
        }
        self.frames[i].data = slice_to_vec(data);
        self.frames[i].dirty = true;
        proof {
            let before = old(self);
            let id = before.frames@[i as int].id;
            assert(self.replacer@ =~= before.replacer@.insert(
                id,
                Access {
                    history: before.replacer@[id].history,
                    evictable: self.frames@[i as int].pin == 0,
                },
            ));
            self.lemma_repinned(before, i as int);
            if before.available() {
                let j = choose|j: int|
                    0 <= j < before.frames@.len() && (#[trigger] before.frames@[j]).pin == 0;
                assert(self.frames@[j].pin == 0);
            }
            if self.available() {
                let j = choose|j: int|
                    0 <= j < self.frames@.len() && (#[trigger] self.frames@[j]).pin == 0;
                assert(before.frames@[j].pin == 0);
            }
            if before.has_free() {
                let j = choose|j: int|
                    0 <= j < before.frames@.len() && (#[trigger] before.frames@[j]).id
                        == NO_PAGE;
                assert(self.frames@[j].id == NO_PAGE);
            }
            if self.has_free() {
                let j = choose|j: int|
                    0 <= j < self.frames@.len() && (#[trigger] self.frames@[j]).id == NO_PAGE;
                assert(before.frames@[j].id == NO_PAGE);
            }
        }
    }

    /// Whether this cache is `before` but for the content of pages and the
    /// next page id: the same pool, the same pins, as much room.
    pub open spec fn steady(&self, before: &PageCache) -> bool {
        &&& self.wf()
        &&& self.pool_size() == before.pool_size()
        &&& self.pages().len() == before.pages().len()
        &&& self.available() == before.available()
        &&& self.unpinned() == before.unpinned()
        &&& forall|p: PageId| self.pin_count(p) == before.pin_count(p)
        &&& self.keeps_guards(before)
    }

    /// Allocates the next page id and pins the new page, zeroed.
    pub fn new_page(&mut self) -> (r: Result<PinGuard, Error>)
        requires
            old(self).wf(),
        ensures
            final(self).wf(),
            final(self).pool_size() == old(self).pool_size(),
            forall|p: PageId|
                p != old(self).next_id() ==> final(self).pin_count(p) == old(self).pin_count(p),
            forall|p: PageId|
                old(self).resident(p) && old(self).pin_count(p) > 0 ==> final(self).resident(p)
                    && final(self).frame_of(p) == old(self).frame_of(p),
            final(self).settled(old(self)),
            final(self).keeps_guards(old(self)),
            match r {
                Ok(guard) => {
                    &&& guard.id == old(self).next_id()
                    &&& final(self).next_id() == old(self).next_id() + 1
                    &&& final(self).pages() == old(self).pages().update(
                        guard.id as int,
                        zero_page(),
                    )
                    &&& final(self).pinned_by(&guard)
                    &&& guard.frame == final(self).frame_of(guard.id)
                    &&& final(self).pin_count(guard.id) == old(self).pin_count(guard.id) + 1
                    &&& final(self).loaded(old(self), guard.id, false)
                    &&& final(self).unpinned() + (if old(self).pin_count(guard.id) == 0 {
                        1nat
                    } else {
                        0nat
                    }) == old(self).unpinned()
                    &&& final(self).available() == (final(self).unpinned() > 0)
                },
                Err(e) => {
                    &&& final(self).steady(old(self))
                    &&& final(self).pages() == old(self).pages()
                    &&& final(self).next_id() == old(self).next_id()
                    &&& e == (if old(self).next_id() < old(self).pages().len() {
                        Error::OutOfMemory
                    } else {
                        Error::Disk
                    })
                    &&& if old(self).resident(old(self).next_id() as PageId) {
                        final(self).loaded(old(self), old(self).next_id() as PageId, false)
                    } else {
                        final(self).unnoted(old(self))
                    }
                },
            },
            r is Ok <==> old(self).next_id() < old(self).pages().len() && (if old(self).resident(
                old(self).next_id() as PageId,
            ) {
                old(self).pin_count(old(self).next_id() as PageId) < u32::MAX
            } else {
                old(self).available()
            }),
    {
        let id = self.next_id;
        proof {
            self.lemma_pages();
        }
        let i = match self.load(id) {
            Ok(i) => i,
            Err(e) => {
                return Err(e);
            },
        };
        proof {
            self.lemma_frame(i as int);
            self.lemma_pages();
        }
        if self.frames[i].pin == u32::MAX {
            return Err(Error::OutOfMemory);
        }
        let zeros = new_page_buf();
        self.put(i, zeros.as_slice());
        let ghost mid = *self;
        proof {
            self.lemma_frame(i as int);
        }
        self.frames[i].pin = self.frames[i].pin + 1;
        self.replacer.set_evictable(id, false);
        self.next_id = id + 1;
        proof {
            self.lemma_reflagged(&mid, old(self), id, old(self).pin_count(id) == 0, false);
            self.lemma_repinned(&mid, i as int);
            self.lemma_unpinned();
            assert(self.holds(id, i as int));
            assert(self.pages() =~= old(self).pages().update(id as int, zero_page()));
            assert forall|p: PageId|
                old(self).resident(p) && old(self).pin_count(p) > 0 implies self.resident(p)
                && self.frame_of(p) == old(self).frame_of(p) by {
                assert(mid.resident(p));
            }
        }
        Ok(PinGuard { id, frame: i })
    }

    /// Allocates the next page id and zeroes the new page, without pinning it.
    pub fn create_page(&mut self) -> (r: Result<PageId, Error>)
        requires
            old(self).wf(),
        ensures
            final(self).steady(old(self)),
            final(self).settled(old(self)),
            match r {
                Ok(id) => {
                    &&& id == old(self).next_id()
                    &&& final(self).next_id() == old(self).next_id() + 1
                    &&& final(self).pages() == old(self).pages().update(id as int, zero_page())
                    &&& final(self).loaded(old(self), id, old(self).pin_count(id) == 0)
                },
                Err(e) => {
                    &&& final(self).pages() == old(self).pages()
                    &&& final(self).next_id() == old(self).next_id()
                    &&& e == (if old(self).next_id() < old(self).pages().len() {
                        Error::OutOfMemory
                    } else {
                        Error::Disk
                    })
                    &&& final(self).unnoted(old(self))
                },
            },
            r is Ok <==> old(self).next_id() < old(self).pages().len() && (old(self).resident(
                old(self).next_id() as PageId,
            ) || old(self).available()),
    {
        let id = self.next_id;
        proof {
            self.lemma_pages();
        }
        let i = match self.load(id) {
            Ok(i) => i,
            Err(e) => {
                return Err(e);
            },
        };
        proof {
            self.lemma_pages();
        }
        let zeros = new_page_buf();
        self.put(i, zeros.as_slice());
        proof {
            self.lemma_pages();
        }
        self.bump();
        Ok(id)
    }

    /// Counts the next page id as handed out.
    fn bump(&mut self)
        requires
            old(self).wf(),
            old(self).next_id() < old(self).pages().len(),
        ensures
            final(self).steady(old(self)),
            final(self).unnoted(old(self)),
            final(self).next_id() == old(self).next_id() + 1,
            final(self).pages() == old(self).pages(),
            final(self).disk_pages() == old(self).disk_pages(),
            forall|p: PageId| final(self).resident(p) == old(self).resident(p),
            forall|p: PageId|
                final(self).resident(p) ==> final(self).frame_of(p) == old(self).frame_of(p),
    {
        proof {
            self.lemma_pages();
        }
        self.next_id = self.next_id + 1;
        proof {
            let before = old(self);
            assert(self.frames@ == before.frames@);
            assert forall|p: PageId| self.resident(p) == before.resident(p) by {
                if self.resident(p) {
                    assert(before.holds(p, self.frame_of(p)));
                }
                if before.resident(p) {
                    assert(self.holds(p, before.frame_of(p)));
                }
            }
            assert(self.wf());
            assert forall|p: PageId| self.resident(p) implies self.frame_of(p)
                == before.frame_of(p) by {
                let j = self.frame_of(p);
                assert(self.holds(p, j));
                before.lemma_frame(j);
            }
            assert(self.pages() =~= before.pages());
        }
    }

    /// A copy of the bytes of page `id`, which is brought in if it is not
    /// resident and is left unpinned.
    pub fn read_page(&mut self, id: PageId) -> (r: Result<PageBuf, Error>)
        requires
            old(self).wf(),
        ensures
            final(self).steady(old(self)),
            final(self).settled(old(self)),
            final(self).pages() == old(self).pages(),
            final(self).next_id() == old(self).next_id(),
            match r {
                Ok(data) => 0 <= id < old(self).pages().len() && data@ == old(self).pages()[id as int]
                    && is_page(data@) && final(self).loaded(
                    old(self),
                    id,
                    old(self).pin_count(id) == 0,
                ),
                Err(e) => e == (if 0 <= id < old(self).pages().len() {
                    Error::OutOfMemory
                } else {
                    Error::Disk
                }) && final(self).unnoted(old(self)),
            },
            r is Ok <==> 0 <= id < old(self).pages().len() && (old(self).resident(id) || old(
                self,
            ).available()),
    {
        proof {
            self.lemma_pages();
        }
        let i = match self.load(id) {
            Ok(i) => i,
            Err(e) => {
                return Err(e);
            },
        };
        proof {
            self.lemma_frame(i as int);
            self.lemma_pages();
        }
        Ok(slice_to_vec(self.frames[i].data.as_slice()))
    }

    /// Replaces the bytes of page `id`, which is brought in if it is not
    /// resident and is left unpinned and dirty.
    pub fn write_page(&mut self, id: PageId, data: &[u8]) -> (r: Result<(), Error>)
        requires
            old(self).wf(),
            data@.len() == PAGE_SIZE,
        ensures
            final(self).steady(old(self)),
            final(self).settled(old(self)),
            final(self).next_id() == old(self).next_id(),
            match r {
                Ok(_) => 0 <= id < old(self).pages().len() && final(self).pages() == old(
                    self,
                ).pages().update(id as int, data@) && final(self).loaded(
                    old(self),
                    id,
                    old(self).pin_count(id) == 0,
                ),
                Err(e) => final(self).pages() == old(self).pages() && e == (if 0 <= id < old(
                    self,
                ).pages().len() {
                    Error::OutOfMemory
                } else {
                    Error::Disk
                }) && final(self).unnoted(old(self)),
            },
            r is Ok <==> 0 <= id < old(self).pages().len() && (old(self).resident(id) || old(
                self,
            ).available()),
    {
        proof {
            self.lemma_pages();
        }
        let i = match self.load(id) {
            Ok(i) => i,
            Err(e) => {
                return Err(e);
            },
        };
        proof {
            self.lemma_pages();
        }
        self.put(i, data);
        Ok(())
    }

    /// Writes the page in frame `i` back if it is dirty.
    fn flush_frame(&mut self, i: usize)
        requires
            old(self).wf(),
            i < old(self).frames@.len(),
        ensures
            final(self).steady(old(self)),
            final(self).pages() == old(self).pages(),
            final(self).next_id() == old(self).next_id(),
            final(self).frames@.len() == old(self).frames@.len(),
            forall|j: int|
                0 <= j < final(self).frames@.len() ==> (#[trigger] final(self).frames@[j]).id
                    == old(self).frames@[j].id && (final(self).frames@[j].dirty ==> old(
                    self,
                ).frames@[j].dirty),
            !final(self).frames@[i as int].dirty,
            final(self).unnoted(old(self)),
            forall|p: PageId| final(self).resident(p) == old(self).resident(p),
            forall|p: int|
                0 <= p < old(self).pages().len() ==> #[trigger] final(self).disk_pages()[p] == (
                if p == old(self).frames@[i as int].id {
                    old(self).pages()[p]
                } else {
                    old(self).disk_pages()[p]
                }),
    {
        proof {
            self.lemma_pages();
            self.disk.lemma_pages();
        }
        if self.frames[i].id != NO_PAGE && self.frames[i].dirty {
            proof {
                self.lemma_frame(i as int);
            }
            let written = self.disk.write_page(self.frames[i].id, self.frames[i].data.as_slice());
            assert(written is Ok);
            self.frames[i].dirty = false;
            proof {
                let before = old(self);
                self.lemma_unpinned_one(before, i as int);
                assert forall|p: PageId| self.resident(p) == before.resident(p) by {
                    if self.resident(p) {
                        assert(before.holds(p, self.frame_of(p)));
                    }
                    if before.resident(p) {
                        assert(self.holds(p, before.frame_of(p)));
                    }
                }
                assert(self.wf());
                assert forall|p: PageId| self.resident(p) implies self.frame_of(p)
                    == before.frame_of(p) by {
                    let j = self.frame_of(p);
                    assert(self.holds(p, j));
                    before.lemma_frame(j);
                }
                assert(self.pages() =~= before.pages()) by {
                    assert forall|p: int| 0 <= p < self.pages().len() implies self.pages()[p]
                        == before.pages()[p] by {
                        if before.resident(p as PageId) {
                            let j = before.frame_of(p as PageId);
                            assert(before.holds(p as PageId, j));
                        }
                    }
                }
                assert(self.available() == before.available()) by {
                    if before.available() {
                        let j = choose|j: int|
                            0 <= j < before.frames@.len() && (#[trigger] before.frames@[j]).pin
                                == 0;
                        assert(self.frames@[j].pin == 0);
                    }
                    if self.available() {
                        let j = choose|j: int|
                            0 <= j < self.frames@.len() && (#[trigger] self.frames@[j]).pin == 0;
                        assert(before.frames@[j].pin == 0);
                    }
                }
            }
        } else {
            proof {
                if self.frames@[i as int].id != NO_PAGE {
                    self.lemma_frame(i as int);
                }
            }
        }
    }

    /// Writes page `id` back to the store if it is resident and dirty.
    pub fn flush_page(&mut self, id: PageId)
        requires
            old(self).wf(),
        ensures
            final(self).steady(old(self)),
            final(self).pages() == old(self).pages(),
            final(self).next_id() == old(self).next_id(),
            final(self).unnoted(old(self)),
            forall|p: PageId| final(self).resident(p) == old(self).resident(p),
            forall|p: int|
                0 <= p < old(self).pages().len() ==> #[trigger] final(self).disk_pages()[p] == (
                if p == id {
                    old(self).pages()[p]
                } else {
                    old(self).disk_pages()[p]
                }),
    {
        proof {
            self.lemma_pages();
        }
        match self.find_frame(id) {
            Some(i) => {
                self.flush_frame(i);
            },
            None => {},
        }
    }

    /// Writes every dirty page back: afterwards the store holds what the
    /// cache answers.
    pub fn flush_all(&mut self)
        requires
            old(self).wf(),
        ensures
            final(self).steady(old(self)),
            final(self).pages() == old(self).pages(),
            final(self).next_id() == old(self).next_id(),
            final(self).disk_pages() == final(self).pages(),
            final(self).unnoted(old(self)),
            forall|p: PageId| final(self).resident(p) == old(self).resident(p),
    {
        let mut i: usize = 0;
        while i < self.frames.len()
            invariant
                i <= self.frames@.len(),
                self.steady(old(self)),
                self.unnoted(old(self)),
                self.pages() == old(self).pages(),
                self.next_id() == old(self).next_id(),
                self.frames@.len() == old(self).frames@.len(),
                forall|p: PageId| self.resident(p) == old(self).resident(p),
                forall|j: int| 0 <= j < i ==> !(#[trigger] self.frames@[j]).dirty,
            decreases self.frames@.len() - i,
        {
            self.flush_frame(i);
            i = i + 1;
        }
        proof {
            self.lemma_pages();
            assert forall|p: int| 0 <= p < self.pages().len() implies self.pages()[p]
                == self.disk_pages()[p] by {
                if self.resident(p as PageId) {
                    let j = self.frame_of(p as PageId);
                    assert(self.holds(p as PageId, j));
                }
            }
            assert(self.disk_pages() =~= self.pages());
        }
    }

    /// Takes page `id` out of the pool unless it is pinned, and says whether it
    /// is out. What the page holds is written back first; its id is not
    /// handed out again.
    pub fn remove_page(&mut self, id: PageId) -> (removed: bool)
        requires
            old(self).wf(),
        ensures
            final(self).wf(),
            final(self).pool_size() == old(self).pool_size(),
            final(self).pages() == old(self).pages(),
            final(self).next_id() == old(self).next_id(),
            forall|p: PageId| final(self).pin_count(p) == old(self).pin_count(p),
            final(self).available() == old(self).available(),
            final(self).unpinned() == old(self).unpinned(),
            final(self).keeps_guards(old(self)),
            final(self).disk_pages().len() == old(self).disk_pages().len(),
            forall|p: int|
                0 <= p < old(self).pages().len() ==> #[trigger] final(self).disk_pages()[p] == (
                if p == id && removed {
                    old(self).pages()[p]
                } else {
                    old(self).disk_pages()[p]
                }),
            removed == (old(self).pin_count(id) == 0),
            removed ==> !final(self).resident(id),
            removed && old(self).resident(id) ==> final(self).has_free(),
            !removed ==> final(self).resident(id),
            final(self).depth() == old(self).depth(),
            final(self).clock() == old(self).clock(),
            final(self).accesses() == (if removed {
                old(self).accesses().remove(id)
            } else {
                old(self).accesses()
            }),
            forall|p: PageId| p != id ==> final(self).resident(p) == old(self).resident(p),
            forall|p: PageId|
                final(self).resident(p) ==> final(self).frame_of(p) == old(self).frame_of(p),
    {
        proof {
            self.lemma_pages();
        }
        match self.find_frame(id) {
            Some(i) => {
                proof {
                    self.lemma_frame(i as int);
                }
                if self.frames[i].pin > 0 {
                    return false;
                }
                self.flush_frame(i);
                let ghost mid = *self;
                proof {
                    self.lemma_frame(i as int);
                }
                self.frames.set(i, Frame { id: NO_PAGE, data: new_page_buf(), pin: 0, dirty: false });
                self.replacer.remove(id);
                proof {
                    assert forall|j: int| 0 <= j < self.frames@.len() && j != i implies (
                    #[trigger] self.frames@[j]) == mid.frames@[j] by {}
                    assert forall|p: PageId| #[trigger]
                        self.replacer@.contains_key(p) implies self.resident(p) by {
                        assert(mid.resident(p));
                        let j = mid.frame_of(p);
                        assert(mid.holds(p, j));
                        assert(self.holds(p, j));
                    }
                    assert(self.wf());
                    self.lemma_changed(&mid, i as int);
                    self.lemma_unpinned_one(&mid, i as int);
                    self.lemma_unpinned();
                    old(self).lemma_unpinned();
                    assert(!self.resident(id)) by {
                        if self.resident(id) {
                            let j = self.frame_of(id);
                            assert(self.holds(id, j));
                            assert(mid.holds(id, j));
                        }
                    }
                    mid.lemma_pages();
                    assert(self.pages() =~= mid.pages());
                    assert(self.frames@[i as int].pin == 0);
                    assert forall|p: PageId| self.pin_count(p) == mid.pin_count(p) by {
                        if p == NO_PAGE {
                            if self.resident(p) {
                                assert(self.holds(p, self.frame_of(p)));
                            }
                            if mid.resident(p) {
                                assert(mid.holds(p, mid.frame_of(p)));
                            }
                        }
                    }
                    assert forall|p: PageId| p != id implies self.resident(p) == old(
                        self,
                    ).resident(p) by {
                        if p == NO_PAGE {
                            if self.resident(p) {
                                assert(self.holds(p, self.frame_of(p)));
                            }
                            if mid.resident(p) {
                                assert(mid.holds(p, mid.frame_of(p)));
                            }
                        }
                    }
                }
                true
            },
            None => true,
        }
    }
}

} // verus!
