//! The directory page of the extendible hash index.
//!
//! The page holds the global depth (a big-endian `u32`), then one local
//! depth byte for each of the `DIRECTORY_SIZE` slots, then one big-endian
//! page id for each slot. Only the first `2^global_depth` slots are in use.

use vstd::prelude::*;
use crate::codec::{
    i32_be, i32_from_be, lemma_i32_round_trip, lemma_u32_round_trip, read_i32,
    read_u32, u32_be, u32_from_be, write_i32, write_u32,
};
use crate::page::{is_page, new_page_buf, zero_page, PageBuf, PageId, PAGE_SIZE};

verus! {

/// Number of slots that a directory page has room for.
pub const DIRECTORY_SIZE: usize = 512;

/// The greatest global depth: `2^MAX_DEPTH == DIRECTORY_SIZE`.
pub const MAX_DEPTH: u32 = 9;

/// Offset of the local depths in the page.
pub const LOCAL_DEPTHS_START: usize = 4;

/// Offset of the page ids in the page.
pub const PAGE_IDS_START: usize = 516;

/// Two to the power `n`, for the depths of a directory.
pub open spec fn pow2(n: nat) -> nat
    decreases n,
{
    if n == 0 {
        1
    } else {
        2 * pow2((n - 1) as nat)
    }
}

/// The powers of two of the depths of a directory.
pub proof fn lemma_pow2(n: nat)
    ensures
        pow2(n) >= 1,
        n <= 9 ==> pow2(n) <= 512,
        n < 9 ==> 2 * pow2(n) <= 512,
        pow2(n + 1) == 2 * pow2(n),
    decreases n,
{
    reveal_with_fuel(pow2, 11);
    if n > 0 {
        lemma_pow2((n - 1) as nat);
    }
}

/// Two to the power `n`.
pub fn pow2_of(n: u32) -> (p: usize)
    requires
        n <= MAX_DEPTH,
    ensures
        p == pow2(n as nat),
        1 <= p <= DIRECTORY_SIZE,
{
    let mut p: usize = 1;
    let mut i: u32 = 0;
    while i < n
        invariant
            i <= n,
            n <= MAX_DEPTH,
            p == pow2(i as nat),
        decreases n - i,
    {
        proof {
            lemma_pow2(i as nat);
        }
        p = p * 2;
        i = i + 1;
    }
    proof {
        lemma_pow2(n as nat);
    }
    p
}

/// The directory as held in memory.
#[derive(PartialEq, Eq, Clone, Debug)]
pub struct Directory {
    global_depth: u32,
    local_depths: Vec<u8>,
    page_ids: Vec<PageId>,
}

/// The mathematical content of a directory.
pub struct DirView {
    pub global_depth: u32,
    pub local_depths: Seq<u8>,
    pub page_ids: Seq<PageId>,
}

impl DirView {
    /// The directory's invariant: room for every slot, a global depth that
    /// the page has room for, and no slot in use deeper than the directory.
    pub open spec fn wf(self) -> bool {
        &&& self.local_depths.len() == DIRECTORY_SIZE
        &&& self.page_ids.len() == DIRECTORY_SIZE
        &&& self.global_depth <= MAX_DEPTH
        &&& forall|i: int|
            0 <= i < pow2(self.global_depth as nat) ==> #[trigger] self.local_depths[i]
                <= self.global_depth
    }

    /// Number of slots in use.
    pub open spec fn size(self) -> nat {
        pow2(self.global_depth as nat)
    }

    /// The slot that a key with hash `hash` belongs to.
    pub open spec fn index_of(self, hash: u64) -> int {
        hash as int % self.size() as int
    }

    /// The directory with its size doubled: the new upper half mirrors the
    /// lower half.
    pub open spec fn doubled(self) -> DirView {
        DirView {
            global_depth: (self.global_depth + 1) as u32,
            local_depths: Seq::new(
                DIRECTORY_SIZE as nat,
                |i: int|
                    if self.size() <= i < 2 * self.size() {
                        self.local_depths[i - self.size()]
                    } else {
                        self.local_depths[i]
                    },
            ),
            page_ids: Seq::new(
                DIRECTORY_SIZE as nat,
                |i: int|
                    if self.size() <= i < 2 * self.size() {
                        self.page_ids[i - self.size()]
                    } else {
                        self.page_ids[i]
                    },
            ),
        }
    }

    /// The directory with slot `i` pointing at `page`, at local depth `depth`.
    pub open spec fn with_slot(self, i: int, page: PageId, depth: u8) -> DirView {
        DirView {
            local_depths: self.local_depths.update(i, depth),
            page_ids: self.page_ids.update(i, page),
            ..self
        }
    }

    /// The directory after the bucket on page `was` was split at local depth
    /// `depth`: every slot in use that pointed at `was` points at `upper` if
    /// bit `depth` of its index is set, at `lower` if not, one level deeper.
    pub open spec fn redirected(self, was: PageId, depth: u8, lower: PageId, upper: PageId)
        -> DirView {
        DirView {
            global_depth: self.global_depth,
            local_depths: Seq::new(
                DIRECTORY_SIZE as nat,
                |i: int|
                    if i < self.size() && self.page_ids[i] == was {
                        (depth + 1) as u8
                    } else {
                        self.local_depths[i]
                    },
            ),
            page_ids: Seq::new(
                DIRECTORY_SIZE as nat,
                |i: int|
                    if i < self.size() && self.page_ids[i] == was {
                        if (i / pow2(depth as nat) as int) % 2 == 1 {
                            upper
                        } else {
                            lower
                        }
                    } else {
                        self.page_ids[i]
                    },
            ),
        }
    }

    /// The bytes of the page that holds the directory.
    pub open spec fn encode(self) -> Seq<u8> {
        Seq::new(
            PAGE_SIZE as nat,
            |i: int|
                if i < 4 {
                    u32_be(self.global_depth)[i]
                } else if i < PAGE_IDS_START {
                    self.local_depths[i - 4]
                } else if i < PAGE_IDS_START + 4 * DIRECTORY_SIZE {
                    i32_be(self.page_ids[(i - PAGE_IDS_START) / 4])[(i - PAGE_IDS_START) % 4]
                } else {
                    0u8
                },
        )
    }

    /// The directory that `bytes` holds, as it reads.
    pub open spec fn raw(bytes: Seq<u8>) -> DirView {
        DirView {
            global_depth: u32_from_be(bytes.subrange(0, 4)),
            local_depths: bytes.subrange(4, PAGE_IDS_START as int),
            page_ids: Seq::new(
                DIRECTORY_SIZE as nat,
                |i: int| i32_from_be(bytes.subrange(PAGE_IDS_START + 4 * i, PAGE_IDS_START + 4 * i + 4)),
            ),
        }
    }

    /// The directory that a page holds, if it holds a well-formed one.
    pub open spec fn decode(bytes: Seq<u8>) -> Option<DirView> {
        if is_page(bytes) && Self::raw(bytes).wf() {
            Some(Self::raw(bytes))
        } else {
            None
        }
    }

    /// Decoding the page of a directory gives the directory back.
    pub proof fn lemma_round_trip(self)
        requires
            self.wf(),
        ensures
            is_page(self.encode()),
            Self::decode(self.encode()) == Some(self),
    {
        let e = self.encode();
        let r = Self::raw(e);
        lemma_u32_round_trip(self.global_depth);
        assert(e.subrange(0, 4) =~= u32_be(self.global_depth));
        assert(r.local_depths =~= self.local_depths);
        assert forall|i: int| 0 <= i < DIRECTORY_SIZE implies r.page_ids[i]
            == self.page_ids[i] by {
            lemma_i32_round_trip(self.page_ids[i]);
            assert(e.subrange(PAGE_IDS_START + 4 * i, PAGE_IDS_START + 4 * i + 4) =~= i32_be(
                self.page_ids[i],
            ));
        }
        assert(r.page_ids =~= self.page_ids);
    }

    /// A zeroed page holds the empty directory: depth 0, no bucket.
    pub proof fn lemma_zero_page()
        ensures
            Self::decode(zero_page()) == Some(
                DirView {
                    global_depth: 0,
                    local_depths: Seq::new(DIRECTORY_SIZE as nat, |i: int| 0u8),
                    page_ids: Seq::new(DIRECTORY_SIZE as nat, |i: int| 0i32),
                },
            ),
    {
        let z = zero_page();
        let r = Self::raw(z);
        assert(z.subrange(0, 4) =~= seq![0u8, 0u8, 0u8, 0u8]);
        assert(r.local_depths =~= Seq::new(DIRECTORY_SIZE as nat, |i: int| 0u8));
        assert forall|i: int| 0 <= i < DIRECTORY_SIZE implies r.page_ids[i] == 0i32 by {
            assert(z.subrange(PAGE_IDS_START + 4 * i, PAGE_IDS_START + 4 * i + 4) =~= seq![
                0u8,
                0u8,
                0u8,
                0u8,
            ]);
        }
        assert(r.page_ids =~= Seq::new(DIRECTORY_SIZE as nat, |i: int| 0i32));
        reveal_with_fuel(pow2, 2);
    }
}

impl Directory {
    /// The mathematical content of the directory.
    pub closed spec fn view(&self) -> DirView {
        DirView {
            global_depth: self.global_depth,
            local_depths: self.local_depths@,
            page_ids: self.page_ids@,
        }
    }

    /// Reads the directory that a page holds; `None` if the page holds none.
    pub fn from(buf: &PageBuf) -> (r: Option<Directory>)
        ensures
            match r {
                Some(dir) => DirView::decode(buf@) == Some(dir@) && dir@.wf(),
                None => DirView::decode(buf@).is_none(),
            },
    {
        if buf.len() != PAGE_SIZE {
            return None;
        }
        let global_depth = read_u32(buf.as_slice(), 0);
        if global_depth > MAX_DEPTH {
            return None;
        }
        let size = pow2_of(global_depth);
        let mut local_depths: Vec<u8> = Vec::new();
        let mut page_ids: Vec<PageId> = Vec::new();
        let mut i: usize = 0;
        while i < DIRECTORY_SIZE
            invariant
                i <= DIRECTORY_SIZE,
                buf.len() == PAGE_SIZE,
                global_depth == DirView::raw(buf@).global_depth,
                global_depth <= MAX_DEPTH,
                size == pow2(global_depth as nat),
                local_depths@ == buf@.subrange(4, 4 + i),
                page_ids@.len() == i,
                forall|j: int| 0 <= j < i ==> #[trigger] page_ids@[j] == DirView::raw(buf@).page_ids[j],
                forall|j: int| 0 <= j < i && j < size ==> #[trigger] local_depths@[j] <= global_depth,
            decreases DIRECTORY_SIZE - i,
        {
            let depth = buf[4 + i];
            if i < size && depth as u32 > global_depth {
                proof {
                    assert(DirView::raw(buf@).local_depths[i as int] == depth);
                }
                return None;
            }
            local_depths.push(depth);
            page_ids.push(read_i32(buf.as_slice(), PAGE_IDS_START + 4 * i));
            assert(local_depths@ =~= buf@.subrange(4, 4 + i + 1));
            i = i + 1;
        }
        proof {
            assert(page_ids@ =~= DirView::raw(buf@).page_ids);
        }
        Some(Directory { global_depth, local_depths, page_ids })
    }

    /// Lays the directory out on a fresh page.
    pub fn to_page(&self) -> (buf: PageBuf)
        requires
            self@.wf(),
        ensures
            buf@ == self@.encode(),
    {
        let mut buf = new_page_buf();
        proof {
            lemma_u32_round_trip(self.global_depth);
        }
        write_u32(&mut buf, 0, self.global_depth);
        let ghost header = buf@;
        let mut i: usize = 0;
        while i < DIRECTORY_SIZE
            invariant
                i <= DIRECTORY_SIZE,
                self@.wf(),
                buf.len() == PAGE_SIZE,
                forall|j: int|
                    0 <= j < PAGE_SIZE ==> #[trigger] buf@[j] == (if j < 4 {
                        u32_be(self.global_depth)[j]
                    } else if j < 4 + i {
                        self.local_depths@[j - 4]
                    } else if PAGE_IDS_START <= j < PAGE_IDS_START + 4 * i {
                        i32_be(self.page_ids@[(j - PAGE_IDS_START) / 4])[(j - PAGE_IDS_START) % 4]
                    } else {
                        0u8
                    }),
            decreases DIRECTORY_SIZE - i,
        {
            proof {
                lemma_i32_round_trip(self.page_ids@[i as int]);
            }
            buf.set(4 + i, self.local_depths[i]);
            write_i32(&mut buf, PAGE_IDS_START + 4 * i, self.page_ids[i]);
            i = i + 1;
        }
        assert(buf@ =~= self@.encode());
        buf
    }

    /// The global depth.
    pub fn global_depth(&self) -> (d: u32)
        ensures
            d == self@.global_depth,
    {
        self.global_depth
    }

    /// Number of slots in use.
    pub fn size(&self) -> (n: usize)
        requires
            self@.wf(),
        ensures
            n == self@.size(),
            1 <= n <= DIRECTORY_SIZE,
    {
        pow2_of(self.global_depth)
    }

    /// Mask of the hash bits that the directory looks at: `2^global_depth - 1`.
    pub fn global_depth_mask(&self) -> (m: usize)
        requires
            self@.wf(),
        ensures
            m == self@.size() - 1,
    {
        pow2_of(self.global_depth) - 1
    }

    /// The local depth of slot `i`.
    pub fn local_depth(&self, i: usize) -> (d: u8)
        requires
            self@.wf(),
            i < DIRECTORY_SIZE,
        ensures
            d == self@.local_depths[i as int],
    {
        self.local_depths[i]
    }

    /// Mask of the hash bits that the bucket of slot `i` looks at.
    pub fn local_depth_mask(&self, i: usize) -> (m: usize)
        requires
            self@.wf(),
            i < self@.size(),
        ensures
            m == pow2(self@.local_depths[i as int] as nat) - 1,
    {
        proof {
            lemma_pow2(self.global_depth as nat);
        }
        pow2_of(self.local_depths[i] as u32) - 1
    }

    /// The bit by which the bucket of slot `i` splits: `2^local_depth`.
    pub fn get_local_high_bit(&self, i: usize) -> (b: usize)
        requires
            self@.wf(),
            i < self@.size(),
        ensures
            b == pow2(self@.local_depths[i as int] as nat),
    {
        proof {
            lemma_pow2(self.global_depth as nat);
        }
        pow2_of(self.local_depths[i] as u32)
    }

    /// The slot that a key with hash `hash` belongs to.
    pub fn index_of(&self, hash: u64) -> (i: usize)
        requires
            self@.wf(),
        ensures
            i == self@.index_of(hash),
            i < self@.size(),
            i < DIRECTORY_SIZE,
    {
        let size = pow2_of(self.global_depth);
        (hash % (size as u64)) as usize
    }

    /// The page that slot `i` points at; 0 where it points at none.
    pub fn get(&self, i: usize) -> (page: PageId)
        requires
            self@.wf(),
            i < DIRECTORY_SIZE,
        ensures
            page == self@.page_ids[i as int],
    {
        self.page_ids[i]
    }

    /// Points slot `i` at `page`.
    pub fn insert(&mut self, i: usize, page: PageId)
        requires
            old(self)@.wf(),
            i < DIRECTORY_SIZE,
        ensures
            final(self)@ == old(self)@.with_slot(i as int, page, old(self)@.local_depths[i as int]),
            final(self)@.wf(),
    {
        self.page_ids.set(i, page);
        assert(self@.local_depths =~= old(self)@.local_depths.update(
            i as int,
            old(self)@.local_depths[i as int],
        ));
    }

    /// Doubles the directory: the new upper half mirrors the lower half.
    pub fn incr_global_depth(&mut self)
        requires
            old(self)@.wf(),
            old(self)@.global_depth < MAX_DEPTH,
        ensures
            final(self)@ == old(self)@.doubled(),
            final(self)@.wf(),
    {
        let size = pow2_of(self.global_depth);
        proof {
            lemma_pow2(self.global_depth as nat);
        }
        let mut i: usize = 0;
        while i < size
            invariant
                i <= size,
                size == pow2(old(self).global_depth as nat),
                2 * size <= DIRECTORY_SIZE,
                self.global_depth == old(self).global_depth,
                self.local_depths@.len() == DIRECTORY_SIZE,
                self.page_ids@.len() == DIRECTORY_SIZE,
                forall|j: int|
                    0 <= j < DIRECTORY_SIZE ==> #[trigger] self.local_depths@[j] == (if size <= j
                        < size + i {
                        old(self).local_depths@[j - size]
                    } else {
                        old(self).local_depths@[j]
                    }),
                forall|j: int|
                    0 <= j < DIRECTORY_SIZE ==> #[trigger] self.page_ids@[j] == (if size <= j < size
                        + i {
                        old(self).page_ids@[j - size]
                    } else {
                        old(self).page_ids@[j]
                    }),
            decreases size - i,
        {
            let depth = self.local_depths[i];
            let page = self.page_ids[i];
            self.local_depths.set(size + i, depth);
            self.page_ids.set(size + i, page);
            i = i + 1;
        }
        self.global_depth = self.global_depth + 1;
        proof {
            assert(self@.local_depths =~= old(self)@.doubled().local_depths);
            assert(self@.page_ids =~= old(self)@.doubled().page_ids);
        }
    }

    /// Takes in the split of the bucket on page `was` at local depth `depth`:
    /// see `DirView::redirected`.
    pub fn redirect(&mut self, was: PageId, depth: u8, lower: PageId, upper: PageId)
        requires
            old(self)@.wf(),
            depth < old(self)@.global_depth,
        ensures
            final(self)@ == old(self)@.redirected(was, depth, lower, upper),
            final(self)@.wf(),
    {
        let size = pow2_of(self.global_depth);
        let bit = pow2_of(depth as u32);
        let mut i: usize = 0;
        while i < size
            invariant
                i <= size,
                size == pow2(old(self).global_depth as nat),
                size <= DIRECTORY_SIZE,
                bit == pow2(depth as nat),
                bit >= 1,
                depth < old(self).global_depth,
                old(self).global_depth <= MAX_DEPTH,
                self.global_depth == old(self).global_depth,
                self.local_depths@.len() == DIRECTORY_SIZE,
                self.page_ids@.len() == DIRECTORY_SIZE,
                forall|j: int|
                    0 <= j < DIRECTORY_SIZE ==> #[trigger] self.local_depths@[j] == (if j < i
                        && old(self).page_ids@[j] == was {
                        (depth + 1) as u8
                    } else {
                        old(self).local_depths@[j]
                    }),
                forall|j: int|
                    0 <= j < DIRECTORY_SIZE ==> #[trigger] self.page_ids@[j] == (if j < i && old(
                        self,
                    ).page_ids@[j] == was {
                        if (j / bit as int) % 2 == 1 {
                            upper
                        } else {
                            lower
                        }
                    } else {
                        old(self).page_ids@[j]
                    }),
            decreases size - i,
        {
            if self.page_ids[i] == was {
                let page = if (i / bit) % 2 == 1 {
                    upper
                } else {
                    lower
                };
                self.page_ids.set(i, page);
                self.local_depths.set(i, depth + 1);
            }
            i = i + 1;
        }
        proof {
            assert(self@.local_depths =~= old(self)@.redirected(
                was,
                depth,
                lower,
                upper,
            ).local_depths);
            assert(self@.page_ids =~= old(self)@.redirected(was, depth, lower, upper).page_ids);
        }
    }
}

} // verus!
