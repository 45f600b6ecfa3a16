//! The backing store: pages addressed by id, read and written whole.

use vstd::prelude::*;
use vstd::slice::slice_to_vec;
use crate::page::{is_page, new_page_buf, zero_page, PageBuf, PageId, PAGE_SIZE};

verus! {

/// The one error of the backing store: the page cannot be read or written.
#[derive(PartialEq, Eq, Structural, Clone, Copy, Debug)]
pub struct DiskError;

/// A backing store held in memory, with room for a fixed number of pages.
pub struct Memory {
    pages: Vec<PageBuf>,
}

impl Memory {
    /// The pages of the store, by id.
    pub closed spec fn view(&self) -> Seq<Seq<u8>> {
        Seq::new(self.pages@.len(), |i: int| self.pages@[i]@)
    }

    /// The store's invariant: every page has the page size, and every id fits
    /// a `PageId`.
    pub closed spec fn wf(&self) -> bool {
        &&& self.pages@.len() <= i32::MAX
        &&& forall|i: int| 0 <= i < self.pages@.len() ==> is_page(#[trigger] self.pages@[i]@)
    }

    /// Every page of a well-formed store has the page size.
    pub proof fn lemma_pages(&self)
        requires
            self.wf(),
        ensures
            self@.len() <= i32::MAX,
            forall|i: int| 0 <= i < self@.len() ==> is_page(#[trigger] self@[i]),
    {
    }

    /// A zeroed store of `size` bytes: as many whole pages as fit in `size`,
    /// and in a `PageId`.
    pub fn new(size: usize) -> (disk: Memory)
        ensures
            disk.wf(),
            disk@.len() == (if size / PAGE_SIZE <= i32::MAX {
                size as int / PAGE_SIZE as int
            } else {
                i32::MAX as int
            }),
            forall|i: int| 0 <= i < disk@.len() ==> #[trigger] disk@[i] == zero_page(),
    {
        let count = if size / PAGE_SIZE <= i32::MAX as usize {
            size / PAGE_SIZE
        } else {
            i32::MAX as usize
        };
        let mut pages: Vec<PageBuf> = Vec::new();
        let mut i: usize = 0;
        while i < count
            invariant
                i <= count,
                count <= i32::MAX,
                pages@.len() == i,
                forall|j: int| 0 <= j < i ==> (#[trigger] pages@[j])@ == zero_page(),
            decreases count - i,
        {
            pages.push(new_page_buf());
            i = i + 1;
        }
        Memory { pages }
    }

    /// Number of pages the store has room for.
    pub fn capacity(&self) -> (n: usize)
        requires
            self.wf(),
        ensures
            n == self@.len(),
            n <= i32::MAX,
    {
        self.pages.len()
    }

    /// Reads page `page_id`. A page past the end of the store reads as zeros;
    /// a negative id is an error.
    pub fn read_page(&self, page_id: PageId) -> (r: Result<PageBuf, DiskError>)
        requires
            self.wf(),
        ensures
            page_id < 0 ==> r is Err,
            0 <= page_id < self@.len() ==> r is Ok && r->Ok_0@ == self@[page_id as int],
            page_id >= self@.len() ==> r is Ok && r->Ok_0@ == zero_page(),
    {
        if page_id < 0 {
            Err(DiskError)
        } else if (page_id as usize) < self.pages.len() {
            Ok(slice_to_vec(self.pages[page_id as usize].as_slice()))
        } else {
            Ok(new_page_buf())
        }
    }

    /// Writes `data` as page `page_id`. An id outside the store is an error
    /// and writes nothing.
    pub fn write_page(&mut self, page_id: PageId, data: &[u8]) -> (r: Result<(), DiskError>)
        requires
            old(self).wf(),
            data@.len() == PAGE_SIZE,
        ensures
            final(self).wf(),
            r is Ok <==> 0 <= page_id < old(self)@.len(),
            r is Ok ==> final(self)@ == old(self)@.update(page_id as int, data@),
            r is Err ==> final(self)@ == old(self)@,
    {
        if page_id < 0 || page_id as usize >= self.pages.len() {
            return Err(DiskError);
        }
        let page = slice_to_vec(data);
        self.pages.set(page_id as usize, page);
        assert(self@ =~= old(self)@.update(page_id as int, data@));
        Ok(())
    }
}

} // verus!
