//! Pages and page identifiers.

use vstd::prelude::*;

verus! {

/// Identifies a page. Non-negative ids address the backing store at
/// `id * PAGE_SIZE`; `NO_PAGE` stands for "no page".
pub type PageId = i32;

/// The contents of one page.
pub type PageBuf = Vec<u8>;

/// Size of every page in bytes.
pub const PAGE_SIZE: usize = 4096;

/// The null page pointer.
pub const NO_PAGE: PageId = -1;

/// A page-sized sequence of zero bytes.
pub open spec fn zero_page() -> Seq<u8> {
    Seq::new(PAGE_SIZE as nat, |i: int| 0u8)
}

/// Whether `s` has the length of a page.
pub open spec fn is_page(s: Seq<u8>) -> bool {
    s.len() == PAGE_SIZE
}

/// Returns a fresh page filled with zeros.
pub fn new_page_buf() -> (buf: PageBuf)
    ensures
        buf@ == zero_page(),
{
    let mut buf: Vec<u8> = Vec::new();
    let mut i: usize = 0;
    while i < PAGE_SIZE
        invariant
            i <= PAGE_SIZE,
            buf@.len() == i,
            forall|j: int| 0 <= j < i ==> buf@[j] == 0u8,
        decreases PAGE_SIZE - i,
    {
        buf.push(0u8);
        i = i + 1;
    }
    assert(buf@ =~= zero_page());
    buf
}

} // verus!
