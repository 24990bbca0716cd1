//! The page pool: every page of the store, addressed by page identifier.
//!
//! A page handed out by the pool is a shared, immutable snapshot.  Writing
//! a page replaces the pool's copy; snapshots taken earlier keep the bytes
//! they were taken with.

use std::rc::Rc;
use vstd::prelude::*;
use crate::disk::{PageId, PAGE_SIZE};

verus! {

/// Why the pool could not hand out a page.
#[derive(Clone, Copy, Debug, PartialEq, Eq, Structural)]
pub enum Error {
    /// Every page the pool may hold is in use.
    NoFreeBuffer,
    /// No page with the given identifier exists.
    PageNotFound,
}

/// A page together with its identifier.
pub struct Buffer {
    pub page_id: PageId,
    pub page: Vec<u8>,
}

/// The pool.  Its view is the sequence of its pages' bytes, indexed by
/// page identifier.
pub struct BufferPoolManager {
    pages: Vec<Rc<Buffer>>,
    pool_size: usize,
}

impl View for BufferPoolManager {
    type V = Seq<Seq<u8>>;

    closed spec fn view(&self) -> Seq<Seq<u8>> {
        Seq::new(self.pages@.len(), |i: int| self.pages@[i].page@)
    }
}

/// A second handle on the same snapshot.
///
/// Trusted: `Rc::clone` returns a pointer to the same allocation, so the
/// value behind it is the one behind `buffer`.
#[verifier::external_body]
fn share(buffer: &Rc<Buffer>) -> (r: Rc<Buffer>)
    ensures
        r == *buffer,
{
    Rc::clone(buffer)
}

impl BufferPoolManager {
    /// The pool is consistent: it holds no more pages than it may, every
    /// page has `PAGE_SIZE` bytes and knows its own identifier.
    pub closed spec fn wf(&self) -> bool {
        &&& self.pages@.len() <= self.pool_size
        &&& forall|i: int|
            0 <= i < self.pages@.len() ==> (#[trigger] self.pages@[i]).page_id.0 == i
                && self.pages@[i].page@.len() == PAGE_SIZE
    }

    /// The largest number of pages the pool may hold.
    pub closed spec fn spec_pool_size(&self) -> nat {
        self.pool_size as nat
    }

    /// Number of pages that can still be created.
    pub open spec fn spec_free_pages(&self) -> int {
        self.spec_pool_size() - self@.len()
    }

    /// In a consistent pool every page has `PAGE_SIZE` bytes, and there
    /// are fewer pages than identifiers.
    pub proof fn lemma_wf(&self)
        requires
            self.wf(),
        ensures
            self@.len() <= self.spec_pool_size() <= usize::MAX,
            forall|i: int| 0 <= i < self@.len() ==> (#[trigger] self@[i]).len() == PAGE_SIZE,
    {
    }

    /// An empty pool that may grow to `pool_size` pages.
    pub fn new(pool_size: usize) -> (r: BufferPoolManager)
        ensures
            r.wf(),
            r@ == Seq::<Seq<u8>>::empty(),
            r.spec_pool_size() == pool_size,
    {
        let r = BufferPoolManager { pages: Vec::new(), pool_size };
        assert(r@ =~= Seq::<Seq<u8>>::empty());
        r
    }

    /// Number of pages in the pool.
    pub fn num_pages(&self) -> (r: usize)
        ensures
            r == self@.len(),
    {
        self.pages.len()
    }

    /// Number of pages that can still be created.
    pub fn free_pages(&self) -> (r: usize)
        requires
            self.wf(),
        ensures
            r == self.spec_free_pages(),
    {
        self.pool_size - self.pages.len()
    }

    /// Adds a page to the pool and returns it.  The new page gets the next
    /// unused identifier.  Fails with `NoFreeBuffer`, and changes nothing,
    /// exactly when the pool is full.
    pub fn create_page(&mut self) -> (r: Result<Rc<Buffer>, Error>)
        requires
            old(self).wf(),
        ensures
            final(self).wf(),
            final(self).spec_pool_size() == old(self).spec_pool_size(),
            old(self).spec_free_pages() == 0 ==> r == Err::<Rc<Buffer>, Error>(Error::NoFreeBuffer)
                && final(self)@ == old(self)@,
            old(self).spec_free_pages() > 0 ==> r is Ok && r->Ok_0.page_id.0 == old(self)@.len()
                && r->Ok_0.page@ == Seq::new(PAGE_SIZE as nat, |i: int| 0u8) && final(self)@ == old(
                self,
            )@.push(r->Ok_0.page@),
    {
        if self.pages.len() >= self.pool_size {
            return Err(Error::NoFreeBuffer);
        }
        let page_id = PageId(self.pages.len() as u64);
        let buffer = Rc::new(Buffer { page_id, page: vec![0u8; PAGE_SIZE] });
        let handle = share(&buffer);
        assert(handle.page@ =~= Seq::new(PAGE_SIZE as nat, |i: int| 0u8));
        self.pages.push(buffer);
        assert(self@ =~= old(self)@.push(handle.page@));
        Ok(handle)
    }

    /// Returns the page with identifier `page_id`.  Fails with
    /// `PageNotFound` exactly when the pool has no such page.  The pool
    /// itself does not change.
    pub fn fetch_page(&mut self, page_id: PageId) -> (r: Result<Rc<Buffer>, Error>)
        requires
            old(self).wf(),
        ensures
            final(self).wf(),
            final(self)@ == old(self)@,
            final(self).spec_pool_size() == old(self).spec_pool_size(),
            page_id.0 >= old(self)@.len() ==> r == Err::<Rc<Buffer>, Error>(Error::PageNotFound),
            page_id.0 < old(self)@.len() ==> r is Ok && r->Ok_0.page_id == page_id
                && r->Ok_0.page@ == old(self)@[page_id.0 as int],
    {
        if page_id.0 >= self.pages.len() as u64 {
            return Err(Error::PageNotFound);
        }
        Ok(share(&self.pages[page_id.0 as usize]))
    }

    /// Replaces the bytes of page `page_id`.  Fails with `PageNotFound`,
    /// and changes nothing, exactly when the pool has no such page.
    pub fn write_page(&mut self, page_id: PageId, page: Vec<u8>) -> (r: Result<(), Error>)
        requires
            old(self).wf(),
            page@.len() == PAGE_SIZE,
        ensures
            final(self).wf(),
            final(self).spec_pool_size() == old(self).spec_pool_size(),
            page_id.0 >= old(self)@.len() ==> r == Err::<(), Error>(Error::PageNotFound)
                && final(self)@ == old(self)@,
            page_id.0 < old(self)@.len() ==> r is Ok && final(self)@ == old(self)@.update(
                page_id.0 as int,
                page@,
            ),
    {
        if page_id.0 >= self.pages.len() as u64 {
            return Err(Error::PageNotFound);
        }
        self.pages.set(page_id.0 as usize, Rc::new(Buffer { page_id, page }));
        assert(self@ =~= old(self)@.update(page_id.0 as int, page@));
        Ok(())
    }
}

} // verus!
