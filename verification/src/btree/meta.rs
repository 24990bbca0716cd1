//! The meta page: the one page that says where the root is.

use vstd::prelude::*;
use vstd::bytes::{
    lemma_auto_spec_u64_to_from_le_bytes, spec_u64_from_le_bytes, spec_u64_to_le_bytes,
};
use crate::bytes::{get_u64, put_range, put_u64};
use crate::disk::PageId;

verus! {

/// Bytes taken by the header of a meta page.
pub const HEADER_SIZE: usize = 8;

/// The root's page identifier, as written in meta page `page`.
pub open spec fn root_of(page: Seq<u8>) -> PageId {
    PageId(spec_u64_from_le_bytes(page.subrange(0, 8)))
}

/// The fixed fields at the start of a meta page.
pub struct Header {
    pub root_page_id: PageId,
}

/// A meta page, taken apart.  Its view is the page.
pub struct Meta {
    pub header: Header,
    pub rest: Vec<u8>,
}

impl View for Meta {
    type V = Seq<u8>;

    open spec fn view(&self) -> Seq<u8> {
        spec_u64_to_le_bytes(self.header.root_page_id.0) + self.rest@
    }
}

impl Meta {
    /// Reads a meta page.
    pub fn new(bytes: &[u8]) -> (r: Meta)
        requires
            bytes@.len() >= 8,
        ensures
            r@ == bytes@,
            r.header.root_page_id == root_of(bytes@),
    {
        let root = get_u64(bytes, 0);
        let mut rest: Vec<u8> = Vec::new();
        put_range(&mut rest, bytes, HEADER_SIZE, bytes.len());
        let r = Meta { header: Header { root_page_id: PageId(root) }, rest };
        proof {
            lemma_auto_spec_u64_to_from_le_bytes();
            assert(bytes@.subrange(0, 8).len() == 8);
            assert(r@ =~= bytes@);
        }
        r
    }

    /// A meta page like this one, with `root_page_id` as its root.
    pub fn with_root(&self, root_page_id: PageId) -> (r: Meta)
        ensures
            r.header.root_page_id == root_page_id,
            r@.len() == self@.len(),
            root_of(r@) == root_page_id,
            r.rest@ == self.rest@,
    {
        let mut rest: Vec<u8> = Vec::new();
        put_range(&mut rest, self.rest.as_slice(), 0, self.rest.len());
        let r = Meta { header: Header { root_page_id }, rest };
        proof {
            lemma_auto_spec_u64_to_from_le_bytes();
            assert(r@.subrange(0, 8) =~= spec_u64_to_le_bytes(root_page_id.0));
        }
        r
    }

    /// The page as bytes.
    pub fn to_bytes(&self) -> (r: Vec<u8>)
        ensures
            r@ == self@,
    {
        let mut out: Vec<u8> = Vec::new();
        put_u64(&mut out, self.header.root_page_id.0);
        put_range(&mut out, self.rest.as_slice(), 0, self.rest.len());
        assert(out@ =~= self@);
        out
    }
}

} // verus!
