//! Page identifiers and the size of a page.

use vstd::prelude::*;

verus! {

/// Number of bytes in every page.
pub const PAGE_SIZE: usize = 4096;

/// Identifies a page of the backing store.
///
/// The largest `u64` is set aside to mean "no page"; it is how an absent
/// link is written into a page.
#[derive(Clone, Copy, Debug, PartialEq, Eq, Structural)]
pub struct PageId(pub u64);

/// The raw value that stands for "no page".
pub const INVALID_PAGE_ID: u64 = 0xffff_ffff_ffff_ffff;

impl PageId {
    /// What `valid` returns, as a function of the raw value.
    pub open spec fn spec_valid(self) -> Option<PageId> {
        if self.0 == INVALID_PAGE_ID {
            None
        } else {
            Some(self)
        }
    }

    /// What `from_link` returns.
    pub open spec fn spec_from_link(link: Option<PageId>) -> PageId {
        match link {
            Some(id) => id,
            None => PageId(INVALID_PAGE_ID),
        }
    }

    /// The identifier that stands for "no page".
    pub fn invalid() -> (id: PageId)
        ensures
            id.0 == INVALID_PAGE_ID,
    {
        PageId(INVALID_PAGE_ID)
    }

    /// `Some(self)` for a real page, `None` for the "no page" value.
    pub fn valid(self) -> (link: Option<PageId>)
        ensures
            link == self.spec_valid(),
    {
        if self.0 == INVALID_PAGE_ID {
            None
        } else {
            Some(self)
        }
    }

    /// The raw number behind the identifier.
    pub fn to_u64(self) -> (raw: u64)
        ensures
            raw == self.0,
    {
        self.0
    }

    /// Folds an optional link back into a single identifier, the inverse
    /// of `valid`.
    pub fn from_link(link: Option<PageId>) -> (id: PageId)
        ensures
            id == Self::spec_from_link(link),
    {
        match link {
            Some(id) => id,
            None => PageId(INVALID_PAGE_ID),
        }
    }
}

} // verus!
