//! Pages: fixed-size blocks of the database file, and the records and
//! cells on them.

pub mod memory;
pub mod page;
pub mod staging;
pub mod store;

pub use memory::MemoryStore;
pub use page::SlottedPage;
pub use store::PageStore;

use vstd::prelude::*;

verus! {

/// A page's number: its position in the file, counted in pages.
pub type PageId = u64;

/// A page's number and its bytes.
pub type PageImage = (PageId, Vec<u8>);

/// Bytes per page in the file.
pub const PAGE_SIZE: usize = 8192;

/// Bytes of a page that hold data; the rest is its checksum.
pub const USABLE_PAGE_SIZE: usize = 8188;

/// Where a record is: a page, and a slot on it.
#[derive(Debug, Clone, Copy, PartialEq, Eq, Structural, Hash, PartialOrd, Ord)]
pub struct RecordLocation {
    pub page: PageId,
    pub slot: u16,
}

/// What a page is for: the first byte of it.
#[derive(Debug, Clone, Copy, PartialEq, Eq, Structural)]
pub enum PageType {
    Catalog,
    Data,
    Overflow,
    IndexLeaf,
    IndexBranch,
}

impl PageType {
    /// The byte that stands for the type.
    pub open spec fn code(self) -> u8 {
        match self {
            PageType::Catalog => 1,
            PageType::Data => 2,
            PageType::Overflow => 3,
            PageType::IndexLeaf => 4,
            PageType::IndexBranch => 5,
        }
    }

    /// The type that a byte stands for.
    pub open spec fn of_code(code: u8) -> Option<PageType> {
        if code == 1 {
            Some(PageType::Catalog)
        } else if code == 2 {
            Some(PageType::Data)
        } else if code == 3 {
            Some(PageType::Overflow)
        } else if code == 4 {
            Some(PageType::IndexLeaf)
        } else if code == 5 {
            Some(PageType::IndexBranch)
        } else {
            None
        }
    }

    pub fn to_code(self) -> (code: u8)
        ensures
            code == self.code(),
    {
        match self {
            PageType::Catalog => 1,
            PageType::Data => 2,
            PageType::Overflow => 3,
            PageType::IndexLeaf => 4,
            PageType::IndexBranch => 5,
        }
    }

    pub fn from_code(code: u8) -> (r: Option<PageType>)
        ensures
            r == PageType::of_code(code),
    {
        match code {
            1 => Some(PageType::Catalog),
            2 => Some(PageType::Data),
            3 => Some(PageType::Overflow),
            4 => Some(PageType::IndexLeaf),
            5 => Some(PageType::IndexBranch),
            _ => None,
        }
    }
}

} // verus!
