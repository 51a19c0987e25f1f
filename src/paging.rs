use vstd::prelude::*;

use std::collections::HashMap;

use crate::addr::{Page, PhysFrame};

verus! {

broadcast use vstd::std_specs::hash::group_hash_axioms;

/// Flags of a page-table entry.
#[derive(Clone, Copy, Debug, PartialEq, Eq, Structural)]
pub struct PageTableFlags {
    pub present: bool,
    pub writable: bool,
}

impl PageTableFlags {
    /// Present and writable, as the heap pages are mapped.
    pub fn present_writable() -> (f: PageTableFlags)
        ensures
            f == present_writable(),
    {
        PageTableFlags { present: true, writable: true }
    }
}

pub open spec fn present_writable() -> PageTableFlags {
    PageTableFlags { present: true, writable: true }
}

/// What a page translates to.
#[derive(Clone, Copy, Debug, PartialEq, Eq, Structural)]
pub struct Mapping {
    pub frame: PhysFrame,
    pub flags: PageTableFlags,
}

/// Why a page could not be mapped.
#[derive(Clone, Copy, Debug, PartialEq, Eq, Structural)]
pub enum MapToError {
    /// No frame was left to back the page (or one of its tables).
    FrameAllocationFailed,
    /// A table on the way to the page is a huge page.
    ParentEntryHugePage,
    /// The page is mapped already, to this frame.
    PageAlreadyMapped(PhysFrame),
}

/// The capability to install page-to-frame translations.
pub trait Mapper: Sized {
    /// The translations in place, keyed by page start address.
    spec fn mappings(&self) -> Map<u64, Mapping>;

    /// Whether this mapper, in its present state, turns down a new mapping
    /// of `page`, and with which error.
    spec fn refusal(&self, page: Page) -> Option<MapToError>;

    /// Maps `page` to `frame` and invalidates any stale translation of `page`,
    /// so that the mapping is in effect when this returns.
    fn map_to(&mut self, page: Page, frame: PhysFrame, flags: PageTableFlags) -> (r: Result<
        (),
        MapToError,
    >)
        ensures
            old(self).refusal(page) is None ==> r is Ok && final(self).mappings() == old(
                self,
            ).mappings().insert(page.start, Mapping { frame, flags }),
            old(self).refusal(page) is Some ==> r == Err::<(), MapToError>(
                old(self).refusal(page)->0,
            ) && final(self).mappings() == old(self).mappings(),
    ;
}

/// A page table kept in memory: each page has at most one translation and
/// a mapped page is never mapped again.
pub struct PageTableModel {
    entries: HashMap<u64, Mapping>,
}

impl PageTableModel {
    /// A table with no translations.
    pub fn new() -> (t: PageTableModel)
        ensures
            t.mappings() == Map::<u64, Mapping>::empty(),
    {
        PageTableModel { entries: HashMap::new() }
    }

    /// The translation of `page`, if it has one.
    pub fn translate(&self, page: Page) -> (r: Option<Mapping>)
        ensures
            self.mappings().contains_key(page.start) ==> r == Some(self.mappings()[page.start]),
            !self.mappings().contains_key(page.start) ==> r is None,
    {
        match self.entries.get(&page.start) {
            Some(m) => Some(*m),
            None => None,
        }
    }

    /// Number of pages that have a translation.
    pub fn mapped_count(&self) -> (n: usize)
        ensures
            n == self.mappings().dom().len(),
    {
        self.entries.len()
    }
}

impl Mapper for PageTableModel {
    closed spec fn mappings(&self) -> Map<u64, Mapping> {
        self.entries@
    }

    open spec fn refusal(&self, page: Page) -> Option<MapToError> {
        if self.mappings().contains_key(page.start) {
            Some(MapToError::PageAlreadyMapped(self.mappings()[page.start].frame))
        } else {
            None
        }
    }

    fn map_to(&mut self, page: Page, frame: PhysFrame, flags: PageTableFlags) -> (r: Result<
        (),
        MapToError,
    >) {
        match self.entries.get(&page.start) {
            Some(m) => Err(MapToError::PageAlreadyMapped(m.frame)),
            None => {
                self.entries.insert(page.start, Mapping { frame, flags });
                Ok(())
            },
        }
    }
}

} // verus!
