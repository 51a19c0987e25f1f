use vstd::prelude::*;

verus! {

/// Size in bytes of a page and of a physical frame.
pub const PAGE_SIZE: u64 = 4096;

/// Physical addresses are at most 52 bits wide.
pub const PHYS_ADDR_LIMIT: u64 = 0x10_0000_0000_0000;

/// The address of the 4 KiB boundary at or below `a`.
pub open spec fn align_down(a: u64) -> u64 {
    (a - a % 4096) as u64
}

/// One 4 KiB frame of physical memory, named by its first address.
#[derive(Clone, Copy, Debug, PartialEq, Eq, Structural)]
pub struct PhysFrame {
    pub start: u64,
}

impl PhysFrame {
    pub open spec fn wf(self) -> bool {
        self.start % 4096 == 0 && self.start < PHYS_ADDR_LIMIT
    }

    /// The frame that holds the physical address `addr`.
    pub fn containing_address(addr: u64) -> (f: PhysFrame)
        requires
            addr < PHYS_ADDR_LIMIT,
        ensures
            f.start == align_down(addr),
            f.wf(),
    {
        PhysFrame { start: addr - addr % PAGE_SIZE }
    }

    pub fn start_address(&self) -> (r: u64)
        ensures
            r == self.start,
    {
        self.start
    }
}

/// A virtual address in canonical form: bits 47 to 63 all equal.
pub open spec fn canonical(a: u64) -> bool {
    a < 0x8000_0000_0000 || a >= 0xFFFF_8000_0000_0000
}

/// Every address of `[start, start + size)` is canonical.
pub open spec fn canonical_range(start: u64, size: u64) -> bool {
    start + size <= 0x8000_0000_0000 || start >= 0xFFFF_8000_0000_0000
}

/// One 4 KiB page of virtual memory, named by its first address.
#[derive(Clone, Copy, Debug, PartialEq, Eq, Structural)]
pub struct Page {
    pub start: u64,
}

impl Page {
    pub open spec fn wf(self) -> bool {
        self.start % 4096 == 0 && canonical(self.start)
    }

    /// The page that holds the canonical virtual address `addr`.
    pub fn containing_address(addr: u64) -> (p: Page)
        requires
            canonical(addr),
        ensures
            p.start == align_down(addr),
            p.wf(),
    {
        proof {
            let d = (addr - addr % 4096) as int;
            assert(d <= addr);
            if addr >= 0xFFFF_8000_0000_0000u64 {
                assert(d >= 0xFFFF_8000_0000_0000) by (nonlinear_arith)
                    requires
                        addr >= 0xFFFF_8000_0000_0000u64,
                        d == addr - addr % 4096,
                {}
            }
        }
        Page { start: addr - addr % PAGE_SIZE }
    }

    pub fn start_address(&self) -> (r: u64)
        ensures
            r == self.start,
    {
        self.start
    }
}

} // verus!
