//! The memory map as the mach kernel reports it: one region per query,
//! each query starting where the region before it ended.

use vstd::prelude::*;
use crate::common::OffsetType;
use crate::common::group_offset;
use crate::memory::map::MemoryMap;
use crate::memory::map::MemoryPage;
use crate::memory::map::MemoryPagePermissions;
use crate::memory::map::MemoryPageType;
use crate::memory::map::PageKind;
use crate::memory::map::PageModel;

verus! {

broadcast use group_offset;

/// The bit of a region's protection that allows reading.
pub const VM_PROT_READ: i32 = 1;

/// The bit of a region's protection that allows writing.
pub const VM_PROT_WRITE: i32 = 2;

/// The bit of a region's protection that allows execution.
pub const VM_PROT_EXECUTE: i32 = 4;

/// The permissions that a region's protection bits and share flag denote.
pub open spec fn region_permissions_spec(protection: i32, shared: bool) -> MemoryPagePermissions {
    MemoryPagePermissions {
        read: protection & VM_PROT_READ != 0,
        write: protection & VM_PROT_WRITE != 0,
        execute: protection & VM_PROT_EXECUTE != 0,
        shared,
    }
}

pub fn region_permissions(protection: i32, shared: bool) -> (r: MemoryPagePermissions)
    ensures
        r == region_permissions_spec(protection, shared),
{
    MemoryPagePermissions::new(
        protection & VM_PROT_READ != 0,
        protection & VM_PROT_WRITE != 0,
        protection & VM_PROT_EXECUTE != 0,
        shared,
    )
}

/// A region describes a page where it starts above address zero, holds at
/// least one byte and ends at or below the largest address.
pub open spec fn region_valid(address: u64, size: u64) -> bool {
    address != 0 && size != 0 && address + size <= u64::MAX
}

/// The page that a region describes. The kernel tells nothing of what backs
/// the region, so the page type is unknown.
pub open spec fn region_model(
    address: u64,
    size: u64,
    protection: i32,
    shared: bool,
    offset: u64,
) -> PageModel {
    PageModel {
        start: address,
        end: (address + size) as u64,
        permissions: region_permissions_spec(protection, shared),
        offset,
        page_type: PageKind::Unknown,
    }
}

/// The memory map of a macOS target, gathered region by region.
#[derive(Debug)]
pub struct MachMemoryMap {
    pages: Vec<MemoryPage>,
}

impl MachMemoryMap {
    /// The page of the region that a query returned, or `None` for a region
    /// that describes no page.
    pub fn enumerate_next_page(address: u64, size: u64, protection: i32, shared: bool, offset: u64) -> (r:
        Option<MemoryPage>)
        ensures
            region_valid(address, size) ==> (r matches Some(page) && page@ == region_model(
                address,
                size,
                protection,
                shared,
                offset,
            )),
            !region_valid(address, size) ==> r is None,
    {
        if address == 0 || size == 0 || size > u64::MAX - address {
            return None;
        }
        Some(
            MemoryPage {
                address_range: [OffsetType::new_unwrap(address), OffsetType::new_unwrap(address + size)],
                permissions: region_permissions(protection, shared),
                offset,
                page_type: MemoryPageType::Unknown,
            },
        )
    }

    /// A map without pages: the enumeration has not begun.
    pub fn empty() -> (r: Self)
        ensures
            r.pages_spec() == Seq::<MemoryPage>::empty(),
    {
        MachMemoryMap { pages: Vec::new() }
    }

    /// The address at which the next query starts: zero at first, then the
    /// end of the last page.
    pub open spec fn next_address_spec(self) -> u64 {
        if self.pages_spec().len() == 0 {
            0
        } else {
            self.pages_spec().last()@.end
        }
    }

    pub fn next_address(&self) -> (r: u64)
        ensures
            r == self.next_address_spec(),
    {
        let n = self.pages.len();
        if n == 0 {
            0
        } else {
            self.pages[n - 1].end().get()
        }
    }

    /// Takes the region that a query returned. Returns whether the region
    /// described a page, which then is the last of the map; where it did not,
    /// the map is unchanged and the enumeration is over.
    pub fn push_region(
        &mut self,
        address: u64,
        size: u64,
        protection: i32,
        shared: bool,
        offset: u64,
    ) -> (r: bool)
        ensures
            r == region_valid(address, size),
            !r ==> final(self).pages_spec() == old(self).pages_spec(),
            r ==> final(self).pages_spec().len() == old(self).pages_spec().len() + 1
                && final(self).pages_spec().drop_last() == old(self).pages_spec()
                && final(self).pages_spec().last()@ == region_model(
                address,
                size,
                protection,
                shared,
                offset,
            ),
    {
        match Self::enumerate_next_page(address, size, protection, shared, offset) {
            None => false,
            Some(page) => {
                self.pages.push(page);
                proof {
                    assert(self.pages@.drop_last() =~= old(self).pages@);
                }
                true
            },
        }
    }
}

impl MemoryMap for MachMemoryMap {
    closed spec fn pages_spec(&self) -> Seq<MemoryPage> {
        self.pages@
    }

    fn pages(&self) -> (r: &[MemoryPage]) {
        self.pages.as_slice()
    }
}

} // verus!
