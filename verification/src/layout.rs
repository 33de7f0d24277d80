//! The layout of the guest's address space.

use vstd::prelude::*;
use crate::geometry::{PageTableInfo, root_addr, root_index, table_size, valid_geometry};

verus! {

/// Where the parts of the guest's address space lie.
#[derive(Clone, Copy, Debug, PartialEq, Eq, Structural)]
pub struct MemoryLayout {
    /// Bytes in the whole address space.
    pub mem_size: u64,
    /// Where the page table starts: the size of the primary memory.
    pub page_table_addr: u64,
    /// The address of register 0 of the guest's register file.
    pub register_base: u64,
}

/// Reads `MEM_SIZE`, `PAGE_TABLE.start()` and `SYSTEM.start()` of
/// `risc0_zkvm_platform::memory`.
///
/// Trusted: the values are those that the platform crate fixes, an address
/// space of 256 MiB with the system region at 192 MiB and the page table at
/// 208 MiB.
#[verifier::external_body]
fn platform_layout() -> (layout: MemoryLayout)
    ensures
        layout.mem_size == 0x1000_0000,
        layout.page_table_addr == 0x0D00_0000,
        layout.register_base == 0x0C00_0000,
{
    MemoryLayout {
        mem_size: risc0_zkvm_platform::memory::MEM_SIZE as u64,
        page_table_addr: risc0_zkvm_platform::memory::PAGE_TABLE.start() as u64,
        register_base: risc0_zkvm_platform::memory::SYSTEM.start() as u64,
    }
}

impl MemoryLayout {
    /// A memory image with pages of `page_size` bytes can be built in this
    /// layout.
    ///
    /// A page table can be laid out, pages and the part of the root page below
    /// the root are whole blocks, the table ends within the address space, and
    /// the table has room for an entry of every page below the root page.
    pub open spec fn supports(&self, page_size: u64) -> bool {
        let base = self.page_table_addr as int;
        let ps = page_size as int;
        &&& valid_geometry(base, ps)
        &&& ps % 64 == 0
        &&& base % 64 == 0
        &&& root_addr(base, ps) <= self.mem_size <= usize::MAX
        &&& 32 * root_index(base, ps) <= table_size(base, ps)
    }

    /// The layout of the platform that the guest is built for.
    pub fn platform() -> (layout: MemoryLayout)
        ensures
            layout.mem_size == 0x1000_0000,
            layout.page_table_addr == 0x0D00_0000,
            layout.register_base == 0x0C00_0000,
    {
        platform_layout()
    }

    /// The page table's geometry for pages of `page_size` bytes, or `None`
    /// where this layout does not support such pages.
    pub fn geometry(&self, page_size: u64) -> (r: Option<PageTableInfo>)
        ensures
            r is Some <==> self.supports(page_size),
            r is Some ==> r->0.describes(self.page_table_addr as int, page_size as int),
    {
        let info = match PageTableInfo::try_new(self.page_table_addr, page_size) {
            Some(info) => info,
            None => {
                return None;
            },
        };
        proof {
            crate::geometry::lemma_valid_geometry(self.page_table_addr as int, page_size as int);
        }
        if page_size % 64 != 0 || self.page_table_addr % 64 != 0 {
            return None;
        }
        if info.root_addr > self.mem_size || self.mem_size > usize::MAX as u64 {
            return None;
        }
        if info.root_idx > info.page_table_size / 32 {
            return None;
        }
        Some(info)
    }
}

} // verus!
