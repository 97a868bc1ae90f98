use vstd::prelude::*;

verus! {

/// Size in bytes of one page, one frame and one page-table node.
pub const PAGE_SIZE: u64 = 4096;

/// The class of a firmware memory region, as far as the mapping policy reads it.
#[derive(Clone, Copy, Debug, PartialEq, Eq, Structural)]
pub enum RegionKind {
    BootServicesCode,
    BootServicesData,
    LoaderCode,
    LoaderData,
    Conventional,
    AcpiReclaim,
    RuntimeServicesCode,
    RuntimeServicesData,
    /// Any class the policy does not name (reserved, MMIO, ACPI NVS, ...).
    Other,
}

impl RegionKind {
    /// Transient firmware or loader memory, free memory and ACPI-reclaimable
    /// memory: none of it gets an explicit high-half mapping.
    pub open spec fn is_ephemeral(self) -> bool {
        match self {
            RegionKind::BootServicesCode | RegionKind::BootServicesData | RegionKind::LoaderCode
            | RegionKind::LoaderData | RegionKind::Conventional | RegionKind::AcpiReclaim => true,
            _ => false,
        }
    }
}

/// One entry of the firmware memory map.
#[derive(Clone, Copy, Debug, PartialEq, Eq, Structural)]
pub struct MemoryRegion {
    pub phys_start: u64,
    pub virt_start: u64,
    pub page_count: u64,
    pub kind: RegionKind,
    pub attribute: u64,
}

impl MemoryRegion {
    pub open spec fn byte_len(self) -> int {
        self.page_count * PAGE_SIZE
    }

    pub open spec fn phys_end(self) -> int {
        self.phys_start + self.byte_len()
    }

    pub open spec fn virt_end(self) -> int {
        self.virt_start + self.byte_len()
    }

    /// Both extents of the region fit in the 64-bit address space.
    pub open spec fn wf(self) -> bool {
        self.phys_end() <= u64::MAX && self.virt_end() <= u64::MAX
    }

    pub open spec fn contains_phys(self, a: int) -> bool {
        self.phys_start <= a < self.phys_end()
    }

    pub fn is_well_formed(&self) -> (r: bool)
        ensures
            r == self.wf(),
    {
        match self.page_count.checked_mul(PAGE_SIZE) {
            None => false,
            Some(len) => self.phys_start.checked_add(len).is_some()
                && self.virt_start.checked_add(len).is_some(),
        }
    }

    pub fn phys_end_exec(&self) -> (r: u64)
        requires
            self.wf(),
        ensures
            r == self.phys_end(),
    {
        self.phys_start + self.page_count * PAGE_SIZE
    }

    pub fn virt_end_exec(&self) -> (r: u64)
        requires
            self.wf(),
        ensures
            r == self.virt_end(),
    {
        self.virt_start + self.page_count * PAGE_SIZE
    }
}

/// Every region of the map has extents that fit in 64 bits.
pub open spec fn map_wf(regions: Seq<MemoryRegion>) -> bool {
    forall|i: int| 0 <= i < regions.len() ==> #[trigger] regions[i].wf()
}

pub fn map_is_well_formed(regions: &Vec<MemoryRegion>) -> (r: bool)
    ensures
        r == map_wf(regions@),
{
    let mut i: usize = 0;
    while i < regions.len()
        invariant
            i <= regions.len(),
            forall|j: int| 0 <= j < i ==> #[trigger] regions@[j].wf(),
        decreases regions.len() - i,
    {
        if !regions[i].is_well_formed() {
            return false;
        }
        i = i + 1;
    }
    true
}

} // verus!
