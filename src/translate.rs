use vstd::prelude::*;
use crate::region::MemoryRegion;

verus! {

/// The address at which the page-table node stored in `frame` can be read and
/// written, given the region that hosts it.  A frame outside the region is a
/// bookkeeping error, excluded by the precondition.
pub fn resolve(frame: u64, region: &MemoryRegion) -> (r: u64)
    requires
        region.wf(),
        region.contains_phys(frame as int),
    ensures
        r == region.virt_start + (frame - region.phys_start),
        region.virt_start <= r < region.virt_end(),
{
    region.virt_start + (frame - region.phys_start)
}

} // verus!
