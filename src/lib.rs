//! Construction of a kernel's initial four-level page-table hierarchy from a
//! firmware memory map, using a fixed pool of scratch frames for the table nodes.
//!
//! - `region`: memory-map entries and their classes.
//! - `translate`: from a frame of a region to the address it is reached at.
//! - `bump`: the allocator that hands out the scratch frames.
//! - `table`: the hierarchy, held as an arena of nodes indexed by pool slot.
//! - `window`: where the window onto physical memory goes, and how large it is.
//! - `builder`: the whole build, from memory map to hand-off record.

pub mod region;
pub mod translate;
pub mod bump;
pub mod table;
pub mod window;
pub mod builder;
