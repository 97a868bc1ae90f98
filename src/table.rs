use vstd::prelude::*;
use crate::bump::BumpFrameAllocator;
use crate::region::PAGE_SIZE;
use x86_64::structures::paging::page_table::PageTableLevel;
use x86_64::VirtAddr;

verus! {

/// Entries in one page-table node.
pub const ENTRY_COUNT: u64 = 512;

/// Levels of the four-level hierarchy; `Four` is the root.
#[derive(Clone, Copy, Debug, PartialEq, Eq, Structural)]
pub enum Level {
    One,
    Two,
    Three,
    Four,
}

/// The nine bits of `v` that select its entry in a node of `level`.
pub open spec fn index_of(v: u64, level: Level) -> int {
    match level {
        Level::One => (v as int / 0x1000) % 512,
        Level::Two => (v as int / 0x20_0000) % 512,
        Level::Three => (v as int / 0x4000_0000) % 512,
        Level::Four => (v as int / 0x80_0000_0000) % 512,
    }
}

/// Relies on x86_64's `VirtAddr::new_truncate` and `VirtAddr::page_table_index`:
/// the index of `v` at `level` is bits `12 + 9·(level-1)` to `20 + 9·(level-1)`
/// of `v`, which the sign extension of `new_truncate` (bits 48 and up) leaves alone.
#[verifier::external_body]
fn table_index(v: u64, level: Level) -> (r: u64)
    ensures
        r == index_of(v, level),
{
    let l = match level {
        Level::One => PageTableLevel::One,
        Level::Two => PageTableLevel::Two,
        Level::Three => PageTableLevel::Three,
        Level::Four => PageTableLevel::Four,
    };
    u16::from(VirtAddr::new_truncate(v).page_table_index(l)) as u64
}

/// Permission bits of a mapping.
#[derive(Clone, Copy, Debug, PartialEq, Eq, Structural)]
pub struct Flags {
    pub present: bool,
    pub writable: bool,
    pub user_accessible: bool,
    pub no_execute: bool,
}

#[derive(Clone, Copy, Debug, PartialEq, Eq, Structural)]
pub enum PageSize {
    Size4KiB,
    Size1GiB,
}

/// One entry of a node: nothing, a link to the node in pool slot `slot`, or a
/// page (a 1 GiB page in a level-three node, a 4 KiB page in a level-one node).
#[derive(Clone, Copy, Debug, PartialEq, Eq, Structural)]
pub enum Entry {
    Absent,
    Table { slot: u64 },
    Page { phys: u64, flags: Flags, size: PageSize },
}

#[derive(Clone, Copy, Debug, PartialEq, Eq, Structural)]
pub enum MapError {
    /// The page, or a page that covers it, is already mapped.
    AlreadyMapped,
    /// An intermediate node was needed and the scratch pool is exhausted.
    OutOfScratchFrames,
}

/// Flags of an entry that links to a node.
pub open spec fn link_flags() -> Flags {
    Flags { present: true, writable: true, user_accessible: true, no_execute: false }
}

/// Bit 63 of an entry: the page is not executable.
pub const NO_EXECUTE_BIT: u64 = 0x8000_0000_0000_0000;

/// First address past the physical addresses an entry can hold.
pub const PHYS_LIMIT: u64 = 0x10_0000_0000_0000;

/// The low and top flag bits of an entry.
pub open spec fn flag_bits(f: Flags, huge: bool) -> int {
    (if f.present { 1int } else { 0 }) + (if f.writable { 2int } else { 0 })
        + (if f.user_accessible { 4int } else { 0 }) + (if huge { 0x80int } else { 0 })
        + (if f.no_execute { NO_EXECUTE_BIT as int } else { 0 })
}

/// The 64-bit entry for `addr` with `f`, when `addr` is a frame address the
/// format can hold (4 KiB aligned, below 2^52).
pub open spec fn encoded(addr: int, f: Flags, huge: bool) -> Option<u64> {
    if 0 <= addr < PHYS_LIMIT && addr % 4096 == 0 {
        Some((addr + flag_bits(f, huge)) as u64)
    } else {
        None
    }
}

pub open spec fn hardware_form(e: Entry, pool_base: int) -> Option<u64> {
    match e {
        Entry::Absent => Some(0),
        Entry::Table { slot } => encoded(pool_base + slot * PAGE_SIZE, link_flags(), false),
        Entry::Page { phys, flags, size } => encoded(phys as int, flags, size == PageSize::Size1GiB),
    }
}

pub fn encode(addr: u64, f: Flags, huge: bool) -> (r: Option<u64>)
    ensures
        r == encoded(addr as int, f, huge),
{
    if addr >= PHYS_LIMIT || addr % 4096 != 0 {
        return None;
    }
    let mut bits: u64 = addr;
    if f.present {
        bits = bits + 1;
    }
    if f.writable {
        bits = bits + 2;
    }
    if f.user_accessible {
        bits = bits + 4;
    }
    if huge {
        bits = bits + 0x80;
    }
    if f.no_execute {
        bits = bits + NO_EXECUTE_BIT;
    }
    Some(bits)
}

pub open spec fn cell(s: int, i: int) -> int {
    s * 512 + i
}

proof fn lemma_cell(s: int, i: int, n: int)
    requires
        0 <= s < n,
        0 <= i < 512,
    ensures
        0 <= cell(s, i) < n * 512,
{
    assert(0 <= s * 512 + i < n * 512) by (nonlinear_arith)
        requires 0 <= s < n, 0 <= i < 512;
}

proof fn lemma_cells_distinct(s1: int, i1: int, s2: int, i2: int)
    requires
        0 <= s1,
        0 <= s2,
        0 <= i1 < 512,
        0 <= i2 < 512,
        s1 != s2 || i1 != i2,
    ensures
        cell(s1, i1) != cell(s2, i2),
{
    assert(s1 * 512 + i1 != s2 * 512 + i2) by (nonlinear_arith)
        requires 0 <= i1 < 512, 0 <= i2 < 512, s1 != s2 || i1 != i2;
}

/// The slot an entry links to, or -1 when it is no link.
pub open spec fn link_of(e: Entry) -> int {
    match e {
        Entry::Table { slot } => slot as int,
        _ => -1,
    }
}

/// The mapping of `size` at `v` covers the address `w`.
pub open spec fn covers(v: u64, size: PageSize, w: u64) -> bool {
    &&& index_of(w, Level::Four) == index_of(v, Level::Four)
    &&& index_of(w, Level::Three) == index_of(v, Level::Three)
    &&& size == PageSize::Size4KiB ==> index_of(w, Level::Two) == index_of(v, Level::Two)
        && index_of(w, Level::One) == index_of(v, Level::One)
}

proof fn lemma_cell_injective()
    ensures
        forall|s1: int, i1: int, s2: int, i2: int|
            0 <= s1 && 0 <= s2 && 0 <= i1 < 512 && 0 <= i2 < 512 && #[trigger] cell(s1, i1) == #[trigger] cell(s2, i2)
                ==> s1 == s2 && i1 == i2,
{
    assert forall|s1: int, i1: int, s2: int, i2: int|
        0 <= s1 && 0 <= s2 && 0 <= i1 < 512 && 0 <= i2 < 512 && #[trigger] cell(s1, i1) == #[trigger] cell(s2, i2)
            implies s1 == s2 && i1 == i2 by {
        if s1 != s2 || i1 != i2 {
            lemma_cells_distinct(s1, i1, s2, i2);
        }
    }
}

proof fn lemma_write_cell(a: PageTableArena, al: BumpFrameAllocator, b: PageTableArena, s: int, i: int, e: Entry)
    requires
        a.wf(al),
        0 <= s < a.pool_frames,
        0 <= i < 512,
        b.pool_frames == a.pool_frames,
        b.entries@ == a.entries@.update(cell(s, i), e),
    ensures
        forall|x: int, y: int| 0 <= x < a.pool_frames && 0 <= y < 512 ==>
            #[trigger] b.entry(x, y) == (if x == s && y == i { e } else { a.entry(x, y) }) && a.cell_ok(x, y),
{
    lemma_cell_injective();
    assert forall|x: int, y: int| 0 <= x < a.pool_frames && 0 <= y < 512 implies
        #[trigger] b.entry(x, y) == (if x == s && y == i { e } else { a.entry(x, y) }) && a.cell_ok(x, y) by {
        lemma_cell(x, y, a.pool_frames as int);
        lemma_cell(s, i, a.pool_frames as int);
    }
}

/// A page-table hierarchy whose nodes live in a pool of `pool_frames`
/// consecutive frames starting at `pool_base`; a node is named by its slot in
/// the pool, and the root is slot 0.
pub struct PageTableArena {
    pub pool_base: u64,
    pub pool_frames: u64,
    /// `ENTRY_COUNT` entries per slot, slot after slot.
    pub entries: Vec<Entry>,
    /// The level of the node held in each slot; 0 for a slot not yet in use.
    pub levels: Ghost<Seq<nat>>,
}

impl PageTableArena {
    pub open spec fn entry(self, s: int, i: int) -> Entry {
        self.entries@[cell(s, i)]
    }

    pub open spec fn level(self, s: int) -> nat {
        self.levels@[s]
    }

    pub open spec fn cell_ok(self, s: int, i: int) -> bool {
        &&& (self.level(s) == 0 ==> self.entry(s, i) is Absent)
        &&& match self.entry(s, i) {
            Entry::Absent => true,
            Entry::Table { slot } => slot < self.pool_frames && self.level(s) >= 2
                && self.level(slot as int) == self.level(s) - 1,
            Entry::Page { size, .. } => self.level(s) == (if size == PageSize::Size1GiB { 3nat } else { 1nat }),
        }
    }

    /// The arena is consistent, and `a` is the allocator that hands out its
    /// unused slots: slots 1 to `a.remaining` are free.
    pub open spec fn wf(self, a: BumpFrameAllocator) -> bool {
        &&& self.pool_frames >= 1
        &&& self.pool_base + self.pool_frames * PAGE_SIZE <= u64::MAX
        &&& self.entries@.len() == self.pool_frames * 512
        &&& self.levels@.len() == self.pool_frames
        &&& self.level(0) == 4
        &&& a.lowest_address == self.pool_base + PAGE_SIZE
        &&& a.remaining < self.pool_frames
        &&& forall|s: int| 1 <= s <= a.remaining ==> #[trigger] self.level(s) == 0
        &&& forall|s: int, i: int|
            0 <= s < self.pool_frames && 0 <= i < 512 ==> #[trigger] self.cell_ok(s, i)
        &&& self.links_unique()
    }

    /// No two entries link to the same node: the nodes form a tree.
    pub open spec fn links_unique(self) -> bool {
        forall|s1: int, i1: int, s2: int, i2: int|
            0 <= s1 < self.pool_frames && 0 <= i1 < 512 && 0 <= s2 < self.pool_frames && 0 <= i2 < 512
                && link_of(#[trigger] self.entry(s1, i1)) >= 0
                && link_of(self.entry(s1, i1)) == link_of(#[trigger] self.entry(s2, i2))
                ==> s1 == s2 && i1 == i2
    }

    /// No node of level one or two is in use: only 1 GiB pages were mapped.
    pub open spec fn no_small_tables(self) -> bool {
        forall|s: int| 0 <= s < self.pool_frames ==> #[trigger] self.level(s) != 2 && self.level(s) != 1
    }

    /// The walk for `w` reads entry `i` of node `s` as the entry of a page of `size`.
    pub open spec fn reaches(self, w: u64, s: int, i: int, size: PageSize) -> bool {
        match size {
            PageSize::Size1GiB => link_of(self.entry(0, index_of(w, Level::Four))) == s
                && index_of(w, Level::Three) == i,
            PageSize::Size4KiB => {
                let t3 = link_of(self.entry(0, index_of(w, Level::Four)));
                let t2 = link_of(self.entry(t3, index_of(w, Level::Three)));
                &&& t3 >= 0
                &&& t2 >= 0
                &&& link_of(self.entry(t2, index_of(w, Level::Two))) == s
                &&& index_of(w, Level::One) == i
            },
        }
    }

    /// Physical address of the frame of slot `s`.
    pub open spec fn slot_frame(self, s: int) -> int {
        self.pool_base + s * PAGE_SIZE
    }

    /// The mapping that covers `v`: its size, the physical start of the page
    /// and its flags.
    pub open spec fn lookup(self, v: u64) -> Option<(PageSize, u64, Flags)> {
        match self.entry(0, index_of(v, Level::Four)) {
            Entry::Table { slot: s3 } => match self.entry(s3 as int, index_of(v, Level::Three)) {
                Entry::Page { phys, flags, .. } => Some((PageSize::Size1GiB, phys, flags)),
                Entry::Table { slot: s2 } => match self.entry(s2 as int, index_of(v, Level::Two)) {
                    Entry::Table { slot: s1 } => match self.entry(s1 as int, index_of(v, Level::One)) {
                        Entry::Page { phys, flags, .. } => Some((PageSize::Size4KiB, phys, flags)),
                        _ => None,
                    },
                    _ => None,
                },
                _ => None,
            },
            _ => None,
        }
    }

    /// A mapping of `size` at `v` would collide with what is already there.
    pub open spec fn conflicts(self, v: u64, size: PageSize) -> bool {
        match self.entry(0, index_of(v, Level::Four)) {
            Entry::Absent => false,
            Entry::Page { .. } => true,
            Entry::Table { slot: s3 } => {
                let e3 = self.entry(s3 as int, index_of(v, Level::Three));
                match size {
                    PageSize::Size1GiB => !(e3 is Absent),
                    PageSize::Size4KiB => match e3 {
                        Entry::Absent => false,
                        Entry::Page { .. } => true,
                        Entry::Table { slot: s2 } => match self.entry(s2 as int, index_of(v, Level::Two)) {
                            Entry::Absent => false,
                            Entry::Page { .. } => true,
                            Entry::Table { slot: s1 } => !(self.entry(s1 as int, index_of(v, Level::One)) is Absent),
                        },
                    },
                }
            },
        }
    }

    /// How many new nodes a mapping of `size` at `v` needs.
    pub open spec fn frames_needed(self, v: u64, size: PageSize) -> nat {
        match self.entry(0, index_of(v, Level::Four)) {
            Entry::Table { slot: s3 } => match size {
                PageSize::Size1GiB => 0,
                PageSize::Size4KiB => match self.entry(s3 as int, index_of(v, Level::Three)) {
                    Entry::Table { slot: s2 } => if self.entry(s2 as int, index_of(v, Level::Two)) is Table {
                        0
                    } else {
                        1
                    },
                    _ => 2,
                },
            },
            _ => match size {
                PageSize::Size1GiB => 1,
                PageSize::Size4KiB => 3,
            },
        }
    }
}

impl PageTableArena {
    /// An arena over the pool of `pool_frames` frames at `pool_base`, holding
    /// an empty root in slot 0, with the allocator that hands out the other
    /// slots, highest first.
    pub fn new(pool_base: u64, pool_frames: u64) -> (r: (Self, BumpFrameAllocator))
        requires
            pool_frames >= 1,
            pool_base + pool_frames * PAGE_SIZE <= u64::MAX,
            pool_frames * 512 <= usize::MAX,
        ensures
            r.0.wf(r.1),
            r.0.pool_base == pool_base,
            r.0.pool_frames == pool_frames,
            r.1.remaining == pool_frames - 1,
            forall|s: int, i: int| 0 <= s < pool_frames && 0 <= i < 512 ==>
                #[trigger] r.0.entry(s, i) == (Entry::Absent),
            forall|v: u64| (#[trigger] r.0.lookup(v) is None),
            r.0.no_small_tables(),
    {
        let total: usize = (pool_frames * 512) as usize;
        let mut entries: Vec<Entry> = Vec::new();
        while entries.len() < total
            invariant
                entries.len() <= total,
                forall|k: int| 0 <= k < entries.len() ==> entries@[k] == Entry::Absent,
            decreases total - entries.len(),
        {
            entries.push(Entry::Absent);
        }
        let ghost levels = Seq::new(pool_frames as nat, |s: int| if s == 0 { 4nat } else { 0nat });
        let arena = PageTableArena { pool_base, pool_frames, entries, levels: Ghost(levels) };
        proof {
            assert forall|s: int, i: int| 0 <= s < pool_frames && 0 <= i < 512 implies
                #[trigger] arena.entry(s, i) == Entry::Absent by {
                lemma_cell(s, i, pool_frames as int);
            }
            assert forall|s: int, i: int| 0 <= s < pool_frames && 0 <= i < 512 implies
                #[trigger] arena.cell_ok(s, i) by {
                assert(arena.entry(s, i) == Entry::Absent);
            }
            assert forall|v: u64| #[trigger] arena.lookup(v) is None by {
                assert(arena.entry(0, index_of(v, Level::Four)) == Entry::Absent);
            }
        }
        let alloc = BumpFrameAllocator::new(pool_base + PAGE_SIZE, pool_frames - 1);
        (arena, alloc)
    }

    /// The entry `i` of the node in slot `s`.
    pub fn get(&self, s: u64, i: u64) -> (e: Entry)
        requires
            s < self.pool_frames,
            i < 512,
            self.entries@.len() == self.pool_frames * 512,
        ensures
            e == self.entry(s as int, i as int),
    {
        let n = self.entries.len();
        proof {
            lemma_cell(s as int, i as int, self.pool_frames as int);
            assert(n as int == self.pool_frames * 512);
        }
        self.entries[(s * 512 + i) as usize]
    }

    fn set(&mut self, s: u64, i: u64, e: Entry)
        requires
            s < old(self).pool_frames,
            i < 512,
            old(self).entries@.len() == old(self).pool_frames * 512,
        ensures
            final(self).entries@ == old(self).entries@.update(cell(s as int, i as int), e),
            final(self).levels == old(self).levels,
            final(self).pool_base == old(self).pool_base,
            final(self).pool_frames == old(self).pool_frames,
    {
        let n = self.entries.len();
        proof {
            lemma_cell(s as int, i as int, self.pool_frames as int);
            assert(n as int == self.pool_frames * 512);
        }
        self.entries.set((s * 512 + i) as usize, e);
    }

    /// Whether a mapping of `size` at `v` collides, and how many new nodes it needs.
    fn probe(&self, a: &BumpFrameAllocator, v: u64, size: PageSize) -> (r: (bool, u64))
        requires
            self.wf(*a),
        ensures
            r.0 == self.conflicts(v, size),
            r.1 == self.frames_needed(v, size),
    {
        let fresh: u64 = match size {
            PageSize::Size1GiB => 1,
            PageSize::Size4KiB => 3,
        };
        let i4 = table_index(v, Level::Four);
        proof {
            assert(self.cell_ok(0, i4 as int));
        }
        match self.get(0, i4) {
            Entry::Absent => (false, fresh),
            Entry::Page { .. } => (true, fresh),
            Entry::Table { slot: s3 } => {
                let i3 = table_index(v, Level::Three);
                proof {
                    assert(self.cell_ok(s3 as int, i3 as int));
                }
                let e3 = self.get(s3, i3);
                match size {
                    PageSize::Size1GiB => (!matches!(e3, Entry::Absent), 0),
                    PageSize::Size4KiB => match e3 {
                        Entry::Absent => (false, 2),
                        Entry::Page { .. } => (true, 2),
                        Entry::Table { slot: s2 } => {
                            let i2 = table_index(v, Level::Two);
                            proof {
                                assert(self.cell_ok(s2 as int, i2 as int));
                            }
                            match self.get(s2, i2) {
                                Entry::Absent => (false, 1),
                                Entry::Page { .. } => (true, 1),
                                Entry::Table { slot: s1 } => {
                                    let i1 = table_index(v, Level::One);
                                    (!matches!(self.get(s1, i1), Entry::Absent), 0)
                                },
                            }
                        },
                    },
                }
            },
        }
    }

    /// The node that entry `i` of node `s` links to, made from a fresh slot
    /// when the entry is absent.
    fn child_table(&mut self, alloc: &mut BumpFrameAllocator, s: u64, i: u64) -> (c: u64)
        requires
            old(self).wf(*old(alloc)),
            s < old(self).pool_frames,
            i < 512,
            old(self).level(s as int) >= 2,
            !(old(self).entry(s as int, i as int) is Page),
            (old(self).entry(s as int, i as int) is Absent) ==> old(alloc).remaining >= 1,
        ensures
            final(self).wf(*final(alloc)),
            final(self).pool_base == old(self).pool_base,
            final(self).pool_frames == old(self).pool_frames,
            c < old(self).pool_frames,
            final(self).level(c as int) == old(self).level(s as int) - 1,
            final(self).entries@ == old(self).entries@.update(cell(s as int, i as int), (Entry::Table { slot: c })),
            final(self).levels@ == old(self).levels@.update(c as int, (old(self).level(s as int) - 1) as nat),
            (old(self).entry(s as int, i as int) is Table) ==> *final(alloc) == *old(alloc)
                && old(self).entry(s as int, i as int) == (Entry::Table { slot: c }),
            (old(self).entry(s as int, i as int) is Absent) ==> final(alloc).remaining == old(alloc).remaining - 1
                && old(self).level(c as int) == 0,
            forall|w: u64| #[trigger] final(self).lookup(w) == old(self).lookup(w),
    {
        proof {
            assert(self.cell_ok(s as int, i as int));
            lemma_cell(s as int, i as int, self.pool_frames as int);
        }
        match self.get(s, i) {
            Entry::Table { slot } => {
                proof {
                    assert(self.entries@.update(cell(s as int, i as int), Entry::Table { slot }) =~= self.entries@);
                    assert(self.levels@.update(slot as int, (self.level(s as int) - 1) as nat) =~= self.levels@);
                }
                slot
            },
            _ => {
                let c = alloc.remaining;
                let ghost old_self = *self;
                let ghost old_alloc = *alloc;
                match alloc.allocate() {
                    Some(_) => {},
                    None => {
                        proof {
                            assert(false);
                        }
                    },
                }
                self.set(s, i, Entry::Table { slot: c });
                let ghost lv = (old_self.level(s as int) - 1) as nat;
                proof {
                    self.levels = Ghost(self.levels@.update(c as int, lv));
                    assert(old_self.level(c as int) == 0);
                    assert forall|s2: int| 1 <= s2 <= alloc.remaining implies #[trigger] self.level(s2) == 0 by {
                        assert(old_self.level(s2) == 0);
                    }
                    assert forall|s2: int, i2: int| 0 <= s2 < self.pool_frames && 0 <= i2 < 512 implies
                        #[trigger] self.cell_ok(s2, i2) by {
                        assert(old_self.cell_ok(s2, i2));
                        if s2 != s || i2 != i {
                            lemma_cells_distinct(s2, i2, s as int, i as int);
                            lemma_cell(s2, i2, self.pool_frames as int);
                            assert(self.entry(s2, i2) == old_self.entry(s2, i2));
                            if s2 == c {
                                assert(old_self.entry(s2, i2) is Absent);
                            }
                            match self.entry(s2, i2) {
                                Entry::Table { slot } => {
                                    assert(old_self.level(slot as int) >= 1);
                                    assert(slot != c);
                                },
                                _ => {},
                            }
                        } else {
                            assert(self.entry(s2, i2) == Entry::Table { slot: c });
                        }
                    }
                    lemma_cell_injective();
                    let n = self.pool_frames as int;
                    assert forall|x1: int, y1: int, x2: int, y2: int|
                        0 <= x1 < n && 0 <= y1 < 512 && 0 <= x2 < n && 0 <= y2 < 512
                            && link_of(#[trigger] self.entry(x1, y1)) >= 0
                            && link_of(self.entry(x1, y1)) == link_of(#[trigger] self.entry(x2, y2))
                        implies x1 == x2 && y1 == y2 by {
                        lemma_cell(x1, y1, n);
                        lemma_cell(x2, y2, n);
                        lemma_cell(s as int, i as int, n);
                        let here1 = x1 == s && y1 == i;
                        let here2 = x2 == s && y2 == i;
                        if !here1 {
                            assert(cell(x1, y1) != cell(s as int, i as int));
                            assert(self.entry(x1, y1) == old_self.entry(x1, y1));
                            assert(old_self.cell_ok(x1, y1));
                        }
                        if !here2 {
                            assert(cell(x2, y2) != cell(s as int, i as int));
                            assert(self.entry(x2, y2) == old_self.entry(x2, y2));
                            assert(old_self.cell_ok(x2, y2));
                        }
                        if here1 && !here2 {
                            assert(link_of(old_self.entry(x2, y2)) == c);
                        }
                        if here2 && !here1 {
                            assert(link_of(old_self.entry(x1, y1)) == c);
                        }
                    }
                    lemma_write_cell(old_self, old_alloc, *self, s as int, i as int, Entry::Table { slot: c });
                    assert(c != 0);
                    assert forall|w: u64| #[trigger] self.lookup(w) == old_self.lookup(w) by {
                        assert(self.entry(0, index_of(w, Level::Four)) == self.entry(0, index_of(w, Level::Four)));
                    }
                }
                c
            },
        }
    }

    /// Stores a page in the absent entry `i` of node `s`.
    fn put_page(&mut self, alloc: &BumpFrameAllocator, s: u64, i: u64, phys: u64, flags: Flags, size: PageSize)
        requires
            old(self).wf(*alloc),
            s < old(self).pool_frames,
            i < 512,
            old(self).level(s as int) == (if size == PageSize::Size1GiB { 3nat } else { 1nat }),
            (old(self).entry(s as int, i as int) is Absent),
        ensures
            final(self).wf(*alloc),
            final(self).pool_base == old(self).pool_base,
            final(self).pool_frames == old(self).pool_frames,
            final(self).levels == old(self).levels,
            final(self).entries@ == old(self).entries@.update(cell(s as int, i as int), (Entry::Page { phys, flags, size })),
            forall|w: u64| #[trigger] final(self).lookup(w) == (if old(self).reaches(w, s as int, i as int, size) {
                Some((size, phys, flags))
            } else {
                old(self).lookup(w)
            }),
    {
        let ghost old_self = *self;
        self.set(s, i, Entry::Page { phys, flags, size });
        proof {
            assert forall|s2: int, i2: int| 0 <= s2 < self.pool_frames && 0 <= i2 < 512 implies
                #[trigger] self.cell_ok(s2, i2) by {
                assert(old_self.cell_ok(s2, i2));
                lemma_cell(s2, i2, self.pool_frames as int);
                if s2 != s || i2 != i {
                    lemma_cells_distinct(s2, i2, s as int, i as int);
                    assert(self.entry(s2, i2) == old_self.entry(s2, i2));
                } else {
                    assert(self.entry(s2, i2) == (Entry::Page { phys, flags, size }));
                }
            }
            assert forall|s2: int| 1 <= s2 <= alloc.remaining implies #[trigger] self.level(s2) == 0 by {
                assert(old_self.level(s2) == 0);
            }
            lemma_cell_injective();
            let n = self.pool_frames as int;
            assert forall|x1: int, y1: int, x2: int, y2: int|
                0 <= x1 < n && 0 <= y1 < 512 && 0 <= x2 < n && 0 <= y2 < 512
                    && link_of(#[trigger] self.entry(x1, y1)) >= 0
                    && link_of(self.entry(x1, y1)) == link_of(#[trigger] self.entry(x2, y2))
                implies x1 == x2 && y1 == y2 by {
                lemma_cell(x1, y1, n);
                lemma_cell(x2, y2, n);
                lemma_cell(s as int, i as int, n);
                assert(cell(x1, y1) != cell(s as int, i as int));
                assert(cell(x2, y2) != cell(s as int, i as int));
                assert(self.entry(x1, y1) == old_self.entry(x1, y1));
                assert(self.entry(x2, y2) == old_self.entry(x2, y2));
            }
            lemma_write_cell(old_self, *alloc, *self, s as int, i as int, Entry::Page { phys, flags, size });
            assert forall|w: u64| #[trigger] self.lookup(w) == (if old_self.reaches(w, s as int, i as int, size) {
                Some((size, phys, flags))
            } else {
                old_self.lookup(w)
            }) by {
                assert(self.entry(0, index_of(w, Level::Four)) == self.entry(0, index_of(w, Level::Four)));
            }
        }
    }

    /// Maps the page of `size` at `virt` to the frame at `phys` with `flags`,
    /// taking the nodes it needs from `alloc`.  Nothing changes when it fails.
    pub fn map_to(
        &mut self,
        alloc: &mut BumpFrameAllocator,
        virt: u64,
        phys: u64,
        flags: Flags,
        size: PageSize,
    ) -> (r: Result<(), MapError>)
        requires
            old(self).wf(*old(alloc)),
        ensures
            final(self).wf(*final(alloc)),
            final(self).pool_base == old(self).pool_base,
            final(self).pool_frames == old(self).pool_frames,
            r == (if old(self).conflicts(virt, size) {
                Err(MapError::AlreadyMapped)
            } else if old(alloc).remaining < old(self).frames_needed(virt, size) {
                Err(MapError::OutOfScratchFrames)
            } else {
                Ok(())
            }),
            (r is Err) ==> *final(self) == *old(self) && *final(alloc) == *old(alloc),
            (r is Ok) ==> final(self).lookup(virt) == Some((size, phys, flags))
                && final(alloc).remaining == old(alloc).remaining - old(self).frames_needed(virt, size),
            (r is Ok) ==> forall|w: u64| covers(virt, size, w) ==> (#[trigger] old(self).lookup(w) is None),
            size == PageSize::Size1GiB && old(self).no_small_tables() ==> final(self).no_small_tables(),
            (r is Ok) ==> forall|w: u64| #[trigger] final(self).lookup(w) == (if covers(virt, size, w) {
                Some((size, phys, flags))
            } else {
                old(self).lookup(w)
            }),
    {
        let (conflict, needed) = self.probe(alloc, virt, size);
        if conflict {
            return Err(MapError::AlreadyMapped);
        }
        if alloc.remaining < needed {
            return Err(MapError::OutOfScratchFrames);
        }
        let ghost s0 = *self;
        proof {
            assert forall|w: u64| covers(virt, size, w) implies (#[trigger] s0.lookup(w) is None) by {
                assert(s0.entry(0, index_of(w, Level::Four)) == s0.entry(0, index_of(virt, Level::Four)));
            }
        }
        match size {
            PageSize::Size1GiB => self.map_huge(alloc, virt, phys, flags),
            PageSize::Size4KiB => self.map_small(alloc, virt, phys, flags),
        }
        Ok(())
    }

    /// The hardware form of entry `i` of node `s`: a link to a node carries
    /// present, writable and user-accessible, a 1 GiB page also the huge-page
    /// bit.  `None` when an address does not fit the entry format.
    pub fn hardware_entry(&self, alloc: &BumpFrameAllocator, s: u64, i: u64) -> (r: Option<u64>)
        requires
            self.wf(*alloc),
            s < self.pool_frames,
            i < 512,
        ensures
            r == hardware_form(self.entry(s as int, i as int), self.pool_base as int),
    {
        proof {
            assert(self.cell_ok(s as int, i as int));
        }
        match self.get(s, i) {
            Entry::Absent => Some(0),
            Entry::Table { slot } => {
                proof {
                    assert(self.pool_base + slot * PAGE_SIZE <= u64::MAX) by (nonlinear_arith)
                        requires self.pool_base + self.pool_frames * PAGE_SIZE <= u64::MAX, slot < self.pool_frames;
                }
                encode(
                    self.pool_base + slot * PAGE_SIZE,
                    Flags { present: true, writable: true, user_accessible: true, no_execute: false },
                    false,
                )
            },
            Entry::Page { phys, flags, size } => encode(phys, flags, size == PageSize::Size1GiB),
        }
    }

    fn map_huge(&mut self, alloc: &mut BumpFrameAllocator, virt: u64, phys: u64, flags: Flags)
        requires
            old(self).wf(*old(alloc)),
            !old(self).conflicts(virt, PageSize::Size1GiB),
            old(alloc).remaining >= old(self).frames_needed(virt, PageSize::Size1GiB),
        ensures
            final(self).wf(*final(alloc)),
            final(self).pool_base == old(self).pool_base,
            final(self).pool_frames == old(self).pool_frames,
            final(alloc).remaining == old(alloc).remaining - old(self).frames_needed(virt, PageSize::Size1GiB),
            old(self).no_small_tables() ==> final(self).no_small_tables(),
            forall|w: u64| #[trigger] final(self).lookup(w) == (if covers(virt, PageSize::Size1GiB, w) {
                Some((PageSize::Size1GiB, phys, flags))
            } else {
                old(self).lookup(w)
            }),
    {
        let size = PageSize::Size1GiB;
        let ghost s0 = *self;
        let i4 = table_index(virt, Level::Four);
        let i3 = table_index(virt, Level::Three);
        proof {
            assert(s0.cell_ok(0, i4 as int));
        }
        let s3 = self.child_table(alloc, 0, i4);
        proof {
            lemma_cells_distinct(s3 as int, i3 as int, 0, i4 as int);
            lemma_cell(s3 as int, i3 as int, self.pool_frames as int);
            assert(self.entry(s3 as int, i3 as int) == s0.entry(s3 as int, i3 as int));
            assert(s0.cell_ok(s3 as int, i3 as int));
        }
        proof {
            assert forall|x: int| 0 <= x < self.pool_frames && s0.no_small_tables() implies
                #[trigger] self.level(x) != 2 && self.level(x) != 1 by {
                assert(s0.level(x) != 2 && s0.level(x) != 1);
            }
        }
        let ghost m = *self;
        self.put_page(alloc, s3, i3, phys, flags, size);
        proof {
            assert forall|x: int| 0 <= x < self.pool_frames && s0.no_small_tables() implies
                #[trigger] self.level(x) != 2 && self.level(x) != 1 by {
                assert(m.level(x) != 2 && m.level(x) != 1);
            }
            assert(m.entry(0, i4 as int) == Entry::Table { slot: s3 });
            assert forall|w: u64| #[trigger] self.lookup(w) == (if covers(virt, size, w) {
                Some((size, phys, flags))
            } else {
                s0.lookup(w)
            }) by {
                let j4 = index_of(w, Level::Four);
                assert(m.cell_ok(0, j4));
                assert(m.reaches(w, s3 as int, i3 as int, size) == covers(virt, size, w)) by {
                    if link_of(m.entry(0, j4)) == s3 {
                        assert(link_of(m.entry(0, i4 as int)) == s3);
                    }
                }
                assert(m.lookup(w) == s0.lookup(w));
            }
            lemma_cells_distinct(s3 as int, i3 as int, 0, i4 as int);
            lemma_cell(0, i4 as int, self.pool_frames as int);
            assert(self.entry(0, i4 as int) == Entry::Table { slot: s3 });
            assert(self.entry(s3 as int, i3 as int) == (Entry::Page { phys, flags, size }));
        }
    
    }

    fn map_small(&mut self, alloc: &mut BumpFrameAllocator, virt: u64, phys: u64, flags: Flags)
        requires
            old(self).wf(*old(alloc)),
            !old(self).conflicts(virt, PageSize::Size4KiB),
            old(alloc).remaining >= old(self).frames_needed(virt, PageSize::Size4KiB),
        ensures
            final(self).wf(*final(alloc)),
            final(self).pool_base == old(self).pool_base,
            final(self).pool_frames == old(self).pool_frames,
            final(alloc).remaining == old(alloc).remaining - old(self).frames_needed(virt, PageSize::Size4KiB),
            forall|w: u64| #[trigger] final(self).lookup(w) == (if covers(virt, PageSize::Size4KiB, w) {
                Some((PageSize::Size4KiB, phys, flags))
            } else {
                old(self).lookup(w)
            }),
    {
        let size = PageSize::Size4KiB;
        let ghost s0 = *self;
        let i4 = table_index(virt, Level::Four);
        let i3 = table_index(virt, Level::Three);
        proof {
            assert(s0.cell_ok(0, i4 as int));
        }
        let s3 = self.child_table(alloc, 0, i4);
        proof {
            lemma_cells_distinct(s3 as int, i3 as int, 0, i4 as int);
            lemma_cell(s3 as int, i3 as int, self.pool_frames as int);
            assert(self.entry(s3 as int, i3 as int) == s0.entry(s3 as int, i3 as int));
            assert(s0.cell_ok(s3 as int, i3 as int));
        }
        let i2 = table_index(virt, Level::Two);
        let i1 = table_index(virt, Level::One);
        let s2 = self.child_table(alloc, s3, i3);
        proof {
            lemma_cells_distinct(s2 as int, i2 as int, 0, i4 as int);
            lemma_cells_distinct(s2 as int, i2 as int, s3 as int, i3 as int);
            lemma_cell(s2 as int, i2 as int, self.pool_frames as int);
            assert(self.entry(s2 as int, i2 as int) == s0.entry(s2 as int, i2 as int));
            assert(s0.cell_ok(s2 as int, i2 as int));
        }
        let s1 = self.child_table(alloc, s2, i2);
        proof {
            lemma_cells_distinct(s1 as int, i1 as int, 0, i4 as int);
            lemma_cells_distinct(s1 as int, i1 as int, s3 as int, i3 as int);
            lemma_cells_distinct(s1 as int, i1 as int, s2 as int, i2 as int);
            lemma_cell(s1 as int, i1 as int, self.pool_frames as int);
            assert(self.entry(s1 as int, i1 as int) == s0.entry(s1 as int, i1 as int));
            assert(s0.cell_ok(s1 as int, i1 as int));
        }
        let ghost m = *self;
        self.put_page(alloc, s1, i1, phys, flags, size);
        proof {
            assert(m.entry(0, i4 as int) == Entry::Table { slot: s3 });
            assert(m.entry(s3 as int, i3 as int) == Entry::Table { slot: s2 });
            assert(m.entry(s2 as int, i2 as int) == Entry::Table { slot: s1 });
            assert forall|w: u64| #[trigger] self.lookup(w) == (if covers(virt, size, w) {
                Some((size, phys, flags))
            } else {
                s0.lookup(w)
            }) by {
                let j4 = index_of(w, Level::Four);
                let j3 = index_of(w, Level::Three);
                let j2 = index_of(w, Level::Two);
                let t3 = link_of(m.entry(0, j4));
                let t2 = link_of(m.entry(t3, j3));
                assert(m.cell_ok(0, j4));
                if t3 >= 0 {
                    assert(m.cell_ok(t3, j3));
                    if t2 >= 0 {
                        assert(m.cell_ok(t2, j2));
                    }
                }
                assert(m.reaches(w, s1 as int, i1 as int, size) == covers(virt, size, w)) by {
                    if m.reaches(w, s1 as int, i1 as int, size) {
                        assert(link_of(m.entry(s2 as int, i2 as int)) == s1);
                        assert(t2 == s2 && j2 == i2);
                        assert(link_of(m.entry(s3 as int, i3 as int)) == s2);
                        assert(t3 == s3 && j3 == i3);
                        assert(link_of(m.entry(0, i4 as int)) == s3);
                        assert(j4 == i4);
                    }
                }
                assert(m.lookup(w) == s0.lookup(w));
            }
            lemma_cells_distinct(s3 as int, i3 as int, 0, i4 as int);
            lemma_cells_distinct(s2 as int, i2 as int, 0, i4 as int);
            lemma_cells_distinct(s2 as int, i2 as int, s3 as int, i3 as int);
            lemma_cells_distinct(s1 as int, i1 as int, 0, i4 as int);
            lemma_cells_distinct(s1 as int, i1 as int, s3 as int, i3 as int);
            lemma_cells_distinct(s1 as int, i1 as int, s2 as int, i2 as int);
            lemma_cell(0, i4 as int, self.pool_frames as int);
            lemma_cell(s3 as int, i3 as int, self.pool_frames as int);
            lemma_cell(s2 as int, i2 as int, self.pool_frames as int);
            assert(self.entry(0, i4 as int) == Entry::Table { slot: s3 });
            assert(self.entry(s3 as int, i3 as int) == Entry::Table { slot: s2 });
            assert(self.entry(s2 as int, i2 as int) == Entry::Table { slot: s1 });
            assert(self.entry(s1 as int, i1 as int) == (Entry::Page { phys, flags, size }));
        }
    
    }
}

/// On a consistent hierarchy a mapping collides exactly when its address is
/// already mapped; for a 1 GiB page this needs that no small tables exist.
pub proof fn lemma_conflict_means_mapped(t: PageTableArena, al: BumpFrameAllocator, v: u64, size: PageSize)
    requires
        t.wf(al),
        size == PageSize::Size4KiB || t.no_small_tables(),
    ensures
        t.conflicts(v, size) == (t.lookup(v) is Some),
{
    let j4 = index_of(v, Level::Four);
    let j3 = index_of(v, Level::Three);
    let j2 = index_of(v, Level::Two);
    let j1 = index_of(v, Level::One);
    assert(t.cell_ok(0, j4));
    if let Entry::Table { slot: s3 } = t.entry(0, j4) {
        assert(t.cell_ok(s3 as int, j3));
        if let Entry::Table { slot: s2 } = t.entry(s3 as int, j3) {
            assert(t.cell_ok(s2 as int, j2));
            if let Entry::Table { slot: s1 } = t.entry(s2 as int, j2) {
                assert(t.cell_ok(s1 as int, j1));
            }
        }
    }
}

} // verus!
