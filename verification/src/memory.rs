//! Physical frame supply and virtual-memory mapping, modelled over plain
//! addresses: the frame supplier expands a firmware-provided memory map into
//! a sequence of frame-aligned addresses and hands out the next one on each
//! call; the mapper interface installs page-to-frame translations and is
//! what the heap backing step drives.

use vstd::prelude::*;
use vstd::arithmetic::div_mod::{
    lemma_fundamental_div_mod, lemma_mod_bound, lemma_mod_multiples_basic,
};

verus! {

/// Size of one physical frame and one virtual page, in bytes.
pub const PAGE_SIZE: u64 = 4096;

/// Why installing a page mapping failed.
#[derive(Clone, Copy, Debug, PartialEq, Eq, Structural)]
pub enum MapError {
    /// No frame could be obtained for the page or an intermediate table.
    FrameAllocationFailed,
    /// The page already has a translation installed.
    PageAlreadyMapped,
    /// A translation walk met a large-page entry, which this subsystem does
    /// not support.
    HugePageUnsupported,
}

/// One firmware-described physical memory region `[start, end)`, tagged
/// with whether the kernel may use it.
#[derive(Clone, Copy)]
pub struct MemoryRegion {
    pub start: u64,
    pub end: u64,
    pub usable: bool,
}

/// How many frame-size steps fit in the region, counting a trailing partial
/// step: one frame address is produced per step point below `end`.
pub open spec fn region_frame_count(r: MemoryRegion) -> int {
    if r.end <= r.start {
        0
    } else {
        let d = r.end - r.start;
        d / (PAGE_SIZE as int) + if d % (PAGE_SIZE as int) == 0 {
            0int
        } else {
            1int
        }
    }
}

/// The `k`th frame address of a region: the `k`th step point, aligned down
/// to a frame boundary.
pub open spec fn region_frame(r: MemoryRegion, k: int) -> int {
    r.start - r.start as int % (PAGE_SIZE as int) + PAGE_SIZE * k
}

/// All frame addresses a usable region contributes, in ascending order.
pub open spec fn region_frames(r: MemoryRegion) -> Seq<u64> {
    Seq::new(region_frame_count(r) as nat, |k: int| region_frame(r, k) as u64)
}

/// All frame addresses the memory map supplies, region by region in map
/// order, skipping regions not marked usable.
pub open spec fn usable_frames(regions: Seq<MemoryRegion>) -> Seq<u64>
    decreases regions.len(),
{
    if regions.len() == 0 {
        Seq::empty()
    } else {
        (if regions[0].usable {
            region_frames(regions[0])
        } else {
            Seq::empty()
        }) + usable_frames(regions.drop_first())
    }
}

/// Each frame of a region starts at a frame boundary and lies below the
/// region's end.
pub proof fn lemma_region_frame_bounds(r: MemoryRegion, k: int)
    requires
        0 <= k < region_frame_count(r),
    ensures
        0 <= region_frame(r, k) < r.end,
        region_frame(r, k) % (PAGE_SIZE as int) == 0,
{
    let p = PAGE_SIZE as int;
    let d = r.end - r.start;
    lemma_fundamental_div_mod(r.start as int, p);
    lemma_mod_bound(r.start as int, p);
    lemma_fundamental_div_mod(d, p);
    lemma_mod_bound(d, p);
    assert(p * k < d) by (nonlinear_arith)
        requires
            d == p * (d / p) + d % p,
            0 <= d % p < p,
            p == 4096,
            0 <= k,
            k < d / p + if d % p == 0 { 0int } else { 1int },
    ;
    let q = r.start as int / p;
    assert(r.start - r.start as int % p == p * q);
    assert(p * q + p * k == p * (q + k)) by (nonlinear_arith);
    lemma_mod_multiples_basic(q + k, p);
}

/// The frame supplier: expands the memory map's usable regions into a
/// sequence of frame addresses and hands out the `next`th one on each call,
/// never reclaiming any.
pub struct BootInfoFrameAllocator {
    memory_map: Vec<MemoryRegion>,
    next: usize,
}

/// A supplier of physical frames, as the heap backing step consumes it.
/// Every frame handed out starts at a frame boundary, a request succeeds
/// exactly while frames are left, and each success uses one up.
pub trait FrameSource {
    /// How many frames this supplier can still hand out.
    spec fn frames_left(&self) -> int;

    fn allocate_frame(&mut self) -> (r: Option<u64>)
        ensures
            r matches Some(f) ==> f as int % (PAGE_SIZE as int) == 0,
            r is Some <==> old(self).frames_left() > 0,
            r is Some ==> final(self).frames_left() == old(self).frames_left() - 1,
            r is None ==> final(self).frames_left() <= old(self).frames_left(),
    ;
}

impl BootInfoFrameAllocator {
    /// The firmware memory map this supplier draws from.
    pub closed spec fn regions(self) -> Seq<MemoryRegion> {
        self.memory_map@
    }

    /// Index of the next frame to hand out.
    pub closed spec fn next(self) -> usize {
        self.next
    }

    /// A supplier over the given memory map, starting at its first usable
    /// frame.
    pub fn init(memory_map: Vec<MemoryRegion>) -> (r: BootInfoFrameAllocator)
        ensures
            r.regions() == memory_map@,
            r.next() == 0,
    {
        BootInfoFrameAllocator { memory_map, next: 0 }
    }

    /// The `n`th usable frame of the map, if the map holds that many.
    fn nth_usable_frame(&self, n: u64) -> (r: Option<u64>)
        ensures
            n < usable_frames(self.regions()).len() ==> r == Some(
                usable_frames(self.regions())[n as int],
            ),
            n >= usable_frames(self.regions()).len() ==> r is None,
            r matches Some(f) ==> f as int % (PAGE_SIZE as int) == 0,
    {
        let ghost all = usable_frames(self.regions());
        proof {
            assert(all.skip(0) =~= all);
            assert(self.regions().skip(0) =~= self.regions());
        }
        let mut ri: usize = 0;
        let mut remaining: u64 = n;
        while ri < self.memory_map.len()
            invariant
                ri <= self.memory_map@.len(),
                remaining <= n,
                n - remaining <= all.len(),
                all == usable_frames(self.regions()),
                all.skip(n - remaining) == usable_frames(self.regions().skip(ri as int)),
            decreases self.memory_map@.len() - ri,
        {
            let ghost rest = self.regions().skip(ri as int);
            let region = self.memory_map[ri];
            proof {
                assert(rest[0] == region);
                assert(rest.drop_first() =~= self.regions().skip(ri as int + 1));
            }
            if region.usable && region.end > region.start {
                let d: u64 = region.end - region.start;
                let rem: u64 = d % PAGE_SIZE;
                let count: u64 = d / PAGE_SIZE + if rem == 0 {
                    0
                } else {
                    1
                };
                if remaining < count {
                    proof {
                        lemma_region_frame_bounds(region, remaining as int);
                        assert(region_frames(region).len() == count);
                        assert(usable_frames(rest).len() >= count);
                        assert(all.skip(n - remaining).len() == all.len() - (n - remaining));
                        assert(n < all.len());
                        assert(all.skip(n - remaining)[remaining as int] == all[
                            n - remaining + remaining
                        ]);
                        assert(usable_frames(rest)[remaining as int] == region_frames(
                            region,
                        )[remaining as int]);
                    }
                    let base: u64 = region.start - region.start % PAGE_SIZE;
                    return Some(base + PAGE_SIZE * remaining);
                } else {
                    proof {
                        assert(region_frames(region).len() == count);
                        assert(usable_frames(rest).len() >= count);
                        assert(all.skip(n - remaining).len() == all.len() - (n - remaining));
                        assert(all.skip(n - remaining).skip(count as int) =~= all.skip(
                            n - (remaining - count),
                        ));
                        assert(usable_frames(rest).skip(count as int) =~= usable_frames(
                            rest.drop_first(),
                        ));
                    }
                    remaining = remaining - count;
                }
            } else {
                proof {
                    if region.usable {
                        assert(region_frames(region) =~= Seq::<u64>::empty());
                    }
                    assert(usable_frames(rest) =~= usable_frames(rest.drop_first()));
                }
            }
            ri = ri + 1;
        }
        proof {
            assert(self.regions().skip(ri as int) =~= Seq::<MemoryRegion>::empty());
            assert(all.skip(n - remaining).len() == 0);
        }
        None
    }
}

impl FrameSource for BootInfoFrameAllocator {
    /// Frames not yet handed out, up to the counter's machine limit — far
    /// beyond the point where any real map has run dry.
    closed spec fn frames_left(&self) -> int {
        let total = usable_frames(self.regions()).len() as int;
        let cap = if total <= usize::MAX as int {
            total
        } else {
            usize::MAX as int
        };
        cap - self.next() as int
    }

    /// Hand out the next usable frame of the map, in map order, advancing
    /// the monotonically increasing counter; `None` once the map's usable
    /// frames — or the counter's machine limit — are exhausted.
    fn allocate_frame(&mut self) -> (r: Option<u64>)
        ensures
            final(self).regions() == old(self).regions(),
            old(self).next() < usize::MAX ==> final(self).next() == old(self).next() + 1,
            old(self).next() < usable_frames(old(self).regions()).len() && old(self).next()
                < usize::MAX ==> r == Some(
                usable_frames(old(self).regions())[old(self).next() as int],
            ),
            old(self).next() >= usable_frames(old(self).regions()).len() ==> r is None,
    {
        if self.next == usize::MAX {
            return None;
        }
        let frame = self.nth_usable_frame(self.next as u64);
        self.next = self.next + 1;
        frame
    }
}

/// The supplier that has nothing: always reports exhaustion.
pub struct EmptyFrameAllocator;

impl FrameSource for EmptyFrameAllocator {
    open spec fn frames_left(&self) -> int {
        0
    }

    fn allocate_frame(&mut self) -> (r: Option<u64>)
        ensures
            r is None,
    {
        None
    }
}

/// A page mapper, as the heap backing step drives it: installs one
/// page-to-frame translation at a time, with a writable bit, and reports
/// its installed translations as a map from page to frame.
pub trait Mapper {
    /// The installed translations: page address to frame address and
    /// writable bit.
    spec fn mappings(&self) -> Map<u64, (u64, bool)>;

    /// Whether the mapper may refuse to install a translation for `page`.
    /// An implementation that can always fail — say, for want of an
    /// intermediate-table frame — reports every page.
    spec fn refuses(&self, page: u64) -> bool;

    /// Install a translation for `page` to `frame`. On success the
    /// translation is recorded; on failure nothing changes, and a
    /// `PageAlreadyMapped` report is truthful. A page the mapper did not
    /// reserve the right to refuse is mapped, and installing one page can
    /// newly endanger no other.
    fn map(&mut self, page: u64, frame: u64, writable: bool) -> (r: Result<(), MapError>)
        requires
            page as int % (PAGE_SIZE as int) == 0,
            frame as int % (PAGE_SIZE as int) == 0,
        ensures
            r is Ok ==> final(self).mappings() == old(self).mappings().insert(
                page,
                (frame, writable),
            ),
            r is Err ==> final(self).mappings() == old(self).mappings(),
            r == Err::<(), MapError>(MapError::PageAlreadyMapped) ==> old(
                self,
            ).mappings().contains_key(page),
            !old(self).refuses(page) ==> r is Ok,
            forall|p: u64| #[trigger] final(self).refuses(p) ==> old(self).refuses(p) || p == page,
    ;
}

/// Translations as a map: later entries of the flat table win, though `map`
/// never installs a page twice.
pub open spec fn entries_view(s: Seq<(u64, u64, bool)>) -> Map<u64, (u64, bool)>
    decreases s.len(),
{
    if s.len() == 0 {
        Map::empty()
    } else {
        entries_view(s.drop_last()).insert(s.last().0, (s.last().1, s.last().2))
    }
}

proof fn lemma_entries_view_contains(s: Seq<(u64, u64, bool)>, i: int)
    requires
        0 <= i < s.len(),
    ensures
        entries_view(s).contains_key(s[i].0),
    decreases s.len(),
{
    if i < s.len() - 1 {
        lemma_entries_view_contains(s.drop_last(), i);
        assert(s.drop_last()[i] == s[i]);
    }
}

proof fn lemma_entries_view_absent(s: Seq<(u64, u64, bool)>, page: u64)
    requires
        forall|j: int| 0 <= j < s.len() ==> (#[trigger] s[j]).0 != page,
    ensures
        !entries_view(s).contains_key(page),
    decreases s.len(),
{
    if s.len() > 0 {
        assert forall|j: int| 0 <= j < s.len() - 1 implies (#[trigger] s.drop_last()[j]).0
            != page by {
            assert(s.drop_last()[j] == s[j]);
        }
        lemma_entries_view_absent(s.drop_last(), page);
    }
}

/// The model page mapper: a flat table of installed translations, one entry
/// per page, refusing to map a page twice. It stands in for the hardware
/// page-table walker during verification; the kernel's real mapper drives
/// the processor's tables with the same contract.
pub struct PageMapper {
    entries: Vec<(u64, u64, bool)>,
}

impl PageMapper {
    /// A mapper with no installed translations, refusing no page.
    pub fn new() -> (r: PageMapper)
        ensures
            r.mappings() == Map::<u64, (u64, bool)>::empty(),
            forall|p: u64| !(#[trigger] r.refuses(p)),
    {
        PageMapper { entries: Vec::new() }
    }
}

impl Mapper for PageMapper {
    closed spec fn mappings(&self) -> Map<u64, (u64, bool)> {
        entries_view(self.entries@)
    }

    /// The model mapper refuses exactly the pages already mapped.
    open spec fn refuses(&self, page: u64) -> bool {
        self.mappings().contains_key(page)
    }

    /// Install the translation in the flat table: succeeds exactly when
    /// the page has none yet.
    fn map(&mut self, page: u64, frame: u64, writable: bool) -> (r: Result<(), MapError>)
        ensures
            r is Ok <==> !old(self).mappings().contains_key(page),
            r is Err ==> r == Err::<(), MapError>(MapError::PageAlreadyMapped),
    {
        let mut i: usize = 0;
        while i < self.entries.len()
            invariant
                i <= self.entries@.len(),
                *self == *old(self),
                forall|j: int| 0 <= j < i ==> (#[trigger] self.entries@[j]).0 != page,
            decreases self.entries@.len() - i,
        {
            if self.entries[i].0 == page {
                proof {
                    lemma_entries_view_contains(self.entries@, i as int);
                }
                return Err(MapError::PageAlreadyMapped);
            }
            i = i + 1;
        }
        proof {
            lemma_entries_view_absent(self.entries@, page);
        }
        self.entries.push((page, frame, writable));
        proof {
            assert(self.entries@.drop_last() =~= old(self).entries@);
        }
        Ok(())
    }
}

/// Whether a packed table entry is marked present.
pub open spec fn entry_present(e: u64) -> bool {
    e & 1 == 1
}

/// Whether a packed table entry maps a large page directly.
pub open spec fn entry_huge(e: u64) -> bool {
    e & 0x80 == 0x80
}

/// The frame a packed table entry points at.
pub open spec fn entry_frame(e: u64) -> u64 {
    e & 0x000f_ffff_ffff_f000
}

/// The 9-bit index a virtual address selects at the given level (4 down
/// to 1).
pub open spec fn table_index(addr: u64, level: u64) -> u64 {
    (addr >> (((level - 1) * 9 + 12) as u64)) & 0x1ff
}

/// The byte offset of an address inside its page.
pub open spec fn page_offset(addr: u64) -> u64 {
    addr & 0xfff
}

/// The first table stored under the given frame address, in storage order.
pub open spec fn lookup_spec(s: Seq<(u64, Vec<u64>)>, frame: u64) -> Option<Seq<u64>>
    decreases s.len(),
{
    if s.len() == 0 {
        None
    } else if s[0].0 == frame {
        Some(s[0].1@)
    } else {
        lookup_spec(s.drop_first(), frame)
    }
}

/// What a translation walk can come to.
pub enum WalkResult {
    /// The walk reached a mapped frame.
    Frame(u64),
    /// Some level's entry was not present: the address is unmapped.
    NotPresent,
    /// Some level's entry maps a large page, which this subsystem does not
    /// support.
    HugeEntry,
    /// The walk pointed at a frame that holds no table in the model.
    MissingTable,
}

/// Walk `level` levels of the table hierarchy from `frame`, following the
/// index the address selects at each level.
pub open spec fn walk_spec(s: Seq<(u64, Vec<u64>)>, frame: u64, addr: u64, level: u64) -> WalkResult
    decreases level,
{
    if level == 0 {
        WalkResult::Frame(frame)
    } else {
        match lookup_spec(s, frame) {
            None => WalkResult::MissingTable,
            Some(entries) => {
                if entries.len() != 512 {
                    WalkResult::MissingTable
                } else {
                    let e = entries[table_index(addr, level) as int];
                    if !entry_present(e) {
                        WalkResult::NotPresent
                    } else if entry_huge(e) {
                        WalkResult::HugeEntry
                    } else {
                        walk_spec(s, entry_frame(e), addr, (level - 1) as u64)
                    }
                }
            },
        }
    }
}

/// The four-level table hierarchy, modelled as the set of tables physical
/// memory holds: each element is a table's frame address and its 512 packed
/// entries.
pub struct PageTables {
    pub tables: Vec<(u64, Vec<u64>)>,
}

impl PageTables {
    /// A hierarchy with no tables.
    pub fn new() -> (r: PageTables)
        ensures
            r.tables@.len() == 0,
    {
        PageTables { tables: Vec::new() }
    }

    /// Store a table's 512 packed entries under its frame address.
    pub fn insert_table(&mut self, frame: u64, entries: Vec<u64>)
        ensures
            final(self).tables@ == old(self).tables@.push((frame, entries)),
    {
        self.tables.push((frame, entries));
    }

    /// Find the table stored under a frame address.
    fn lookup(&self, frame: u64) -> (r: Option<&Vec<u64>>)
        ensures
            match lookup_spec(self.tables@, frame) {
                Some(t) => r matches Some(v) && v@ == t,
                None => r is None,
            },
    {
        proof {
            assert(self.tables@.skip(0) =~= self.tables@);
        }
        let mut i: usize = 0;
        while i < self.tables.len()
            invariant
                i <= self.tables@.len(),
                forall|j: int| 0 <= j < i ==> (#[trigger] self.tables@[j]).0 != frame,
                lookup_spec(self.tables@, frame) == lookup_spec(
                    self.tables@.skip(i as int),
                    frame,
                ),
            decreases self.tables@.len() - i,
        {
            proof {
                assert(self.tables@.skip(i as int)[0] == self.tables@[i as int]);
                assert(self.tables@.skip(i as int).drop_first() =~= self.tables@.skip(
                    i as int + 1,
                ));
            }
            if self.tables[i].0 == frame {
                return Some(&self.tables[i].1);
            }
            i = i + 1;
        }
        proof {
            assert(self.tables@.skip(i as int) =~= Seq::<(u64, Vec<u64>)>::empty());
        }
        None
    }
}

/// Resolve a virtual address to a physical one by walking the four-level
/// hierarchy from the root table's frame: `None` exactly when some level's
/// entry is not present. The walk must stay inside the model's tables and
/// meet no large-page entry, which this subsystem treats as fatal.
pub fn translate_addr(tables: &PageTables, l4_frame: u64, addr: u64) -> (r: Option<u64>)
    requires
        l4_frame % 4096 == 0,
        !(walk_spec(tables.tables@, l4_frame, addr, 4) is HugeEntry),
        !(walk_spec(tables.tables@, l4_frame, addr, 4) is MissingTable),
    ensures
        match walk_spec(tables.tables@, l4_frame, addr, 4) {
            WalkResult::Frame(f) => r == Some((f + page_offset(addr)) as u64),
            WalkResult::NotPresent => r is None,
            _ => false,
        },
{
    translate_addr_inner(tables, l4_frame, addr)
}

fn translate_addr_inner(tables: &PageTables, l4_frame: u64, addr: u64) -> (r: Option<u64>)
    requires
        l4_frame % 4096 == 0,
        !(walk_spec(tables.tables@, l4_frame, addr, 4) is HugeEntry),
        !(walk_spec(tables.tables@, l4_frame, addr, 4) is MissingTable),
    ensures
        match walk_spec(tables.tables@, l4_frame, addr, 4) {
            WalkResult::Frame(f) => r == Some((f + page_offset(addr)) as u64),
            WalkResult::NotPresent => r is None,
            _ => false,
        },
{
    let mut frame: u64 = l4_frame;
    let mut level: u64 = 4;
    while level > 0
        invariant
            level <= 4,
            frame % 4096 == 0,
            walk_spec(tables.tables@, frame, addr, level) == walk_spec(
                tables.tables@,
                l4_frame,
                addr,
                4,
            ),
            !(walk_spec(tables.tables@, l4_frame, addr, 4) is HugeEntry),
            !(walk_spec(tables.tables@, l4_frame, addr, 4) is MissingTable),
        decreases level,
    {
        let ghost w = walk_spec(tables.tables@, frame, addr, level);
        let table = match tables.lookup(frame) {
            Some(t) => t,
            None => {
                proof {
                    assert(w is MissingTable);
                }
                return unreached();
            },
        };
        proof {
            assert(lookup_spec(tables.tables@, frame) == Some(table@));
            if table@.len() != 512 {
                assert(w is MissingTable);
            }
        }
        let shift: u64 = (level - 1) * 9 + 12;
        proof {
            assert((addr >> shift) & 0x1ff < 512) by (bit_vector);
        }
        let index: usize = ((addr >> shift) & 0x1ff) as usize;
        proof {
            assert(index as u64 == table_index(addr, level));
        }
        let entry: u64 = table[index];
        proof {
            assert(entry & 1 == 0 || entry & 1 == 1) by (bit_vector);
            assert(entry & 0x80 == 0 || entry & 0x80 == 0x80) by (bit_vector);
        }
        if entry & 1 == 0 {
            proof {
                assert(w is NotPresent);
            }
            return None;
        }
        if entry & 0x80 != 0 {
            proof {
                assert(w is HugeEntry);
            }
            return unreached();
        }
        proof {
            assert((entry & 0x000f_ffff_ffff_f000) % 4096 == 0) by (bit_vector);
            assert(w == walk_spec(
                tables.tables@,
                entry & 0x000f_ffff_ffff_f000,
                addr,
                (level - 1) as u64,
            ));
        }
        frame = entry & 0x000f_ffff_ffff_f000;
        level = level - 1;
    }
    proof {
        let fr: u64 = frame;
        assert(fr % 4096 == 0 ==> fr + (addr & 0xfff) <= u64::MAX) by (bit_vector);
        assert(page_offset(addr) == addr & 0xfff);
    }
    Some(frame + (addr & 0xfff))
}

} // verus!
