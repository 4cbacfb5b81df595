//! Address spaces: a page table plus the segments mapped through it.
use vstd::prelude::*;
use crate::address::{
    ceil_div, vpn_indexes, PhysPageNum, SimpleRange, VirtAddr, VirtPageNum, PPN_LIMIT, VPN_LIMIT,
};
use crate::config::{PAGE_SIZE, TRAMPOLINE, TRAP_CONTEXT, USER_STACK_SIZE};
use crate::elf::{elf_entry, elf_program_headers, elf_table_ok, read_program_headers, ProgramSegment};
use crate::frame_allocator::StackFrameAllocator;
use crate::page_table::{pte_bits, pte_flags, pte_ppn, PageTable, PageTableEntry, MAX_NODES, PTE_R, PTE_V, PTE_X};

verus! {

/// Segment permission: readable.
pub const MAP_R: u8 = 2;
/// Segment permission: writable.
pub const MAP_W: u8 = 4;
/// Segment permission: executable.
pub const MAP_X: u8 = 8;
/// Segment permission: accessible from user mode.
pub const MAP_U: u8 = 16;

/// Page number of the trampoline, the highest page of every address space.
pub const TRAMPOLINE_VPN: u64 = 0x7ff_ffff;

/// Page number of the trap context, one page below the trampoline.
pub const TRAP_CONTEXT_VPN: u64 = 0x7ff_fffe;

/// How a segment's pages reach physical memory.
#[derive(Clone, Copy, Debug, PartialEq, Eq, Structural)]
pub enum MapType {
    /// Page `v` maps to frame `v`.
    Identical,
    /// Every page gets a frame of its own.
    Framed,
}

/// A physical frame and the 4096 bytes it holds.
pub struct FrameTracker {
    ppn: PhysPageNum,
    data: Vec<u8>,
}

impl FrameTracker {
    /// The frame.
    pub closed spec fn frame(&self) -> u64 {
        self.ppn.0
    }

    /// The frame.
    pub fn ppn(&self) -> (r: PhysPageNum)
        ensures
            r.0 == self.frame(),
    {
        self.ppn
    }

    /// The bytes of the frame.
    pub closed spec fn bytes(&self) -> Seq<u8> {
        self.data@
    }

    /// Frame `ppn`, zeroed.
    pub fn new(ppn: PhysPageNum) -> (r: FrameTracker)
        ensures
            r.frame() == ppn.0,
            r.bytes() == Seq::new(4096, |i: int| 0u8),
    {
        let mut data: Vec<u8> = Vec::new();
        let mut i: usize = 0;
        while i < 4096
            invariant
                i <= 4096,
                data@ == Seq::new(i as nat, |j: int| 0u8),
            decreases 4096 - i,
        {
            data.push(0u8);
            i = i + 1;
            assert(data@ =~= Seq::new(i as nat, |j: int| 0u8));
        }
        FrameTracker { ppn, data }
    }

    /// Byte `offset` of the frame.
    pub fn read_byte(&self, offset: usize) -> (r: u8)
        requires
            offset < self.bytes().len(),
        ensures
            r == self.bytes()[offset as int],
    {
        self.data[offset]
    }

    /// Sets byte `offset` of the frame.
    pub fn write_byte(&mut self, offset: usize, v: u8)
        requires
            offset < old(self).bytes().len(),
        ensures
            final(self).frame() == old(self).frame(),
            final(self).bytes() == old(self).bytes().update(offset as int, v),
    {
        self.data.set(offset, v);
    }
}

/// A segment: a page range, how it is mapped, its permission, and the frames
/// of a framed segment, one per page in order.
pub struct MapArea {
    vpn_range: SimpleRange,
    data_frames: Vec<FrameTracker>,
    map_type: MapType,
    map_perm: u8,
}

impl MapArea {
    /// First page.
    pub closed spec fn start(&self) -> u64 {
        self.vpn_range.start()
    }

    /// One past the last page.
    pub closed spec fn end(&self) -> u64 {
        self.vpn_range.end()
    }

    /// How the segment is mapped.
    pub closed spec fn kind(&self) -> MapType {
        self.map_type
    }

    /// Permission bits of the segment.
    pub closed spec fn perm(&self) -> u8 {
        self.map_perm
    }

    /// Number of frames owned.
    pub closed spec fn frame_count(&self) -> int {
        self.data_frames@.len() as int
    }

    /// Frame backing page `start + k`.
    pub closed spec fn frame_ppn(&self, k: int) -> u64 {
        self.data_frames@[k].frame()
    }

    /// Bytes of the frame backing page `start + k`.
    pub closed spec fn frame_bytes(&self, k: int) -> Seq<u8> {
        self.data_frames@[k].bytes()
    }

    /// Whether page `v` lies in the segment.
    pub open spec fn contains(&self, v: u64) -> bool {
        self.start() <= v < self.end()
    }

    /// The frame page `v` maps to.
    pub open spec fn target(&self, v: u64) -> u64 {
        if self.kind() == MapType::Identical {
            v
        } else {
            self.frame_ppn(v - self.start())
        }
    }

    /// The leaf entry that maps page `v` of the segment.
    pub open spec fn expected_pte(&self, v: u64) -> PageTableEntry {
        PageTableEntry { bits: pte_bits(self.target(v), self.perm() | PTE_V) }
    }

    /// The segment lies below the trampoline, and a framed segment owns one
    /// 4096-byte frame per page while an identical one owns none.
    pub open spec fn wf(&self) -> bool {
        &&& self.start() <= self.end() <= TRAMPOLINE_VPN
        &&& self.kind() == MapType::Framed ==> self.frame_count() == self.end() - self.start()
        &&& self.kind() == MapType::Identical ==> self.frame_count() == 0
        &&& forall|k: int| 0 <= k < self.frame_count() ==> (#[trigger] self.frame_bytes(k)).len() == 4096
        &&& forall|k: int| 0 <= k < self.frame_count() ==> #[trigger] self.frame_ppn(k) < PPN_LIMIT
    }

    /// The segment of the pages that cover `[start_va, end_va)`, without frames yet.
    pub fn new(start_va: VirtAddr, end_va: VirtAddr, map_type: MapType, map_perm: u8) -> (r: MapArea)
        requires
            start_va.0 <= end_va.0,
        ensures
            r.start() == start_va.0 / 4096,
            r.end() == ceil_div(end_va.0 as int, 4096),
            r.kind() == map_type,
            r.perm() == map_perm,
            r.frame_count() == 0,
    {
        let start_vpn = start_va.floor();
        let end_vpn = end_va.ceil();
        MapArea {
            vpn_range: SimpleRange::new(start_vpn, end_vpn),
            data_frames: Vec::new(),
            map_type,
            map_perm,
        }
    }

    /// First page.
    pub fn start_vpn(&self) -> (r: VirtPageNum)
        ensures
            r.0 == self.start(),
    {
        self.vpn_range.get_start()
    }

    /// One past the last page.
    pub fn end_vpn(&self) -> (r: VirtPageNum)
        ensures
            r.0 == self.end(),
    {
        self.vpn_range.get_end()
    }
}

/// Number of 512-page blocks after the one that holds page `v`, up to the
/// one that holds page `end - 1`.
pub open spec fn blocks_after(v: int, end: int) -> int {
    (end - 1) / 512 - v / 512
}

/// Frames that mapping pages `[start, end)` may take: one per page when
/// framed, and two page-table nodes for every 512-page block it touches.
pub open spec fn frames_needed(start: int, end: int, framed: bool) -> int {
    if start < end {
        (if framed { end - start } else { 0 }) + 2 * blocks_after(start, end) + 2
    } else {
        0
    }
}

/// Page-table nodes that mapping pages `[start, end)` may add.
pub open spec fn nodes_needed(start: int, end: int) -> int {
    if start < end {
        2 * blocks_after(start, end) + 2
    } else {
        0
    }
}

/// Two pages in one 512-page block share their first two table indices.
pub proof fn lemma_same_block(v: u64, w: u64)
    requires
        v / 512 == w / 512,
    ensures
        vpn_indexes(v).0 == vpn_indexes(w).0,
        vpn_indexes(v).1 == vpn_indexes(w).1,
{
    let a = v as int;
    let b = w as int;
    assert(a / 0x40000 == (a / 512) / 512) by (nonlinear_arith)
        requires a >= 0;
    assert(b / 0x40000 == (b / 512) / 512) by (nonlinear_arith)
        requires b >= 0;
}

/// The next page lies in the same 512-page block or in the next one.
pub proof fn lemma_next_block(v: int)
    requires
        v >= 0,
    ensures
        (v + 1) / 512 == v / 512 || ((v + 1) / 512 == v / 512 + 1 && (v + 1) % 512 == 0),
{
    assert((v + 1) / 512 == v / 512 || ((v + 1) / 512 == v / 512 + 1 && (v + 1) % 512 == 0)) by (nonlinear_arith)
        requires v >= 0;
}

/// An address space: a page table and the segments mapped through it.
pub struct MemorySet {
    page_table: PageTable,
    areas: Vec<MapArea>,
}

impl MemorySet {
    /// The page table.
    pub closed spec fn table(&self) -> PageTable {
        self.page_table
    }

    /// The segments, in the order they were added.
    pub closed spec fn segments(&self) -> Seq<MapArea> {
        self.areas@
    }

    /// Whether some segment holds page `v`.
    pub open spec fn covered(&self, v: u64) -> bool {
        exists|i: int| 0 <= i < self.segments().len() && (#[trigger] self.segments()[i]).contains(v)
    }

    /// No two segments share a page.
    pub open spec fn disjoint(&self) -> bool {
        forall|i: int, j: int|
            #![trigger self.segments()[i], self.segments()[j]]
            0 <= i < self.segments().len() && 0 <= j < self.segments().len() && i != j
                ==> !self.segments()[i].overlaps(&self.segments()[j])
    }

    /// Every page of every segment is mapped as the segment says, and no
    /// other page below the trampoline is mapped.
    pub open spec fn mapped_as_segments(&self) -> bool {
        &&& forall|i: int, v: u64|
            0 <= i < self.segments().len() && (#[trigger] self.segments()[i]).contains(v)
                ==> #[trigger] self.table().walk(v) == Some(self.segments()[i].expected_pte(v))
        &&& forall|v: u64| v < TRAMPOLINE_VPN && !self.covered(v) ==> #[trigger] self.table().walk(v).is_none()
    }

    /// Every frame of every segment is issued by `alloc`, no frame is owned
    /// twice, and no segment frame holds a page-table node.
    pub open spec fn frames_owned(&self, alloc: &StackFrameAllocator) -> bool {
        &&& forall|n: int, i: int, k: int|
            0 <= n < self.table().node_count() && 0 <= i < self.segments().len() && 0 <= k < self.segments()[i].frame_count()
                ==> #[trigger] self.table().frame(n) != #[trigger] self.segments()[i].frame_ppn(k)
        &&& forall|i: int, k: int|
            0 <= i < self.segments().len() && 0 <= k < self.segments()[i].frame_count()
                ==> alloc.issued().contains(#[trigger] self.segments()[i].frame_ppn(k))
        &&& forall|i: int, k: int, j: int, l: int|
            0 <= i < self.segments().len() && 0 <= k < self.segments()[i].frame_count() && 0 <= j
                < self.segments().len() && 0 <= l < self.segments()[j].frame_count()
                && #[trigger] self.segments()[i].frame_ppn(k) == #[trigger] self.segments()[j].frame_ppn(l)
                ==> i == j && k == l
    }

    /// The address space's invariant against the frame allocator.
    pub open spec fn wf(&self, alloc: &StackFrameAllocator) -> bool {
        &&& alloc.wf()
        &&& self.table().wf()
        &&& self.table().frames_issued_by(alloc)
        &&& forall|i: int| 0 <= i < self.segments().len() ==> (#[trigger] self.segments()[i]).wf()
        &&& self.disjoint()
        &&& self.mapped_as_segments()
        &&& self.frames_owned(alloc)
    }

    /// An address space with an empty page table and no segments, or `None`
    /// when no frame is left for the root.
    pub fn new_bare(alloc: &mut StackFrameAllocator) -> (r: Option<MemorySet>)
        requires
            old(alloc).wf(),
        ensures
            final(alloc).wf(),
            r.is_none() <==> old(alloc).available() == 0,
            r.is_none() ==> *final(alloc) == *old(alloc),
            old(alloc).issued().subset_of(final(alloc).issued()),
            r.is_some() ==> {
                let m = r.unwrap();
                &&& m.wf(final(alloc))
                &&& m.segments().len() == 0
                &&& m.table().node_count() == 1
                &&& final(alloc).available() + 1 == old(alloc).available()
                &&& forall|v: u64| #[trigger] m.table().walk(v).is_none()
            },
    {
        match PageTable::new(alloc) {
            None => None,
            Some(page_table) => {
                let m = MemorySet { page_table, areas: Vec::new() };
                Some(m)
            },
        }
    }

    /// Maps the pages of `area`, which must share no page with the existing
    /// segments, and adds it. A framed segment gets fresh zeroed frames.
    /// Returns `false`, changing nothing, unless `alloc` has three frames per
    /// page (one for the data, two for page-table nodes) and the page table
    /// has room for two nodes per page.
    pub fn push(&mut self, area: MapArea, alloc: &mut StackFrameAllocator) -> (r: bool)
        requires
            old(self).wf(old(alloc)),
            area.wf_fresh(),
            forall|i: int| 0 <= i < old(self).segments().len() ==> !(#[trigger] old(self).segments()[i]).overlaps(&area),
        ensures
            final(self).wf(final(alloc)),
            old(alloc).issued().subset_of(final(alloc).issued()),
            r == (old(alloc).available() >= frames_needed(area.start() as int, area.end() as int, area.kind() == MapType::Framed)
                && old(self).table().node_count() + nodes_needed(area.start() as int, area.end() as int) <= MAX_NODES),
            !r ==> *final(self) == *old(self) && *final(alloc) == *old(alloc),
            r ==> final(self).segments().len() == old(self).segments().len() + 1,
            r ==> forall|i: int| 0 <= i < old(self).segments().len() ==> #[trigger] final(self).segments()[i] == old(self).segments()[i],
            r ==> final(self).segments().last().same_shape(&area),
            r ==> forall|k: int| 0 <= k < final(self).segments().last().frame_count()
                ==> !old(alloc).issued().contains(#[trigger] final(self).segments().last().frame_ppn(k)),
            r ==> forall|k: int| 0 <= k < final(self).segments().last().frame_count()
                ==> #[trigger] final(self).segments().last().frame_bytes(k) == Seq::new(4096, |i: int| 0u8),
            r ==> final(alloc).available() + frames_needed(area.start() as int, area.end() as int, area.kind() == MapType::Framed)
                >= old(alloc).available(),
            r ==> final(self).table().node_count() <= old(self).table().node_count() + nodes_needed(area.start() as int, area.end() as int),
            final(self).table().root() == old(self).table().root(),
            final(self).table().walk(TRAMPOLINE_VPN) == old(self).table().walk(TRAMPOLINE_VPN),
    {
        let st0 = area.vpn_range.get_start().0;
        let e0 = area.vpn_range.get_end().0;
        let framed = match area.map_type {
            MapType::Framed => true,
            MapType::Identical => false,
        };
        if st0 < e0 {
            let blocks = (e0 - 1) / 512 - st0 / 512;
            let data_frames: u64 = if framed { e0 - st0 } else { 0 };
            let need_frames = data_frames + 2 * blocks + 2;
            let need_nodes = 2 * blocks + 2;
            if !alloc.can_allocate(need_frames as usize) || self.page_table.num_nodes() + need_nodes as usize > MAX_NODES {
                return false;
            }
        }
        let ghost pre = *self;
        let ghost a0 = *alloc;
        let ghost ar_in = area;
        let mut area = area;
        let end = area.vpn_range.get_end();
        let mut vpn = area.vpn_range.get_start();
        while vpn.0 < end.0
            invariant
                forall|v: u64| v < TRAMPOLINE_VPN && !pre.covered(v) ==> #[trigger] pre.table().walk(v).is_none(),
                forall|i: int| 0 <= i < pre.segments().len() ==> !(#[trigger] pre.segments()[i]).overlaps(&ar_in),
                ar_in.wf_fresh(),
                self.page_table.wf(),
                self.page_table.frames_issued_by(alloc),
                self.areas@ == pre.areas@,
                self.page_table.root() == pre.page_table.root(),
                alloc.wf(),
                a0.issued().subset_of(alloc.issued()),
                area.start() <= vpn.0 <= end.0,
                end.0 == area.end(),
                area.end() <= TRAMPOLINE_VPN,
                area.perm() == ar_in.perm(),
                area.kind() == ar_in.kind(),
                area.start() == ar_in.start(),
                area.end() == ar_in.end(),
                framed == (area.kind() == MapType::Framed),
                vpn.0 < end.0 ==> alloc.available() >= (if framed { end.0 - vpn.0 } else { 0 }) + 2 * blocks_after(vpn.0 as int, end.0 as int)
                    + self.page_table.missing_nodes(vpn.0),
                vpn.0 < end.0 ==> self.page_table.node_count() + 2 * blocks_after(vpn.0 as int, end.0 as int)
                    + self.page_table.missing_nodes(vpn.0) <= MAX_NODES,
                vpn.0 < end.0 ==> (a0.available() - alloc.available()) + (if framed { end.0 - vpn.0 } else { 0 })
                    + 2 * blocks_after(vpn.0 as int, end.0 as int) + self.page_table.missing_nodes(vpn.0)
                    <= frames_needed(area.start() as int, area.end() as int, framed),
                vpn.0 == end.0 ==> a0.available() - alloc.available() <= frames_needed(area.start() as int, area.end() as int, framed),
                vpn.0 < end.0 ==> (self.page_table.node_count() - pre.table().node_count())
                    + 2 * blocks_after(vpn.0 as int, end.0 as int) + self.page_table.missing_nodes(vpn.0)
                    <= nodes_needed(area.start() as int, area.end() as int),
                vpn.0 == end.0 ==> self.page_table.node_count() - pre.table().node_count() <= nodes_needed(area.start() as int, area.end() as int),
                area.kind() == MapType::Framed ==> area.frame_count() == vpn.0 - area.start(),
                area.kind() == MapType::Identical ==> area.frame_count() == 0,
                forall|k: int| 0 <= k < area.frame_count() ==> (#[trigger] area.frame_bytes(k)) == Seq::new(4096, |i: int| 0u8),
                forall|k: int| 0 <= k < area.frame_count() ==> #[trigger] area.frame_ppn(k) < PPN_LIMIT,
                forall|k: int| 0 <= k < area.frame_count() ==> alloc.issued().contains(#[trigger] area.frame_ppn(k)),
                forall|k: int| 0 <= k < area.frame_count() ==> !a0.issued().contains(#[trigger] area.frame_ppn(k)),
                forall|k: int, l: int| 0 <= k < area.frame_count() && 0 <= l < area.frame_count() && k != l ==> #[trigger] area.frame_ppn(k) != #[trigger] area.frame_ppn(l),
                forall|n: int, k: int| 0 <= n < self.page_table.node_count() && 0 <= k < area.frame_count() ==> #[trigger] self.page_table.frame(n) != #[trigger] area.frame_ppn(k),
                forall|n: int, i: int, k: int|
                    0 <= n < self.page_table.node_count() && 0 <= i < pre.segments().len() && 0 <= k < pre.segments()[i].frame_count()
                        ==> #[trigger] self.page_table.frame(n) != #[trigger] pre.segments()[i].frame_ppn(k),
                forall|i: int, k: int|
                    0 <= i < pre.segments().len() && 0 <= k < pre.segments()[i].frame_count()
                        ==> a0.issued().contains(#[trigger] pre.segments()[i].frame_ppn(k)),
                forall|v: u64| area.start() <= v < vpn.0 ==> #[trigger] self.page_table.walk(v) == Some(area.expected_pte(v)),
                forall|v: u64| v < VPN_LIMIT && !(area.start() <= v < vpn.0) ==> #[trigger] self.page_table.walk(v) == pre.page_table.walk(v),
            decreases end.0 - vpn.0,
        {
            proof {
                if pre.covered(vpn.0) {
                    let i = choose|i: int| 0 <= i < pre.segments().len() && (#[trigger] pre.segments()[i]).contains(vpn.0);
                    assert(pre.segments()[i].overlaps(&ar_in));
                }
                assert(self.page_table.walk(vpn.0) == pre.page_table.walk(vpn.0));
                assert(pre.table().walk(vpn.0).is_none());
            }
            let ghost t0 = self.page_table;
            let ghost ar0 = area;
            let ghost al_before = *alloc;
            area.map_one(&mut self.page_table, vpn, alloc);
            proof {
                lemma_next_block(vpn.0 as int);
                if vpn.0 + 1 < end.0 {
                    if (vpn.0 + 1) / 512 == vpn.0 / 512 {
                        lemma_same_block(vpn.0, (vpn.0 + 1) as u64);
                        self.page_table.lemma_missing_zero(vpn.0, (vpn.0 + 1) as u64);
                    }
                }
                assert forall|v: u64| area.start() <= v < vpn.0 + 1 implies #[trigger] self.page_table.walk(v) == Some(area.expected_pte(v)) by {
                    if v < vpn.0 {
                        assert(area.expected_pte(v) == ar0.expected_pte(v));
                    }
                }
                assert forall|k: int| 0 <= k < area.frame_count() implies (#[trigger] area.frame_bytes(k)) == Seq::new(4096, |i: int| 0u8)
                    && area.frame_ppn(k) < PPN_LIMIT && alloc.issued().contains(area.frame_ppn(k)) && !a0.issued().contains(area.frame_ppn(k)) by {
                    if k < ar0.frame_count() {
                        assert(area.frame_ppn(k) == ar0.frame_ppn(k));
                        assert(area.frame_bytes(k) == ar0.frame_bytes(k));
                    }
                }
                assert forall|n: int, k: int| 0 <= n < self.page_table.node_count() && 0 <= k < area.frame_count() implies #[trigger] self.page_table.frame(n) != #[trigger] area.frame_ppn(k) by {
                    if n < t0.node_count() {
                        assert(self.page_table.frame(n) == t0.frame(n));
                        assert(al_before.issued().contains(t0.frame(n)));
                        if k < ar0.frame_count() {
                            assert(area.frame_ppn(k) == ar0.frame_ppn(k));
                        }
                    } else {
                        if k < ar0.frame_count() {
                            assert(area.frame_ppn(k) == ar0.frame_ppn(k));
                            assert(al_before.issued().contains(ar0.frame_ppn(k)));
                        }
                    }
                }
                assert forall|n: int, i: int, k: int|
                    0 <= n < self.page_table.node_count() && 0 <= i < pre.segments().len() && 0 <= k < pre.segments()[i].frame_count()
                        implies #[trigger] self.page_table.frame(n) != #[trigger] pre.segments()[i].frame_ppn(k) by {
                    if n < t0.node_count() {
                        assert(self.page_table.frame(n) == t0.frame(n));
                    } else {
                        assert(a0.issued().contains(pre.segments()[i].frame_ppn(k)));
                    }
                }
                assert forall|k: int, l: int| 0 <= k < area.frame_count() && 0 <= l < area.frame_count() && k != l implies #[trigger] area.frame_ppn(k) != #[trigger] area.frame_ppn(l) by {
                    if k < ar0.frame_count() && l < ar0.frame_count() {
                        assert(area.frame_ppn(k) == ar0.frame_ppn(k));
                        assert(area.frame_ppn(l) == ar0.frame_ppn(l));
                    } else if k < ar0.frame_count() {
                        assert(area.frame_ppn(k) == ar0.frame_ppn(k));
                        assert(al_before.issued().contains(ar0.frame_ppn(k)));
                    } else if l < ar0.frame_count() {
                        assert(area.frame_ppn(l) == ar0.frame_ppn(l));
                        assert(al_before.issued().contains(ar0.frame_ppn(l)));
                    }
                }
            }
            vpn = VirtPageNum(vpn.0 + 1);
        }
        self.areas.push(area);
        proof {
            let n = pre.areas@.len() as int;
            assert(self.segments()[n] == area);
            assert forall|i: int, v: u64| 0 <= i < self.segments().len() && (#[trigger] self.segments()[i]).contains(v)
                implies #[trigger] self.table().walk(v) == Some(self.segments()[i].expected_pte(v)) by {
                if i < n {
                    assert(self.segments()[i] == pre.segments()[i]);
                    assert(!area.contains(v));
                }
            }
            assert forall|v: u64| v < TRAMPOLINE_VPN && !self.covered(v) implies #[trigger] self.table().walk(v).is_none() by {
                assert(!area.contains(v)) by {
                    if area.contains(v) {
                        assert(self.segments()[n].contains(v));
                    }
                }
                assert(!pre.covered(v)) by {
                    if pre.covered(v) {
                        let i = choose|i: int| 0 <= i < pre.segments().len() && (#[trigger] pre.segments()[i]).contains(v);
                        assert(self.segments()[i] == pre.segments()[i]);
                    }
                }
            }
            assert forall|i: int, j: int|
                #![trigger self.segments()[i], self.segments()[j]]
                0 <= i < self.segments().len() && 0 <= j < self.segments().len() && i != j
                    implies !self.segments()[i].overlaps(&self.segments()[j]) by {
                if i < n && j < n {
                    assert(self.segments()[i] == pre.segments()[i]);
                    assert(self.segments()[j] == pre.segments()[j]);
                } else if i < n {
                    assert(self.segments()[i] == pre.segments()[i]);
                } else {
                    assert(self.segments()[j] == pre.segments()[j]);
                }
            }
            assert forall|i: int, k: int|
                0 <= i < self.segments().len() && 0 <= k < self.segments()[i].frame_count()
                    implies alloc.issued().contains(#[trigger] self.segments()[i].frame_ppn(k)) by {
                if i < n {
                    assert(self.segments()[i] == pre.segments()[i]);
                }
            }
            assert forall|i: int, k: int, j: int, l: int|
                0 <= i < self.segments().len() && 0 <= k < self.segments()[i].frame_count() && 0 <= j
                    < self.segments().len() && 0 <= l < self.segments()[j].frame_count()
                    && #[trigger] self.segments()[i].frame_ppn(k) == #[trigger] self.segments()[j].frame_ppn(l)
                    implies i == j && k == l by {
                if i < n {
                    assert(self.segments()[i] == pre.segments()[i]);
                    assert(a0.issued().contains(pre.segments()[i].frame_ppn(k)));
                }
                if j < n {
                    assert(self.segments()[j] == pre.segments()[j]);
                    assert(a0.issued().contains(pre.segments()[j].frame_ppn(l)));
                }
            }
            assert forall|i: int| 0 <= i < self.segments().len() implies (#[trigger] self.segments()[i]).wf() by {
                if i < n {
                    assert(self.segments()[i] == pre.segments()[i]);
                }
            }
            assert forall|m: int, i: int, k: int|
                0 <= m < self.table().node_count() && 0 <= i < self.segments().len() && 0 <= k < self.segments()[i].frame_count()
                    implies #[trigger] self.table().frame(m) != #[trigger] self.segments()[i].frame_ppn(k) by {
                if i < n {
                    assert(self.segments()[i] == pre.segments()[i]);
                }
            }
        }
        true
    }
}

impl MemorySet {
    /// Unmaps segment `idx`, gives its frames back to `alloc` and drops it.
    fn remove_area_at(&mut self, idx: usize, alloc: &mut StackFrameAllocator)
        requires
            old(self).wf(old(alloc)),
            idx < old(self).segments().len(),
        ensures
            final(self).wf(final(alloc)),
            final(self).segments() == old(self).segments().remove(idx as int),
            final(self).table().root() == old(self).table().root(),
            final(self).table().walk(TRAMPOLINE_VPN) == old(self).table().walk(TRAMPOLINE_VPN),
            final(alloc).issued() == old(alloc).issued().difference(
                Set::new(|p: u64| exists|k: int| 0 <= k < old(self).segments()[idx as int].frame_count() && old(self).segments()[idx as int].frame_ppn(k) == p),
            ),
            final(alloc).limit() == old(alloc).limit(),
    {
        let ghost pre = *self;
        let ghost a0 = *alloc;
        let mut area = self.areas.remove(idx);
        let ghost rest = self.areas@;
        assert(rest == pre.segments().remove(idx as int));
        assert forall|i: int| 0 <= i < rest.len() implies !(#[trigger] rest[i]).overlaps(&area) by {
            if i < idx {
                assert(rest[i] == pre.segments()[i]);
            } else {
                assert(rest[i] == pre.segments()[i + 1]);
            }
        }
        let end = area.vpn_range.get_end();
        let mut vpn = area.vpn_range.get_start();
        while vpn.0 < end.0
            invariant
                self.page_table.wf(),
                self.page_table.frames_issued_by(alloc),
                self.page_table.root() == pre.page_table.root(),
                self.page_table.node_count() == pre.page_table.node_count(),
                forall|i: int| 0 <= i < pre.page_table.node_count() ==> #[trigger] self.page_table.frame(i) == pre.page_table.frame(i),
                self.areas@ == rest,
                *alloc == a0,
                idx < pre.segments().len(),
                area == pre.segments()[idx as int],
                area.wf(),
                area.start() <= vpn.0 <= end.0,
                end.0 == area.end(),
                forall|v: u64| area.start() <= v < vpn.0 ==> #[trigger] self.page_table.walk(v).is_none(),
                forall|v: u64| area.contains(v) && v >= vpn.0 ==> #[trigger] self.page_table.walk(v) == pre.page_table.walk(v),
                forall|v: u64| v < VPN_LIMIT && !area.contains(v) ==> #[trigger] self.page_table.walk(v) == pre.page_table.walk(v),
                forall|i: int, v: u64|
                    0 <= i < pre.segments().len() && (#[trigger] pre.segments()[i]).contains(v)
                        ==> #[trigger] pre.table().walk(v) == Some(pre.segments()[i].expected_pte(v)),
            decreases end.0 - vpn.0,
        {
            proof {
                assert(pre.segments()[idx as int].contains(vpn.0));
                assert(pre.table().walk(vpn.0).is_some());
                assert(self.page_table.walk(vpn.0) == pre.page_table.walk(vpn.0));
            }
            let ghost t0 = self.page_table;
            self.page_table.unmap(vpn);
            proof {
                assert forall|i: int| 0 <= i < pre.page_table.node_count() implies #[trigger] self.page_table.frame(i) == pre.page_table.frame(i) by {
                    assert(self.page_table.frame(i) == t0.frame(i));
                }
                assert forall|v: u64| area.start() <= v < vpn.0 + 1 implies #[trigger] self.page_table.walk(v).is_none() by {
                    if v < vpn.0 {
                        assert(t0.walk(v).is_none());
                    }
                }
                assert(self.page_table.frames_issued_by(alloc)) by {
                    assert forall|i: int| 0 <= i < self.page_table.node_count() implies alloc.issued().contains(#[trigger] self.page_table.frame(i)) by {
                        assert(self.page_table.frame(i) == t0.frame(i));
                    }
                }
            }
            vpn = VirtPageNum(vpn.0 + 1);
        }
        let ghost owned = Set::new(|p: u64| exists|k: int| 0 <= k < area.frame_count() && area.frame_ppn(k) == p);
        let ghost full = area;
        proof {
            assert forall|i: int| 0 <= i < self.page_table.node_count() implies !owned.contains(#[trigger] self.page_table.frame(i)) by {
                if owned.contains(self.page_table.frame(i)) {
                    let k = choose|k: int| 0 <= k < area.frame_count() && area.frame_ppn(k) == self.page_table.frame(i);
                    assert(pre.table().frame(i) == self.page_table.frame(i));
                    assert(pre.segments()[idx as int].frame_ppn(k) == pre.table().frame(i));
                }
            }
            assert(alloc.issued() =~= a0.issued().difference(Set::new(|p: u64| exists|k: int| area.frame_count() <= k < full.frame_count() && full.frame_ppn(k) == p)));
        }
        while area.data_frames.len() > 0
            invariant
                alloc.wf(),
                alloc.limit() == a0.limit(),
                self.page_table.wf(),
                self.page_table.frames_issued_by(alloc),
                self.page_table.frames_issued_by(&a0),
                self.areas@ == rest,
                0 <= area.frame_count() <= full.frame_count(),
                area.data_frames@ == full.data_frames@.subrange(0, area.frame_count()),
                self.page_table.node_count() == pre.page_table.node_count(),
                forall|i: int| 0 <= i < pre.page_table.node_count() ==> #[trigger] self.page_table.frame(i) == pre.page_table.frame(i),
                forall|k: int| 0 <= k < area.frame_count() ==> #[trigger] area.frame_ppn(k) == full.frame_ppn(k),
                forall|k: int| 0 <= k < area.frame_count() ==> alloc.issued().contains(#[trigger] full.frame_ppn(k)),
                forall|k: int, l: int| 0 <= k < full.frame_count() && 0 <= l < full.frame_count() && k != l ==> #[trigger] full.frame_ppn(k) != #[trigger] full.frame_ppn(l),
                alloc.issued() == a0.issued().difference(Set::new(|p: u64| exists|k: int| area.frame_count() <= k < full.frame_count() && full.frame_ppn(k) == p)),
                forall|p: u64| #[trigger] owned.contains(p) <==> exists|k: int| 0 <= k < full.frame_count() && full.frame_ppn(k) == p,
                forall|i: int| 0 <= i < self.page_table.node_count() ==> !owned.contains(#[trigger] self.page_table.frame(i)),
            decreases area.data_frames.len(),
        {
            let ghost al0 = *alloc;
            let ghost m = area.frame_count() - 1;
            let f = area.data_frames.pop().unwrap();
            assert(area.data_frames@ =~= full.data_frames@.subrange(0, area.frame_count()));
            assert(f.frame() == full.frame_ppn(m));
            alloc.dealloc(f.ppn());
            proof {
                assert forall|k: int| 0 <= k < area.frame_count() implies #[trigger] area.frame_ppn(k) == full.frame_ppn(k) by {
                    assert(area.data_frames@[k] == full.data_frames@[k]);
                }
                assert(alloc.issued() =~= a0.issued().difference(Set::new(|p: u64| exists|k: int| area.frame_count() <= k < full.frame_count() && full.frame_ppn(k) == p))) by {
                    assert forall|p: u64| alloc.issued().contains(p) <==> a0.issued().difference(Set::new(|p: u64| exists|k: int| area.frame_count() <= k < full.frame_count() && full.frame_ppn(k) == p)).contains(p) by {
                        if p == full.frame_ppn(m) {
                            assert(!alloc.issued().contains(p));
                        }
                    }
                }
                assert forall|i: int| 0 <= i < self.page_table.node_count() implies alloc.issued().contains(#[trigger] self.page_table.frame(i)) by {
                    assert(!owned.contains(self.page_table.frame(i)));
                    if self.page_table.frame(i) == full.frame_ppn(m) {
                        assert(owned.contains(full.frame_ppn(m)));
                    }
                }
            }
        }
        proof {
            assert(area.frame_count() == 0);
            assert(self.segments() == rest);
            assert forall|i: int| 0 <= i < rest.len() implies (#[trigger] rest[i]) == pre.segments()[if i < idx { i } else { i + 1 }] by {}
            assert forall|i: int, v: u64|
                0 <= i < self.segments().len() && (#[trigger] self.segments()[i]).contains(v)
                    implies #[trigger] self.table().walk(v) == Some(self.segments()[i].expected_pte(v)) by {
                let j = if i < idx { i } else { i + 1 };
                assert(self.segments()[i] == pre.segments()[j]);
                assert(!rest[i].overlaps(&full));
            }
            assert forall|v: u64| v < TRAMPOLINE_VPN && !self.covered(v) implies #[trigger] self.table().walk(v).is_none() by {
                if !full.contains(v) {
                    if pre.covered(v) {
                        let j = choose|j: int| 0 <= j < pre.segments().len() && (#[trigger] pre.segments()[j]).contains(v);
                        if j < idx {
                            assert(rest[j] == pre.segments()[j]);
                        } else if j > idx {
                            assert(rest[j - 1] == pre.segments()[j]);
                        }
                    }
                }
            }
            assert forall|i: int, j: int|
                #![trigger self.segments()[i], self.segments()[j]]
                0 <= i < self.segments().len() && 0 <= j < self.segments().len() && i != j
                    implies !self.segments()[i].overlaps(&self.segments()[j]) by {
                let a = if i < idx { i } else { i + 1 };
                let b = if j < idx { j } else { j + 1 };
                assert(self.segments()[i] == pre.segments()[a]);
                assert(self.segments()[j] == pre.segments()[b]);
            }
            assert forall|i: int| 0 <= i < self.segments().len() implies (#[trigger] self.segments()[i]).wf() by {
                let a = if i < idx { i } else { i + 1 };
                assert(self.segments()[i] == pre.segments()[a]);
            }
            assert forall|i: int, k: int|
                0 <= i < self.segments().len() && 0 <= k < self.segments()[i].frame_count()
                    implies alloc.issued().contains(#[trigger] self.segments()[i].frame_ppn(k)) by {
                let a = if i < idx { i } else { i + 1 };
                assert(self.segments()[i] == pre.segments()[a]);
                assert(a0.issued().contains(pre.segments()[a].frame_ppn(k)));
                if owned.contains(pre.segments()[a].frame_ppn(k)) {
                    let l = choose|l: int| 0 <= l < full.frame_count() && full.frame_ppn(l) == pre.segments()[a].frame_ppn(k);
                    assert(pre.segments()[idx as int].frame_ppn(l) == pre.segments()[a].frame_ppn(k));
                }
            }
            assert forall|i: int, k: int, j: int, l: int|
                0 <= i < self.segments().len() && 0 <= k < self.segments()[i].frame_count() && 0 <= j
                    < self.segments().len() && 0 <= l < self.segments()[j].frame_count()
                    && #[trigger] self.segments()[i].frame_ppn(k) == #[trigger] self.segments()[j].frame_ppn(l)
                    implies i == j && k == l by {
                let a = if i < idx { i } else { i + 1 };
                let b = if j < idx { j } else { j + 1 };
                assert(self.segments()[i] == pre.segments()[a]);
                assert(self.segments()[j] == pre.segments()[b]);
            }
            assert forall|n: int, i: int, k: int|
                0 <= n < self.table().node_count() && 0 <= i < self.segments().len() && 0 <= k < self.segments()[i].frame_count()
                    implies #[trigger] self.table().frame(n) != #[trigger] self.segments()[i].frame_ppn(k) by {
                let a = if i < idx { i } else { i + 1 };
                assert(self.segments()[i] == pre.segments()[a]);
                assert(self.table().frame(n) == pre.table().frame(n));
            }
            assert(alloc.issued() =~= a0.issued().difference(
                Set::new(|p: u64| exists|k: int| 0 <= k < pre.segments()[idx as int].frame_count() && pre.segments()[idx as int].frame_ppn(k) == p),
            ));
        }
    }
}

impl MemorySet {
    /// Maps the trampoline page to frame `strampoline` with R|X, outside any
    /// segment. Returns `false`, changing nothing, when the page-table nodes
    /// it needs cannot be had.
    pub fn map_trampoline(&mut self, strampoline: PhysPageNum, alloc: &mut StackFrameAllocator) -> (r: bool)
        requires
            old(self).wf(old(alloc)),
            old(self).table().walk(TRAMPOLINE_VPN).is_none(),
            strampoline.0 < PPN_LIMIT,
        ensures
            final(self).wf(final(alloc)),
            old(alloc).issued().subset_of(final(alloc).issued()),
            final(self).segments() == old(self).segments(),
            r == (old(self).table().missing_nodes(TRAMPOLINE_VPN) <= old(alloc).available()
                && old(self).table().node_count() + old(self).table().missing_nodes(TRAMPOLINE_VPN) <= MAX_NODES),
            !r ==> *final(self) == *old(self) && *final(alloc) == *old(alloc),
            r ==> final(alloc).available() + old(self).table().missing_nodes(TRAMPOLINE_VPN) == old(alloc).available(),
            r ==> final(self).table().node_count() == old(self).table().node_count() + old(self).table().missing_nodes(TRAMPOLINE_VPN),
            r ==> final(self).table().walk(TRAMPOLINE_VPN) == Some(
                PageTableEntry { bits: pte_bits(strampoline.0, PTE_R | PTE_X | PTE_V) },
            ),
    {
        let ghost pre = *self;
        let ghost a0 = *alloc;
        let ok = self.page_table.map(VirtPageNum(TRAMPOLINE_VPN), strampoline, PTE_R | PTE_X, alloc);
        proof {
            if ok {
                assert forall|i: int, v: u64|
                    0 <= i < self.segments().len() && (#[trigger] self.segments()[i]).contains(v)
                        implies #[trigger] self.table().walk(v) == Some(self.segments()[i].expected_pte(v)) by {
                    assert(pre.table().walk(v) == Some(pre.segments()[i].expected_pte(v)));
                }
                assert forall|i: int, k: int|
                    0 <= i < self.segments().len() && 0 <= k < self.segments()[i].frame_count()
                        implies alloc.issued().contains(#[trigger] self.segments()[i].frame_ppn(k)) by {
                    assert(a0.issued().contains(pre.segments()[i].frame_ppn(k)));
                }
                assert forall|n: int, i: int, k: int|
                    0 <= n < self.table().node_count() && 0 <= i < self.segments().len() && 0 <= k < self.segments()[i].frame_count()
                        implies #[trigger] self.table().frame(n) != #[trigger] self.segments()[i].frame_ppn(k) by {
                    assert(a0.issued().contains(pre.segments()[i].frame_ppn(k)));
                    if n < pre.table().node_count() {
                        assert(self.table().frame(n) == pre.table().frame(n));
                    }
                }
            }
        }
        ok
    }

    /// Adds a framed segment over the pages that cover `[start_va, end_va)`,
    /// with fresh zeroed frames; it must share no page with the existing
    /// segments. Returns `false`, changing nothing, under the conditions of
    /// `push`.
    pub fn insert_framed_area(
        &mut self,
        start_va: VirtAddr,
        end_va: VirtAddr,
        permission: u8,
        alloc: &mut StackFrameAllocator,
    ) -> (r: bool)
        requires
            old(self).wf(old(alloc)),
            start_va.0 <= end_va.0,
            ceil_div(end_va.0 as int, 4096) <= TRAMPOLINE_VPN,
            forall|i: int| 0 <= i < old(self).segments().len() ==> !(#[trigger] old(self).segments()[i]).overlaps_pages(
                (start_va.0 / 4096) as int,
                ceil_div(end_va.0 as int, 4096),
            ),
        ensures
            final(self).wf(final(alloc)),
            old(alloc).issued().subset_of(final(alloc).issued()),
            r == (old(alloc).available() >= frames_needed((start_va.0 / 4096) as int, ceil_div(end_va.0 as int, 4096), true)
                && old(self).table().node_count() + nodes_needed((start_va.0 / 4096) as int, ceil_div(end_va.0 as int, 4096)) <= MAX_NODES),
            !r ==> *final(self) == *old(self) && *final(alloc) == *old(alloc),
            r ==> final(self).segments().len() == old(self).segments().len() + 1,
            r ==> forall|i: int| 0 <= i < old(self).segments().len() ==> #[trigger] final(self).segments()[i] == old(self).segments()[i],
            r ==> final(self).segments().last().start() == start_va.0 / 4096,
            r ==> final(self).segments().last().end() == ceil_div(end_va.0 as int, 4096),
            r ==> final(self).segments().last().kind() == MapType::Framed,
            r ==> final(self).segments().last().perm() == permission,
            r ==> final(alloc).available() + frames_needed((start_va.0 / 4096) as int, ceil_div(end_va.0 as int, 4096), true)
                >= old(alloc).available(),
            r ==> final(self).table().node_count() <= old(self).table().node_count() + nodes_needed((start_va.0 / 4096) as int, ceil_div(end_va.0 as int, 4096)),
            final(self).table().walk(TRAMPOLINE_VPN) == old(self).table().walk(TRAMPOLINE_VPN),
    {
        let area = MapArea::new(start_va, end_va, MapType::Framed, permission);
        assert forall|i: int| 0 <= i < self.segments().len() implies !(#[trigger] self.segments()[i]).overlaps(&area) by {
            assert(!self.segments()[i].overlaps_pages((start_va.0 / 4096) as int, ceil_div(end_va.0 as int, 4096)));
        }
        self.push(area, alloc)
    }

    /// Removes the segment that starts at page `start_vpn`, if any, giving
    /// its frames back.
    pub fn remove_area_with_start_vpn(&mut self, start_vpn: VirtPageNum, alloc: &mut StackFrameAllocator)
        requires
            old(self).wf(old(alloc)),
        ensures
            final(self).wf(final(alloc)),
            final(self).table().walk(TRAMPOLINE_VPN) == old(self).table().walk(TRAMPOLINE_VPN),
            (forall|i: int| 0 <= i < old(self).segments().len() ==> (#[trigger] old(self).segments()[i]).start() != start_vpn.0)
                ==> *final(self) == *old(self) && *final(alloc) == *old(alloc),
            forall|i: int|
                0 <= i < old(self).segments().len() && (#[trigger] old(self).segments()[i]).start() == start_vpn.0
                    && (forall|j: int| 0 <= j < i ==> (#[trigger] old(self).segments()[j]).start() != start_vpn.0)
                    ==> final(self).segments() == old(self).segments().remove(i),
    {
        let mut i: usize = 0;
        while i < self.areas.len()
            invariant
                self.wf(alloc),
                *self == *old(self),
                *alloc == *old(alloc),
                forall|j: int| 0 <= j < i ==> (#[trigger] self.segments()[j]).start() != start_vpn.0,
            decreases self.areas.len() - i,
        {
            if self.areas[i].vpn_range.get_start().0 == start_vpn.0 {
                self.remove_area_at(i, alloc);
                return;
            }
            i = i + 1;
        }
    }

    /// Removes every segment, giving all their frames back. The page table
    /// and the trampoline mapping stay.
    pub fn recycle_data_pages(&mut self, alloc: &mut StackFrameAllocator)
        requires
            old(self).wf(old(alloc)),
        ensures
            final(self).wf(final(alloc)),
            final(self).segments().len() == 0,
            final(self).table().walk(TRAMPOLINE_VPN) == old(self).table().walk(TRAMPOLINE_VPN),
            forall|v: u64| v < TRAMPOLINE_VPN ==> #[trigger] final(self).table().walk(v).is_none(),
            final(alloc).issued().subset_of(old(alloc).issued()),
    {
        while self.areas.len() > 0
            invariant
                self.wf(alloc),
                self.table().walk(TRAMPOLINE_VPN) == old(self).table().walk(TRAMPOLINE_VPN),
                alloc.issued().subset_of(old(alloc).issued()),
            decreases self.areas.len(),
        {
            let n = self.areas.len() - 1;
            self.remove_area_at(n, alloc);
        }
        assert forall|v: u64| v < TRAMPOLINE_VPN implies #[trigger] self.table().walk(v).is_none() by {
            assert(!self.covered(v));
        }
    }

    /// Whether the pages that cover `[start_va, end_va)` lie below the
    /// trampoline and in no segment.
    pub fn area_is_free(&self, start_va: VirtAddr, end_va: VirtAddr) -> (r: bool)
        requires
            start_va.0 <= end_va.0,
        ensures
            r == (ceil_div(end_va.0 as int, 4096) <= TRAMPOLINE_VPN && forall|i: int|
                0 <= i < self.segments().len() ==> !(#[trigger] self.segments()[i]).overlaps_pages(
                    (start_va.0 / 4096) as int,
                    ceil_div(end_va.0 as int, 4096),
                )),
    {
        let s = start_va.floor();
        let e = end_va.ceil();
        if e.0 > TRAMPOLINE_VPN {
            return false;
        }
        let mut i: usize = 0;
        while i < self.areas.len()
            invariant
                s.0 == start_va.0 / 4096,
                e.0 == ceil_div(end_va.0 as int, 4096),
                e.0 <= TRAMPOLINE_VPN,
                forall|j: int| 0 <= j < i ==> !(#[trigger] self.segments()[j]).overlaps_pages(s.0 as int, e.0 as int),
            decreases self.areas.len() - i,
        {
            let a = self.areas[i].vpn_range.get_start().0;
            let b = self.areas[i].vpn_range.get_end().0;
            if a < b && s.0 < e.0 && a < e.0 && s.0 < b {
                assert(self.segments()[i as int].overlaps_pages(s.0 as int, e.0 as int));
                return false;
            }
            i = i + 1;
        }
        true
    }

    /// The leaf entry that maps `vpn`, if any.
    pub fn translate(&self, vpn: VirtPageNum) -> (r: Option<PageTableEntry>)
        requires
            self.table().wf(),
        ensures
            r == self.table().walk(vpn.0),
    {
        self.page_table.translate(vpn)
    }

    /// The SATP value that selects this address space.
    pub fn token(&self) -> (r: u64)
        requires
            self.table().wf(),
        ensures
            r == 0x8000_0000_0000_0000u64 + self.table().root(),
    {
        self.page_table.token()
    }
}

impl MemorySet {
    /// Two address spaces with the same page table and segments that differ
    /// at most in the bytes their frames hold are both well formed or neither.
    proof fn lemma_same_mapping(&self, pre: MemorySet, alloc: &StackFrameAllocator)
        requires
            pre.wf(alloc),
            self.table() == pre.table(),
            self.segments().len() == pre.segments().len(),
            forall|i: int| 0 <= i < pre.segments().len() ==> (#[trigger] self.segments()[i]).same_frames(&pre.segments()[i]),
        ensures
            self.wf(alloc),
    {
        assert forall|i: int, v: u64|
            0 <= i < self.segments().len() && (#[trigger] self.segments()[i]).contains(v)
                implies #[trigger] self.table().walk(v) == Some(self.segments()[i].expected_pte(v)) by {
            assert(self.segments()[i].same_frames(&pre.segments()[i]));
            assert(pre.segments()[i].contains(v));
            if self.segments()[i].kind() == MapType::Framed {
                assert(self.segments()[i].frame_ppn(v - self.segments()[i].start()) == pre.segments()[i].frame_ppn(v - pre.segments()[i].start()));
            }
        }
        assert forall|v: u64| v < TRAMPOLINE_VPN && !self.covered(v) implies #[trigger] self.table().walk(v).is_none() by {
            if pre.covered(v) {
                let i = choose|i: int| 0 <= i < pre.segments().len() && (#[trigger] pre.segments()[i]).contains(v);
                assert(self.segments()[i].same_frames(&pre.segments()[i]));
                assert(self.segments()[i].contains(v));
            }
        }
        assert forall|i: int, j: int|
            #![trigger self.segments()[i], self.segments()[j]]
            0 <= i < self.segments().len() && 0 <= j < self.segments().len() && i != j
                implies !self.segments()[i].overlaps(&self.segments()[j]) by {
            assert(self.segments()[i].same_frames(&pre.segments()[i]));
            assert(self.segments()[j].same_frames(&pre.segments()[j]));
            assert(!pre.segments()[i].overlaps(&pre.segments()[j]));
        }
        assert forall|i: int| 0 <= i < self.segments().len() implies (#[trigger] self.segments()[i]).wf() by {
            assert(self.segments()[i].same_frames(&pre.segments()[i]));
            assert(pre.segments()[i].wf());
        }
        assert forall|i: int, k: int|
            0 <= i < self.segments().len() && 0 <= k < self.segments()[i].frame_count()
                implies alloc.issued().contains(#[trigger] self.segments()[i].frame_ppn(k)) by {
            assert(self.segments()[i].same_frames(&pre.segments()[i]));
            assert(alloc.issued().contains(pre.segments()[i].frame_ppn(k)));
        }
        assert forall|i: int, k: int, j: int, l: int|
            0 <= i < self.segments().len() && 0 <= k < self.segments()[i].frame_count() && 0 <= j
                < self.segments().len() && 0 <= l < self.segments()[j].frame_count()
                && #[trigger] self.segments()[i].frame_ppn(k) == #[trigger] self.segments()[j].frame_ppn(l)
                implies i == j && k == l by {
            assert(self.segments()[i].same_frames(&pre.segments()[i]));
            assert(self.segments()[j].same_frames(&pre.segments()[j]));
            assert(pre.segments()[i].frame_ppn(k) == pre.segments()[j].frame_ppn(l));
        }
        assert forall|n: int, i: int, k: int|
            0 <= n < self.table().node_count() && 0 <= i < self.segments().len() && 0 <= k < self.segments()[i].frame_count()
                implies #[trigger] self.table().frame(n) != #[trigger] self.segments()[i].frame_ppn(k) by {
            assert(self.segments()[i].same_frames(&pre.segments()[i]));
            assert(pre.table().frame(n) != pre.segments()[i].frame_ppn(k));
        }
    }

    /// `push` of a framed segment, then copies `data` into its frames page by
    /// page from its first page.
    pub fn push_with_data(&mut self, area: MapArea, data: &[u8], alloc: &mut StackFrameAllocator) -> (r: bool)
        requires
            old(self).wf(old(alloc)),
            area.wf_fresh(),
            area.kind() == MapType::Framed,
            data@.len() <= (area.end() - area.start()) * 4096,
            forall|i: int| 0 <= i < old(self).segments().len() ==> !(#[trigger] old(self).segments()[i]).overlaps(&area),
        ensures
            final(self).wf(final(alloc)),
            old(alloc).issued().subset_of(final(alloc).issued()),
            r == (old(alloc).available() >= frames_needed(area.start() as int, area.end() as int, true)
                && old(self).table().node_count() + nodes_needed(area.start() as int, area.end() as int) <= MAX_NODES),
            !r ==> *final(self) == *old(self) && *final(alloc) == *old(alloc),
            r ==> final(self).segments().len() == old(self).segments().len() + 1,
            r ==> forall|i: int| 0 <= i < old(self).segments().len() ==> #[trigger] final(self).segments()[i] == old(self).segments()[i],
            r ==> final(self).segments().last().same_shape(&area),
            r ==> forall|k: int| 0 <= k < final(self).segments().last().frame_count()
                ==> !old(alloc).issued().contains(#[trigger] final(self).segments().last().frame_ppn(k)),
            r ==> forall|k: int| 0 <= k < final(self).segments().last().frame_count()
                ==> #[trigger] final(self).segments().last().frame_bytes(k) == page_of(data@, k),
            r ==> final(alloc).available() + frames_needed(area.start() as int, area.end() as int, true) >= old(alloc).available(),
            r ==> final(self).table().node_count() <= old(self).table().node_count() + nodes_needed(area.start() as int, area.end() as int),
            final(self).table().walk(TRAMPOLINE_VPN) == old(self).table().walk(TRAMPOLINE_VPN),
    {
        if !self.push(area, alloc) {
            return false;
        }
        let ghost st1 = *self;
        let mut a = self.areas.pop().unwrap();
        let ghost a0 = a;
        assert(a0 == st1.segments().last());
        a.copy_data(data);
        self.areas.push(a);
        proof {
            assert(self.segments() =~= st1.segments().update(st1.segments().len() - 1, a));
            assert(a.same_frames(&a0));
            assert forall|i: int| 0 <= i < st1.segments().len() implies (#[trigger] self.segments()[i]).same_frames(&st1.segments()[i]) by {
                if i < st1.segments().len() - 1 {
                    assert(self.segments()[i] == st1.segments()[i]);
                }
            }
            self.lemma_same_mapping(st1, alloc);
        }
        true
    }
}

/// Frames that copying the segments `segs[i..]` may take.
pub open spec fn copy_frames_from(segs: Seq<MapArea>, i: int) -> int
    decreases segs.len() - i,
{
    if i < 0 || i >= segs.len() {
        0
    } else {
        frames_needed(segs[i].start() as int, segs[i].end() as int, segs[i].kind() == MapType::Framed)
            + copy_frames_from(segs, i + 1)
    }
}

/// Page-table nodes that copying the segments `segs[i..]` may add.
pub open spec fn copy_nodes_from(segs: Seq<MapArea>, i: int) -> int
    decreases segs.len() - i,
{
    if i < 0 || i >= segs.len() {
        0
    } else {
        nodes_needed(segs[i].start() as int, segs[i].end() as int) + copy_nodes_from(segs, i + 1)
    }
}

/// Frames that copying an address space with segments `segs` may take: the
/// root, the trampoline nodes and the segments.
pub open spec fn copy_frames_needed(segs: Seq<MapArea>) -> int {
    3 + copy_frames_from(segs, 0)
}

/// Page-table nodes that the copy of an address space with segments `segs`
/// may need.
pub open spec fn copy_nodes_needed(segs: Seq<MapArea>) -> int {
    3 + copy_nodes_from(segs, 0)
}

/// The copy budgets of the segments from `i` on are not negative.
pub proof fn lemma_copy_budget_nonneg(segs: Seq<MapArea>, i: int)
    ensures
        copy_frames_from(segs, i) >= 0,
        copy_nodes_from(segs, i) >= 0,
    decreases segs.len() - i,
{
    if 0 <= i < segs.len() {
        lemma_copy_budget_nonneg(segs, i + 1);
        let a = segs[i].start() as int;
        let b = segs[i].end() as int;
        if a < b {
            assert((b - 1) / 512 >= a / 512) by (nonlinear_arith)
                requires a < b;
        }
    }
}

/// Page `k` of `data`: its bytes `[4096 k, 4096 k + 4096)`, zero past the end.
pub open spec fn page_of(data: Seq<u8>, k: int) -> Seq<u8> {
    Seq::new(4096, |i: int| if k * 4096 + i < data.len() { data[k * 4096 + i] } else { 0u8 })
}

impl MapArea {
    /// Copies `data` into the zeroed frames of a framed segment, page by page
    /// from its first page.
    pub fn copy_data(&mut self, data: &[u8])
        requires
            old(self).wf(),
            old(self).kind() == MapType::Framed,
            data@.len() <= old(self).frame_count() * 4096,
            forall|k: int| 0 <= k < old(self).frame_count() ==> #[trigger] old(self).frame_bytes(k) == Seq::new(4096, |i: int| 0u8),
        ensures
            final(self).wf(),
            final(self).same_shape(old(self)),
            final(self).frame_count() == old(self).frame_count(),
            forall|k: int| 0 <= k < old(self).frame_count() ==> #[trigger] final(self).frame_ppn(k) == old(self).frame_ppn(k),
            forall|k: int| 0 <= k < old(self).frame_count() ==> #[trigger] final(self).frame_bytes(k) == page_of(data@, k),
    {
        let n = self.data_frames.len();
        let mut k: usize = 0;
        while k < n
            invariant
                n == old(self).frame_count(),
                n <= TRAMPOLINE_VPN,
                self.data_frames@.len() == n,
                self.same_shape(old(self)),
                self.vpn_range == old(self).vpn_range,
                self.map_type == old(self).map_type,
                data@.len() <= n * 4096,
                k <= n,
                forall|m: int| 0 <= m < n ==> #[trigger] self.frame_ppn(m) == old(self).frame_ppn(m),
                forall|m: int| 0 <= m < k ==> #[trigger] self.frame_bytes(m) == page_of(data@, m),
                forall|m: int| k <= m < n ==> #[trigger] self.frame_bytes(m) == Seq::new(4096, |i: int| 0u8),
            decreases n - k,
        {
            let ghost before = self.data_frames@;
            assert(self.frame_bytes(k as int) == Seq::new(4096, |i: int| 0u8));
            assert forall|m: int| 0 <= m < n implies (#[trigger] before[m]).frame() == old(self).frame_ppn(m) by {
                assert(self.frame_ppn(m) == old(self).frame_ppn(m));
            }
            assert forall|m: int| 0 <= m < k implies (#[trigger] before[m]).bytes() == page_of(data@, m) by {
                assert(self.frame_bytes(m) == page_of(data@, m));
            }
            assert forall|m: int| k < m < n implies (#[trigger] before[m]).bytes() == Seq::new(4096, |i: int| 0u8) by {
                assert(self.frame_bytes(m) == Seq::new(4096, |i: int| 0u8));
            }
            let mut f = self.data_frames.remove(k);
            assert(f == before[k as int]);
            assert(f.bytes() == Seq::new(4096, |i: int| 0u8));
            let base: u64 = k as u64 * 4096;
            let mut i: usize = 0;
            #[verifier::loop_isolation(false)]
            while i < 4096
                invariant
                    base == k * 4096,
                    k < before.len(),
                    k < n,
                    data@.len() <= n * 4096,
                    f.frame() == before[k as int].frame(),
                    f.bytes().len() == 4096,
                    i <= 4096,
                    forall|j: int| 0 <= j < i ==> #[trigger] f.bytes()[j] == page_of(data@, k as int)[j],
                    forall|j: int| i <= j < 4096 ==> #[trigger] f.bytes()[j] == 0u8,
                decreases 4096 - i,
            {
                if base + (i as u64) < data.len() as u64 {
                    f.write_byte(i, data[(base + i as u64) as usize]);
                } else {
                    let ghost b = f.bytes();
                    assert(b[i as int] == 0u8);
                }
                i = i + 1;
            }
            assert(f.bytes() =~= page_of(data@, k as int));
            self.data_frames.insert(k, f);
            assert(self.data_frames@ =~= before.update(k as int, f));
            proof {
                assert forall|m: int| 0 <= m < n implies #[trigger] self.frame_ppn(m) == old(self).frame_ppn(m) by {
                    assert(self.data_frames@[m] == before.update(k as int, f)[m]);
                    assert(before[m].frame() == old(self).frame_ppn(m));
                }
                assert forall|m: int| 0 <= m < k + 1 implies #[trigger] self.frame_bytes(m) == page_of(data@, m) by {
                    assert(self.data_frames@[m] == before.update(k as int, f)[m]);
                    if m < k {
                        assert(before[m].bytes() == page_of(data@, m));
                    }
                }
                assert forall|m: int| k + 1 <= m < n implies #[trigger] self.frame_bytes(m) == Seq::new(4096, |i: int| 0u8) by {
                    assert(self.data_frames@[m] == before[m]);
                }
            }
            k = k + 1;
        }
    }
}

impl MapArea {
    /// Maps page `vpn` of the segment, the next one to map, through
    /// `page_table`; a framed segment first takes a fresh zeroed frame for it.
    pub fn map_one(&mut self, page_table: &mut PageTable, vpn: VirtPageNum, alloc: &mut StackFrameAllocator)
        requires
            old(page_table).wf(),
            old(alloc).wf(),
            old(page_table).frames_issued_by(old(alloc)),
            old(self).start() <= vpn.0 < old(self).end() <= TRAMPOLINE_VPN,
            old(self).kind() == MapType::Framed ==> old(self).frame_count() == vpn.0 - old(self).start(),
            old(page_table).walk(vpn.0).is_none(),
            old(alloc).available() >= (if old(self).kind() == MapType::Framed { 1int } else { 0int }) + old(page_table).missing_nodes(vpn.0),
            old(page_table).node_count() + old(page_table).missing_nodes(vpn.0) <= MAX_NODES,
        ensures
            final(page_table).wf(),
            final(alloc).wf(),
            final(page_table).frames_issued_by(final(alloc)),
            final(page_table).root() == old(page_table).root(),
            old(alloc).issued().subset_of(final(alloc).issued()),
            final(alloc).available() + (if old(self).kind() == MapType::Framed { 1int } else { 0int }) + old(page_table).missing_nodes(vpn.0) == old(alloc).available(),
            final(page_table).node_count() == old(page_table).node_count() + old(page_table).missing_nodes(vpn.0),
            forall|n: int| 0 <= n < old(page_table).node_count() ==> #[trigger] final(page_table).frame(n) == old(page_table).frame(n),
            forall|n: int|
                old(page_table).node_count() <= n < final(page_table).node_count() ==> !old(alloc).issued().contains(#[trigger] final(page_table).frame(n))
                    && (old(self).kind() == MapType::Framed ==> final(page_table).frame(n) != final(self).frame_ppn(old(self).frame_count())),
            final(self).same_shape(old(self)),
            final(page_table).walk(vpn.0) == Some(final(self).expected_pte(vpn.0)),
            forall|v: u64| v < VPN_LIMIT && v != vpn.0 ==> #[trigger] final(page_table).walk(v) == old(page_table).walk(v),
            old(self).kind() == MapType::Identical ==> final(self).frame_count() == old(self).frame_count(),
            old(self).kind() == MapType::Framed ==> {
                &&& final(self).frame_count() == old(self).frame_count() + 1
                &&& final(self).frame_bytes(old(self).frame_count()) == Seq::new(4096, |i: int| 0u8)
                &&& final(self).frame_ppn(old(self).frame_count()) < PPN_LIMIT
                &&& !old(alloc).issued().contains(final(self).frame_ppn(old(self).frame_count()))
                &&& final(alloc).issued().contains(final(self).frame_ppn(old(self).frame_count()))
            },
            forall|k: int| 0 <= k < old(self).frame_count() ==> #[trigger] final(self).frame_ppn(k) == old(self).frame_ppn(k)
                && final(self).frame_bytes(k) == old(self).frame_bytes(k),
    {
        let ghost ar0 = *self;
        let ppn = match self.map_type {
            MapType::Identical => PhysPageNum(vpn.0),
            MapType::Framed => {
                let p = alloc.allocate().unwrap();
                self.data_frames.push(FrameTracker::new(p));
                p
            },
        };
        proof {
            assert(old(page_table).frames_issued_by(alloc));
            assert forall|k: int| 0 <= k < ar0.frame_count() implies #[trigger] self.frame_ppn(k) == ar0.frame_ppn(k) && self.frame_bytes(k) == ar0.frame_bytes(k) by {
                assert(self.data_frames@[k] == ar0.data_frames@[k]);
            }
        }
        let ok = page_table.map(vpn, ppn, self.map_perm, alloc);
    }

    /// Whether the two segments share a page.
    pub open spec fn overlaps(&self, other: &MapArea) -> bool {
        &&& self.start() < self.end()
        &&& other.start() < other.end()
        &&& self.start() < other.end()
        &&& other.start() < self.end()
    }

    /// Whether the segment shares a page with `[start, end)`.
    pub open spec fn overlaps_pages(&self, start: int, end: int) -> bool {
        &&& self.start() < self.end()
        &&& start < end
        &&& self.start() < end
        &&& start < self.end()
    }

    /// Same pages, kind, permission and frames as `other`, whatever the frames hold.
    pub open spec fn same_frames(&self, other: &MapArea) -> bool {
        &&& self.same_shape(other)
        &&& self.frame_count() == other.frame_count()
        &&& forall|k: int| 0 <= k < self.frame_count() ==> #[trigger] self.frame_ppn(k) == other.frame_ppn(k)
        &&& forall|k: int| 0 <= k < self.frame_count() ==> (#[trigger] self.frame_bytes(k)).len() == other.frame_bytes(k).len()
    }

    /// Same pages, kind and permission as `other`.
    pub open spec fn same_shape(&self, other: &MapArea) -> bool {
        &&& self.start() == other.start()
        &&& self.end() == other.end()
        &&& self.kind() == other.kind()
        &&& self.perm() == other.perm()
    }

    /// A segment below the trampoline that owns no frame yet.
    pub open spec fn wf_fresh(&self) -> bool {
        &&& self.start() <= self.end() <= TRAMPOLINE_VPN
        &&& self.frame_count() == 0
    }
}

/// End of the user range: loadable segments and the user stack lie below
/// the trap-context page.
pub const USER_LIMIT: u64 = 0x7f_ffff_e000;

/// Whether a loadable segment lies below `USER_LIMIT` and its file bytes
/// lie inside a file of `len` bytes.
pub open spec fn segment_in_bounds(s: ProgramSegment, len: int) -> bool {
    &&& s.virtual_addr + s.mem_size <= USER_LIMIT
    &&& s.offset + s.file_size <= len
}

/// Whether `d` is a 64-bit ELF file whose segments can be loaded with
/// `available` frames.
pub open spec fn elf_loadable(d: Seq<u8>, available: int) -> bool {
    &&& elf_table_ok(d)
    &&& segments_loadable(elf_program_headers(d), d.len() as int)
    &&& available >= program_frames_needed(elf_program_headers(d))
    &&& program_nodes_needed(elf_program_headers(d)) <= MAX_NODES
}

/// Whether two loadable segments share a page.
pub open spec fn seg_pages_overlap(a: ProgramSegment, b: ProgramSegment) -> bool {
    &&& seg_start(a) < seg_end(a)
    &&& seg_start(b) < seg_end(b)
    &&& seg_start(a) < seg_end(b)
    &&& seg_start(b) < seg_end(a)
}

/// Whether the loadable segments of `segs` can all be loaded from a file of
/// `len` bytes: each leaves room for the guard page and the user stack below
/// `USER_LIMIT`, its file bytes lie in the file and fit its pages, and no
/// two share a page.
pub open spec fn segments_loadable(segs: Seq<ProgramSegment>, len: int) -> bool {
    &&& forall|j: int| 0 <= j < segs.len() && (#[trigger] segs[j]).is_load ==> {
        &&& segs[j].virtual_addr + segs[j].mem_size + 3 * 4096 <= USER_LIMIT
        &&& segs[j].offset + segs[j].file_size <= len
        &&& segs[j].file_size <= (seg_end(segs[j]) - seg_start(segs[j])) * 4096
    }
    &&& forall|i: int, j: int|
        0 <= i < segs.len() && 0 <= j < segs.len() && i != j && (#[trigger] segs[i]).is_load && (#[trigger] segs[j]).is_load
            ==> !seg_pages_overlap(segs[i], segs[j])
}

/// Frames that loading the loadable segments `segs[j..]` may take.
pub open spec fn load_frames_from(segs: Seq<ProgramSegment>, j: int) -> int
    decreases segs.len() - j,
{
    if j < 0 || j >= segs.len() {
        0
    } else {
        (if segs[j].is_load { frames_needed(seg_start(segs[j]), seg_end(segs[j]), true) } else { 0 })
            + load_frames_from(segs, j + 1)
    }
}

/// Page-table nodes that loading the loadable segments `segs[j..]` may add.
pub open spec fn load_nodes_from(segs: Seq<ProgramSegment>, j: int) -> int
    decreases segs.len() - j,
{
    if j < 0 || j >= segs.len() {
        0
    } else {
        (if segs[j].is_load { nodes_needed(seg_start(segs[j]), seg_end(segs[j])) } else { 0 })
            + load_nodes_from(segs, j + 1)
    }
}

/// Frames that building the address space of `segs` may take: the root and
/// trampoline nodes, the segments, the user stack and the trap context.
pub open spec fn program_frames_needed(segs: Seq<ProgramSegment>) -> int {
    12 + load_frames_from(segs, 0)
}

/// Page-table nodes that the address space of `segs` may need.
pub open spec fn program_nodes_needed(segs: Seq<ProgramSegment>) -> int {
    9 + load_nodes_from(segs, 0)
}

/// The frame and node budgets of the segments from `j` on are not negative.
pub proof fn lemma_load_budget_nonneg(segs: Seq<ProgramSegment>, j: int)
    ensures
        load_frames_from(segs, j) >= 0,
        load_nodes_from(segs, j) >= 0,
    decreases segs.len() - j,
{
    if 0 <= j < segs.len() {
        lemma_load_budget_nonneg(segs, j + 1);
        if segs[j].is_load && seg_start(segs[j]) < seg_end(segs[j]) {
            let a = seg_start(segs[j]);
            let b = seg_end(segs[j]);
            assert((b - 1) / 512 >= a / 512) by (nonlinear_arith)
                requires a < b;
        }
    }
}

/// First page of a loadable segment.
pub open spec fn seg_start(s: ProgramSegment) -> int {
    (s.virtual_addr / 4096) as int
}

/// One past the last page of a loadable segment.
pub open spec fn seg_end(s: ProgramSegment) -> int {
    ceil_div(s.virtual_addr as int + s.mem_size as int, 4096)
}

/// Permission of a loadable segment: U, plus R, W, X from its flags.
pub open spec fn seg_perm(flags: u32) -> u8 {
    (MAP_U | (if flags & 4 != 0 { MAP_R } else { 0u8 }) | (if flags & 2 != 0 { MAP_W } else { 0u8 }) | (if flags & 1
        != 0 {
        MAP_X
    } else {
        0u8
    })) as u8
}

impl MemorySet {
    /// Adds the framed segment of loadable program header `s` of `data`:
    /// permission U plus its R/W/X, holding its file bytes. Returns `false`,
    /// changing nothing, when the segment reaches past `USER_LIMIT`, its file
    /// bytes are not all in `data` or do not fit its pages, it overlaps a
    /// segment, or frames run out.
    fn load_segment(&mut self, s: ProgramSegment, data: &[u8], alloc: &mut StackFrameAllocator) -> (r: bool)
        requires
            old(self).wf(old(alloc)),
        ensures
            final(self).wf(final(alloc)),
            old(alloc).issued().subset_of(final(alloc).issued()),
            final(self).table().walk(TRAMPOLINE_VPN) == old(self).table().walk(TRAMPOLINE_VPN),
            !r ==> *final(self) == *old(self) && *final(alloc) == *old(alloc),
            !segment_in_bounds(s, data@.len() as int) ==> !r,
            r ==> final(self).segments() == old(self).segments().push(final(self).segments().last()),
            r ==> final(self).segments().last().loads(s, data@),
            r ==> final(self).segments().last().end() == seg_end(s),
            r ==> final(alloc).available() + frames_needed(seg_start(s), seg_end(s), true) >= old(alloc).available(),
            r ==> final(self).table().node_count() <= old(self).table().node_count() + nodes_needed(seg_start(s), seg_end(s)),
            s.virtual_addr + s.mem_size + 3 * 4096 <= USER_LIMIT && s.offset + s.file_size <= data@.len()
                && s.file_size <= (seg_end(s) - seg_start(s)) * 4096
                && (forall|i: int| 0 <= i < old(self).segments().len() ==> !(#[trigger] old(self).segments()[i]).overlaps_pages(seg_start(s), seg_end(s)))
                && old(alloc).available() >= frames_needed(seg_start(s), seg_end(s), true)
                && old(self).table().node_count() + nodes_needed(seg_start(s), seg_end(s)) <= MAX_NODES ==> r,
    {
        if s.virtual_addr > USER_LIMIT || s.mem_size > USER_LIMIT - s.virtual_addr {
            return false;
        }
        let start_va = VirtAddr(s.virtual_addr);
        let end_va = VirtAddr(s.virtual_addr + s.mem_size);
        proof {
            if s.virtual_addr + s.mem_size + 3 * 4096 <= USER_LIMIT {
                assert(ceil_div(end_va.0 as int, 4096) <= TRAMPOLINE_VPN) by (nonlinear_arith)
                    requires end_va.0 + 3 * 4096 <= USER_LIMIT;
            }
        }
        if !self.area_is_free(start_va, end_va) {
            return false;
        }
        if s.offset > data.len() as u64 || s.file_size > data.len() as u64 - s.offset {
            return false;
        }
        let r_bit: u8 = if s.flags & 4 != 0 { MAP_R } else { 0u8 };
        let w_bit: u8 = if s.flags & 2 != 0 { MAP_W } else { 0u8 };
        let x_bit: u8 = if s.flags & 1 != 0 { MAP_X } else { 0u8 };
        let perm: u8 = MAP_U | r_bit | w_bit | x_bit;
        let area = MapArea::new(start_va, end_va, MapType::Framed, perm);
        let end_vpn = area.end_vpn().0;
        let pages = end_vpn - area.start_vpn().0;
        if s.file_size > pages * 4096 {
            return false;
        }
        let bytes = copy_range(data, s.offset as usize, s.file_size as usize);
        let ghost before = *self;
        proof {
            assert forall|i: int| 0 <= i < self.segments().len() implies !(#[trigger] self.segments()[i]).overlaps(&area) by {
                assert(!self.segments()[i].overlaps_pages(seg_start(s), seg_end(s)));
            }
        }
        if !self.push_with_data(area, bytes.as_slice(), alloc) {
            return false;
        }
        proof {
            let n = self.segments().len() - 1;
            assert(self.segments() =~= before.segments().push(self.segments().last()));
            assert(self.segments()[n].loads(s, data@));
        }
        true
    }
}

/// Bytes `[off, off + len)` of `data`.
fn copy_range(data: &[u8], off: usize, len: usize) -> (r: Vec<u8>)
    requires
        off + len <= data@.len(),
    ensures
        r@ == data@.subrange(off as int, off + len),
{
    let mut r: Vec<u8> = Vec::new();
    let n = data.len();
    let mut i: usize = 0;
    while i < len
        invariant
            off + len <= n,
            n == data@.len(),
            i <= len,
            r@ == data@.subrange(off as int, off + i),
        decreases len - i,
    {
        r.push(data[off + i]);
        i = i + 1;
        assert(r@ =~= data@.subrange(off as int, off + i));
    }
    r
}

impl MemorySet {
    /// The address space of a program with the program headers `segs` read
    /// from `data`: the trampoline (to frame `strampoline`), a framed segment
    /// with permission U and the segment's R/W/X for every loadable header,
    /// holding its file bytes; a guard page above the highest one, then a
    /// user stack of `USER_STACK_SIZE` bytes, and the trap-context page below
    /// the trampoline. Returns the space, the bottom of the user stack and
    /// `entry`; `None` when a loadable segment lies outside the user range,
    /// overlaps another, or its bytes are not all in `data`, or when frames
    /// run out (frames taken by then stay issued).
    #[verifier::rlimit(100)]
    pub fn from_segments(
        segs: &Vec<ProgramSegment>,
        data: &[u8],
        entry: u64,
        strampoline: PhysPageNum,
        alloc: &mut StackFrameAllocator,
    ) -> (r: Option<(MemorySet, u64, u64)>)
        requires
            old(alloc).wf(),
            strampoline.0 < PPN_LIMIT,
        ensures
            final(alloc).wf(),
            old(alloc).issued().subset_of(final(alloc).issued()),
            (exists|j: int| 0 <= j < segs@.len() && #[trigger] segs@[j].is_load && !segment_in_bounds(segs@[j], data@.len() as int))
                ==> r.is_none(),
            segments_loadable(segs@, data@.len() as int) && old(alloc).available() >= program_frames_needed(segs@)
                && program_nodes_needed(segs@) <= MAX_NODES ==> r.is_some()
                && final(alloc).available() + program_frames_needed(segs@) >= old(alloc).available(),
            r.is_some() ==> {
                let (ms, sp, e) = r.unwrap();
                let n = ms.segments().len();
                &&& ms.wf(final(alloc))
                &&& e == entry
                &&& ms.table().walk(TRAMPOLINE_VPN) == Some(
                    PageTableEntry { bits: pte_bits(strampoline.0, PTE_R | PTE_X | PTE_V) },
                )
                &&& n >= 2
                &&& sp % 4096 == 0
                &&& ms.segments()[n - 1].start() == TRAP_CONTEXT_VPN
                &&& ms.segments()[n - 1].end() == TRAMPOLINE_VPN
                &&& ms.segments()[n - 1].kind() == MapType::Framed
                &&& ms.segments()[n - 1].perm() == MAP_R | MAP_W
                &&& ms.segments()[n - 2].start() == sp / 4096
                &&& ms.segments()[n - 2].end() == sp / 4096 + 2
                &&& ms.segments()[n - 2].kind() == MapType::Framed
                &&& ms.segments()[n - 2].perm() == MAP_R | MAP_W | MAP_U
                &&& forall|i: int| 0 <= i < n - 2 ==> (#[trigger] ms.segments()[i]).kind() == MapType::Framed
                    && ms.segments()[i].end() < sp / 4096
                &&& forall|j: int| 0 <= j < segs@.len() && (#[trigger] segs@[j]).is_load ==> exists|i: int|
                    0 <= i < n - 2 && ms.segments()[i].loads(segs@[j], data@)
            },
    {
        let ghost good = segments_loadable(segs@, data@.len() as int) && old(alloc).available() >= program_frames_needed(segs@)
            && program_nodes_needed(segs@) <= MAX_NODES;
        proof {
            lemma_load_budget_nonneg(segs@, 0);
        }
        let ms0 = MemorySet::new_bare(alloc);
        let mut ms = match ms0 {
            None => return None,
            Some(m) => m,
        };
        if !ms.map_trampoline(strampoline, alloc) {
            return None;
        }
        let ghost a_start = *old(alloc);
        let mut max_end: u64 = 0;
        let mut j: usize = 0;
        let ghost mut idx: Seq<int> = Seq::empty();
        while j < segs.len()
            invariant
                ms.wf(alloc),
                alloc.wf(),
                a_start == *old(alloc),
                a_start.issued().subset_of(alloc.issued()),
                ms.table().walk(TRAMPOLINE_VPN) == Some(
                    PageTableEntry { bits: pte_bits(strampoline.0, PTE_R | PTE_X | PTE_V) },
                ),
                j <= segs@.len(),
                max_end <= TRAP_CONTEXT_VPN,
                forall|i: int| 0 <= i < ms.segments().len() ==> (#[trigger] ms.segments()[i]).kind() == MapType::Framed
                    && ms.segments()[i].end() <= max_end,
                forall|m: int| 0 <= m < j && (#[trigger] segs@[m]).is_load ==> exists|i: int|
                    0 <= i < ms.segments().len() && ms.segments()[i].loads(segs@[m], data@),
                forall|m: int| 0 <= m < j && (#[trigger] segs@[m]).is_load ==> segment_in_bounds(segs@[m], data@.len() as int),
                idx.len() == ms.segments().len(),
                forall|i: int| 0 <= i < ms.segments().len() ==> 0 <= #[trigger] idx[i] < j && segs@[idx[i]].is_load
                    && ms.segments()[i].start() == seg_start(segs@[idx[i]]) && ms.segments()[i].end() == seg_end(segs@[idx[i]]),
                good == (segments_loadable(segs@, data@.len() as int) && a_start.available() >= program_frames_needed(segs@)
                    && program_nodes_needed(segs@) <= MAX_NODES),
                good ==> alloc.available() - (load_frames_from(segs@, j as int) + 9) >= a_start.available() - program_frames_needed(segs@),
                good ==> ms.table().node_count() + load_nodes_from(segs@, j as int) + 6 <= MAX_NODES,
                good ==> max_end + 3 <= TRAP_CONTEXT_VPN,
            decreases segs.len() - j,
        {
            let s = segs[j];
            if s.is_load {
                let ghost before = ms;
                proof {
                    if good {
                        assert forall|i: int| 0 <= i < ms.segments().len() implies !(#[trigger] ms.segments()[i]).overlaps_pages(
                            seg_start(s),
                            seg_end(s),
                        ) by {
                            let m = idx[i];
                            assert(!seg_pages_overlap(segs@[m], segs@[j as int]));
                        }
                        lemma_load_budget_nonneg(segs@, j as int + 1);
                    }
                }
                if !ms.load_segment(s, data, alloc) {
                    return None;
                }
                proof {
                    let n = ms.segments().len() - 1;
                    idx = idx.push(j as int);
                    assert forall|i: int| 0 <= i < ms.segments().len() implies 0 <= #[trigger] idx[i] < j + 1 && segs@[idx[i]].is_load
                        && ms.segments()[i].start() == seg_start(segs@[idx[i]]) && ms.segments()[i].end() == seg_end(segs@[idx[i]]) by {
                        if i < n {
                            assert(ms.segments()[i] == before.segments()[i]);
                        }
                    }
                    assert forall|m: int| 0 <= m < j + 1 && (#[trigger] segs@[m]).is_load implies exists|i: int|
                        0 <= i < ms.segments().len() && ms.segments()[i].loads(segs@[m], data@) by {
                        if m < j {
                            let i = choose|i: int| 0 <= i < before.segments().len() && before.segments()[i].loads(segs@[m], data@);
                            assert(ms.segments()[i] == before.segments()[i]);
                        } else {
                            assert(ms.segments()[n].loads(segs@[m], data@));
                        }
                    }
                    assert forall|i: int| 0 <= i < ms.segments().len() implies (#[trigger] ms.segments()[i]).kind() == MapType::Framed
                        && ms.segments()[i].end() <= if seg_end(s) > max_end { seg_end(s) } else { max_end as int } by {
                        if i < n {
                            assert(ms.segments()[i] == before.segments()[i]);
                        }
                    }
                    if good {
                        assert(seg_end(s) + 3 <= TRAP_CONTEXT_VPN) by (nonlinear_arith)
                            requires s.virtual_addr + s.mem_size + 3 * 4096 <= USER_LIMIT,
                                seg_end(s) == ceil_div(s.virtual_addr as int + s.mem_size as int, 4096);
                    }
                }
                let end_vpn = ms.areas[ms.areas.len() - 1].end_vpn().0;
                if end_vpn > max_end {
                    max_end = end_vpn;
                }
            }
            j = j + 1;
        }
        let stack_bottom: u64 = (max_end + 1) * 4096;
        let stack_top: u64 = stack_bottom + USER_STACK_SIZE;
        proof {
            lemma_next_block(max_end + 1);
            assert(ceil_div(stack_top as int, 4096) == max_end + 3);
        }
        if stack_top > USER_LIMIT {
            return None;
        }
        let ghost m0 = ms;
        assert forall|i: int| 0 <= i < ms.segments().len() implies !(#[trigger] ms.segments()[i]).overlaps_pages(
            (stack_bottom / 4096) as int,
            ceil_div(stack_top as int, 4096),
        ) by {}
        if !ms.insert_framed_area(VirtAddr(stack_bottom), VirtAddr(stack_top), MAP_R | MAP_W | MAP_U, alloc) {
            return None;
        }
        let ghost m1 = ms;
        let trap_va = VirtAddr::from_u64(TRAP_CONTEXT);
        let tramp_va = VirtAddr::from_u64(TRAMPOLINE);
        assert forall|i: int| 0 <= i < ms.segments().len() implies !(#[trigger] ms.segments()[i]).overlaps_pages(
            (trap_va.0 / 4096) as int,
            ceil_div(tramp_va.0 as int, 4096),
        ) by {
            if i < m0.segments().len() {
                assert(ms.segments()[i] == m0.segments()[i]);
            }
        }
        if !ms.insert_framed_area(trap_va, tramp_va, MAP_R | MAP_W, alloc) {
            return None;
        }
        proof {
            let n = ms.segments().len();
            assert(ms.segments()[n - 2] == m1.segments()[n - 2]);
            assert forall|i: int| 0 <= i < n - 2 implies (#[trigger] ms.segments()[i]).kind() == MapType::Framed
                && ms.segments()[i].end() < stack_bottom / 4096 by {
                assert(ms.segments()[i] == m0.segments()[i]);
            }
            assert forall|m: int| 0 <= m < segs@.len() && (#[trigger] segs@[m]).is_load implies exists|i: int|
                0 <= i < n - 2 && ms.segments()[i].loads(segs@[m], data@) by {
                let i = choose|i: int| 0 <= i < m0.segments().len() && m0.segments()[i].loads(segs@[m], data@);
                assert(ms.segments()[i] == m0.segments()[i]);
            }
        }
        Some((ms, stack_bottom, entry))
    }

    /// The address space of the ELF program `elf_data` (see `from_segments`),
    /// or `None` when xmas-elf rejects it or its headers do not lie inside it.
    pub fn from_elf(elf_data: &[u8], strampoline: PhysPageNum, alloc: &mut StackFrameAllocator) -> (r: Option<(MemorySet, u64, u64)>)
        requires
            old(alloc).wf(),
            strampoline.0 < PPN_LIMIT,
        ensures
            final(alloc).wf(),
            old(alloc).issued().subset_of(final(alloc).issued()),
            elf_table_ok(elf_data@) && segments_loadable(elf_program_headers(elf_data@), elf_data@.len() as int)
                && old(alloc).available() >= program_frames_needed(elf_program_headers(elf_data@))
                && program_nodes_needed(elf_program_headers(elf_data@)) <= MAX_NODES ==> r.is_some()
                && final(alloc).available() + program_frames_needed(elf_program_headers(elf_data@)) >= old(alloc).available(),
            r.is_some() ==> {
                let (ms, sp, e) = r.unwrap();
                let n = ms.segments().len();
                let phs = elf_program_headers(elf_data@);
                &&& elf_table_ok(elf_data@)
                &&& e == elf_entry(elf_data@)
                &&& ms.wf(final(alloc))
                &&& ms.table().walk(TRAMPOLINE_VPN) == Some(
                    PageTableEntry { bits: pte_bits(strampoline.0, PTE_R | PTE_X | PTE_V) },
                )
                &&& n >= 2
                &&& sp % 4096 == 0
                &&& ms.segments()[n - 1].start() == TRAP_CONTEXT_VPN
                &&& ms.segments()[n - 1].end() == TRAMPOLINE_VPN
                &&& ms.segments()[n - 1].perm() == MAP_R | MAP_W
                &&& ms.segments()[n - 2].start() == sp / 4096
                &&& ms.segments()[n - 2].end() == sp / 4096 + 2
                &&& ms.segments()[n - 2].perm() == MAP_R | MAP_W | MAP_U
                &&& forall|i: int| 0 <= i < n - 2 ==> (#[trigger] ms.segments()[i]).end() < sp / 4096
                &&& forall|j: int| 0 <= j < phs.len() && (#[trigger] phs[j]).is_load ==> exists|i: int|
                    0 <= i < n - 2 && ms.segments()[i].loads(phs[j], elf_data@)
            },
    {
        match read_program_headers(elf_data) {
            None => None,
            Some((segs, entry)) => MemorySet::from_segments(&segs, elf_data, entry, strampoline, alloc),
        }
    }
}

impl MapArea {
    /// Whether this segment is the one loaded for program header `s` of `data`.
    pub open spec fn loads(&self, s: ProgramSegment, data: Seq<u8>) -> bool {
        &&& self.start() == seg_start(s)
        &&& self.end() == seg_end(s)
        &&& self.kind() == MapType::Framed
        &&& self.perm() == seg_perm(s.flags)
        &&& forall|k: int| 0 <= k < self.frame_count() ==> #[trigger] self.frame_bytes(k) == page_of(
            data.subrange(s.offset as int, s.offset + s.file_size),
            k,
        )
    }
}

impl MemorySet {
    /// Being well formed survives an allocator that issued more frames.
    pub proof fn lemma_wf_grow(&self, a: &StackFrameAllocator, b: &StackFrameAllocator)
        requires
            self.wf(a),
            b.wf(),
            a.issued().subset_of(b.issued()),
        ensures
            self.wf(b),
    {
        assert forall|i: int| 0 <= i < self.table().node_count() implies b.issued().contains(#[trigger] self.table().frame(i)) by {
            assert(a.issued().contains(self.table().frame(i)));
        }
        assert forall|i: int, k: int|
            0 <= i < self.segments().len() && 0 <= k < self.segments()[i].frame_count()
                implies b.issued().contains(#[trigger] self.segments()[i].frame_ppn(k)) by {
            assert(a.issued().contains(self.segments()[i].frame_ppn(k)));
        }
    }

    /// A copy of the user address space `user_space` in fresh frames: the same
    /// trampoline entry, and for every segment one of the same pages, kind
    /// and permission whose frames, newly taken, hold the same bytes. `None`
    /// when frames run out (frames taken by then stay issued).
    pub fn from_existed_user(user_space: &MemorySet, alloc: &mut StackFrameAllocator) -> (r: Option<MemorySet>)
        requires
            user_space.wf(old(alloc)),
        ensures
            final(alloc).wf(),
            old(alloc).issued().subset_of(final(alloc).issued()),
            user_space.wf(final(alloc)),
            old(alloc).available() >= copy_frames_needed(user_space.segments())
                && copy_nodes_needed(user_space.segments()) <= MAX_NODES ==> r.is_some()
                && final(alloc).available() + copy_frames_needed(user_space.segments()) >= old(alloc).available(),
            r.is_some() ==> {
                let ms = r.unwrap();
                &&& ms.wf(final(alloc))
                &&& ms.segments().len() == user_space.segments().len()
                &&& forall|i: int| 0 <= i < ms.segments().len() ==> (#[trigger] ms.segments()[i]).copies(&user_space.segments()[i], old(alloc))
                &&& user_space.table().walk(TRAMPOLINE_VPN).is_some() ==> ms.table().walk(TRAMPOLINE_VPN) == Some(
                    PageTableEntry {
                        bits: pte_bits(
                            pte_ppn(user_space.table().walk(TRAMPOLINE_VPN).unwrap().bits),
                            pte_flags(user_space.table().walk(TRAMPOLINE_VPN).unwrap().bits) | PTE_V,
                        ),
                    },
                )
            },
    {
        let ghost a0 = *alloc;
        let ghost good = old(alloc).available() >= copy_frames_needed(user_space.segments())
            && copy_nodes_needed(user_space.segments()) <= MAX_NODES;
        proof {
            lemma_copy_budget_nonneg(user_space.segments(), 0);
        }
        let ms0 = MemorySet::new_bare(alloc);
        proof {
            user_space.lemma_wf_grow(&a0, alloc);
        }
        let mut ms = match ms0 {
            None => return None,
            Some(m) => m,
        };
        match user_space.page_table.translate(VirtPageNum(TRAMPOLINE_VPN)) {
            None => {},
            Some(e) => {
                let ghost a1 = *alloc;
                let ppn = e.ppn();
                let flags = e.flags();
                let ok = ms.page_table.map(VirtPageNum(TRAMPOLINE_VPN), ppn, flags, alloc);
                proof {
                    user_space.lemma_wf_grow(&a1, alloc);
                }
                if !ok {
                    return None;
                }
                proof {
                    assert forall|n: int, i: int, k: int|
                        0 <= n < ms.table().node_count() && 0 <= i < ms.segments().len() && 0 <= k < ms.segments()[i].frame_count()
                            implies #[trigger] ms.table().frame(n) != #[trigger] ms.segments()[i].frame_ppn(k) by {}
                    assert forall|i: int, v: u64|
                        0 <= i < ms.segments().len() && (#[trigger] ms.segments()[i]).contains(v)
                            implies #[trigger] ms.table().walk(v) == Some(ms.segments()[i].expected_pte(v)) by {}
                }
            },
        }
        let ghost tramp = ms.table().walk(TRAMPOLINE_VPN);
        let n = user_space.areas.len();
        let mut i: usize = 0;
        while i < n
            invariant
                n == user_space.segments().len(),
                i <= n,
                alloc.wf(),
                a0 == *old(alloc),
                a0.issued().subset_of(alloc.issued()),
                user_space.wf(alloc),
                ms.wf(alloc),
                ms.table().walk(TRAMPOLINE_VPN) == tramp,
                ms.segments().len() == i,
                forall|m: int| 0 <= m < i ==> (#[trigger] ms.segments()[m]).copies(&user_space.segments()[m], &a0),
                good == (a0.available() >= copy_frames_needed(user_space.segments())
                    && copy_nodes_needed(user_space.segments()) <= MAX_NODES),
                good ==> alloc.available() - copy_frames_from(user_space.segments(), i as int)
                    >= a0.available() - copy_frames_needed(user_space.segments()),
                good ==> ms.table().node_count() + copy_nodes_from(user_space.segments(), i as int) <= MAX_NODES,
            decreases n - i,
        {
            let src = &user_space.areas[i];
            let area = MapArea {
                vpn_range: src.vpn_range,
                data_frames: Vec::new(),
                map_type: src.map_type,
                map_perm: src.map_perm,
            };
            proof {
                assert(src.wf());
                assert forall|m: int| 0 <= m < ms.segments().len() implies !(#[trigger] ms.segments()[m]).overlaps(&area) by {
                    assert(ms.segments()[m].copies(&user_space.segments()[m], &a0));
                    assert(!user_space.segments()[m].overlaps(&user_space.segments()[i as int]));
                }
            }
            let ghost before = ms;
            let ghost a1 = *alloc;
            proof {
                lemma_copy_budget_nonneg(user_space.segments(), i as int + 1);
            }
            let ok = match src.map_type {
                MapType::Identical => ms.push(area, alloc),
                MapType::Framed => {
                    let bytes = src.frames_bytes();
                    ms.push_with_data(area, bytes.as_slice(), alloc)
                },
            };
            proof {
                user_space.lemma_wf_grow(&a1, alloc);
            }
            if !ok {
                return None;
            }
            proof {
                let last = ms.segments()[i as int];
                assert forall|k: int| 0 <= k < last.frame_count() implies #[trigger] last.frame_bytes(k) == src.frame_bytes(k) by {
                    lemma_page_of_concat(src, k);
                }
                assert(last.copies(src, &a0));
                assert forall|m: int| 0 <= m < i + 1 implies (#[trigger] ms.segments()[m]).copies(&user_space.segments()[m], &a0) by {
                    if m < i {
                        assert(ms.segments()[m] == before.segments()[m]);
                    }
                }
            }
            i = i + 1;
        }
        Some(ms)
    }
}

impl MapArea {
    /// Whether this segment copies `src`: same pages, kind, permission and
    /// frame count, the same bytes in each frame, and frames that `a` had not
    /// issued.
    pub open spec fn copies(&self, src: &MapArea, a: &StackFrameAllocator) -> bool {
        &&& self.same_shape(src)
        &&& self.frame_count() == src.frame_count()
        &&& forall|k: int| 0 <= k < self.frame_count() ==> #[trigger] self.frame_bytes(k) == src.frame_bytes(k)
        &&& forall|k: int| 0 <= k < self.frame_count() ==> !a.issued().contains(#[trigger] self.frame_ppn(k))
    }

    /// The bytes of all frames, in page order.
    pub open spec fn all_bytes(&self) -> Seq<u8> {
        Seq::new((self.frame_count() * 4096) as nat, |j: int| self.frame_bytes(j / 4096)[j % 4096])
    }

    /// The bytes of all frames, in page order.
    pub fn frames_bytes(&self) -> (r: Vec<u8>)
        requires
            self.wf(),
        ensures
            r@ == self.all_bytes(),
    {
        let mut r: Vec<u8> = Vec::new();
        let n = self.data_frames.len();
        let mut k: usize = 0;
        while k < n
            invariant
                self.wf(),
                n == self.frame_count(),
                n <= TRAMPOLINE_VPN,
                k <= n,
                r@.len() == k * 4096,
                forall|j: int| 0 <= j < k * 4096 ==> #[trigger] r@[j] == self.frame_bytes(j / 4096)[j % 4096],
            decreases n - k,
        {
            let f = &self.data_frames[k];
            let mut b: usize = 0;
            while b < 4096
                invariant
                    self.wf(),
                    n == self.frame_count(),
                    n <= TRAMPOLINE_VPN,
                    k < n,
                    *f == self.data_frames@[k as int],
                    b <= 4096,
                    r@.len() == k * 4096 + b,
                    forall|j: int| 0 <= j < k * 4096 + b ==> #[trigger] r@[j] == self.frame_bytes(j / 4096)[j % 4096],
                decreases 4096 - b,
            {
                assert(self.frame_bytes(k as int).len() == 4096);
                r.push(f.read_byte(b));
                proof {
                    let j = k * 4096 + b;
                    assert(j / 4096 == k as int && j % 4096 == b as int) by (nonlinear_arith)
                        requires j == k * 4096 + b, b < 4096;
                }
                b = b + 1;
            }
            k = k + 1;
        }
        assert(r@ =~= self.all_bytes());
        r
    }
}

/// Page `k` of the bytes of all frames of `a` is frame `k`'s bytes.
pub proof fn lemma_page_of_concat(a: &MapArea, k: int)
    requires
        a.wf(),
        0 <= k < a.frame_count(),
    ensures
        page_of(a.all_bytes(), k) == a.frame_bytes(k),
{
    assert forall|i: int| 0 <= i < 4096 implies #[trigger] page_of(a.all_bytes(), k)[i] == a.frame_bytes(k)[i] by {
        let j = k * 4096 + i;
        assert(j / 4096 == k && j % 4096 == i) by (nonlinear_arith)
            requires j == k * 4096 + i, 0 <= i < 4096, k >= 0;
        assert(j < a.frame_count() * 4096) by (nonlinear_arith)
            requires j == k * 4096 + i, 0 <= i < 4096, k < a.frame_count();
    }
    assert(page_of(a.all_bytes(), k) =~= a.frame_bytes(k));
}

/// Where the kernel image's sections lie, as the linker placed them, and
/// where physical memory ends.
#[derive(Clone, Copy, Debug)]
pub struct KernelLayout {
    pub stext: u64,
    pub etext: u64,
    pub srodata: u64,
    pub erodata: u64,
    pub sdata: u64,
    pub edata: u64,
    pub sbss_with_stack: u64,
    pub ebss: u64,
    pub ekernel: u64,
    pub memory_end: u64,
}

impl MapArea {
    /// Whether this segment covers `[start_va, end_va)` with `kind` and `perm`.
    pub open spec fn covers(&self, start_va: u64, end_va: u64, kind: MapType, perm: u8) -> bool {
        &&& self.start() == start_va / 4096
        &&& self.end() == ceil_div(end_va as int, 4096)
        &&& self.kind() == kind
        &&& self.perm() == perm
    }
}

/// The identical ranges of the kernel space, `(start, end, permission)`:
/// the five sections, then each MMIO range.
pub open spec fn kernel_range_seq(layout: KernelLayout, mmio: Seq<(u64, u64)>) -> Seq<(u64, u64, u8)> {
    seq![
        (layout.stext, layout.etext, MAP_R | MAP_X),
        (layout.srodata, layout.erodata, MAP_R),
        (layout.sdata, layout.edata, MAP_R | MAP_W),
        (layout.sbss_with_stack, layout.ebss, MAP_R | MAP_W),
        (layout.ekernel, layout.memory_end, MAP_R | MAP_W),
    ] + Seq::new(mmio.len(), |m: int| (mmio[m].0, (mmio[m].0 + mmio[m].1) as u64, MAP_R | MAP_W))
}

/// Whether ranges `a` and `b` share a page.
pub open spec fn ranges_overlap(a: (u64, u64, u8), b: (u64, u64, u8)) -> bool {
    let (sa, ea) = ((a.0 / 4096) as int, ceil_div(a.1 as int, 4096));
    let (sb, eb) = ((b.0 / 4096) as int, ceil_div(b.1 as int, 4096));
    sa < ea && sb < eb && sa < eb && sb < ea
}

/// Frames that mapping the identical ranges `rs[i..]` may take.
pub open spec fn range_frames_from(rs: Seq<(u64, u64, u8)>, i: int) -> int
    decreases rs.len() - i,
{
    if i < 0 || i >= rs.len() {
        0
    } else {
        frames_needed((rs[i].0 / 4096) as int, ceil_div(rs[i].1 as int, 4096), false) + range_frames_from(rs, i + 1)
    }
}

/// Page-table nodes that mapping the identical ranges `rs[i..]` may add.
pub open spec fn range_nodes_from(rs: Seq<(u64, u64, u8)>, i: int) -> int
    decreases rs.len() - i,
{
    if i < 0 || i >= rs.len() {
        0
    } else {
        nodes_needed((rs[i].0 / 4096) as int, ceil_div(rs[i].1 as int, 4096)) + range_nodes_from(rs, i + 1)
    }
}

/// The budgets of the ranges from `i` on are not negative.
pub proof fn lemma_range_budget_nonneg(rs: Seq<(u64, u64, u8)>, i: int)
    ensures
        range_frames_from(rs, i) >= 0,
        range_nodes_from(rs, i) >= 0,
    decreases rs.len() - i,
{
    if 0 <= i < rs.len() {
        lemma_range_budget_nonneg(rs, i + 1);
        let a = (rs[i].0 / 4096) as int;
        let b = ceil_div(rs[i].1 as int, 4096);
        if a < b {
            assert((b - 1) / 512 >= a / 512) by (nonlinear_arith)
                requires a < b;
        }
    }
}

/// Whether the kernel space of `layout` and `mmio` can be built with
/// `available` frames: every range is ordered and below `USER_LIMIT`, no two
/// share a page, and the frames and nodes suffice.
pub open spec fn kernel_layout_ok(layout: KernelLayout, mmio: Seq<(u64, u64)>, available: int) -> bool {
    let rs = kernel_range_seq(layout, mmio);
    &&& forall|m: int| 0 <= m < mmio.len() ==> (#[trigger] mmio[m]).0 + mmio[m].1 <= USER_LIMIT
    &&& forall|i: int| 0 <= i < rs.len() ==> (#[trigger] rs[i]).0 <= rs[i].1 <= USER_LIMIT
    &&& forall|i: int, j: int| 0 <= i < rs.len() && 0 <= j < rs.len() && i != j ==> !ranges_overlap(#[trigger] rs[i], #[trigger] rs[j])
    &&& available >= 3 + range_frames_from(rs, 0)
    &&& 3 + range_nodes_from(rs, 0) <= MAX_NODES
}

/// The identical ranges of the kernel space, `(start, end, permission)`:
/// the five sections, then each MMIO range; `None` when an MMIO range
/// reaches past the user range.
fn kernel_ranges(layout: &KernelLayout, mmio: &Vec<(u64, u64)>) -> (r: Option<Vec<(u64, u64, u8)>>)
    ensures
        (forall|m: int| 0 <= m < mmio@.len() ==> (#[trigger] mmio@[m]).0 + mmio@[m].1 <= USER_LIMIT) ==> r.is_some(),
        r.is_some() ==> r.unwrap()@ == kernel_range_seq(*layout, mmio@),
        r.is_some() ==> {
            let ranges = r.unwrap()@;
            &&& ranges.len() == 5 + mmio@.len()
            &&& ranges[0] == (layout.stext, layout.etext, MAP_R | MAP_X)
            &&& ranges[1] == (layout.srodata, layout.erodata, MAP_R)
            &&& ranges[2] == (layout.sdata, layout.edata, MAP_R | MAP_W)
            &&& ranges[3] == (layout.sbss_with_stack, layout.ebss, MAP_R | MAP_W)
            &&& ranges[4] == (layout.ekernel, layout.memory_end, MAP_R | MAP_W)
            &&& forall|m: int| 0 <= m < mmio@.len() ==> #[trigger] ranges[5 + m] == (mmio@[m].0, (mmio@[m].0 + mmio@[m].1) as u64, MAP_R | MAP_W)
        },
{
    let mut ranges: Vec<(u64, u64, u8)> = Vec::new();
    ranges.push((layout.stext, layout.etext, MAP_R | MAP_X));
    ranges.push((layout.srodata, layout.erodata, MAP_R));
    ranges.push((layout.sdata, layout.edata, MAP_R | MAP_W));
    ranges.push((layout.sbss_with_stack, layout.ebss, MAP_R | MAP_W));
    ranges.push((layout.ekernel, layout.memory_end, MAP_R | MAP_W));
    let mut j: usize = 0;
    while j < mmio.len()
        invariant
            ranges@.len() == 5 + j,
            j <= mmio@.len(),
            ranges@[0] == (layout.stext, layout.etext, MAP_R | MAP_X),
            ranges@[1] == (layout.srodata, layout.erodata, MAP_R),
            ranges@[2] == (layout.sdata, layout.edata, MAP_R | MAP_W),
            ranges@[3] == (layout.sbss_with_stack, layout.ebss, MAP_R | MAP_W),
            ranges@[4] == (layout.ekernel, layout.memory_end, MAP_R | MAP_W),
            forall|m: int| 0 <= m < j ==> #[trigger] ranges@[5 + m] == (mmio@[m].0, (mmio@[m].0 + mmio@[m].1) as u64, MAP_R | MAP_W),
        decreases mmio.len() - j,
    {
        let (start, len) = mmio[j];
        if len > USER_LIMIT || start > USER_LIMIT - len {
            return None;
        }
        ranges.push((start, start + len, MAP_R | MAP_W));
        j = j + 1;
    }
    assert forall|i: int| 0 <= i < ranges@.len() implies #[trigger] ranges@[i] == kernel_range_seq(*layout, mmio@)[i] by {
        if i >= 5 {
            assert(ranges@[5 + (i - 5)] == (mmio@[i - 5].0, (mmio@[i - 5].0 + mmio@[i - 5].1) as u64, MAP_R | MAP_W));
        }
    }
    assert(ranges@ =~= kernel_range_seq(*layout, mmio@));
    Some(ranges)
}

impl MemorySet {
    /// Adds an identical segment over `[start_va, end_va)`; `false` when the
    /// range is reversed, reaches the trampoline, overlaps a segment, or the
    /// page-table nodes cannot be had.
    fn push_identical(&mut self, start_va: u64, end_va: u64, perm: u8, alloc: &mut StackFrameAllocator) -> (r: bool)
        requires
            old(self).wf(old(alloc)),
        ensures
            final(self).wf(final(alloc)),
            old(alloc).issued().subset_of(final(alloc).issued()),
            final(self).table().walk(TRAMPOLINE_VPN) == old(self).table().walk(TRAMPOLINE_VPN),
            r ==> final(self).segments() == old(self).segments().push(final(self).segments().last()),
            r ==> final(self).segments().last().covers(start_va, end_va, MapType::Identical, perm),
            !r ==> *final(self) == *old(self),
            r ==> final(alloc).available() + frames_needed((start_va / 4096) as int, ceil_div(end_va as int, 4096), false)
                >= old(alloc).available(),
            r ==> final(self).table().node_count() <= old(self).table().node_count()
                + nodes_needed((start_va / 4096) as int, ceil_div(end_va as int, 4096)),
            start_va <= end_va && end_va <= USER_LIMIT
                && (forall|i: int| 0 <= i < old(self).segments().len() ==> !(#[trigger] old(self).segments()[i]).overlaps_pages(
                    (start_va / 4096) as int,
                    ceil_div(end_va as int, 4096),
                ))
                && old(alloc).available() >= frames_needed((start_va / 4096) as int, ceil_div(end_va as int, 4096), false)
                && old(self).table().node_count() + nodes_needed((start_va / 4096) as int, ceil_div(end_va as int, 4096)) <= MAX_NODES
                ==> r,
    {
        proof {
            if end_va <= USER_LIMIT {
                assert(ceil_div(end_va as int, 4096) <= TRAMPOLINE_VPN) by (nonlinear_arith)
                    requires end_va <= USER_LIMIT;
            }
        }
        if start_va > end_va || end_va > USER_LIMIT {
            return false;
        }
        let s = VirtAddr(start_va);
        let e = VirtAddr(end_va);
        if !self.area_is_free(s, e) {
            return false;
        }
        let area = MapArea::new(s, e, MapType::Identical, perm);
        assert forall|i: int| 0 <= i < self.segments().len() implies !(#[trigger] self.segments()[i]).overlaps(&area) by {
            assert(!self.segments()[i].overlaps_pages((start_va / 4096) as int, ceil_div(end_va as int, 4096)));
        }
        let ghost pre = *self;
        let ok = self.push(area, alloc);
        if ok {
            assert(self.segments() =~= pre.segments().push(self.segments().last()));
        }
        ok
    }

    /// The kernel address space: the trampoline, then identical segments for
    /// `.text` (R|X), `.rodata` (R), `.data` (R|W), `.bss` (R|W), the
    /// physical memory `[ekernel, memory_end)` (R|W) and each MMIO range
    /// `(start, len)` (R|W), in that order. `None` when a range is reversed,
    /// overlaps another or reaches the trap-context page, or when frames
    /// run out (frames taken by then stay issued).
    pub fn new_kernel(layout: &KernelLayout, mmio: &Vec<(u64, u64)>, strampoline: PhysPageNum, alloc: &mut StackFrameAllocator) -> (r: Option<MemorySet>)
        requires
            old(alloc).wf(),
            strampoline.0 < PPN_LIMIT,
        ensures
            final(alloc).wf(),
            old(alloc).issued().subset_of(final(alloc).issued()),
            kernel_layout_ok(*layout, mmio@, old(alloc).available() as int) ==> r.is_some(),
            r.is_some() ==> {
                let ms = r.unwrap();
                &&& ms.wf(final(alloc))
                &&& ms.table().walk(TRAMPOLINE_VPN) == Some(
                    PageTableEntry { bits: pte_bits(strampoline.0, PTE_R | PTE_X | PTE_V) },
                )
                &&& ms.segments().len() == 5 + mmio@.len()
                &&& ms.segments()[0].covers(layout.stext, layout.etext, MapType::Identical, MAP_R | MAP_X)
                &&& ms.segments()[1].covers(layout.srodata, layout.erodata, MapType::Identical, MAP_R)
                &&& ms.segments()[2].covers(layout.sdata, layout.edata, MapType::Identical, MAP_R | MAP_W)
                &&& ms.segments()[3].covers(layout.sbss_with_stack, layout.ebss, MapType::Identical, MAP_R | MAP_W)
                &&& ms.segments()[4].covers(layout.ekernel, layout.memory_end, MapType::Identical, MAP_R | MAP_W)
                &&& forall|j: int| 0 <= j < mmio@.len() ==> #[trigger] ms.segments()[5 + j].covers(
                    mmio@[j].0,
                    (mmio@[j].0 + mmio@[j].1) as u64,
                    MapType::Identical,
                    MAP_R | MAP_W,
                )
            },
    {
        let ghost good = kernel_layout_ok(*layout, mmio@, old(alloc).available() as int);
        let ranges = match kernel_ranges(layout, mmio) {
            None => return None,
            Some(r) => r,
        };
        proof {
            lemma_range_budget_nonneg(ranges@, 0);
        }
        let ms0 = MemorySet::new_bare(alloc);
        let mut ms = match ms0 {
            None => return None,
            Some(m) => m,
        };
        if !ms.map_trampoline(strampoline, alloc) {
            return None;
        }
        let ghost a0 = *old(alloc);
        let mut i: usize = 0;
        while i < ranges.len()
            invariant
                ms.wf(alloc),
                alloc.wf(),
                a0 == *old(alloc),
                a0.issued().subset_of(alloc.issued()),
                ms.table().walk(TRAMPOLINE_VPN) == Some(
                    PageTableEntry { bits: pte_bits(strampoline.0, PTE_R | PTE_X | PTE_V) },
                ),
                i <= ranges@.len(),
                ranges@.len() == 5 + mmio@.len(),
                ranges@[0] == (layout.stext, layout.etext, MAP_R | MAP_X),
                ranges@[1] == (layout.srodata, layout.erodata, MAP_R),
                ranges@[2] == (layout.sdata, layout.edata, MAP_R | MAP_W),
                ranges@[3] == (layout.sbss_with_stack, layout.ebss, MAP_R | MAP_W),
                ranges@[4] == (layout.ekernel, layout.memory_end, MAP_R | MAP_W),
                forall|m: int| 0 <= m < mmio@.len() ==> #[trigger] ranges@[5 + m] == (mmio@[m].0, (mmio@[m].0 + mmio@[m].1) as u64, MAP_R | MAP_W),
                ms.segments().len() == i,
                good == kernel_layout_ok(*layout, mmio@, a0.available() as int),
                good ==> ranges@ == kernel_range_seq(*layout, mmio@),
                good ==> alloc.available() >= range_frames_from(ranges@, i as int),
                good ==> ms.table().node_count() + range_nodes_from(ranges@, i as int) <= MAX_NODES,
                forall|m: int| 0 <= m < i ==> #[trigger] ms.segments()[m].covers(
                    ranges@[m].0,
                    ranges@[m].1,
                    MapType::Identical,
                    ranges@[m].2,
                ),
            decreases ranges.len() - i,
        {
            let (start, end, perm) = ranges[i];
            let ghost before = ms.segments();
            proof {
                lemma_range_budget_nonneg(ranges@, i as int + 1);
                if good {
                    assert forall|m: int| 0 <= m < ms.segments().len() implies !(#[trigger] ms.segments()[m]).overlaps_pages(
                        (start / 4096) as int,
                        ceil_div(end as int, 4096),
                    ) by {
                        assert(ms.segments()[m].covers(ranges@[m].0, ranges@[m].1, MapType::Identical, ranges@[m].2));
                        assert(!ranges_overlap(ranges@[m], ranges@[i as int]));
                    }
                }
            }
            if !ms.push_identical(start, end, perm, alloc) {
                return None;
            }
            proof {
                assert forall|m: int| 0 <= m < i + 1 implies #[trigger] ms.segments()[m].covers(
                    ranges@[m].0,
                    ranges@[m].1,
                    MapType::Identical,
                    ranges@[m].2,
                ) by {
                    if m < i {
                        assert(ms.segments()[m] == before[m]);
                    }
                }
            }
            i = i + 1;
        }
        proof {
            assert(ms.segments()[0].covers(ranges@[0].0, ranges@[0].1, MapType::Identical, ranges@[0].2));
            assert(ms.segments()[1].covers(ranges@[1].0, ranges@[1].1, MapType::Identical, ranges@[1].2));
            assert(ms.segments()[2].covers(ranges@[2].0, ranges@[2].1, MapType::Identical, ranges@[2].2));
            assert(ms.segments()[3].covers(ranges@[3].0, ranges@[3].1, MapType::Identical, ranges@[3].2));
            assert(ms.segments()[4].covers(ranges@[4].0, ranges@[4].1, MapType::Identical, ranges@[4].2));
            assert forall|j: int| 0 <= j < mmio@.len() implies #[trigger] ms.segments()[5 + j].covers(
                mmio@[j].0,
                (mmio@[j].0 + mmio@[j].1) as u64,
                MapType::Identical,
                MAP_R | MAP_W,
            ) by {
                assert(ranges@[5 + j] == (mmio@[j].0, (mmio@[j].0 + mmio@[j].1) as u64, MAP_R | MAP_W));
                assert(ms.segments()[5 + j].covers(ranges@[5 + j].0, ranges@[5 + j].1, MapType::Identical, ranges@[5 + j].2));
            }
        }
        Some(ms)
    }
}

/// No two segments of a well-formed address space share a page.
pub proof fn lemma_segments_disjoint(ms: MemorySet, a: StackFrameAllocator, i: int, j: int, v: u64)
    requires
        ms.wf(&a),
        0 <= i < ms.segments().len(),
        0 <= j < ms.segments().len(),
        i != j,
        ms.segments()[i].contains(v),
    ensures
        !ms.segments()[j].contains(v),
{
    assert(!ms.segments()[i].overlaps(&ms.segments()[j]));
}

/// A copy made for a fork shares no frame with the original: every frame of
/// the copy was not issued when the copy began, and every frame of the
/// original was, so a write to a frame of one leaves the other unchanged.
pub proof fn lemma_fork_isolation(
    parent: MemorySet,
    child: MemorySet,
    a0: StackFrameAllocator,
    i: int,
    k: int,
    j: int,
    l: int,
)
    requires
        parent.wf(&a0),
        child.segments().len() == parent.segments().len(),
        forall|m: int| 0 <= m < child.segments().len() ==> (#[trigger] child.segments()[m]).copies(&parent.segments()[m], &a0),
        0 <= i < child.segments().len(),
        0 <= k < child.segments()[i].frame_count(),
        0 <= j < parent.segments().len(),
        0 <= l < parent.segments()[j].frame_count(),
    ensures
        child.segments()[i].frame_ppn(k) != parent.segments()[j].frame_ppn(l),
{
    assert(child.segments()[i].copies(&parent.segments()[i], &a0));
    assert(a0.issued().contains(parent.segments()[j].frame_ppn(l)));
}

impl MemorySet {
    /// Whether some framed segment holds page `v`.
    pub open spec fn framed_covers(&self, v: u64) -> bool {
        exists|i: int| 0 <= i < self.segments().len() && (#[trigger] self.segments()[i]).contains(v)
            && self.segments()[i].kind() == MapType::Framed
    }

    /// The byte at user address `va`, when a framed segment holds its page.
    pub open spec fn user_byte(&self, va: u64) -> Option<u8> {
        let v = va / 4096;
        if self.framed_covers(v) {
            let i = choose|i: int| 0 <= i < self.segments().len() && (#[trigger] self.segments()[i]).contains(v)
                && self.segments()[i].kind() == MapType::Framed;
            Some(self.segments()[i].frame_bytes(v - self.segments()[i].start() as int)[(va % 4096) as int])
        } else {
            None
        }
    }

    proof fn lemma_user_slot(&self, a: &StackFrameAllocator, i: int, va: u64)
        requires
            self.wf(a),
            0 <= i < self.segments().len(),
            self.segments()[i].contains(va / 4096),
            self.segments()[i].kind() == MapType::Framed,
        ensures
            self.user_byte(va) == Some(self.segments()[i].frame_bytes((va / 4096) as int - self.segments()[i].start() as int)[(va % 4096) as int]),
    {
        let v = va / 4096;
        let j = choose|j: int| 0 <= j < self.segments().len() && (#[trigger] self.segments()[j]).contains(v)
            && self.segments()[j].kind() == MapType::Framed;
        if j != i {
            assert(!self.segments()[i].overlaps(&self.segments()[j]));
        }
    }

    /// Slot of the framed segment that holds page `v`.
    fn find_framed(&self, v: u64) -> (r: Option<usize>)
        ensures
            r.is_none() <==> !self.framed_covers(v),
            r.is_some() ==> r.unwrap() < self.segments().len() && self.segments()[r.unwrap() as int].contains(v)
                && self.segments()[r.unwrap() as int].kind() == MapType::Framed,
    {
        let mut i: usize = 0;
        while i < self.areas.len()
            invariant
                forall|j: int| 0 <= j < i ==> !((#[trigger] self.segments()[j]).contains(v) && self.segments()[j].kind() == MapType::Framed),
            decreases self.areas.len() - i,
        {
            let a = &self.areas[i];
            let framed = match a.map_type {
                MapType::Framed => true,
                MapType::Identical => false,
            };
            if framed && a.vpn_range.get_start().0 <= v && v < a.vpn_range.get_end().0 {
                return Some(i);
            }
            i = i + 1;
        }
        None
    }

    /// The byte at user address `va`, or `None` when no framed segment holds it.
    pub fn read_user_byte(&self, va: u64, alloc: &StackFrameAllocator) -> (r: Option<u8>)
        requires
            self.wf(alloc),
        ensures
            r == self.user_byte(va),
    {
        let v = va / 4096;
        match self.find_framed(v) {
            None => None,
            Some(i) => {
                let a = &self.areas[i];
                let k = (v - a.vpn_range.get_start().0) as usize;
                proof {
                    self.lemma_user_slot(alloc, i as int, va);
                    assert(a.wf());
                }
                Some(a.data_frames[k].read_byte((va % 4096) as usize))
            },
        }
    }

    /// Sets the byte at user address `va` to `b`; `false`, changing nothing,
    /// when no framed segment holds it.
    pub fn write_user_byte(&mut self, va: u64, b: u8, alloc: &StackFrameAllocator) -> (r: bool)
        requires
            old(self).wf(alloc),
        ensures
            final(self).wf(alloc),
            r == old(self).user_byte(va).is_some(),
            !r ==> *final(self) == *old(self),
            r ==> final(self).user_byte(va) == Some(b),
            forall|w: u64| w != va ==> #[trigger] final(self).user_byte(w) == old(self).user_byte(w),
            final(self).segments().len() == old(self).segments().len(),
            final(self).table() == old(self).table(),
    {
        let ghost pre = *self;
        let v = va / 4096;
        match self.find_framed(v) {
            None => false,
            Some(i) => {
                let mut a = self.areas.remove(i);
                let ghost a0 = a;
                let k = (v - a.vpn_range.get_start().0) as usize;
                let mut f = a.data_frames.remove(k);
                let ghost f0 = f;
                f.write_byte((va % 4096) as usize, b);
                a.data_frames.insert(k, f);
                self.areas.insert(i, a);
                proof {
                    assert(self.segments() =~= pre.segments().update(i as int, a));
                    assert(a.data_frames@ =~= a0.data_frames@.update(k as int, f));
                    assert forall|m: int| 0 <= m < pre.segments().len() implies (#[trigger] self.segments()[m]).same_frames(&pre.segments()[m]) by {
                        if m == i {
                            assert forall|q: int| 0 <= q < a.frame_count() implies #[trigger] a.frame_ppn(q) == a0.frame_ppn(q) by {}
                            assert forall|q: int| 0 <= q < a.frame_count() implies (#[trigger] a.frame_bytes(q)).len() == a0.frame_bytes(q).len() by {}
                        }
                    }
                    self.lemma_same_mapping(pre, alloc);
                    pre.lemma_user_slot(alloc, i as int, va);
                    self.lemma_user_slot(alloc, i as int, va);
                    assert forall|w: u64| w != va implies #[trigger] self.user_byte(w) == pre.user_byte(w) by {
                        let wv = w / 4096;
                        if pre.framed_covers(wv) {
                            let j = choose|j: int| 0 <= j < pre.segments().len() && (#[trigger] pre.segments()[j]).contains(wv)
                                && pre.segments()[j].kind() == MapType::Framed;
                            pre.lemma_user_slot(alloc, j, w);
                            assert(self.segments()[j].same_frames(&pre.segments()[j]));
                            self.lemma_user_slot(alloc, j, w);
                            if j == i && wv == v {
                                assert(w % 4096 != va % 4096);
                            }
                        } else {
                            if self.framed_covers(wv) {
                                let j = choose|j: int| 0 <= j < self.segments().len() && (#[trigger] self.segments()[j]).contains(wv)
                                    && self.segments()[j].kind() == MapType::Framed;
                                assert(self.segments()[j].same_frames(&pre.segments()[j]));
                            }
                        }
                    }
                }
                true
            },
        }
    }
}

/// The `len` bytes at user address `ptr` of `space`, page by page, or `None`
/// when one of them is not in a framed segment.
pub fn translated_byte_buffer(space: &MemorySet, ptr: u64, len: u64, alloc: &StackFrameAllocator) -> (r: Option<Vec<u8>>)
    requires
        space.wf(alloc),
        ptr + len <= u64::MAX,
    ensures
        r.is_some() <==> forall|j: int| 0 <= j < len ==> (#[trigger] space.user_byte((ptr + j) as u64)).is_some(),
        r.is_some() ==> r.unwrap()@.len() == len
            && forall|j: int| 0 <= j < len ==> Some(#[trigger] r.unwrap()@[j]) == space.user_byte((ptr + j) as u64),
{
    let mut out: Vec<u8> = Vec::new();
    let mut j: u64 = 0;
    while j < len
        invariant
            space.wf(alloc),
            ptr + len <= u64::MAX,
            j <= len,
            out@.len() == j,
            forall|m: int| 0 <= m < j ==> Some(#[trigger] out@[m]) == space.user_byte((ptr + m) as u64),
        decreases len - j,
    {
        match space.read_user_byte(ptr + j, alloc) {
            None => {
                return None;
            },
            Some(b) => out.push(b),
        }
        j = j + 1;
    }
    assert forall|m: int| 0 <= m < len implies (#[trigger] space.user_byte((ptr + m) as u64)).is_some() by {
        assert(Some(out@[m]) == space.user_byte((ptr + m) as u64));
    }
    Some(out)
}

/// Whether the bytes at `ptr` of `space` form a string of `n` non-zero
/// mapped bytes followed by a mapped zero.
pub open spec fn str_ends_at(space: MemorySet, ptr: u64, n: int) -> bool {
    &&& forall|j: int| 0 <= j < n ==> (#[trigger] space.user_byte((ptr + j) as u64)).is_some()
        && space.user_byte((ptr + j) as u64) != Some(0u8)
    &&& space.user_byte((ptr + n) as u64) == Some(0u8)
}

/// The bytes of the zero-terminated string at user address `ptr` of
/// `space`, without the terminator, read at most `max` bytes far; `None`
/// when a byte is not in a framed segment or no terminator comes first.
pub fn translated_str(space: &MemorySet, ptr: u64, max: u64, alloc: &StackFrameAllocator) -> (r: Option<Vec<u8>>)
    requires
        space.wf(alloc),
        ptr + max <= u64::MAX,
    ensures
        r.is_some() <==> exists|n: int| 0 <= n < max && #[trigger] str_ends_at(*space, ptr, n),
        r.is_some() ==> {
            let s = r.unwrap()@;
            &&& s.len() < max
            &&& forall|j: int| 0 <= j < s.len() ==> Some(#[trigger] s[j]) == space.user_byte((ptr + j) as u64) && s[j] != 0
            &&& space.user_byte((ptr + s.len()) as u64) == Some(0u8)
        },
{
    let mut out: Vec<u8> = Vec::new();
    let mut j: u64 = 0;
    while j < max
        invariant
            space.wf(alloc),
            ptr + max <= u64::MAX,
            j <= max,
            out@.len() == j,
            forall|m: int| 0 <= m < j ==> Some(#[trigger] out@[m]) == space.user_byte((ptr + m) as u64) && out@[m] != 0,
        decreases max - j,
    {
        match space.read_user_byte(ptr + j, alloc) {
            None => {
                proof {
                    if exists|n: int| 0 <= n < max && #[trigger] str_ends_at(*space, ptr, n) {
                        let n = choose|n: int| 0 <= n < max && #[trigger] str_ends_at(*space, ptr, n);
                        if n > j {
                            assert(space.user_byte((ptr + j) as u64).is_some());
                        } else if n < j {
                            assert(Some(out@[n]) == space.user_byte((ptr + n) as u64));
                        }
                    }
                }
                return None;
            },
            Some(b) => {
                if b == 0 {
                    proof {
                        assert(str_ends_at(*space, ptr, j as int)) by {
                            assert forall|m: int| 0 <= m < j implies (#[trigger] space.user_byte((ptr + m) as u64)).is_some()
                                && space.user_byte((ptr + m) as u64) != Some(0u8) by {
                                assert(Some(out@[m]) == space.user_byte((ptr + m) as u64));
                            }
                        }
                    }
                    return Some(out);
                }
                out.push(b);
            },
        }
        j = j + 1;
    }
    proof {
        if exists|n: int| 0 <= n < max && #[trigger] str_ends_at(*space, ptr, n) {
            let n = choose|n: int| 0 <= n < max && #[trigger] str_ends_at(*space, ptr, n);
            assert(Some(out@[n]) == space.user_byte((ptr + n) as u64));
        }
    }
    None
}

/// Writes `bytes` at user address `ptr` of `space`; `false` when one of
/// them is not in a framed segment (the bytes before it are written).
pub fn write_user_bytes(space: &mut MemorySet, ptr: u64, bytes: &[u8], alloc: &StackFrameAllocator) -> (r: bool)
    requires
        old(space).wf(alloc),
        ptr + bytes@.len() <= u64::MAX,
    ensures
        final(space).wf(alloc),
        final(space).segments().len() == old(space).segments().len(),
        r ==> forall|j: int| 0 <= j < bytes@.len() ==> #[trigger] final(space).user_byte((ptr + j) as u64) == Some(bytes@[j]),
        r <== forall|j: int| 0 <= j < bytes@.len() ==> (#[trigger] old(space).user_byte((ptr + j) as u64)).is_some(),
        r ==> forall|w: u64| (w < ptr || w >= ptr + bytes@.len()) ==> #[trigger] final(space).user_byte(w) == old(space).user_byte(w),
{
    let n = bytes.len();
    let mut j: usize = 0;
    while j < n
        invariant
            space.wf(alloc),
            n == bytes@.len(),
            ptr + n <= u64::MAX,
            j <= n,
            space.segments().len() == old(space).segments().len(),
            forall|m: int| 0 <= m < j ==> #[trigger] space.user_byte((ptr + m) as u64) == Some(bytes@[m]),
            forall|w: u64| (w < ptr || w >= ptr + j) ==> #[trigger] space.user_byte(w) == old(space).user_byte(w),
        decreases n - j,
    {
        let ghost before = *space;
        let ok = space.write_user_byte(ptr + j as u64, bytes[j], alloc);
        if !ok {
            return false;
        }
        proof {
            assert forall|m: int| 0 <= m < j + 1 implies #[trigger] space.user_byte((ptr + m) as u64) == Some(bytes@[m]) by {
                if m < j {
                    assert(before.user_byte((ptr + m) as u64) == Some(bytes@[m]));
                }
            }
        }
        j = j + 1;
    }
    true
}

} // verus!