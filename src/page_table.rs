//! SV39 page-table entries and three-level page tables.
use vstd::prelude::*;
use crate::address::{
    vpn_indexes, PhysAddr, PhysPageNum, VirtAddr, VirtPageNum, PPN_LIMIT, VPN_LIMIT,
};
use crate::frame_allocator::StackFrameAllocator;

verus! {

/// Valid.
pub const PTE_V: u8 = 1;
/// Readable.
pub const PTE_R: u8 = 2;
/// Writable.
pub const PTE_W: u8 = 4;
/// Executable.
pub const PTE_X: u8 = 8;
/// Accessible from user mode.
pub const PTE_U: u8 = 16;
/// Global.
pub const PTE_G: u8 = 32;
/// Accessed.
pub const PTE_A: u8 = 64;
/// Dirty.
pub const PTE_D: u8 = 128;

/// Most nodes an SV39 table can need: one root, 512 middle nodes and 512 * 512 last-level nodes.
pub const MAX_NODES: usize = 262657;

/// Number of entries in one page-table node.
pub const PTES_PER_NODE: usize = 512;

/// The physical page number stored in an entry.
pub open spec fn pte_ppn(bits: u64) -> u64 {
    ((bits / 1024) % 0x1000_0000_0000) as u64
}

/// The flag byte of an entry.
pub open spec fn pte_flags(bits: u64) -> u8 {
    (bits % 256) as u8
}

/// Whether the V flag of an entry is set.
pub open spec fn pte_valid(bits: u64) -> bool {
    bits % 2 == 1
}

/// The bits of the entry that points at `ppn` with `flags`.
pub open spec fn pte_bits(ppn: u64, flags: u8) -> u64 {
    (ppn * 1024 + flags) as u64
}

/// The fields of an entry built from a page number and flags read back as given.
pub proof fn lemma_pte_fields(ppn: u64, flags: u8)
    requires
        ppn < PPN_LIMIT,
    ensures
        pte_ppn(pte_bits(ppn, flags)) == ppn,
        pte_flags(pte_bits(ppn, flags)) == flags,
        pte_valid(pte_bits(ppn, flags)) == (flags % 2 == 1),
{
    assert(pte_ppn(pte_bits(ppn, flags)) == ppn) by (nonlinear_arith)
        requires ppn < 0x1000_0000_0000, flags < 256;
    assert(pte_flags(pte_bits(ppn, flags)) == flags) by (nonlinear_arith)
        requires ppn < 0x1000_0000_0000, flags < 256;
    assert(pte_valid(pte_bits(ppn, flags)) == (flags % 2 == 1)) by (nonlinear_arith)
        requires ppn < 0x1000_0000_0000, flags < 256;
}

/// Flags with V added are valid.
pub proof fn lemma_with_valid(flags: u8)
    ensures
        (flags | PTE_V) % 2 == 1,
{
    assert((flags | 1u8) % 2 == 1) by (bit_vector);
}

/// Page numbers below `VPN_LIMIT` with the same three indices are equal.
pub proof fn lemma_indexes_injective(a: u64, b: u64)
    requires
        a < VPN_LIMIT,
        b < VPN_LIMIT,
    ensures
        vpn_indexes(a) == vpn_indexes(b) ==> a == b,
{
    let x = a as int;
    let y = b as int;
    assert(x == ((x / 0x40000) % 512) * 0x40000 + ((x / 512) % 512) * 512 + x % 512) by (nonlinear_arith)
        requires 0 <= x < 0x800_0000;
    assert(y == ((y / 0x40000) % 512) * 0x40000 + ((y / 512) % 512) * 512 + y % 512) by (nonlinear_arith)
        requires 0 <= y < 0x800_0000;
}

/// A 64-bit SV39 page-table entry: `[reserved | PPN:44 | RSW:2 | D A G U X W R V]`.
#[derive(Clone, Copy, Debug, PartialEq, Eq, Structural)]
pub struct PageTableEntry {
    pub bits: u64,
}

impl PageTableEntry {
    /// Whether the V flag is set.
    pub open spec fn valid(&self) -> bool {
        pte_valid(self.bits)
    }

    /// An entry pointing at `ppn` with `flags`.
    pub fn new(ppn: PhysPageNum, flags: u8) -> (r: PageTableEntry)
        requires
            ppn.0 < PPN_LIMIT,
        ensures
            r.bits == pte_bits(ppn.0, flags),
            pte_ppn(r.bits) == ppn.0,
            pte_flags(r.bits) == flags,
            r.valid() == (flags % 2 == 1),
    {
        let p = ppn.0;
        let f = flags as u64;
        assert((p << 10u64) | f == p * 1024 + f) by (bit_vector)
            requires p < 0x1000_0000_0000, f < 256;
        proof {
            lemma_pte_fields(p, flags);
        }
        PageTableEntry { bits: (p << 10u64) | f }
    }

    /// The invalid all-zero entry.
    pub fn empty() -> (r: PageTableEntry)
        ensures
            r.bits == 0,
            !r.valid(),
    {
        PageTableEntry { bits: 0 }
    }

    /// The physical page number the entry points at.
    pub fn ppn(&self) -> (r: PhysPageNum)
        ensures
            r.0 == pte_ppn(self.bits),
            r.0 < PPN_LIMIT,
    {
        let b = self.bits;
        assert((b >> 10u64) & 0xfff_ffff_ffff == (b / 1024) % 0x1000_0000_0000) by (bit_vector);
        PhysPageNum((b >> 10u64) & 0xfff_ffff_ffff)
    }

    /// The flag byte.
    pub fn flags(&self) -> (r: u8)
        ensures
            r == pte_flags(self.bits),
    {
        let b = self.bits;
        assert(b & 0xff == b % 256) by (bit_vector);
        (b & 0xff) as u8
    }

    /// Whether the V flag is set.
    pub fn is_valid(&self) -> (r: bool)
        ensures
            r == self.valid(),
    {
        let b = self.bits;
        assert((b & 1 == 1) == (b % 2 == 1)) by (bit_vector);
        b & 1 == 1
    }

    /// Whether the R flag is set.
    pub fn readable(&self) -> (r: bool)
        ensures
            r == ((self.bits / 2) % 2 == 1),
    {
        let b = self.bits;
        assert((b & 2 == 2) == ((b / 2) % 2 == 1)) by (bit_vector);
        b & 2 == 2
    }

    /// Whether the W flag is set.
    pub fn writable(&self) -> (r: bool)
        ensures
            r == ((self.bits / 4) % 2 == 1),
    {
        let b = self.bits;
        assert((b & 4 == 4) == ((b / 4) % 2 == 1)) by (bit_vector);
        b & 4 == 4
    }

    /// Whether the X flag is set.
    pub fn executable(&self) -> (r: bool)
        ensures
            r == ((self.bits / 8) % 2 == 1),
    {
        let b = self.bits;
        assert((b & 8 == 8) == ((b / 8) % 2 == 1)) by (bit_vector);
        b & 8 == 8
    }
}

/// A three-level SV39 page table. Node `i` lives in frame `frames[i]` and
/// holds the entries `entries[512 * i .. 512 * i + 512]`; node 0 is the root.
pub struct PageTable {
    root_ppn: PhysPageNum,
    frames: Vec<u64>,
    entries: Vec<PageTableEntry>,
    levels: Ghost<Seq<nat>>,
    prefixes: Ghost<Seq<nat>>,
}

impl PageTable {
    /// Number of nodes.
    pub closed spec fn node_count(&self) -> int {
        self.frames@.len() as int
    }

    /// Frame of node `i`.
    pub closed spec fn frame(&self, i: int) -> u64 {
        self.frames@[i]
    }

    /// Depth of node `i`: 0 for the root, 2 for the nodes that hold leaves.
    pub closed spec fn level(&self, i: int) -> nat {
        self.levels@[i]
    }

    /// The page-table indices that lead from the root to node `i`, read as
    /// one base-512 number.
    pub closed spec fn prefix(&self, i: int) -> nat {
        self.prefixes@[i]
    }

    /// Entry `k` of node `i`.
    pub closed spec fn entry(&self, i: int, k: int) -> PageTableEntry {
        self.entries@[512 * i + k]
    }

    /// The frames that hold the nodes of this table.
    pub open spec fn frame_set(&self) -> Set<u64> {
        Set::new(|p: u64| exists|i: int| 0 <= i < self.node_count() && self.frame(i) == p)
    }

    /// Root frame.
    pub closed spec fn root(&self) -> u64 {
        self.root_ppn.0
    }

    /// Whether a valid entry of node `i` at `k` leads to a node one level deeper.
    pub open spec fn child_present(&self, i: int, k: int) -> bool {
        exists|j: int|
            0 <= j < self.node_count() && self.frame(j) == pte_ppn(self.entry(i, k).bits)
                && self.level(j) == self.level(i) + 1 && self.prefix(j) == self.prefix(i) * 512 + k
    }

    /// The table's invariant: one root at level 0, distinct node frames, and
    /// every valid entry above the last level leads to a node one level deeper.
    pub open spec fn wf(&self) -> bool {
        &&& self.node_count() >= 1
        &&& self.frame(0) == self.root()
        &&& self.level(0) == 0
        &&& self.prefix(0) == 0
        &&& self.root() < PPN_LIMIT
        &&& self.wf_storage()
        &&& self.node_count() <= MAX_NODES
        &&& forall|i: int| 0 <= i < self.node_count() ==> self.level(i) <= 2
        &&& forall|i: int, j: int|
            0 <= i < self.node_count() && 0 <= j < self.node_count() && i != j ==> self.frame(i)
                != self.frame(j)
        &&& forall|i: int, k: int|
            0 <= i < self.node_count() && 0 <= k < 512 && self.level(i) < 2 && #[trigger] self.entry(
                i,
                k,
            ).valid() ==> self.child_present(i, k) && pte_flags(self.entry(i, k).bits) == PTE_V
    }

    /// The storage holds 512 entries and a level per node.
    pub closed spec fn wf_storage(&self) -> bool {
        &&& self.entries@.len() == 512 * self.frames@.len()
        &&& self.levels@.len() == self.frames@.len()
        &&& self.prefixes@.len() == self.frames@.len()
        &&& self.frames@.len() <= MAX_NODES
    }

    /// The node held in frame `ppn`, or -1.
    pub open spec fn node_of(&self, ppn: u64) -> int {
        if exists|j: int| 0 <= j < self.node_count() && self.frame(j) == ppn {
            choose|j: int| 0 <= j < self.node_count() && self.frame(j) == ppn
        } else {
            -1
        }
    }

    /// The leaf entry that maps `vpn`, if the walk reaches a valid one.
    pub open spec fn walk(&self, vpn: u64) -> Option<PageTableEntry> {
        let idx = vpn_indexes(vpn);
        let e0 = self.entry(0, idx.0 as int);
        if !e0.valid() {
            None
        } else {
            let n1 = self.node_of(pte_ppn(e0.bits));
            if n1 < 0 {
                None
            } else {
                let e1 = self.entry(n1, idx.1 as int);
                if !e1.valid() {
                    None
                } else {
                    let n2 = self.node_of(pte_ppn(e1.bits));
                    if n2 < 0 {
                        None
                    } else {
                        let e2 = self.entry(n2, idx.2 as int);
                        if e2.valid() {
                            Some(e2)
                        } else {
                            None
                        }
                    }
                }
            }
        }
    }

    /// Number of nodes that mapping `vpn` must still create.
    pub open spec fn missing_nodes(&self, vpn: u64) -> nat {
        let idx = vpn_indexes(vpn);
        let e0 = self.entry(0, idx.0 as int);
        if !e0.valid() {
            2
        } else if !self.entry(self.node_of(pte_ppn(e0.bits)), idx.1 as int).valid() {
            1
        } else {
            0
        }
    }

    /// Every node frame is issued by `a`.
    pub open spec fn frames_issued_by(&self, a: &StackFrameAllocator) -> bool {
        forall|i: int| 0 <= i < self.node_count() ==> a.issued().contains(#[trigger] self.frame(i))
    }

    proof fn lemma_node_of(&self, i: int)
        requires
            self.wf(),
            0 <= i < self.node_count(),
        ensures
            self.node_of(self.frame(i)) == i,
    {
        let j = choose|j: int| 0 <= j < self.node_count() && self.frame(j) == self.frame(i);
        assert(self.frame(j) == self.frame(i));
    }

    proof fn lemma_child(&self, i: int, k: int) -> (j: int)
        requires
            self.wf(),
            0 <= i < self.node_count(),
            0 <= k < 512,
            self.level(i) < 2,
            self.entry(i, k).valid(),
        ensures
            0 <= j < self.node_count(),
            j == self.node_of(pte_ppn(self.entry(i, k).bits)),
            self.level(j) == self.level(i) + 1,
            self.prefix(j) == self.prefix(i) * 512 + k,
    {
        assert(self.child_present(i, k));
        let j = choose|j: int|
            0 <= j < self.node_count() && self.frame(j) == pte_ppn(self.entry(i, k).bits)
                && self.level(j) == self.level(i) + 1 && self.prefix(j) == self.prefix(i) * 512 + k;
        self.lemma_node_of(j);
        j
    }

    /// Index of the node held in frame `ppn`.
    fn find_node(&self, ppn: u64) -> (r: usize)
        requires
            self.wf(),
            exists|j: int| 0 <= j < self.node_count() && self.frame(j) == ppn,
        ensures
            r < self.node_count(),
            self.frame(r as int) == ppn,
            r == self.node_of(ppn),
    {
        let mut i: usize = 0;
        while i < self.frames.len()
            invariant
                self.wf(),
                exists|j: int| i <= j < self.node_count() && self.frame(j) == ppn,
            decreases self.frames.len() - i,
        {
            if self.frames[i] == ppn {
                proof {
                    self.lemma_node_of(i as int);
                }
                return i;
            }
            i = i + 1;
        }
        proof {
            let j = choose|j: int| i <= j < self.node_count() && self.frame(j) == ppn;
        }
        0
    }

    /// A table with an empty root node, or `None` when no frame is left.
    pub fn new(alloc: &mut StackFrameAllocator) -> (r: Option<PageTable>)
        requires
            old(alloc).wf(),
        ensures
            final(alloc).wf(),
            r.is_none() ==> StackFrameAllocator::alloc_outcome(*old(alloc), *final(alloc), None),
            r.is_some() ==> StackFrameAllocator::alloc_outcome(
                *old(alloc),
                *final(alloc),
                Some(PhysPageNum(r.unwrap().root())),
            ),
            r.is_none() <==> old(alloc).available() == 0,
            r.is_some() ==> {
                let t = r.unwrap();
                &&& t.wf()
                &&& t.node_count() == 1
                &&& t.frames_issued_by(final(alloc))
                &&& forall|v: u64| #[trigger] t.walk(v).is_none()
            },
    {
        let f = alloc.allocate();
        match f {
            None => None,
            Some(ppn) => {
                let mut frames: Vec<u64> = Vec::new();
                frames.push(ppn.0);
                let mut entries: Vec<PageTableEntry> = Vec::new();
                push_empty_node(&mut entries);
                let levels: Ghost<Seq<nat>> = Ghost(Seq::empty().push(0nat));
                let prefixes: Ghost<Seq<nat>> = Ghost(Seq::empty().push(0nat));
                let t = PageTable { root_ppn: ppn, frames, entries, levels, prefixes };
                assert forall|v: u64| #[trigger] t.walk(v).is_none() by {
                    assert(!t.entry(0, vpn_indexes(v).0 as int).valid());
                }
                assert(t.frames_issued_by(alloc));
                Some(t)
            },
        }
    }

    /// Node index and entry index of the leaf slot of `vpn`, if the walk
    /// reaches the last level.
    fn find_leaf(&self, vpn: VirtPageNum) -> (r: Option<(usize, usize)>)
        requires
            self.wf(),
        ensures
            r.is_some() ==> {
                let (n2, k) = r.unwrap();
                &&& n2 < self.node_count()
                &&& k == vpn_indexes(vpn.0).2
                &&& self.level(n2 as int) == 2
                &&& self.walk(vpn.0) == (if self.entry(n2 as int, k as int).valid() {
                    Some(self.entry(n2 as int, k as int))
                } else {
                    None
                })
            },
            r.is_none() ==> self.walk(vpn.0).is_none(),
    {
        let idx = vpn.indexes();
        let e0 = self.entries[idx[0]];
        if !e0.is_valid() {
            return None;
        }
        proof {
            let _ = self.lemma_child(0, idx[0] as int);
        }
        let n1 = self.find_node(e0.ppn().0);
        let e1 = self.entries[512 * n1 + idx[1]];
        assert(e1 == self.entry(n1 as int, idx[1] as int));
        if !e1.is_valid() {
            return None;
        }
        proof {
            let _ = self.lemma_child(n1 as int, idx[1] as int);
        }
        let n2 = self.find_node(e1.ppn().0);
        Some((n2, idx[2]))
    }

    /// The leaf entry that maps `vpn`, or `None` when any node on the way or
    /// the leaf itself is invalid.
    pub fn translate(&self, vpn: VirtPageNum) -> (r: Option<PageTableEntry>)
        requires
            self.wf(),
        ensures
            r == self.walk(vpn.0),
    {
        match self.find_leaf(vpn) {
            None => None,
            Some((n2, k)) => {
                let e = self.entries[512 * n2 + k];
                assert(e == self.entry(n2 as int, k as int));
                if e.is_valid() {
                    Some(e)
                } else {
                    None
                }
            },
        }
    }

    /// The physical address that `va` maps to, keeping its page offset.
    pub fn translate_va(&self, va: VirtAddr) -> (r: Option<PhysAddr>)
        requires
            self.wf(),
        ensures
            self.walk(va.0 / 4096).is_none() ==> r.is_none(),
            self.walk(va.0 / 4096).is_some() ==> r == Some(
                PhysAddr(
                    (pte_ppn(self.walk(va.0 / 4096).unwrap().bits) * 4096 + va.0 % 4096) as u64,
                ),
            ),
    {
        match self.translate(va.floor()) {
            None => None,
            Some(e) => {
                let base = e.ppn().addr();
                Some(PhysAddr(base.0 + va.page_offset()))
            },
        }
    }

    /// The SATP value that selects this table under SV39: `(8 << 60) | root_ppn`.
    pub fn token(&self) -> (r: u64)
        requires
            self.wf(),
        ensures
            r == 0x8000_0000_0000_0000u64 + self.root(),
    {
        let p = self.root_ppn.0;
        assert((8u64 << 60u64) | p == 0x8000_0000_0000_0000u64 + p) by (bit_vector)
            requires p < 0x1000_0000_0000;
        (8u64 << 60u64) | p
    }

    /// Maps `vpn` to `ppn` with `flags` plus V, creating the missing nodes
    /// with frames from `alloc`. Returns `false`, changing nothing, when the
    /// frames needed for the missing nodes cannot be had. No other page
    /// changes its translation.
    pub fn map(
        &mut self,
        vpn: VirtPageNum,
        ppn: PhysPageNum,
        flags: u8,
        alloc: &mut StackFrameAllocator,
    ) -> (r: bool)
        requires
            old(self).wf(),
            old(alloc).wf(),
            old(self).frames_issued_by(old(alloc)),
            vpn.0 < VPN_LIMIT,
            ppn.0 < PPN_LIMIT,
            old(self).walk(vpn.0).is_none(),
        ensures
            final(self).wf(),
            final(alloc).wf(),
            final(self).frames_issued_by(final(alloc)),
            final(self).root() == old(self).root(),
            final(alloc).limit() == old(alloc).limit(),
            old(alloc).issued().subset_of(final(alloc).issued()),
            r == (old(self).missing_nodes(vpn.0) <= old(alloc).available()
                && old(self).node_count() + old(self).missing_nodes(vpn.0) <= MAX_NODES),
            !r ==> *final(self) == *old(self) && *final(alloc) == *old(alloc),
            r ==> final(alloc).available() + old(self).missing_nodes(vpn.0) == old(alloc).available(),
            r ==> final(self).node_count() == old(self).node_count() + old(self).missing_nodes(vpn.0),
            forall|i: int| 0 <= i < old(self).node_count() ==> #[trigger] final(self).frame(i) == old(self).frame(i),
            forall|i: int|
                old(self).node_count() <= i < final(self).node_count() ==> !old(alloc).issued().contains(
                    #[trigger] final(self).frame(i),
                ),
            r ==> final(self).walk(vpn.0) == Some(
                PageTableEntry { bits: pte_bits(ppn.0, flags | PTE_V) },
            ),
            r ==> forall|v: u64|
                v < VPN_LIMIT && v != vpn.0 ==> #[trigger] final(self).walk(v) == old(self).walk(v),
    {
        let idx = vpn.indexes();
        let e0 = self.entries[idx[0]];
        let need: usize = if !e0.is_valid() {
            2
        } else {
            proof {
                let _ = self.lemma_child(0, idx[0] as int);
            }
            let m = self.find_node(e0.ppn().0);
            if !self.entries[512 * m + idx[1]].is_valid() {
                1
            } else {
                0
            }
        };
        if !alloc.can_allocate(need) || self.frames.len() + need > MAX_NODES {
            return false;
        }
        let ghost st0 = *self;
        let ghost i0 = idx[0] as int;
        let ghost i1 = idx[1] as int;
        let ghost i2 = idx[2] as int;
        let ghost c1 = !e0.valid();
        let ghost s0_alloc = *alloc;
        let n1: usize;
        if !e0.is_valid() {
            let p = alloc.allocate().unwrap();
            n1 = self.add_child(0, idx[0], p);
        } else {
            proof {
                let _ = self.lemma_child(0, idx[0] as int);
            }
            n1 = self.find_node(e0.ppn().0);
        }
        let ghost st1 = *self;
        assert(self.level(n1 as int) == 1 && self.prefix(n1 as int) == i0);
        assert(self.frames_issued_by(alloc));
        let e1 = self.entries[512 * n1 + idx[1]];
        assert(e1 == self.entry(n1 as int, idx[1] as int));
        let ghost c2 = !e1.valid();
        let n2: usize;
        if !e1.is_valid() {
            let p = alloc.allocate().unwrap();
            n2 = self.add_child(n1, idx[1], p);
        } else {
            proof {
                let _ = self.lemma_child(n1 as int, idx[1] as int);
            }
            n2 = self.find_node(e1.ppn().0);
        }
        let ghost st2 = *self;
        assert(self.level(n2 as int) == 2 && self.prefix(n2 as int) == i0 * 512 + i1);
        assert forall|i: int| st0.node_count() <= i < self.node_count() implies !s0_alloc.issued().contains(#[trigger] self.frame(i)) by {
            if i < st1.node_count() {
                assert(self.frame(i) == st1.frame(i));
            }
        }
        assert forall|i: int| 0 <= i < st0.node_count() implies #[trigger] self.frame(i) == st0.frame(i) by {
            assert(self.frame(i) == st1.frame(i));
        }
        assert(self.frames_issued_by(alloc));
        let leaf = PageTableEntry::new(ppn, flags | PTE_V);
        proof {
            lemma_with_valid(flags);
        }
        self.set_entry(n2, idx[2], leaf);
        proof {
            self.lemma_node_of(n1 as int);
            self.lemma_node_of(n2 as int);
            assert(self.entry(0, i0).valid());
            assert(pte_ppn(self.entry(0, i0).bits) == self.frame(n1 as int));
            assert(self.entry(n1 as int, i1).valid());
            assert(pte_ppn(self.entry(n1 as int, i1).bits) == self.frame(n2 as int));
            // what changed, relative to the table before the call
            assert(c1 ==> c2);
            assert(c1 ==> n1 >= st0.node_count());
            assert(c2 ==> n2 >= st0.node_count());
            assert(!c1 ==> n1 < st0.node_count());
            assert(!c2 ==> n2 < st0.node_count());
            assert forall|i: int, k: int|
                0 <= i < st0.node_count() && 0 <= k < 512 && !(c1 && i == 0 && k == i0) && !(c2
                    && i == n1 && k == i1) && !(i == n2 && k == i2) implies #[trigger] self.entry(i, k)
                == st0.entry(i, k) by {
                assert(self.entry(i, k) == st2.entry(i, k));
                assert(st2.entry(i, k) == st1.entry(i, k));
                assert(st1.entry(i, k) == st0.entry(i, k));
            }
            assert forall|i: int, k: int|
                st0.node_count() <= i < self.node_count() && 0 <= k < 512 && !(c2 && i == n1 && k
                    == i1) && !(i == n2 && k == i2) implies !(#[trigger] self.entry(i, k)).valid() by {
                assert(self.entry(i, k) == st2.entry(i, k));
                if i < st1.node_count() {
                    assert(st2.entry(i, k) == st1.entry(i, k));
                }
            }
            assert forall|i: int| 0 <= i < st0.node_count() implies self.frame(i) == st0.frame(i)
                && self.level(i) == st0.level(i) && self.prefix(i) == st0.prefix(i) by {
                assert(st1.frame(i) == st0.frame(i) && st1.level(i) == st0.level(i) && st1.prefix(i) == st0.prefix(i));
                assert(st2.frame(i) == st1.frame(i) && st2.level(i) == st1.level(i) && st2.prefix(i) == st1.prefix(i));
            }
            assert(!c2 ==> !st0.entry(n2 as int, i2).valid()) by {
                if !c2 {
                    assert(!c1);
                    st0.lemma_node_of(n1 as int);
                    st0.lemma_node_of(n2 as int);
                    assert(st0.entry(0, i0) == self.entry(0, i0));
                    assert(st0.entry(n1 as int, i1) == st1.entry(n1 as int, i1));
                }
            }
            assert forall|v: u64| v < VPN_LIMIT && v != vpn.0 implies #[trigger] self.walk(v) == st0.walk(v) by {
                self.lemma_walk_frame(st0, vpn.0, v, n1 as int, n2 as int, c1, c2);
            }
        }
        true
    }

    proof fn lemma_walk_frame(
        &self,
        st0: PageTable,
        vpn: u64,
        v: u64,
        n1: int,
        n2: int,
        c1: bool,
        c2: bool,
    )
        requires
            self.wf(),
            st0.wf(),
            vpn < VPN_LIMIT,
            v < VPN_LIMIT,
            v != vpn,
            st0.node_count() <= self.node_count(),
            forall|i: int| 0 <= i < st0.node_count() ==> self.frame(i) == st0.frame(i) && self.level(i) == st0.level(i) && self.prefix(i) == st0.prefix(i),
            0 <= n1 < self.node_count(),
            0 <= n2 < self.node_count(),
            self.level(n1) == 1,
            self.prefix(n1) == vpn_indexes(vpn).0,
            self.level(n2) == 2,
            self.prefix(n2) == vpn_indexes(vpn).0 * 512 + vpn_indexes(vpn).1,
            pte_ppn(self.entry(0, vpn_indexes(vpn).0 as int).bits) == self.frame(n1),
            pte_ppn(self.entry(n1, vpn_indexes(vpn).1 as int).bits) == self.frame(n2),
            c1 ==> c2,
            c1 ==> n1 >= st0.node_count() && !st0.entry(0, vpn_indexes(vpn).0 as int).valid(),
            c2 ==> n2 >= st0.node_count(),
            !c1 ==> n1 < st0.node_count(),
            !c2 ==> n2 < st0.node_count(),
            c2 && !c1 ==> !st0.entry(n1, vpn_indexes(vpn).1 as int).valid(),
            forall|i: int, k: int|
                0 <= i < st0.node_count() && 0 <= k < 512 && !(c1 && i == 0 && k == vpn_indexes(vpn).0)
                    && !(c2 && i == n1 && k == vpn_indexes(vpn).1) && !(i == n2 && k == vpn_indexes(vpn).2)
                    ==> #[trigger] self.entry(i, k) == st0.entry(i, k),
            forall|i: int, k: int|
                st0.node_count() <= i < self.node_count() && 0 <= k < 512 && !(c2 && i == n1 && k
                    == vpn_indexes(vpn).1) && !(i == n2 && k == vpn_indexes(vpn).2)
                    ==> !(#[trigger] self.entry(i, k)).valid(),
        ensures
            self.walk(v) == st0.walk(v),
    {
        let (i0, i1, i2) = vpn_indexes(vpn);
        let (j0, j1, j2) = vpn_indexes(v);
        lemma_indexes_injective(vpn, v);
        self.lemma_node_of(n1);
        self.lemma_node_of(n2);
        if c1 && j0 == i0 {
            assert(!st0.entry(0, j0 as int).valid());
            if j1 != i1 {
                assert(!self.entry(n1, j1 as int).valid());
            } else {
                assert(!self.entry(n2, j2 as int).valid());
            }
        } else {
            assert(self.entry(0, j0 as int) == st0.entry(0, j0 as int));
            if st0.entry(0, j0 as int).valid() {
                let m1 = st0.lemma_child(0, j0 as int);
                self.lemma_node_of(m1);
                if c2 && m1 == n1 && j1 == i1 {
                    assert(!st0.entry(m1, j1 as int).valid());
                    assert(!self.entry(n2, j2 as int).valid());
                } else {
                    assert(self.entry(m1, j1 as int) == st0.entry(m1, j1 as int));
                    if st0.entry(m1, j1 as int).valid() {
                        let m2 = st0.lemma_child(m1, j1 as int);
                        self.lemma_node_of(m2);
                        if m2 == n2 && j2 == i2 {
                            assert(j0 * 512 + j1 == i0 * 512 + i1);
                        }
                        assert(self.entry(m2, j2 as int) == st0.entry(m2, j2 as int));
                    }
                }
            }
        }
    }

    /// Appends a node in frame `p`, with every entry invalid, as the child of
    /// node `i` through its entry `k`.
    fn add_child(&mut self, i: usize, k: usize, p: PhysPageNum) -> (n: usize)
        requires
            old(self).wf(),
            i < old(self).node_count(),
            k < 512,
            old(self).level(i as int) < 2,
            !old(self).frame_set().contains(p.0),
            p.0 < PPN_LIMIT,
            old(self).node_count() < MAX_NODES,
        ensures
            final(self).wf(),
            n == old(self).node_count(),
            final(self).node_count() == n + 1,
            final(self).frame(n as int) == p.0,
            final(self).level(n as int) == old(self).level(i as int) + 1,
            final(self).prefix(n as int) == old(self).prefix(i as int) * 512 + k,
            final(self).root() == old(self).root(),
            forall|j: int| 0 <= j < n ==> final(self).frame(j) == old(self).frame(j),
            forall|j: int| 0 <= j < n ==> final(self).level(j) == old(self).level(j),
            forall|j: int| 0 <= j < n ==> final(self).prefix(j) == old(self).prefix(j),
            final(self).entry(i as int, k as int).valid(),
            pte_ppn(final(self).entry(i as int, k as int).bits) == p.0,
            forall|j: int, l: int|
                0 <= j < n && 0 <= l < 512 && (j != i || l != k) ==> #[trigger] final(self).entry(j, l)
                    == old(self).entry(j, l),
            forall|l: int| 0 <= l < 512 ==> !(#[trigger] final(self).entry(n as int, l)).valid(),
    {
        let ghost lv = (self.level(i as int) + 1) as nat;
        let ghost pf = (self.prefix(i as int) * 512 + k) as nat;
        let n = self.add_node(p, Ghost(lv), Ghost(pf));
        self.set_entry(i, k, PageTableEntry::new(p, PTE_V));
        n
    }

    /// Clears the leaf entry of a mapped `vpn`. Nodes are kept.
    pub fn unmap(&mut self, vpn: VirtPageNum)
        requires
            old(self).wf(),
            vpn.0 < VPN_LIMIT,
            old(self).walk(vpn.0).is_some(),
        ensures
            final(self).wf(),
            final(self).walk(vpn.0).is_none(),
            forall|v: u64|
                v < VPN_LIMIT && v != vpn.0 ==> #[trigger] final(self).walk(v) == old(self).walk(v),
            final(self).root() == old(self).root(),
            final(self).frame_set() == old(self).frame_set(),
            final(self).node_count() == old(self).node_count(),
            forall|i: int| 0 <= i < old(self).node_count() ==> #[trigger] final(self).frame(i) == old(self).frame(i),
    {
        let idx = vpn.indexes();
        let e0 = self.entries[idx[0]];
        proof {
            let _ = self.lemma_child(0, idx[0] as int);
        }
        let n1 = self.find_node(e0.ppn().0);
        let e1 = self.entries[512 * n1 + idx[1]];
        assert(e1 == self.entry(n1 as int, idx[1] as int));
        proof {
            let _ = self.lemma_child(n1 as int, idx[1] as int);
        }
        let n2 = self.find_node(e1.ppn().0);
        let ghost pre = *self;
        self.set_entry(n2, idx[2], PageTableEntry::empty());
        proof {
            self.lemma_node_of(n1 as int);
            self.lemma_node_of(n2 as int);
            assert(self.entry(0, idx[0] as int) == pre.entry(0, idx[0] as int));
            assert(self.entry(n1 as int, idx[1] as int) == pre.entry(n1 as int, idx[1] as int));
            assert(self.frame_set() =~= pre.frame_set());
            let _ = pre.lemma_child(0, idx[0] as int);
            let _ = pre.lemma_child(n1 as int, idx[1] as int);
            assert forall|v: u64| v < VPN_LIMIT && v != vpn.0 implies #[trigger] self.walk(v) == pre.walk(v) by {
                self.lemma_walk_frame(pre, vpn.0, v, n1 as int, n2 as int, false, false);
            }
        }
    }

    /// Once page `v` is mapped, mapping a page `w` that shares its first two
    /// indices needs no new node.
    pub proof fn lemma_missing_zero(&self, v: u64, w: u64)
        requires
            self.wf(),
            self.walk(v).is_some(),
            vpn_indexes(v).0 == vpn_indexes(w).0,
            vpn_indexes(v).1 == vpn_indexes(w).1,
        ensures
            self.missing_nodes(w) == 0,
    {
        let _ = self.lemma_child(0, vpn_indexes(v).0 as int);
    }

    /// Number of nodes.
    pub fn num_nodes(&self) -> (r: usize)
        ensures
            r == self.node_count(),
    {
        self.frames.len()
    }

    /// Appends a node with all entries invalid in frame `p`, at depth `level`.
    fn add_node(&mut self, p: PhysPageNum, level: Ghost<nat>, prefix: Ghost<nat>) -> (n: usize)
        requires
            old(self).wf(),
            !old(self).frame_set().contains(p.0),
            p.0 < PPN_LIMIT,
            1 <= level@ <= 2,
            old(self).node_count() < MAX_NODES,
        ensures
            final(self).wf(),
            n == old(self).node_count(),
            final(self).node_count() == n + 1,
            final(self).frame(n as int) == p.0,
            final(self).level(n as int) == level@,
            final(self).prefix(n as int) == prefix@,
            final(self).root() == old(self).root(),
            forall|i: int| 0 <= i < n ==> final(self).frame(i) == old(self).frame(i),
            forall|i: int| 0 <= i < n ==> final(self).level(i) == old(self).level(i),
            forall|i: int| 0 <= i < n ==> final(self).prefix(i) == old(self).prefix(i),
            forall|i: int, k: int|
                0 <= i < n && 0 <= k < 512 ==> #[trigger] final(self).entry(i, k) == old(self).entry(
                    i,
                    k,
                ),
            forall|k: int| 0 <= k < 512 ==> !(#[trigger] final(self).entry(n as int, k)).valid(),
    {
        let ghost pre = *self;
        let n = self.frames.len();
        self.frames.push(p.0);
        push_empty_node(&mut self.entries);
        let levels: Ghost<Seq<nat>> = Ghost(self.levels@.push(level@));
        self.levels = levels;
        let prefixes: Ghost<Seq<nat>> = Ghost(self.prefixes@.push(prefix@));
        self.prefixes = prefixes;
        assert forall|i: int, k: int|
            0 <= i < n && 0 <= k < 512 implies #[trigger] self.entry(i, k) == pre.entry(i, k) by {
            assert(512 * i + k < 512 * n);
        }
        assert forall|k: int| 0 <= k < 512 implies !(#[trigger] self.entry(n as int, k)).valid() by {
            assert(512 * n + k >= 512 * n);
        }
        assert forall|i: int| 0 <= i < self.node_count() implies self.level(i) <= 2 by {
            if i < n {
                assert(self.level(i) == pre.level(i));
            }
        }
        assert forall|i: int, j: int|
            0 <= i < self.node_count() && 0 <= j < self.node_count() && i != j implies self.frame(i)
            != self.frame(j) by {
            if i == n {
                assert(!pre.frame_set().contains(p.0));
                assert(!(0 <= j < pre.node_count() && pre.frame(j) == p.0));
            } else if j == n {
                assert(!(0 <= i < pre.node_count() && pre.frame(i) == p.0));
            }
        }
        assert forall|i: int, k: int|
            0 <= i < self.node_count() && 0 <= k < 512 && self.level(i) < 2
                && #[trigger] self.entry(i, k).valid() implies self.child_present(i, k) by {
            if i < n {
                assert(pre.entry(i, k).valid());
                assert(pre.child_present(i, k));
                let j = choose|j: int|
                    0 <= j < pre.node_count() && pre.frame(j) == pte_ppn(pre.entry(i, k).bits)
                        && pre.level(j) == pre.level(i) + 1 && pre.prefix(j) == pre.prefix(i) * 512 + k;
                assert(self.frame(j) == pte_ppn(self.entry(i, k).bits));
            }
        }
        n
    }

    /// Overwrites entry `k` of node `i`; a valid entry above the last level must
    /// lead to a node one level deeper.
    fn set_entry(&mut self, i: usize, k: usize, e: PageTableEntry)
        requires
            old(self).wf(),
            i < old(self).node_count(),
            k < 512,
            old(self).level(i as int) < 2 && e.valid() ==> pte_flags(e.bits) == PTE_V,
            old(self).level(i as int) < 2 && e.valid() ==> exists|j: int|
                0 <= j < old(self).node_count() && old(self).frame(j) == pte_ppn(e.bits)
                    && old(self).level(j) == old(self).level(i as int) + 1
                    && old(self).prefix(j) == old(self).prefix(i as int) * 512 + k,
        ensures
            final(self).wf(),
            final(self).node_count() == old(self).node_count(),
            final(self).root() == old(self).root(),
            forall|j: int| 0 <= j < old(self).node_count() ==> final(self).frame(j) == old(self).frame(j),
            forall|j: int| 0 <= j < old(self).node_count() ==> final(self).level(j) == old(self).level(j),
            forall|j: int| 0 <= j < old(self).node_count() ==> final(self).prefix(j) == old(self).prefix(j),
            final(self).entry(i as int, k as int) == e,
            forall|j: int, l: int|
                0 <= j < old(self).node_count() && 0 <= l < 512 && (j != i || l != k)
                    ==> #[trigger] final(self).entry(j, l) == old(self).entry(j, l),
    {
        let ghost pre = *self;
        assert(512 * i + k < 512 * self.frames.len());
        self.entries.set(512 * i + k, e);
        assert forall|j: int| 0 <= j < self.node_count() implies self.level(j) <= 2 by {
            assert(self.level(j) == pre.level(j));
        }
        assert forall|a: int, b: int|
            0 <= a < self.node_count() && 0 <= b < self.node_count() && a != b implies self.frame(a)
            != self.frame(b) by {
            assert(self.frame(a) == pre.frame(a) && self.frame(b) == pre.frame(b));
        }
        assert forall|j: int, l: int|
            0 <= j < pre.node_count() && 0 <= l < 512 && (j != i || l != k) implies #[trigger] self.entry(j, l)
            == pre.entry(j, l) by {
            if j < i {
                assert(512 * j + l < 512 * i);
            } else if j > i {
                assert(512 * j + l > 512 * i + k);
            }
        }
        assert forall|j: int, l: int|
            0 <= j < self.node_count() && 0 <= l < 512 && self.level(j) < 2
                && #[trigger] self.entry(j, l).valid() implies self.child_present(j, l) by {
            if j == i && l == k {
                let c = choose|c: int|
                    0 <= c < pre.node_count() && pre.frame(c) == pte_ppn(e.bits) && pre.level(c)
                        == pre.level(i as int) + 1 && pre.prefix(c) == pre.prefix(i as int) * 512 + k;
                assert(self.frame(c) == pte_ppn(self.entry(j, l).bits));
            } else {
                assert(self.entry(j, l) == pre.entry(j, l));
                assert(pre.child_present(j, l));
                let c = choose|c: int|
                    0 <= c < pre.node_count() && pre.frame(c) == pte_ppn(pre.entry(j, l).bits)
                        && pre.level(c) == pre.level(j) + 1 && pre.prefix(c) == pre.prefix(j) * 512 + l;
                assert(self.frame(c) == pte_ppn(self.entry(j, l).bits));
            }
        }
    }
}

/// Appends 512 invalid entries.
fn push_empty_node(entries: &mut Vec<PageTableEntry>)
    requires
        old(entries)@.len() + 512 <= usize::MAX,
    ensures
        final(entries)@.len() == old(entries)@.len() + 512,
        forall|i: int| 0 <= i < old(entries)@.len() ==> final(entries)@[i] == old(entries)@[i],
        forall|i: int|
            old(entries)@.len() <= i < final(entries)@.len() ==> (#[trigger] final(entries)@[i]).bits == 0,
{
    let ghost start = entries@.len();
    let mut k: usize = 0;
    while k < PTES_PER_NODE
        invariant
            k <= 512,
            start == old(entries)@.len(),
            entries@.len() == start + k,
            start + 512 <= usize::MAX,
            forall|i: int| 0 <= i < start ==> entries@[i] == old(entries)@[i],
            forall|i: int| start <= i < entries@.len() ==> (#[trigger] entries@[i]).bits == 0,
        decreases 512 - k,
    {
        entries.push(PageTableEntry::empty());
        k = k + 1;
    }
}

/// What translating a page that `map` mapped gives: an entry whose frame
/// is the mapped frame, whose flags are the requested ones plus V, and
/// which is valid.
pub proof fn lemma_mapped_entry(t: PageTable, vpn: u64, ppn: u64, flags: u8)
    requires
        ppn < PPN_LIMIT,
        t.walk(vpn) == Some(PageTableEntry { bits: pte_bits(ppn, flags | PTE_V) }),
    ensures
        t.walk(vpn).is_some(),
        pte_ppn(t.walk(vpn).unwrap().bits) == ppn,
        pte_flags(t.walk(vpn).unwrap().bits) == flags | PTE_V,
        pte_flags(t.walk(vpn).unwrap().bits) & flags == flags,
        t.walk(vpn).unwrap().valid(),
{
    lemma_pte_fields(ppn, flags | PTE_V);
    lemma_with_valid(flags);
    assert(((flags | 1u8) & flags) == flags) by (bit_vector);
}

} // verus!