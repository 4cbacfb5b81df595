//! Physical and virtual addresses and page numbers under SV39.
use vstd::prelude::*;

verus! {

/// Number of physical-address bits under SV39.
pub const PA_WIDTH_SV39: usize = 56;

/// Number of virtual-address bits under SV39.
pub const VA_WIDTH_SV39: usize = 39;

/// Number of physical-page-number bits (`PA_WIDTH_SV39 - 12`).
pub const PPN_WIDTH_SV39: usize = 44;

/// Number of virtual-page-number bits (`VA_WIDTH_SV39 - 12`).
pub const VPN_WIDTH_SV39: usize = 27;

/// One past the largest physical page number.
pub const PPN_LIMIT: u64 = 0x1000_0000_0000;

/// One past the largest virtual page number.
pub const VPN_LIMIT: u64 = 0x800_0000;

/// Rounds `x / d` up.
pub open spec fn ceil_div(x: int, d: int) -> int {
    (x + d - 1) / d
}

/// A physical address.
#[derive(Clone, Copy, Debug, PartialEq, Eq, Structural)]
pub struct PhysAddr(pub u64);

/// A virtual address.
#[derive(Clone, Copy, Debug, PartialEq, Eq, Structural)]
pub struct VirtAddr(pub u64);

/// A physical page number.
#[derive(Clone, Copy, Debug, PartialEq, Eq, Structural)]
pub struct PhysPageNum(pub u64);

/// A virtual page number.
#[derive(Clone, Copy, Debug, PartialEq, Eq, Structural)]
pub struct VirtPageNum(pub u64);

impl PhysAddr {
    /// Keeps the low 56 bits of `v`, the physical-address width.
    pub fn from_u64(v: u64) -> (r: PhysAddr)
        ensures
            r.0 == v % 0x100_0000_0000_0000,
    {
        assert(v & 0xff_ffff_ffff_ffff == v % 0x100_0000_0000_0000) by (bit_vector);
        PhysAddr(v & 0xff_ffff_ffff_ffff)
    }

    /// Offset of the address inside its page.
    pub fn page_offset(&self) -> (r: u64)
        ensures
            r == self.0 % 4096,
    {
        let x = self.0;
        assert(x & 0xfff == x % 4096) by (bit_vector);
        x & 0xfff
    }

    /// The page that holds this address.
    pub fn floor(&self) -> (r: PhysPageNum)
        ensures
            r.0 == self.0 / 4096,
    {
        PhysPageNum(self.0 / 4096)
    }

    /// The first page that starts at or above this address (0 for address 0).
    pub fn ceil(&self) -> (r: PhysPageNum)
        ensures
            r.0 == ceil_div(self.0 as int, 4096),
    {
        let q = self.0 / 4096;
        if self.0 % 4096 == 0 {
            PhysPageNum(q)
        } else {
            PhysPageNum(q + 1)
        }
    }

    /// Whether the address is page aligned.
    pub fn aligned(&self) -> (r: bool)
        ensures
            r == (self.0 % 4096 == 0),
    {
        self.page_offset() == 0
    }
}

impl VirtAddr {
    /// Keeps the low 39 bits of `v`, the virtual-address width.
    pub fn from_u64(v: u64) -> (r: VirtAddr)
        ensures
            r.0 == v % 0x80_0000_0000,
    {
        assert(v & 0x7f_ffff_ffff == v % 0x80_0000_0000) by (bit_vector);
        VirtAddr(v & 0x7f_ffff_ffff)
    }

    /// The page that holds this address.
    pub fn floor(&self) -> (r: VirtPageNum)
        ensures
            r.0 == self.0 / 4096,
    {
        VirtPageNum(self.0 / 4096)
    }

    /// The first page that starts at or above this address (0 for address 0).
    pub fn ceil(&self) -> (r: VirtPageNum)
        ensures
            r.0 == ceil_div(self.0 as int, 4096),
    {
        let q = self.0 / 4096;
        if self.0 % 4096 == 0 {
            VirtPageNum(q)
        } else {
            VirtPageNum(q + 1)
        }
    }

    /// Offset of the address inside its page.
    pub fn page_offset(&self) -> (r: u64)
        ensures
            r == self.0 % 4096,
    {
        let x = self.0;
        assert(x & 0xfff == x % 4096) by (bit_vector);
        x & 0xfff
    }

    /// Whether the address is page aligned.
    pub fn aligned(&self) -> (r: bool)
        ensures
            r == (self.0 % 4096 == 0),
    {
        self.page_offset() == 0
    }
}

impl PhysPageNum {
    /// Keeps the low 44 bits of `v`, the physical-page-number width.
    pub fn from_u64(v: u64) -> (r: PhysPageNum)
        ensures
            r.0 == v % 0x1000_0000_0000,
    {
        assert(v & 0xfff_ffff_ffff == v % 0x1000_0000_0000) by (bit_vector);
        PhysPageNum(v & 0xfff_ffff_ffff)
    }

    /// Address of the first byte of the frame.
    pub fn addr(&self) -> (r: PhysAddr)
        requires
            self.0 < PPN_LIMIT,
        ensures
            r.0 == self.0 * 4096,
    {
        PhysAddr(self.0 * 4096)
    }
}

/// The three 9-bit page-table indices of a virtual page number, most significant first.
pub open spec fn vpn_indexes(vpn: u64) -> (usize, usize, usize) {
    (((vpn / 0x40000) % 512) as usize, ((vpn / 512) % 512) as usize, (vpn % 512) as usize)
}

impl VirtPageNum {
    /// Keeps the low 27 bits of `v`, the virtual-page-number width.
    pub fn from_u64(v: u64) -> (r: VirtPageNum)
        ensures
            r.0 == v % 0x800_0000,
    {
        assert(v & 0x7ff_ffff == v % 0x800_0000) by (bit_vector);
        VirtPageNum(v & 0x7ff_ffff)
    }

    /// Address of the first byte of the page.
    pub fn addr(&self) -> (r: VirtAddr)
        requires
            self.0 < VPN_LIMIT,
        ensures
            r.0 == self.0 * 4096,
    {
        VirtAddr(self.0 * 4096)
    }

    /// The three page-table indices of this page number, most significant first.
    pub fn indexes(&self) -> (r: [usize; 3])
        ensures
            r@.len() == 3,
            r@[0] == vpn_indexes(self.0).0,
            r@[1] == vpn_indexes(self.0).1,
            r@[2] == vpn_indexes(self.0).2,
    {
        let v = self.0;
        assert((v >> 18u64) & 511 == (v / 0x40000) % 512) by (bit_vector);
        assert((v >> 9u64) & 511 == (v / 512) % 512) by (bit_vector);
        assert(v & 511 == v % 512) by (bit_vector);
        [((v >> 18u64) & 511) as usize, ((v >> 9u64) & 511) as usize, (v & 511) as usize]
    }
}

/// A value that can be advanced to its successor.
pub trait StepByOne: Sized {
    /// Whether `self` has a successor.
    spec fn can_step(&self) -> bool;

    /// The successor of `self`.
    spec fn succ(&self) -> Self;

    /// Advances to the successor.
    fn step(&mut self)
        requires
            old(self).can_step(),
        ensures
            *final(self) == old(self).succ(),
    ;
}

impl StepByOne for VirtPageNum {
    open spec fn can_step(&self) -> bool {
        self.0 < u64::MAX
    }

    open spec fn succ(&self) -> Self {
        VirtPageNum((self.0 + 1) as u64)
    }

    fn step(&mut self) {
        self.0 = self.0 + 1;
    }
}

/// A half-open range `[l, r)` of virtual page numbers.
#[derive(Clone, Copy, Debug, PartialEq, Eq, Structural)]
pub struct SimpleRange {
    l: VirtPageNum,
    r: VirtPageNum,
}

impl SimpleRange {
    /// First page of the range.
    pub closed spec fn start(&self) -> u64 {
        self.l.0
    }

    /// One past the last page of the range.
    pub closed spec fn end(&self) -> u64 {
        self.r.0
    }

    /// Whether the range holds `vpn`.
    pub open spec fn contains(&self, vpn: u64) -> bool {
        self.start() <= vpn < self.end()
    }

    /// The range `[start, end)`; `start` must not lie above `end`.
    pub fn new(start: VirtPageNum, end: VirtPageNum) -> (r: SimpleRange)
        requires
            start.0 <= end.0,
        ensures
            r.start() == start.0,
            r.end() == end.0,
    {
        SimpleRange { l: start, r: end }
    }

    /// First page of the range.
    pub fn get_start(&self) -> (r: VirtPageNum)
        ensures
            r.0 == self.start(),
    {
        self.l
    }

    /// One past the last page of the range.
    pub fn get_end(&self) -> (r: VirtPageNum)
        ensures
            r.0 == self.end(),
    {
        self.r
    }

    /// An iterator over the pages of the range, in increasing order.
    pub fn iter(&self) -> (r: SimpleRangeIterator)
        ensures
            r.current.0 == self.start(),
            r.end.0 == self.end(),
    {
        SimpleRangeIterator::new(self.l, self.r)
    }
}

/// Walks a page range upward, one page at a time.
#[derive(Clone, Copy, Debug)]
pub struct SimpleRangeIterator {
    pub current: VirtPageNum,
    pub end: VirtPageNum,
}

impl SimpleRangeIterator {
    /// An iterator from `l` up to, not including, `r`.
    pub fn new(l: VirtPageNum, r: VirtPageNum) -> (it: SimpleRangeIterator)
        ensures
            it.current == l,
            it.end == r,
    {
        SimpleRangeIterator { current: l, end: r }
    }

    /// The next page, or `None` once the end is reached.
    pub fn next(&mut self) -> (r: Option<VirtPageNum>)
        requires
            old(self).current.0 <= old(self).end.0,
        ensures
            final(self).end == old(self).end,
            old(self).current == old(self).end ==> r.is_none() && *final(self) == *old(self),
            old(self).current != old(self).end ==> r == Some(old(self).current)
                && final(self).current.0 == old(self).current.0 + 1,
            final(self).current.0 <= final(self).end.0,
    {
        if self.current == self.end {
            None
        } else {
            let t = self.current;
            self.current.step();
            Some(t)
        }
    }
}

} // verus!
