//! Typed wrappers for physical/virtual addresses and page numbers, with the
//! alignment and conversion rules of a 4 KiB-page, three-level (SV39-class)
//! translation scheme.
use vstd::prelude::*;

use crate::config::{PAGE_SIZE, PAGE_SIZE_BITS};

verus! {

/// A physical byte address.
#[derive(Copy, Clone, Debug, PartialEq, Eq, Structural)]
pub struct PhysAddr(pub usize);

/// A virtual byte address.
#[derive(Copy, Clone, Debug, PartialEq, Eq, Structural)]
pub struct VirtAddr(pub usize);

/// A physical page number: a physical address shifted right by `PAGE_SIZE_BITS`.
#[derive(Copy, Clone, Debug, PartialEq, Eq, Structural)]
pub struct PhysPageNum(pub usize);

/// A virtual page number; its low 27 bits split into three 9-bit page-table
/// indices, most significant first.
#[derive(Copy, Clone, Debug, PartialEq, Eq, Structural)]
pub struct VirtPageNum(pub usize);

impl From<usize> for PhysAddr {
    fn from(v: usize) -> Self {
        PhysAddr(v)
    }
}

impl vstd::std_specs::convert::FromSpecImpl<usize> for PhysAddr {
    open spec fn obeys_from_spec() -> bool {
        true
    }

    open spec fn from_spec(v: usize) -> PhysAddr {
        PhysAddr(v)
    }
}

impl From<usize> for VirtAddr {
    fn from(v: usize) -> Self {
        VirtAddr(v)
    }
}

impl vstd::std_specs::convert::FromSpecImpl<usize> for VirtAddr {
    open spec fn obeys_from_spec() -> bool {
        true
    }

    open spec fn from_spec(v: usize) -> VirtAddr {
        VirtAddr(v)
    }
}

impl From<usize> for PhysPageNum {
    fn from(v: usize) -> Self {
        PhysPageNum(v)
    }
}

impl vstd::std_specs::convert::FromSpecImpl<usize> for PhysPageNum {
    open spec fn obeys_from_spec() -> bool {
        true
    }

    open spec fn from_spec(v: usize) -> PhysPageNum {
        PhysPageNum(v)
    }
}

impl From<usize> for VirtPageNum {
    fn from(v: usize) -> Self {
        VirtPageNum(v)
    }
}

impl vstd::std_specs::convert::FromSpecImpl<usize> for VirtPageNum {
    open spec fn obeys_from_spec() -> bool {
        true
    }

    open spec fn from_spec(v: usize) -> VirtPageNum {
        VirtPageNum(v)
    }
}

/// A page number becomes the address of the first byte of its page.
impl From<VirtPageNum> for VirtAddr {
    fn from(v: VirtPageNum) -> Self {
        VirtAddr(v.0 << PAGE_SIZE_BITS)
    }
}

impl vstd::std_specs::convert::FromSpecImpl<VirtPageNum> for VirtAddr {
    open spec fn obeys_from_spec() -> bool {
        true
    }

    open spec fn from_spec(v: VirtPageNum) -> VirtAddr {
        VirtAddr(v.0 << PAGE_SIZE_BITS)
    }
}

/// A page number becomes the address of the first byte of its frame.
impl From<PhysPageNum> for PhysAddr {
    fn from(v: PhysPageNum) -> Self {
        PhysAddr(v.0 << PAGE_SIZE_BITS)
    }
}

impl vstd::std_specs::convert::FromSpecImpl<PhysPageNum> for PhysAddr {
    open spec fn obeys_from_spec() -> bool {
        true
    }

    open spec fn from_spec(v: PhysPageNum) -> PhysAddr {
        PhysAddr(v.0 << PAGE_SIZE_BITS)
    }
}

impl VirtAddr {
    /// Page number of the page containing this address (offset truncated).
    pub fn floor(&self) -> (r: VirtPageNum)
        ensures
            r.0 == self.0 / PAGE_SIZE,
    {
        VirtPageNum(self.0 / PAGE_SIZE)
    }

    /// Page number of the first page boundary at or above this address.
    pub fn ceil(&self) -> (r: VirtPageNum)
        ensures
            r.0 == if self.0 % PAGE_SIZE == 0 {
                (self.0 / PAGE_SIZE) as int
            } else {
                self.0 / PAGE_SIZE + 1
            },
    {
        let q: usize = self.0 / PAGE_SIZE;
        if self.0 % PAGE_SIZE == 0 {
            VirtPageNum(q)
        } else {
            VirtPageNum(q + 1)
        }
    }

    /// Byte offset of this address within its page.
    pub fn page_offset(&self) -> (r: usize)
        ensures
            r == self.0 % PAGE_SIZE,
    {
        proof {
            let v = self.0;
            assert(v & 4095 == v % 4096) by (bit_vector);
        }
        self.0 & (PAGE_SIZE - 1)
    }

    /// Whether this address lies exactly on a page boundary.
    pub fn aligned(&self) -> (r: bool)
        ensures
            r == (self.0 % PAGE_SIZE == 0),
    {
        self.page_offset() == 0
    }
}

impl PhysAddr {
    /// Page number of the frame containing this address (offset truncated).
    pub fn floor(&self) -> (r: PhysPageNum)
        ensures
            r.0 == self.0 / PAGE_SIZE,
    {
        PhysPageNum(self.0 / PAGE_SIZE)
    }

    /// Page number of the first frame boundary at or above this address.
    pub fn ceil(&self) -> (r: PhysPageNum)
        ensures
            r.0 == if self.0 % PAGE_SIZE == 0 {
                (self.0 / PAGE_SIZE) as int
            } else {
                self.0 / PAGE_SIZE + 1
            },
    {
        let q: usize = self.0 / PAGE_SIZE;
        if self.0 % PAGE_SIZE == 0 {
            PhysPageNum(q)
        } else {
            PhysPageNum(q + 1)
        }
    }

    /// Byte offset of this address within its frame.
    pub fn page_offset(&self) -> (r: usize)
        ensures
            r == self.0 % PAGE_SIZE,
    {
        proof {
            let v = self.0;
            assert(v & 4095 == v % 4096) by (bit_vector);
        }
        self.0 & (PAGE_SIZE - 1)
    }

    /// Whether this address lies exactly on a frame boundary.
    pub fn aligned(&self) -> (r: bool)
        ensures
            r == (self.0 % PAGE_SIZE == 0),
    {
        self.page_offset() == 0
    }
}

/// Most-significant page-table index of a virtual page number.
pub open spec fn vpn_index0(vpn: VirtPageNum) -> int {
    (vpn.0 as int / 0x40000) % 512
}

/// Middle page-table index of a virtual page number.
pub open spec fn vpn_index1(vpn: VirtPageNum) -> int {
    (vpn.0 as int / 512) % 512
}

/// Least-significant page-table index of a virtual page number.
pub open spec fn vpn_index2(vpn: VirtPageNum) -> int {
    vpn.0 as int % 512
}

impl VirtPageNum {
    /// Splits this page number into its three page-table indices, most
    /// significant first; each selects one entry at one level of the walk.
    pub fn indexes(&self) -> (r: [usize; 3])
        ensures
            r[0] == vpn_index0(*self),
            r[1] == vpn_index1(*self),
            r[2] == vpn_index2(*self),
    {
        let vpn: usize = self.0;
        proof {
            let v = self.0;
            assert((v >> 18) & 511 == (v / 0x40000) % 512) by (bit_vector);
            assert((v >> 9) & 511 == (v / 512) % 512) by (bit_vector);
            assert(v & 511 == v % 512) by (bit_vector);
        }
        let i0: usize = (vpn >> 18) & 511;
        let i1: usize = (vpn >> 9) & 511;
        let i2: usize = vpn & 511;
        [i0, i1, i2]
    }
}

/// Types whose values can advance to their immediate successor.
pub trait StepByOne: Sized {
    /// Whether a successor exists.
    spec fn can_step(&self) -> bool;

    /// The successor value.
    spec fn stepped(&self) -> Self;

    /// Advance to the successor.
    fn step(&mut self)
        requires
            old(self).can_step(),
        ensures
            *final(self) == old(self).stepped(),
    ;
}

impl StepByOne for VirtPageNum {
    open spec fn can_step(&self) -> bool {
        self.0 < usize::MAX
    }

    open spec fn stepped(&self) -> VirtPageNum {
        VirtPageNum((self.0 + 1) as usize)
    }

    fn step(&mut self) {
        self.0 = self.0 + 1;
    }
}

/// A half-open range of virtual page numbers.
#[derive(Copy, Clone)]
pub struct SimpleRange {
    l: VirtPageNum,
    r: VirtPageNum,
}

impl SimpleRange {
    /// First page of the range.
    pub closed spec fn start_spec(self) -> VirtPageNum {
        self.l
    }

    /// One past the last page of the range.
    pub closed spec fn end_spec(self) -> VirtPageNum {
        self.r
    }

    /// Number of pages in the range.
    pub open spec fn len_spec(self) -> int {
        self.end_spec().0 - self.start_spec().0
    }

    pub fn new(start: VirtPageNum, end: VirtPageNum) -> (r: Self)
        requires
            start.0 <= end.0,
        ensures
            r.start_spec() == start,
            r.end_spec() == end,
    {
        SimpleRange { l: start, r: end }
    }

    pub fn get_start(&self) -> (r: VirtPageNum)
        ensures
            r == self.start_spec(),
    {
        self.l
    }

    pub fn get_end(&self) -> (r: VirtPageNum)
        ensures
            r == self.end_spec(),
    {
        self.r
    }
}

/// A range of virtual page numbers, as used by logical segments.
pub type VPNRange = SimpleRange;

/// Yields the pages of a `SimpleRange` in ascending order.
pub struct SimpleRangeIterator {
    current: VirtPageNum,
    end: VirtPageNum,
}

impl SimpleRangeIterator {
    /// The next page this iterator will yield.
    pub closed spec fn current_spec(self) -> VirtPageNum {
        self.current
    }

    /// One past the last page this iterator yields.
    pub closed spec fn end_spec(self) -> VirtPageNum {
        self.end
    }

    pub fn new(l: VirtPageNum, r: VirtPageNum) -> (it: Self)
        requires
            l.0 <= r.0,
        ensures
            it.current_spec() == l,
            it.end_spec() == r,
    {
        SimpleRangeIterator { current: l, end: r }
    }

    /// The next page of the range, or `None` once the range is exhausted.
    pub fn next(&mut self) -> (r: Option<VirtPageNum>)
        requires
            old(self).current_spec().0 <= old(self).end_spec().0,
        ensures
            final(self).end_spec() == old(self).end_spec(),
            old(self).current_spec() == old(self).end_spec() ==> r is None && *final(self) == *old(
                self,
            ),
            old(self).current_spec() != old(self).end_spec() ==> r == Some(
                old(self).current_spec(),
            ) && final(self).current_spec().0 == old(self).current_spec().0 + 1,
            final(self).current_spec().0 <= final(self).end_spec().0,
    {
        if self.current.0 == self.end.0 {
            None
        } else {
            let t = self.current;
            self.current.step();
            Some(t)
        }
    }
}

/// Round trip of the page-aligned conversions: turning a virtual page number
/// into the address of its first byte and flooring that address yields the
/// original page number, as long as the shift loses no bits.
pub proof fn lemma_vpn_va_roundtrip(vpn: VirtPageNum)
    requires
        (vpn.0 << PAGE_SIZE_BITS) >> PAGE_SIZE_BITS == vpn.0,
    ensures
        VirtAddr(vpn.0 << PAGE_SIZE_BITS).0 / PAGE_SIZE == vpn.0,
        VirtAddr(vpn.0 << PAGE_SIZE_BITS).0 % PAGE_SIZE == 0,
{
    let v = vpn.0;
    assert((v << 12) / 4096 == v && (v << 12) % 4096 == 0) by (bit_vector)
        requires
            (v << 12) >> 12 == v,
    ;
}

/// Round trip of the physical conversions: a physical page number taken to the
/// address of its frame and back by flooring is unchanged, as long as the shift
/// loses no bits; and flooring then re-expanding a page-aligned address is the
/// identity as well.
pub proof fn lemma_ppn_pa_roundtrip(ppn: PhysPageNum, pa: PhysAddr)
    requires
        (ppn.0 << PAGE_SIZE_BITS) >> PAGE_SIZE_BITS == ppn.0,
        pa.0 % PAGE_SIZE == 0,
    ensures
        PhysAddr(ppn.0 << PAGE_SIZE_BITS).0 / PAGE_SIZE == ppn.0,
        (pa.0 / PAGE_SIZE) << PAGE_SIZE_BITS == pa.0,
{
    let v = ppn.0;
    assert((v << 12) / 4096 == v) by (bit_vector)
        requires
            (v << 12) >> 12 == v,
    ;
    let a = pa.0;
    assert((a / 4096) << 12 == a) by (bit_vector)
        requires
            a % 4096 == 0,
    ;
}

} // verus!
