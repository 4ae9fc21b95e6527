//! Logical segments and address spaces: a contiguous virtual-page range with
//! one mapping strategy and permission set, and the address space built from
//! such segments over one page table.
use vstd::prelude::*;

use crate::address::{PhysAddr, PhysPageNum, VPNRange, VirtAddr, VirtPageNum};
use crate::frame_allocator::{frame_alloc, frame_dealloc, frame_remain_num, FrameTracker,
    StackFrameAllocator};
use crate::config::{PAGE_SIZE, TRAMPOLINE, TRAP_CONTEXT, USER_STACK_SIZE};
use crate::page_table::{key_index0, key_index1, key_of, pte_for, PageTable, PageTableEntry,
    PagingError, PTEFlags, PPN_LIMIT, PTE_R, PTE_V, PTE_X};

verus! {

/// Segment permission: readable.
pub const MAP_PERM_R: u8 = 2;

/// Segment permission: writable.
pub const MAP_PERM_W: u8 = 4;

/// Segment permission: executable.
pub const MAP_PERM_X: u8 = 8;

/// Segment permission: accessible from user mode.
pub const MAP_PERM_U: u8 = 16;

/// A segment's access permissions: the subset of the entry flag byte holding
/// exactly the R/W/X/U bits, at their hardware bit positions.
#[derive(Copy, Clone, Debug, PartialEq, Eq, Structural)]
pub struct MapPermission {
    pub bits: u8,
}

impl MapPermission {
    /// Whether a flag byte holds only permission bits.
    pub open spec fn valid_bits(bits: u8) -> bool {
        bits & 0xE1 == 0
    }

    /// No permission at all.
    pub fn empty() -> (r: Self)
        ensures
            r.bits == 0,
    {
        MapPermission { bits: 0 }
    }

    /// The permission set with exactly the given bits, rejecting any byte
    /// with a bit outside R/W/X/U.
    pub fn from_bits(bits: u8) -> (r: Option<Self>)
        ensures
            r is Some <==> Self::valid_bits(bits),
            r is Some ==> r.unwrap().bits == bits,
    {
        if bits & 0xE1 == 0 {
            Some(MapPermission { bits })
        } else {
            None
        }
    }

    /// Set union of two permission sets.
    pub fn union(self, other: Self) -> (r: Self)
        ensures
            r.bits == self.bits | other.bits,
    {
        MapPermission { bits: self.bits | other.bits }
    }
}

/// How a segment's pages reach physical memory: mapped to the numerically
/// identical frame, or backed by frames from the allocator.
#[derive(Copy, Clone, Debug, PartialEq, Eq, Structural)]
pub enum MapType {
    Identical,
    Framed,
}

/// One frame backing one page of a framed segment, together with the byte
/// contents of that frame. Interpreting a frame's bytes is confined to the
/// segment that owns it.
pub struct FramedPage {
    pub vpn: VirtPageNum,
    pub frame: FrameTracker,
    pub bytes: Vec<u8>,
}

/// A logical segment: a half-open virtual-page range mapped with one strategy
/// and one permission set. A framed segment owns the frames backing its
/// pages, in ascending page order.
pub struct MapArea {
    vpn_range: VPNRange,
    data_frames: Vec<FramedPage>,
    map_type: MapType,
    map_perm: MapPermission,
}

impl MapArea {
    /// First page of the segment.
    pub closed spec fn start_vpn(self) -> int {
        self.vpn_range.start_spec().0 as int
    }

    /// One past the last page of the segment.
    pub closed spec fn end_vpn(self) -> int {
        self.vpn_range.end_spec().0 as int
    }

    /// Number of pages.
    pub open spec fn len_pages(self) -> int {
        self.end_vpn() - self.start_vpn()
    }

    /// Translation key of the first page.
    pub open spec fn key_start(self) -> int {
        self.start_vpn() % 0x8000000
    }

    /// The mapping strategy.
    pub closed spec fn map_type_spec(self) -> MapType {
        self.map_type
    }

    /// The permission set.
    pub closed spec fn map_perm_spec(self) -> MapPermission {
        self.map_perm
    }

    /// The frames backing a framed segment, in page order.
    pub closed spec fn frames_spec(self) -> Seq<FramedPage> {
        self.data_frames@
    }

    /// Basic shape: the range is ordered and its pages occupy consecutive
    /// translation keys (the range does not wrap the 27-bit index space), and
    /// an identical segment maps only frames a table entry can express.
    pub open spec fn wf_base(self) -> bool {
        &&& 0 <= self.start_vpn() <= self.end_vpn()
        &&& self.key_start() + self.len_pages() <= 0x8000000
        &&& self.map_type_spec() == MapType::Identical ==> (self.end_vpn() as u64) <= PPN_LIMIT
    }

    /// A segment that has not been mapped yet owns no frames.
    pub open spec fn is_fresh(self) -> bool {
        self.frames_spec().len() == 0
    }

    /// A fully mapped segment: a framed one owns exactly one frame per page,
    /// in page order, each with a full page of bytes; an identical one owns
    /// none.
    pub open spec fn wf_mapped(self) -> bool {
        &&& self.wf_base()
        &&& if self.map_type_spec() == MapType::Framed {
            &&& self.frames_spec().len() == self.len_pages()
            &&& forall|j: int|
                0 <= j < self.len_pages() ==> (#[trigger] self.frames_spec()[j]).vpn.0
                    == self.start_vpn() + j && self.frames_spec()[j].bytes@.len() == PAGE_SIZE && (
                self.frames_spec()[j].frame.ppn.0 as u64) < PPN_LIMIT
        } else {
            self.frames_spec().len() == 0
        }
    }

    /// Physical page number backing page `j` of the segment.
    pub open spec fn page_ppn(self, j: int) -> int {
        if self.map_type_spec() == MapType::Identical {
            self.start_vpn() + j
        } else {
            self.frames_spec()[j].frame.ppn.0 as int
        }
    }

    /// The table entry a mapped segment installs for its page `j`.
    pub open spec fn page_pte(self, j: int) -> PageTableEntry {
        pte_for(PhysPageNum(self.page_ppn(j) as usize), PTEFlags { bits: self.map_perm_spec().bits })
    }

    /// Worst-case number of frames a `map` of this segment can consume:
    /// one per page if framed, plus one per touched leaf node and middle
    /// node of the walk.
    pub open spec fn frames_bound(self) -> int {
        if self.len_pages() == 0 {
            0
        } else {
            let ks = self.key_start();
            let ke = ks + self.len_pages();
            let pages: int = if self.map_type_spec() == MapType::Framed {
                self.len_pages()
            } else {
                0
            };
            pages + ((ke - 1) / 512 - ks / 512 + 1) + ((ke - 1) / 0x40000 - ks / 0x40000 + 1)
        }
    }

    /// Creates the segment spanning `[start_va, end_va)`, widened to whole
    /// pages: the start is floored, the end rounded up.
    pub fn new(start_va: VirtAddr, end_va: VirtAddr, map_type: MapType, map_perm: MapPermission)
        -> (r: MapArea)
        requires
            start_va.0 <= end_va.0,
            (start_va.0 / PAGE_SIZE) % 0x8000000 + ((end_va.0 + PAGE_SIZE - 1) / (PAGE_SIZE as int)
                - start_va.0 / PAGE_SIZE) <= 0x8000000,
            map_type == MapType::Identical ==> ((end_va.0 + PAGE_SIZE - 1) / (PAGE_SIZE as int))
                <= PPN_LIMIT,
        ensures
            r.start_vpn() == start_va.0 / PAGE_SIZE,
            r.end_vpn() == (end_va.0 + PAGE_SIZE - 1) / (PAGE_SIZE as int),
            r.map_type_spec() == map_type,
            r.map_perm_spec() == map_perm,
            r.is_fresh(),
            r.wf_base(),
    {
        let start_vpn: VirtPageNum = start_va.floor();
        let end_vpn: VirtPageNum = end_va.ceil();
        MapArea {
            vpn_range: VPNRange::new(start_vpn, end_vpn),
            data_frames: Vec::new(),
            map_type,
            map_perm,
        }
    }

    pub fn get_start(&self) -> (r: VirtPageNum)
        ensures
            r.0 == self.start_vpn(),
    {
        self.vpn_range.get_start()
    }

    pub fn get_end(&self) -> (r: VirtPageNum)
        ensures
            r.0 == self.end_vpn(),
    {
        self.vpn_range.get_end()
    }
}

/// Whether the leaf node that would hold key `p`'s entry exists, phrased
/// over the combined 18-bit leaf prefix `p / 512`.
pub open spec fn leaf_present(pt: PageTable, p: int) -> bool {
    pt.has_leaf((p / 512) / 512, (p / 512) % 512)
}

/// Whether the middle node on key `p`'s walk exists.
pub open spec fn mid_present(pt: PageTable, p: int) -> bool {
    pt.has_mid(p / 0x40000)
}

/// The root index of a key is the upper half of its leaf prefix.
pub proof fn lemma_prefix_indices(p: int)
    requires
        p >= 0,
    ensures
        key_index0(p) == (p / 512) / 512,
        key_index1(p) == (p / 512) % 512,
{
    vstd::arithmetic::div_mod::lemma_div_denominator(p, 512, 512);
}

/// Distinct keys under one leaf prefix share their walk nodes: the indices of
/// a key recompose to its prefix.
pub proof fn lemma_prefix_recompose(p: int)
    requires
        p >= 0,
    ensures
        p / 512 == ((p / 512) / 512) * 512 + (p / 512) % 512,
{
    vstd::arithmetic::div_mod::lemma_fundamental_div_mod(p / 512, 512);
}

/// One step of a division by a positive constant: the quotient stays or
/// advances by one.
pub proof fn lemma_div_step(p: int, d: int)
    requires
        p >= 0,
        d > 0,
    ensures
        (p + 1) / d == p / d || ((p + 1) / d == p / d + 1 && (p + 1) % d == 0),
        p / d <= (p + 1) / d,
{
    let q = p / d;
    let r = p % d;
    vstd::arithmetic::div_mod::lemma_fundamental_div_mod(p, d);
    vstd::arithmetic::div_mod::lemma_mod_pos_bound(p, d);
    if r + 1 < d {
        assert(p + 1 == q * d + (r + 1)) by (nonlinear_arith)
            requires
                p == d * q + r,
        ;
        vstd::arithmetic::div_mod::lemma_fundamental_div_mod_converse(p + 1, d, q, r + 1);
    } else {
        assert(p + 1 == (q + 1) * d + 0) by (nonlinear_arith)
            requires
                p == d * q + r,
                r + 1 == d,
        ;
        vstd::arithmetic::div_mod::lemma_fundamental_div_mod_converse(p + 1, d, q + 1, 0);
    }
}

impl MapArea {
    /// Maps the single page `vpn` of this segment: a framed segment draws a
    /// fresh zero-filled frame from the allocator and records it, an
    /// identical segment targets the numerically equal frame; either way the
    /// translation is installed with this segment's permissions.
    pub fn map_one(
        &mut self,
        page_table: &mut PageTable,
        vpn: VirtPageNum,
        allocator: &mut StackFrameAllocator,
    )
        requires
            old(self).wf_base(),
            old(page_table).wf(),
            old(allocator)@.wf(),
            old(allocator)@.end <= PPN_LIMIT,
            old(self).start_vpn() <= vpn.0 < old(self).end_vpn(),
            !old(page_table).mapping().contains_key(key_of(vpn)),
            old(self).map_type_spec() == MapType::Framed ==> old(self).frames_spec().len() == vpn.0
                - old(self).start_vpn(),
            old(self).map_type_spec() == MapType::Identical ==> old(self).frames_spec().len() == 0,
            old(allocator)@.free_count() >= (if old(self).map_type_spec() == MapType::Framed {
                1int
            } else {
                0int
            }) + old(page_table).nodes_needed(key_of(vpn)),
        ensures
            final(self).wf_base(),
            final(self).start_vpn() == old(self).start_vpn(),
            final(self).end_vpn() == old(self).end_vpn(),
            final(self).map_type_spec() == old(self).map_type_spec(),
            final(self).map_perm_spec() == old(self).map_perm_spec(),
            final(page_table).wf(),
            final(page_table).root_ppn_spec() == old(page_table).root_ppn_spec(),
            final(allocator)@.wf(),
            final(allocator)@.end == old(allocator)@.end,
            final(allocator)@.free_count() == old(allocator)@.free_count() - (if old(self).map_type_spec() == MapType::Framed {
                1int
            } else {
                0int
            }) - old(page_table).nodes_needed(key_of(vpn)),
            old(self).map_type_spec() == MapType::Framed ==> {
                &&& final(self).frames_spec().len() == old(self).frames_spec().len() + 1
                &&& forall|t: int|
                    0 <= t < old(self).frames_spec().len() ==> #[trigger] final(self).frames_spec()[t]
                        == old(self).frames_spec()[t]
                &&& final(self).frames_spec().last().vpn == vpn
                &&& final(self).frames_spec().last().bytes@.len() == PAGE_SIZE
                &&& forall|b: int|
                    0 <= b < PAGE_SIZE ==> final(self).frames_spec().last().bytes@[b] == 0u8
                &&& (final(self).frames_spec().last().frame.ppn.0 as u64) < PPN_LIMIT
            },
            old(self).map_type_spec() == MapType::Identical ==> final(self).frames_spec() == old(self).frames_spec(),
            final(page_table).mapping() =~= old(page_table).mapping().insert(
                key_of(vpn),
                final(self).page_pte(vpn.0 - old(self).start_vpn()),
            ),
            forall|a: int|
                #[trigger] final(page_table).has_mid(a) == (old(page_table).has_mid(a) || a
                    == key_index0(key_of(vpn))),
            forall|a: int, b: int|
                #[trigger] final(page_table).has_leaf(a, b) == (old(page_table).has_leaf(a, b) || (
                a == key_index0(key_of(vpn)) && b == key_index1(key_of(vpn)))),
    {
        let ppn: PhysPageNum;
        match self.map_type {
            MapType::Identical => {
                ppn = PhysPageNum(vpn.0);
            },
            MapType::Framed => {
                let ghost a_pre = allocator@;
                let frame = match frame_alloc(allocator) {
                    Some(f) => f,
                    None => {
                        proof {
                            assert(false);
                        }
                        return ;
                    },
                };
                proof {
                    crate::page_table::lemma_alloc_ppn_in_range(a_pre);
                }
                ppn = frame.ppn;
                let fp = FramedPage { vpn, frame, bytes: make_zero_page() };
                self.data_frames.push(fp);
            },
        }
        let pte_flags = PTEFlags { bits: self.map_perm.bits };
        let r = page_table.map(vpn, ppn, pte_flags, allocator);
        proof {
            assert(r is Ok);
        }
    }

    /// Maps every page of the segment, in ascending order, into `page_table`.
    /// The segment must be fresh, its key range unmapped, and the allocator
    /// must hold at least `frames_bound` frames; a framed segment ends up
    /// owning one zero-filled frame per page.
    pub fn map(&mut self, page_table: &mut PageTable, allocator: &mut StackFrameAllocator)
        requires
            old(self).wf_base(),
            old(self).is_fresh(),
            old(page_table).wf(),
            old(allocator)@.wf(),
            old(allocator)@.end <= PPN_LIMIT,
            forall|k: int|
                old(self).key_start() <= k < old(self).key_start() + old(self).len_pages()
                    ==> !old(page_table).mapping().contains_key(k),
            old(allocator)@.free_count() >= old(self).frames_bound(),
        ensures
            final(self).wf_mapped(),
            final(self).start_vpn() == old(self).start_vpn(),
            final(self).end_vpn() == old(self).end_vpn(),
            final(self).map_type_spec() == old(self).map_type_spec(),
            final(self).map_perm_spec() == old(self).map_perm_spec(),
            final(self).map_type_spec() == MapType::Framed ==> forall|j: int, b: int|
                0 <= j < final(self).len_pages() && 0 <= b < PAGE_SIZE ==> (#[trigger] final(self).frames_spec()[j].bytes@[b]) == 0u8,
            final(page_table).wf(),
            final(page_table).root_ppn_spec() == old(page_table).root_ppn_spec(),
            final(allocator)@.wf(),
            final(allocator)@.end == old(allocator)@.end,
            final(allocator)@.free_count() >= old(allocator)@.free_count() - old(self).frames_bound(),
            forall|k: int|
                old(self).key_start() <= k < old(self).key_start() + old(self).len_pages()
                    ==> #[trigger] final(page_table).mapping().contains_key(k) && final(page_table).mapping()[k] == final(self).page_pte(k - old(self).key_start()),
            forall|k: int|
                !(old(self).key_start() <= k < old(self).key_start() + old(self).len_pages())
                    ==> #[trigger] final(page_table).mapping().contains_key(k) == old(page_table).mapping().contains_key(k),
            forall|k: int|
                !(old(self).key_start() <= k < old(self).key_start() + old(self).len_pages())
                    && old(page_table).mapping().contains_key(k) ==> #[trigger] final(page_table).mapping()[k] == old(page_table).mapping()[k],
    {
        let start_u: usize = self.vpn_range.get_start().0;
        let end_u: usize = self.vpn_range.get_end().0;
        let len: usize = end_u - start_u;
        let framed = match self.map_type {
            MapType::Framed => true,
            MapType::Identical => false,
        };
        let ghost c: int = if framed {
            1int
        } else {
            0int
        };
        let ghost ks = old(self).key_start();
        let ghost ke = ks + old(self).len_pages();
        let mut j: usize = 0;
        while j < len
            invariant
                self.wf_base(),
                self.start_vpn() == old(self).start_vpn(),
                self.end_vpn() == old(self).end_vpn(),
                self.map_type_spec() == old(self).map_type_spec(),
                self.map_perm_spec() == old(self).map_perm_spec(),
                framed == (self.map_type_spec() == MapType::Framed),
                c == if framed {
                    1int
                } else {
                    0int
                },
                start_u == self.start_vpn(),
                end_u == self.end_vpn(),
                len == self.len_pages(),
                ks == self.key_start(),
                ke == ks + self.len_pages(),
                0 <= j <= len,
                page_table.wf(),
                page_table.root_ppn_spec() == old(page_table).root_ppn_spec(),
                allocator@.wf(),
                allocator@.end == old(allocator)@.end,
                allocator@.end <= PPN_LIMIT,
                framed ==> self.frames_spec().len() == j,
                !framed ==> self.frames_spec().len() == 0,
                framed ==> forall|t: int|
                    0 <= t < j ==> (#[trigger] self.frames_spec()[t]).vpn.0 == self.start_vpn() + t
                        && self.frames_spec()[t].bytes@.len() == PAGE_SIZE && (
                    self.frames_spec()[t].frame.ppn.0 as u64) < PPN_LIMIT,
                framed ==> forall|t: int, b: int|
                    0 <= t < j && 0 <= b < PAGE_SIZE ==> (#[trigger] self.frames_spec()[t].bytes@[b])
                        == 0u8,
                forall|k: int|
                    ks <= k < ks + j ==> #[trigger] page_table.mapping().contains_key(k)
                        && page_table.mapping()[k] == self.page_pte(k - ks),
                forall|k: int|
                    ks + j <= k < ke ==> !#[trigger] page_table.mapping().contains_key(k),
                forall|k: int|
                    !(ks <= k < ke) ==> #[trigger] page_table.mapping().contains_key(k) == old(page_table).mapping().contains_key(k),
                forall|k: int|
                    !(ks <= k < ke) && old(page_table).mapping().contains_key(k)
                        ==> #[trigger] page_table.mapping()[k] == old(page_table).mapping()[k],
                j < len ==> allocator@.free_count() >= c * (len - j) + ((ke - 1) / 512 - (ks + j)
                    / 512 + 1 - (if leaf_present(*page_table, ks + j) {
                    1int
                } else {
                    0int
                })) + ((ke - 1) / 0x40000 - (ks + j) / 0x40000 + 1 - (if mid_present(
                    *page_table,
                    ks + j,
                ) {
                    1int
                } else {
                    0int
                })),
                allocator@.free_count() >= 0,
                j > 0 ==> leaf_present(*page_table, ks + j - 1) && mid_present(
                    *page_table,
                    ks + j - 1,
                ),
                old(allocator)@.free_count() - allocator@.free_count() <= c * j + (if j > 0 {
                    (ks + j - 1) / 512 - ks / 512 + 1
                } else {
                    0int
                }) + (if j > 0 {
                    (ks + j - 1) / 0x40000 - ks / 0x40000 + 1
                } else {
                    0int
                }),
            decreases len - j,
        {
            let vpn = VirtPageNum(start_u + j);
            let ghost p = ks + j;
            proof {
                lemma_key_offset(self.start_vpn(), j as int);
                assert(key_of(vpn) == p);
                lemma_prefix_indices(p);
                lemma_prefix_recompose(p);
                vstd::arithmetic::div_mod::lemma_div_is_ordered(p, ke - 1, 512);
                vstd::arithmetic::div_mod::lemma_div_is_ordered(p, ke - 1, 0x40000);
                assert(leaf_present(*page_table, p) == page_table.has_leaf(
                    key_index0(p),
                    key_index1(p),
                ));
                assert(mid_present(*page_table, p) == page_table.has_mid(key_index0(p)));
                crate::page_table::lemma_walk_shape(*page_table, key_index0(p), key_index1(p));
                assert(page_table.nodes_needed(p) == (if leaf_present(*page_table, p) {
                    0int
                } else {
                    1int
                }) + (if mid_present(*page_table, p) {
                    0int
                } else {
                    1int
                }));
            }
            let ghost pt_pre = *page_table;
            let ghost alloc_pre = allocator@;
            let ghost self_pre = *self;
            self.map_one(page_table, vpn, allocator);
            j = j + 1;
            proof {
                assert forall|k: int|
                    ks <= k < ks + j implies #[trigger] page_table.mapping().contains_key(k)
                    && page_table.mapping()[k] == self.page_pte(k - ks) by {
                    if k < ks + j - 1 {
                        assert(pt_pre.mapping().contains_key(k));
                        assert(self.page_pte(k - ks) == self_pre.page_pte(k - ks));
                    }
                }
                lemma_prefix_indices(p);
                assert(leaf_present(*page_table, p));
                assert(mid_present(*page_table, p));
                if j > 1 {
                    lemma_div_step(p - 1, 512);
                    lemma_div_step(p - 1, 0x40000);
                    if leaf_present(pt_pre, p) {
                    } else {
                        if (p - 1) / 512 == p / 512 {
                            lemma_prefix_indices(p - 1);
                            assert(leaf_present(pt_pre, p - 1));
                            assert(leaf_present(pt_pre, p));
                            assert(false);
                        }
                    }
                    if mid_present(pt_pre, p) {
                    } else {
                        if (p - 1) / 0x40000 == p / 0x40000 {
                            assert(mid_present(pt_pre, p - 1));
                            assert(false);
                        }
                    }
                } else {
                    assert(j == 1);
                }
                if j < len {
                    let q = ks + j;
                    lemma_prefix_indices(q);
                    lemma_prefix_recompose(q);
                    lemma_div_step(p, 512);
                    lemma_div_step(p, 0x40000);
                    vstd::arithmetic::div_mod::lemma_div_is_ordered(q, ke - 1, 512);
                    vstd::arithmetic::div_mod::lemma_div_is_ordered(q, ke - 1, 0x40000);
                    lemma_div_step(p / 512, 512);
                    if leaf_present(pt_pre, p) {
                        assert(leaf_present(*page_table, p));
                    }
                    if q / 512 == p / 512 {
                        assert(leaf_present(*page_table, q));
                    }
                    if q / 0x40000 == p / 0x40000 {
                        assert(mid_present(*page_table, q));
                    }
                }
            }
        }
        proof {
            assert forall|k: int|
                ks <= k < ke implies #[trigger] final(page_table).mapping().contains_key(k)
                && final(page_table).mapping()[k] == final(self).page_pte(k - ks) by {
                assert(page_table.mapping().contains_key(k));
                assert(page_table.mapping()[k] == self.page_pte(k - ks));
            }
            assert forall|k: int|
                !(ks <= k < ke) implies #[trigger] final(page_table).mapping().contains_key(k)
                == old(page_table).mapping().contains_key(k) by {
                assert(page_table.mapping().contains_key(k) == old(page_table).mapping().contains_key(k));
            }
            assert forall|k: int|
                !(ks <= k < ke) && old(page_table).mapping().contains_key(k) implies #[trigger] final(page_table).mapping()[k] == old(page_table).mapping()[k] by {
                assert(page_table.mapping()[k] == old(page_table).mapping()[k]);
            }
        }
    }
}

impl MapArea {
    /// Unmaps the single page `vpn`: clears its translation, and for a framed
    /// segment releases the backing frame of its last recorded page, which
    /// must be `vpn`.
    pub fn unmap_one(
        &mut self,
        page_table: &mut PageTable,
        vpn: VirtPageNum,
        allocator: &mut StackFrameAllocator,
    )
        requires
            old(self).wf_base(),
            old(page_table).wf(),
            old(allocator)@.wf(),
            old(self).start_vpn() <= vpn.0 < old(self).end_vpn(),
            old(page_table).mapping().contains_key(key_of(vpn)),
            old(self).map_type_spec() == MapType::Framed ==> old(self).frames_spec().len() == vpn.0
                + 1 - old(self).start_vpn() && old(self).frames_spec().last().vpn == vpn,
            old(self).map_type_spec() == MapType::Identical ==> old(self).frames_spec().len() == 0,
        ensures
            final(self).wf_base(),
            final(self).start_vpn() == old(self).start_vpn(),
            final(self).end_vpn() == old(self).end_vpn(),
            final(self).map_type_spec() == old(self).map_type_spec(),
            final(self).map_perm_spec() == old(self).map_perm_spec(),
            old(self).map_type_spec() == MapType::Framed ==> final(self).frames_spec() == old(self).frames_spec().drop_last(),
            old(self).map_type_spec() == MapType::Identical ==> final(self).frames_spec() == old(self).frames_spec(),
            final(page_table).wf(),
            final(page_table).root_ppn_spec() == old(page_table).root_ppn_spec(),
            final(allocator)@.wf(),
            final(allocator)@.end == old(allocator)@.end,
            final(allocator)@.free_count() >= old(allocator)@.free_count(),
            final(page_table).mapping() =~= old(page_table).mapping().remove(key_of(vpn)),
    {
        match self.map_type {
            MapType::Framed => {
                let fp = match self.data_frames.pop() {
                    Some(fp) => fp,
                    None => {
                        proof {
                            assert(false);
                        }
                        return ;
                    },
                };
                // In the kernel an invalid free halts the system; the frames
                // of a mapped segment were handed out by this allocator, so
                // the release is expected to be accepted.
                let _ = frame_dealloc(allocator, fp.frame.ppn);
            },
            MapType::Identical => {},
        }
        let r = page_table.unmap(vpn);
        proof {
            assert(r is Ok);
        }
    }

    /// Unmaps every page of the segment, last page first: all translations
    /// of the range are cleared, and a framed segment releases every backing
    /// frame to the allocator.
    pub fn unmap(&mut self, page_table: &mut PageTable, allocator: &mut StackFrameAllocator)
        requires
            old(self).wf_mapped(),
            old(page_table).wf(),
            old(allocator)@.wf(),
            forall|k: int|
                old(self).key_start() <= k < old(self).key_start() + old(self).len_pages()
                    ==> #[trigger] old(page_table).mapping().contains_key(k),
        ensures
            final(self).wf_base(),
            final(self).is_fresh(),
            final(self).start_vpn() == old(self).start_vpn(),
            final(self).end_vpn() == old(self).end_vpn(),
            final(self).map_type_spec() == old(self).map_type_spec(),
            final(self).map_perm_spec() == old(self).map_perm_spec(),
            final(page_table).wf(),
            final(page_table).root_ppn_spec() == old(page_table).root_ppn_spec(),
            final(allocator)@.wf(),
            final(allocator)@.end == old(allocator)@.end,
            final(allocator)@.free_count() >= old(allocator)@.free_count(),
            forall|k: int|
                old(self).key_start() <= k < old(self).key_start() + old(self).len_pages()
                    ==> !#[trigger] final(page_table).mapping().contains_key(k),
            forall|k: int|
                !(old(self).key_start() <= k < old(self).key_start() + old(self).len_pages())
                    ==> #[trigger] final(page_table).mapping().contains_key(k) == old(page_table).mapping().contains_key(k),
            forall|k: int|
                !(old(self).key_start() <= k < old(self).key_start() + old(self).len_pages())
                    && old(page_table).mapping().contains_key(k) ==> #[trigger] final(page_table).mapping()[k] == old(page_table).mapping()[k],
    {
        let start_u: usize = self.vpn_range.get_start().0;
        let end_u: usize = self.vpn_range.get_end().0;
        let len: usize = end_u - start_u;
        let framed = match self.map_type {
            MapType::Framed => true,
            MapType::Identical => false,
        };
        let ghost ks = old(self).key_start();
        let ghost ke = ks + old(self).len_pages();
        let mut j: usize = len;
        while j > 0
            invariant
                old(self).wf_mapped(),
                self.wf_base(),
                self.start_vpn() == old(self).start_vpn(),
                self.end_vpn() == old(self).end_vpn(),
                self.map_type_spec() == old(self).map_type_spec(),
                self.map_perm_spec() == old(self).map_perm_spec(),
                framed == (self.map_type_spec() == MapType::Framed),
                start_u == self.start_vpn(),
                end_u == self.end_vpn(),
                len == self.len_pages(),
                ks == self.key_start(),
                ke == ks + self.len_pages(),
                0 <= j <= len,
                page_table.wf(),
                page_table.root_ppn_spec() == old(page_table).root_ppn_spec(),
                allocator@.wf(),
                allocator@.end == old(allocator)@.end,
                allocator@.free_count() >= old(allocator)@.free_count(),
                framed ==> self.frames_spec() == old(self).frames_spec().take(j as int),
                !framed ==> self.frames_spec().len() == 0,
                framed ==> forall|t: int|
                    0 <= t < j ==> (#[trigger] self.frames_spec()[t]).vpn.0 == self.start_vpn() + t,
                forall|k: int|
                    ks <= k < ks + j ==> #[trigger] page_table.mapping().contains_key(k),
                forall|k: int|
                    ks + j <= k < ke ==> !#[trigger] page_table.mapping().contains_key(k),
                forall|k: int|
                    !(ks <= k < ke) ==> #[trigger] page_table.mapping().contains_key(k) == old(page_table).mapping().contains_key(k),
                forall|k: int|
                    !(ks <= k < ke) && old(page_table).mapping().contains_key(k)
                        ==> #[trigger] page_table.mapping()[k] == old(page_table).mapping()[k],
            decreases j,
        {
            let vpn = VirtPageNum(start_u + j - 1);
            proof {
                lemma_key_offset(self.start_vpn(), j as int - 1);
                assert(key_of(vpn) == ks + j - 1);
                assert(page_table.mapping().contains_key(ks + j - 1));
                if framed {
                    assert(self.frames_spec().len() == j);
                    assert(self.frames_spec()[j as int - 1] == old(self).frames_spec()[j as int
                        - 1]);
                    assert(old(self).frames_spec()[j as int - 1].vpn.0 == old(self).start_vpn() + (
                    j - 1));
                    assert(self.frames_spec().last().vpn == vpn);
                }
            }
            self.unmap_one(page_table, vpn, allocator);
            j = j - 1;
            proof {
                if framed {
                    assert(self.frames_spec() =~= old(self).frames_spec().take(j as int));
                }
            }
        }
        proof {
            if framed {
                assert(self.frames_spec() =~= Seq::<FramedPage>::empty());
            }
        }
    }

    /// Copies `data` into the segment's backing frames, in page-sized chunks
    /// in page order starting at the segment's first page; bytes past the end
    /// of `data` keep their zero fill. Only a freshly mapped framed segment
    /// accepts data.
    pub fn copy_data(&mut self, data: &[u8])
        requires
            old(self).wf_mapped(),
            old(self).map_type_spec() == MapType::Framed,
            forall|j: int, b: int|
                0 <= j < old(self).len_pages() && 0 <= b < PAGE_SIZE ==> (#[trigger] old(self).frames_spec()[j].bytes@[b]) == 0u8,
            data@.len() <= old(self).len_pages() * PAGE_SIZE,
            old(self).len_pages() * PAGE_SIZE <= usize::MAX,
        ensures
            final(self).wf_mapped(),
            final(self).start_vpn() == old(self).start_vpn(),
            final(self).end_vpn() == old(self).end_vpn(),
            final(self).map_type_spec() == old(self).map_type_spec(),
            final(self).map_perm_spec() == old(self).map_perm_spec(),
            final(self).frames_spec().len() == old(self).frames_spec().len(),
            forall|j: int|
                0 <= j < old(self).len_pages() ==> (#[trigger] final(self).frames_spec()[j]).vpn
                    == old(self).frames_spec()[j].vpn && final(self).frames_spec()[j].frame.ppn
                    == old(self).frames_spec()[j].frame.ppn,
            forall|j: int, b: int|
                0 <= j < final(self).len_pages() && 0 <= b < PAGE_SIZE ==> (#[trigger] final(self).frames_spec()[j].bytes@[b]) == (if j * PAGE_SIZE + b < data@.len() {
                    data@[j * PAGE_SIZE + b]
                } else {
                    0u8
                }),
    {
        let n = self.data_frames.len();
        let mut j: usize = 0;
        while j < n
            invariant
                self.wf_mapped(),
                self.map_type_spec() == MapType::Framed,
                self.start_vpn() == old(self).start_vpn(),
                self.end_vpn() == old(self).end_vpn(),
                self.map_perm_spec() == old(self).map_perm_spec(),
                n == self.frames_spec().len(),
                n == self.len_pages(),
                0 <= j <= n,
                data@.len() <= n * PAGE_SIZE,
                n * PAGE_SIZE <= usize::MAX,
                forall|t: int|
                    0 <= t < n ==> (#[trigger] self.frames_spec()[t]).vpn == old(self).frames_spec()[t].vpn && self.frames_spec()[t].frame.ppn == old(self).frames_spec()[t].frame.ppn,
                forall|t: int, b: int|
                    0 <= t < j && 0 <= b < PAGE_SIZE ==> (#[trigger] self.frames_spec()[t].bytes@[b])
                        == (if t * PAGE_SIZE + b < data@.len() {
                        data@[t * PAGE_SIZE + b]
                    } else {
                        0u8
                    }),
                forall|t: int, b: int|
                    j <= t < n && 0 <= b < PAGE_SIZE ==> (#[trigger] self.frames_spec()[t].bytes@[b])
                        == 0u8,
            decreases n - j,
        {
            proof {
                vstd::arithmetic::mul::lemma_mul_inequality(j as int + 1, n as int, PAGE_SIZE as int);
                vstd::arithmetic::mul::lemma_mul_is_distributive_add_other_way(
                    PAGE_SIZE as int,
                    j as int,
                    1,
                );
            }
            let off: usize = j * PAGE_SIZE;
            let fp = &mut self.data_frames[j];
            copy_page_bytes(&mut fp.bytes, data, off);
            j = j + 1;
        }
    }
}

impl MapArea {
    /// Reads one byte of a framed segment's memory image: page `page_index`
    /// of the segment, byte `offset` within that page. This is the model's
    /// view of the frame contents the kernel would read through physical
    /// memory.
    pub fn read_byte(&self, page_index: usize, offset: usize) -> (r: u8)
        requires
            self.wf_mapped(),
            self.map_type_spec() == MapType::Framed,
            page_index < self.len_pages(),
            offset < PAGE_SIZE,
        ensures
            r == self.frames_spec()[page_index as int].bytes@[offset as int],
    {
        self.data_frames[page_index].bytes[offset]
    }
}

/// Copies into a zero-filled page the bytes of `data` starting at `off`,
/// stopping at the end of the page or of `data`.
fn copy_page_bytes(page: &mut Vec<u8>, data: &[u8], off: usize)
    requires
        old(page)@.len() == PAGE_SIZE,
        forall|b: int| 0 <= b < PAGE_SIZE ==> old(page)@[b] == 0u8,
        off + PAGE_SIZE <= usize::MAX,
    ensures
        final(page)@.len() == PAGE_SIZE,
        forall|b: int|
            0 <= b < PAGE_SIZE ==> (#[trigger] final(page)@[b]) == (if off + b < data@.len() {
                data@[off + b]
            } else {
                0u8
            }),
{
    let mut b: usize = 0;
    while b < PAGE_SIZE
        invariant
            page@.len() == PAGE_SIZE,
            0 <= b <= PAGE_SIZE,
            off + PAGE_SIZE <= usize::MAX,
            forall|t: int|
                0 <= t < b ==> (#[trigger] page@[t]) == (if off + t < data@.len() {
                    data@[off + t]
                } else {
                    0u8
                }),
            forall|t: int| b <= t < PAGE_SIZE ==> (#[trigger] page@[t]) == 0u8,
        decreases PAGE_SIZE - b,
    {
        if off + b < data.len() {
            let value = *vstd::slice::slice_index_get(data, off + b);
            page.set(b, value);
        }
        b = b + 1;
    }
}

/// A full page of zero bytes: the initial contents of a freshly allocated
/// frame.
fn make_zero_page() -> (v: Vec<u8>)
    ensures
        v@.len() == PAGE_SIZE,
        forall|i: int| 0 <= i < PAGE_SIZE ==> v@[i] == 0u8,
{
    let mut v: Vec<u8> = Vec::new();
    let mut i: usize = 0;
    while i < PAGE_SIZE
        invariant
            i <= PAGE_SIZE,
            v@.len() == i,
            forall|j: int| 0 <= j < i ==> v@[j] == 0u8,
        decreases PAGE_SIZE - i,
    {
        v.push(0u8);
        i = i + 1;
    }
    v
}

/// Adding an offset inside the same 27-bit window leaves the translation key
/// linear: consecutive pages occupy consecutive keys.
pub proof fn lemma_key_offset(v: int, j: int)
    requires
        0 <= v,
        0 <= j,
        v % 0x8000000 + j < 0x8000000,
    ensures
        (v + j) % 0x8000000 == v % 0x8000000 + j,
{
    vstd::arithmetic::div_mod::lemma_fundamental_div_mod(v, 0x8000000);
    vstd::arithmetic::div_mod::lemma_fundamental_div_mod_converse_mod(
        v + j,
        0x8000000,
        v / 0x8000000,
        v % 0x8000000 + j,
    );
}


/// An address space: one page table plus the ordered collection of logical
/// segments mapped into it. The trampoline page is mapped directly, outside
/// any segment.
pub struct MemorySet {
    page_table: PageTable,
    areas: Vec<MapArea>,
}

/// Whether two segments occupy disjoint translation-key windows (an empty
/// segment is disjoint from everything).
pub open spec fn areas_disjoint(a: MapArea, b: MapArea) -> bool {
    ||| a.len_pages() == 0
    ||| b.len_pages() == 0
    ||| a.key_start() + a.len_pages() <= b.key_start()
    ||| b.key_start() + b.len_pages() <= a.key_start()
}

impl MemorySet {
    /// The underlying page table.
    pub closed spec fn pt_spec(self) -> PageTable {
        self.page_table
    }

    /// The translation relation of this address space.
    pub open spec fn mapping(self) -> Map<int, PageTableEntry> {
        self.pt_spec().mapping()
    }

    /// The segments of this address space, in insertion order.
    pub closed spec fn areas_spec(self) -> Seq<MapArea> {
        self.areas@
    }

    /// A segment fully installed in this address space: internally
    /// consistent, with every one of its pages translated.
    pub open spec fn area_installed(self, a: MapArea) -> bool {
        &&& a.wf_mapped()
        &&& forall|k: int|
            a.key_start() <= k < a.key_start() + a.len_pages() ==> #[trigger] self.mapping().contains_key(
                k,
            )
    }

    /// Structural invariant of an address space.
    pub open spec fn wf(self) -> bool {
        &&& self.pt_spec().wf()
        &&& (self.pt_spec().root_ppn_spec() as u64) < PPN_LIMIT
        &&& forall|i: int|
            0 <= i < self.areas_spec().len() ==> self.area_installed(
                #[trigger] self.areas_spec()[i],
            )
        &&& forall|i: int, j: int|
            0 <= i < self.areas_spec().len() && 0 <= j < self.areas_spec().len() && i != j
                ==> areas_disjoint(#[trigger] self.areas_spec()[i], #[trigger] self.areas_spec()[j])
    }

    /// Creates an empty address space: a fresh root table and no segments.
    /// Fails exactly when the allocator is exhausted.
    pub fn new_bare(allocator: &mut StackFrameAllocator) -> (r: Result<MemorySet, PagingError>)
        requires
            old(allocator)@.wf(),
            old(allocator)@.end <= PPN_LIMIT,
        ensures
            final(allocator)@.wf(),
            final(allocator)@.end == old(allocator)@.end,
            r is Err <==> old(allocator)@.free_count() == 0,
            r is Err ==> r == Err::<MemorySet, PagingError>(PagingError::FrameExhausted) && final(allocator)@ == old(allocator)@,
            r is Ok ==> {
                &&& r.unwrap().wf()
                &&& r.unwrap().mapping() =~= Map::<int, PageTableEntry>::empty()
                &&& r.unwrap().areas_spec().len() == 0
                &&& final(allocator)@.free_count() == old(allocator)@.free_count() - 1
            },
    {
        let ghost a_pre = allocator@;
        let page_table = match PageTable::new(allocator) {
            Ok(pt) => pt,
            Err(e) => {
                return Err(e);
            },
        };
        proof {
            crate::page_table::lemma_alloc_ppn_in_range(a_pre);
        }
        let ms = MemorySet { page_table, areas: Vec::new() };
        proof {
            assert(ms.mapping() =~= Map::<int, PageTableEntry>::empty());
            assert((ms.pt_spec().root_ppn_spec() as u64) < PPN_LIMIT);
        }
        Ok(ms)
    }

    /// The control-register encoding selecting this address space's root
    /// table.
    pub fn token(&self) -> (r: u64)
        requires
            self.wf(),
        ensures
            r == self.pt_spec().token_spec(),
    {
        self.page_table.token()
    }

    /// Read-only translation of one virtual page through this address
    /// space's table.
    pub fn translate(&self, vpn: VirtPageNum) -> (r: Option<PageTableEntry>)
        requires
            self.wf(),
        ensures
            r == self.pt_spec().translate_spec(vpn),
            self.mapping().contains_key(key_of(vpn)) ==> r is Some && r.unwrap() == self.mapping()[key_of(vpn)] && r.unwrap().spec_valid(),
            !self.mapping().contains_key(key_of(vpn)) ==> (r is None || !r.unwrap().spec_valid()),
    {
        self.page_table.translate(vpn)
    }

    /// Installs a segment: maps every page, optionally copies initial data
    /// into a framed segment's frames, and records the segment.
    #[verifier::rlimit(100)]
    fn push(
        &mut self,
        map_area: MapArea,
        data: Option<&[u8]>,
        allocator: &mut StackFrameAllocator,
        area0: Ghost<MapArea>,
    )
        requires
            area0@ == map_area,
            old(self).wf(),
            old(allocator)@.wf(),
            old(allocator)@.end <= PPN_LIMIT,
            map_area.wf_base(),
            map_area.is_fresh(),
            forall|k: int|
                map_area.key_start() <= k < map_area.key_start() + map_area.len_pages()
                    ==> !old(self).mapping().contains_key(k),
            old(allocator)@.free_count() >= map_area.frames_bound(),
            data is Some ==> map_area.map_type_spec() == MapType::Framed && data.unwrap()@.len()
                <= map_area.len_pages() * PAGE_SIZE && map_area.len_pages() * PAGE_SIZE
                <= usize::MAX,
        ensures
            final(self).wf(),
            final(allocator)@.wf(),
            final(allocator)@.end == old(allocator)@.end,
            final(allocator)@.free_count() >= old(allocator)@.free_count()
                - map_area.frames_bound(),
            final(self).areas_spec().len() == old(self).areas_spec().len() + 1,
            forall|i: int|
                0 <= i < old(self).areas_spec().len() ==> #[trigger] final(self).areas_spec()[i]
                    == old(self).areas_spec()[i],
            final(self).areas_spec().last().start_vpn() == area0@.start_vpn(),
            final(self).areas_spec().last().end_vpn() == area0@.end_vpn(),
            final(self).areas_spec().last().map_type_spec() == area0@.map_type_spec(),
            final(self).areas_spec().last().map_perm_spec() == area0@.map_perm_spec(),
            forall|k: int|
                area0@.key_start() <= k < area0@.key_start() + area0@.len_pages()
                    ==> #[trigger] final(self).mapping().contains_key(k) && final(self).mapping()[k]
                    == final(self).areas_spec().last().page_pte(k - area0@.key_start()),
            forall|k: int|
                !(area0@.key_start() <= k < area0@.key_start() + area0@.len_pages())
                    ==> #[trigger] final(self).mapping().contains_key(k) == old(self).mapping().contains_key(k),
            forall|k: int|
                !(area0@.key_start() <= k < area0@.key_start() + area0@.len_pages()) && old(self).mapping().contains_key(k) ==> #[trigger] final(self).mapping()[k] == old(self).mapping()[k],
            data is Some ==> forall|j: int, b: int|
                0 <= j < area0@.len_pages() && 0 <= b < PAGE_SIZE ==> (#[trigger] final(self).areas_spec().last().frames_spec()[j].bytes@[b]) == (if j * PAGE_SIZE + b
                    < data.unwrap()@.len() {
                    data.unwrap()@[j * PAGE_SIZE + b]
                } else {
                    0u8
                }),
    {
        let mut map_area = map_area;
        proof {
            assert forall|k: int|
                map_area.key_start() <= k < map_area.key_start() + map_area.len_pages() implies !self.page_table.mapping().contains_key(k) by {
                assert(!old(self).mapping().contains_key(k));
            }
        }
        let ghost ma0 = map_area;
        map_area.map(&mut self.page_table, allocator);
        let ghost ma_mid = map_area;
        let ghost ma_pt = self.page_table;
        proof {
            assert forall|k: int|
                ma0.key_start() <= k < ma0.key_start() + ma0.len_pages() implies #[trigger] ma_pt.mapping().contains_key(k) && ma_pt.mapping()[k] == ma_mid.page_pte(
                k - ma0.key_start()) by {
                assert(ma_pt == self.page_table);
            }
            assert forall|k: int|
                !(ma0.key_start() <= k < ma0.key_start() + ma0.len_pages()) implies #[trigger] ma_pt.mapping().contains_key(k) == old(self).mapping().contains_key(k) by {
                assert(ma_pt == self.page_table);
            }
            assert forall|k: int|
                !(ma0.key_start() <= k < ma0.key_start() + ma0.len_pages()) && old(self).mapping().contains_key(k) implies #[trigger] ma_pt.mapping()[k] == old(self).mapping()[k] by {
                assert(ma_pt == self.page_table);
            }
        }
        match data {
            Some(d) => {
                map_area.copy_data(d);
            },
            None => {},
        }
        let ghost ks = map_area.key_start();
        let ghost ke = ks + map_area.len_pages();
        let ghost ma = map_area;
        self.areas.push(map_area);
        proof {
            let pre = *old(self);
            assert(final(self).areas_spec() =~= pre.areas_spec().push(ma));
            assert(final(self).areas_spec().last() == ma);
            assert(ma.wf_mapped());
            assert(final(self).pt_spec() == ma_pt);
            assert forall|j: int| 0 <= j < ma.len_pages() implies #[trigger] ma.page_pte(j)
                == ma_mid.page_pte(j) by {
                if ma.map_type_spec() == MapType::Framed {
                    assert(ma.frames_spec()[j].frame.ppn == ma_mid.frames_spec()[j].frame.ppn);
                }
            }
            assert forall|k: int|
                area0@.key_start() <= k < area0@.key_start() + area0@.len_pages() implies #[trigger] final(self).mapping().contains_key(k) && final(self).mapping()[k]
                == final(self).areas_spec().last().page_pte(k - area0@.key_start()) by {
                assert(ks == ma0.key_start() && ke == ma0.key_start() + ma0.len_pages());
                assert(ma_pt.mapping().contains_key(k));
                assert(ma_pt.mapping()[k] == ma_mid.page_pte(k - ma0.key_start()));
                assert(ma.page_pte(k - ks) == ma_mid.page_pte(k - ks));
            }
            assert forall|k: int|
                !(ks <= k < ke) implies #[trigger] final(self).mapping().contains_key(k) == pre.mapping().contains_key(k) by {
                assert(ma_pt.mapping().contains_key(k) == pre.mapping().contains_key(k));
            }
            assert forall|k: int|
                !(ks <= k < ke) && pre.mapping().contains_key(k) implies #[trigger] final(self).mapping()[k] == pre.mapping()[k] by {
                assert(ma_pt.mapping()[k] == pre.mapping()[k]);
            }
            assert forall|i: int|
                0 <= i < final(self).areas_spec().len() implies final(self).area_installed(
                #[trigger] final(self).areas_spec()[i],
            ) by {
                if i < pre.areas_spec().len() {
                    let a = pre.areas_spec()[i];
                    assert(pre.area_installed(a));
                    assert forall|k: int|
                        a.key_start() <= k < a.key_start() + a.len_pages() implies #[trigger] final(self).mapping().contains_key(k) by {
                        assert(pre.mapping().contains_key(k));
                        assert(!(ks <= k < ke));
                        assert(ma_pt.mapping().contains_key(k));
                    }
                    assert(a.wf_mapped());
                    assert(final(self).area_installed(a));
                } else {
                    assert(final(self).areas_spec()[i] == ma);
                    assert forall|k: int|
                        ma.key_start() <= k < ma.key_start() + ma.len_pages() implies #[trigger] final(self).mapping().contains_key(k) by {
                        assert(ma_pt.mapping().contains_key(k));
                    }
                    assert(ma.wf_mapped());
                    assert(final(self).area_installed(ma));
                }
            }
            assert forall|i: int, j: int|
                0 <= i < final(self).areas_spec().len() && 0 <= j < final(self).areas_spec().len()
                    && i != j implies areas_disjoint(
                #[trigger] final(self).areas_spec()[i],
                #[trigger] final(self).areas_spec()[j],
            ) by {
                let n = pre.areas_spec().len() as int;
                if i < n && j < n {
                    assert(areas_disjoint(pre.areas_spec()[i], pre.areas_spec()[j]));
                } else {
                    let a = if i < n {
                        pre.areas_spec()[i]
                    } else {
                        pre.areas_spec()[j]
                    };
                    let b = ma;
                    assert(pre.area_installed(a));
                    if a.len_pages() > 0 && b.len_pages() > 0 && !(a.key_start() + a.len_pages()
                        <= b.key_start()) && !(b.key_start() + b.len_pages() <= a.key_start()) {
                        let k = if b.key_start() >= a.key_start() {
                            b.key_start()
                        } else {
                            a.key_start()
                        };
                        assert(a.key_start() <= k < a.key_start() + a.len_pages());
                        assert(pre.mapping().contains_key(k));
                        assert(ks <= k < ke);
                    }
                }
            }
        }
    }

    /// Carves a user-accessible framed segment out of this address space, as
    /// the task layer does for per-task kernel stacks.
    pub fn insert_framed_area(
        &mut self,
        start_va: VirtAddr,
        end_va: VirtAddr,
        permission: MapPermission,
        allocator: &mut StackFrameAllocator,
    )
        requires
            old(self).wf(),
            old(allocator)@.wf(),
            old(allocator)@.end <= PPN_LIMIT,
            start_va.0 <= end_va.0,
            (start_va.0 / PAGE_SIZE) % 0x8000000 + ((end_va.0 + PAGE_SIZE - 1) / (PAGE_SIZE as int)
                - start_va.0 / PAGE_SIZE) <= 0x8000000,
            forall|k: int|
                (start_va.0 / PAGE_SIZE) % 0x8000000 <= k < (start_va.0 / PAGE_SIZE) % 0x8000000 + (
                (end_va.0 + PAGE_SIZE - 1) / (PAGE_SIZE as int) - start_va.0 / PAGE_SIZE)
                    ==> !old(self).mapping().contains_key(k),
            old(allocator)@.free_count() >= ((end_va.0 + PAGE_SIZE - 1) / (PAGE_SIZE as int)
                - start_va.0 / PAGE_SIZE) + 4 + ((end_va.0 + PAGE_SIZE - 1) / (PAGE_SIZE as int)
                - start_va.0 / PAGE_SIZE) / 512 + ((end_va.0 + PAGE_SIZE - 1) / (PAGE_SIZE as int)
                - start_va.0 / PAGE_SIZE) / 0x40000,
        ensures
            final(self).wf(),
            final(allocator)@.wf(),
            final(allocator)@.end == old(allocator)@.end,
            final(self).areas_spec().len() == old(self).areas_spec().len() + 1,
            forall|k: int|
                (start_va.0 / PAGE_SIZE) % 0x8000000 <= k < (start_va.0 / PAGE_SIZE) % 0x8000000 + (
                (end_va.0 + PAGE_SIZE - 1) / (PAGE_SIZE as int) - start_va.0 / PAGE_SIZE)
                    ==> #[trigger] final(self).mapping().contains_key(k) && final(self).mapping()[k].spec_flags() == (permission.bits | PTE_V),
            forall|k: int|
                !((start_va.0 / PAGE_SIZE) % 0x8000000 <= k < (start_va.0 / PAGE_SIZE) % 0x8000000
                    + ((end_va.0 + PAGE_SIZE - 1) / (PAGE_SIZE as int) - start_va.0 / PAGE_SIZE))
                    ==> #[trigger] final(self).mapping().contains_key(k) == old(self).mapping().contains_key(k),
            forall|k: int|
                !((start_va.0 / PAGE_SIZE) % 0x8000000 <= k < (start_va.0 / PAGE_SIZE) % 0x8000000
                    + ((end_va.0 + PAGE_SIZE - 1) / (PAGE_SIZE as int) - start_va.0 / PAGE_SIZE))
                    && old(self).mapping().contains_key(k) ==> #[trigger] final(self).mapping()[k]
                    == old(self).mapping()[k],
    {
        let area = MapArea::new(start_va, end_va, MapType::Framed, permission);
        proof {
            lemma_area_bound_le(area);
        }
        self.push(area, None, allocator, Ghost(area));
        proof {
            lemma_area_pte_flags(self.areas_spec().last());
        }
    }
}

/// The worst-case frame consumption of a segment is bounded by its page count
/// plus the prefix counts of its key window.
pub proof fn lemma_area_bound_le(a: MapArea)
    requires
        a.wf_base(),
    ensures
        a.frames_bound() <= a.len_pages() + 4 + a.len_pages() / 512 + a.len_pages() / 0x40000,
{
    if a.len_pages() > 0 {
        let ks = a.key_start();
        let ke = ks + a.len_pages();
        vstd::arithmetic::div_mod::lemma_div_is_ordered(ks, ke - 1, 512);
        vstd::arithmetic::div_mod::lemma_div_is_ordered(ks, ke - 1, 0x40000);
        lemma_div_window(ks, ke, 512);
        lemma_div_window(ks, ke, 0x40000);
        vstd::arithmetic::div_mod::lemma_div_is_ordered(ke - 1 - ks, a.len_pages(), 512);
        vstd::arithmetic::div_mod::lemma_div_is_ordered(ke - 1 - ks, a.len_pages(), 0x40000);
    }
}

/// A window of keys spanning `n` values touches at most `n / d + 2` distinct
/// quotients by `d`.
proof fn lemma_div_window(ks: int, ke: int, d: int)
    requires
        0 <= ks < ke,
        d > 0,
    ensures
        (ke - 1) / d - ks / d <= (ke - 1 - ks) / d + 1,
{
    vstd::arithmetic::div_mod::lemma_fundamental_div_mod(ks, d);
    vstd::arithmetic::div_mod::lemma_fundamental_div_mod(ke - 1, d);
    vstd::arithmetic::div_mod::lemma_fundamental_div_mod(ke - 1 - ks, d);
    let q1 = ks / d;
    let r1 = ks % d;
    let q2 = (ke - 1) / d;
    let r2 = (ke - 1) % d;
    let q3 = (ke - 1 - ks) / d;
    let r3 = (ke - 1 - ks) % d;
    assert(d * q2 + r2 - (d * q1 + r1) == d * q3 + r3);
    vstd::arithmetic::mul::lemma_mul_is_distributive_sub(d, q2, q1);
    vstd::arithmetic::mul::lemma_mul_is_distributive_add(d, q3, 0);
    if q2 - q1 > q3 + 1 {
        assert(d * (q2 - q1) >= d * (q3 + 2)) by (nonlinear_arith)
            requires
                d > 0,
                q2 - q1 >= q3 + 2,
        ;
        vstd::arithmetic::mul::lemma_mul_is_distributive_add(d, q3, 2);
        assert(false);
    }
}

/// Every page of an installed segment carries the segment's permission bits
/// plus the valid flag in its entry.
pub proof fn lemma_area_pte_flags(a: MapArea)
    ensures
        forall|j: int| (#[trigger] a.page_pte(j)).spec_flags() == (a.map_perm_spec().bits | PTE_V),
{
    assert forall|j: int| (#[trigger] a.page_pte(j)).spec_flags() == (a.map_perm_spec().bits
        | PTE_V) by {
        let p = a.page_ppn(j) as usize as u64;
        let f = a.map_perm_spec().bits;
        assert((((p << 10) | ((f | 1) as u64)) & 0xFF) as u8 == f | 1) by (bit_vector);
    }
}


/// Rounding a nonnegative byte count up to pages agrees with the branching
/// form of `ceil`.
pub proof fn lemma_ceil_form(x: int)
    requires
        x >= 0,
    ensures
        (x + PAGE_SIZE - 1) / (PAGE_SIZE as int) == if x % (PAGE_SIZE as int) == 0 {
            x / (PAGE_SIZE as int)
        } else {
            x / (PAGE_SIZE as int) + 1
        },
{
    vstd::arithmetic::div_mod::lemma_fundamental_div_mod(x, PAGE_SIZE as int);
    vstd::arithmetic::div_mod::lemma_mod_pos_bound(x, PAGE_SIZE as int);
    let q = x / PAGE_SIZE as int;
    let r = x % PAGE_SIZE as int;
    if r == 0 {
        assert(x + PAGE_SIZE - 1 == q * PAGE_SIZE + (PAGE_SIZE - 1)) by (nonlinear_arith)
            requires
                x == PAGE_SIZE as int * q + r,
                r == 0,
        ;
        vstd::arithmetic::div_mod::lemma_fundamental_div_mod_converse(
            x + PAGE_SIZE - 1,
            PAGE_SIZE as int,
            q,
            PAGE_SIZE - 1,
        );
    } else {
        assert(x + PAGE_SIZE - 1 == (q + 1) * PAGE_SIZE + (r - 1)) by (nonlinear_arith)
            requires
                x == PAGE_SIZE as int * q + r,
        ;
        vstd::arithmetic::div_mod::lemma_fundamental_div_mod_converse(
            x + PAGE_SIZE - 1,
            PAGE_SIZE as int,
            q + 1,
            r - 1,
        );
    }
}

/// Number of pages the request `mmap(start, len, ..)` spans: from the floor
/// of `start` to the ceiling of `start + len`.
pub open spec fn mmap_pages(start: usize, len: usize) -> int {
    (start + len + PAGE_SIZE - 1) / (PAGE_SIZE as int) - start / PAGE_SIZE
}

/// Frames demanded before an `mmap` request is admitted: one per page plus
/// the worst-case table nodes of the walk.
pub open spec fn mmap_frames_needed(start: usize, len: usize) -> int {
    mmap_pages(start, len) + 4 + mmap_pages(start, len) / 512 + mmap_pages(start, len) / 0x40000
}

impl MemorySet {
    /// When a dynamic-mapping request succeeds: the permission bits encode a
    /// non-empty subset of read/write/execute and nothing else, the start is
    /// page-aligned, the range neither overflows the address arithmetic nor
    /// wraps the 27-bit index space, no page of it is already translated, and
    /// the allocator can admit the worst-case frame demand.
    pub open spec fn mmap_ok(
        self,
        a: crate::frame_allocator::FrameAllocModel,
        start: usize,
        len: usize,
        port: usize,
    ) -> bool {
        &&& 1 <= port <= 7
        &&& start % PAGE_SIZE == 0
        &&& start + len <= usize::MAX
        &&& (start / PAGE_SIZE) % 0x8000000 + mmap_pages(start, len) <= 0x8000000
        &&& forall|k: int|
            (start / PAGE_SIZE) % 0x8000000 <= k < (start / PAGE_SIZE) % 0x8000000 + mmap_pages(
                start,
                len,
            ) ==> !self.mapping().contains_key(k)
        &&& a.free_count() >= mmap_frames_needed(start, len)
    }

    /// Dynamic mapping for the memory-allocation system call: validates the
    /// request, then installs one user-accessible framed segment over the
    /// whole range. Returns zero on success and a negative status on
    /// rejection, leaving everything unchanged in that case.
    pub fn mmap(
        &mut self,
        start: usize,
        len: usize,
        port: usize,
        allocator: &mut StackFrameAllocator,
    ) -> (r: isize)
        requires
            old(self).wf(),
            old(allocator)@.wf(),
            old(allocator)@.end <= PPN_LIMIT,
        ensures
            final(self).wf(),
            final(allocator)@.wf(),
            final(allocator)@.end == old(allocator)@.end,
            r == 0 || r == -1,
            r == 0 <==> old(self).mmap_ok(old(allocator)@, start, len, port),
            r == -1 ==> *final(self) == *old(self) && final(allocator)@ == old(allocator)@,
            r == 0 ==> forall|k: int|
                (start / PAGE_SIZE) % 0x8000000 <= k < (start / PAGE_SIZE) % 0x8000000 + mmap_pages(
                    start,
                    len,
                ) ==> #[trigger] final(self).mapping().contains_key(k) && final(self).mapping()[k].spec_flags() == (((port as u8) << 1) | MAP_PERM_U | PTE_V),
            r == 0 ==> forall|k: int|
                !((start / PAGE_SIZE) % 0x8000000 <= k < (start / PAGE_SIZE) % 0x8000000
                    + mmap_pages(start, len)) ==> #[trigger] final(self).mapping().contains_key(k)
                    == old(self).mapping().contains_key(k),
            r == 0 ==> forall|k: int|
                !((start / PAGE_SIZE) % 0x8000000 <= k < (start / PAGE_SIZE) % 0x8000000
                    + mmap_pages(start, len)) && old(self).mapping().contains_key(k)
                    ==> #[trigger] final(self).mapping()[k] == old(self).mapping()[k],
    {
        if port == 0 || port > 7 {
            return -1;
        }
        let start_va = VirtAddr(start);
        if !start_va.aligned() {
            return -1;
        }
        if len > usize::MAX - start {
            return -1;
        }
        let end_va = VirtAddr(start + len);
        let start_vpn = start_va.floor();
        let end_vpn = end_va.ceil();
        proof {
            lemma_ceil_form((start + len) as int);
        }
        let pages: usize = end_vpn.0 - start_vpn.0;
        let ks_exec: usize = start_vpn.0 % 0x8000000;
        if ks_exec + pages > 0x8000000 {
            return -1;
        }
        let ghost ks = (start / PAGE_SIZE) as int % 0x8000000;
        // No page of the requested range may already be translated.
        let mut j: usize = 0;
        while j < pages
            invariant
                old(self).wf(),
                *self == *old(self),
                allocator@ == old(allocator)@,
                old(allocator)@.wf(),
                0 <= j <= pages,
                start_vpn.0 == start / PAGE_SIZE,
                start_vpn.0 + pages == (start + len + PAGE_SIZE - 1) / (PAGE_SIZE as int),
                ks == start_vpn.0 as int % 0x8000000,
                ks + pages <= 0x8000000,
                forall|k: int| ks <= k < ks + j ==> !#[trigger] self.mapping().contains_key(k),
            decreases pages - j,
        {
            let vpn = VirtPageNum(start_vpn.0 + j);
            proof {
                lemma_key_offset(start_vpn.0 as int, j as int);
                assert(key_of(vpn) == ks + j);
            }
            let pte = self.translate(vpn);
            let hit = match pte {
                Some(e) => e.is_valid(),
                None => false,
            };
            if hit {
                proof {
                    assert(self.mapping().contains_key(ks + j));
                }
                return -1;
            }
            proof {
                assert(!self.mapping().contains_key(ks + j));
            }
            j = j + 1;
        }
        let needed: usize = pages + 4 + pages / 512 + pages / 0x40000;
        if frame_remain_num(allocator) < needed {
            return -1;
        }
        let perm = MapPermission { bits: ((port as u8) << 1) | MAP_PERM_U };
        let area = MapArea::new(start_va, end_va, MapType::Framed, perm);
        proof {
            lemma_area_bound_le(area);
        }
        self.push(area, None, allocator, Ghost(area));
        proof {
            lemma_area_pte_flags(self.areas_spec().last());
        }
        0
    }
}


/// A nonempty segment whose page range lies entirely inside `[lo, hi)`.
pub open spec fn area_contained(a: MapArea, lo: int, hi: int) -> bool {
    lo <= a.start_vpn() && a.end_vpn() <= hi && a.start_vpn() < a.end_vpn()
}

/// Whether `[lo, hi)` is exactly tiled by whole segments of `areas`: either
/// it is empty, or some contained segment starts at `lo` and the rest of the
/// range is tiled in turn.
pub open spec fn munmap_cover(areas: Seq<MapArea>, lo: int, hi: int) -> bool
    decreases hi - lo,
{
    if lo >= hi {
        lo == hi
    } else {
        exists|i: int|
            0 <= i < areas.len() && (#[trigger] areas[i]).start_vpn() == lo && lo < areas[i].end_vpn()
                <= hi && munmap_cover(areas, areas[i].end_vpn(), hi)
    }
}

impl MemorySet {
    /// Removes dynamic mappings: succeeds exactly when the page range from
    /// the floor of `start` to the ceiling of `start + len` is tiled by whole
    /// segments, in which case those segments are torn down — every
    /// translation of the range removed and every backing frame released —
    /// and the other segments survive untouched. Returns zero on success and
    /// a negative status otherwise, changing nothing on rejection.
    pub fn munmap(&mut self, start: usize, len: usize, allocator: &mut StackFrameAllocator) -> (r:
        isize)
        requires
            old(self).wf(),
            old(allocator)@.wf(),
        ensures
            final(self).wf(),
            final(allocator)@.wf(),
            final(allocator)@.end == old(allocator)@.end,
            r == 0 || r == -1,
            r == 0 <==> start + len <= usize::MAX && munmap_cover(
                old(self).areas_spec(),
                (start / PAGE_SIZE) as int,
                (start + len + PAGE_SIZE - 1) / (PAGE_SIZE as int),
            ),
            r == -1 ==> *final(self) == *old(self) && final(allocator)@ == old(allocator)@,
            r == 0 ==> forall|v: int|
                start / PAGE_SIZE <= v < (start + len + PAGE_SIZE - 1) / (PAGE_SIZE as int)
                    ==> !#[trigger] final(self).mapping().contains_key(v % 0x8000000),
            r == 0 ==> forall|k: int|
                #[trigger] final(self).mapping().contains_key(k) ==> old(self).mapping().contains_key(k) && final(self).mapping()[k] == old(self).mapping()[k],
            r == 0 ==> forall|i: int|
                0 <= i < old(self).areas_spec().len() && !area_contained(
                    #[trigger] old(self).areas_spec()[i],
                    (start / PAGE_SIZE) as int,
                    (start + len + PAGE_SIZE - 1) / (PAGE_SIZE as int),
                ) ==> exists|j: int|
                    0 <= j < final(self).areas_spec().len() && final(self).areas_spec()[j] == old(self).areas_spec()[i],
    {
        if len > usize::MAX - start {
            return -1;
        }
        let lo: usize = VirtAddr(start).floor().0;
        let hi_vpn = VirtAddr(start + len).ceil();
        proof {
            lemma_ceil_form((start + len) as int);
        }
        let hi: usize = hi_vpn.0;
        let ghost areas0 = self.areas_spec();
        // First pass: walk the claimed tiling without touching anything.
        let mut cur: usize = lo;
        while cur < hi
            invariant
                old(self).wf(),
                *self == *old(self),
                allocator@ == old(allocator)@,
                old(allocator)@.wf(),
                lo <= cur <= hi,
                start + len <= usize::MAX,
                lo == start / PAGE_SIZE,
                hi == (start + len + PAGE_SIZE - 1) / (PAGE_SIZE as int),
                areas0 == old(self).areas_spec(),
                areas0 == self.areas_spec(),
                munmap_cover(areas0, lo as int, hi as int) == munmap_cover(
                    areas0,
                    cur as int,
                    hi as int,
                ),
            decreases hi - cur,
        {
            let mut found = false;
            let mut found_end: usize = 0;
            let ghost found_i: int = 0;
            let n = self.areas.len();
            let mut i: usize = 0;
            while i < n
                invariant
                    old(self).wf(),
                    *self == *old(self),
                    areas0 == self.areas_spec(),
                    n == self.areas.len(),
                    0 <= i <= n,
                    lo <= cur < hi,
                    !found ==> forall|t: int|
                        0 <= t < i ==> !((#[trigger] areas0[t]).start_vpn() == cur && cur
                            < areas0[t].end_vpn() <= hi),
                    found ==> 0 <= found_i < n && areas0[found_i].start_vpn() == cur && cur
                        < areas0[found_i].end_vpn() <= hi && found_end == areas0[found_i].end_vpn(),
                decreases n - i,
            {
                if !found {
                    let s_v = self.areas[i].get_start();
                    let e_v = self.areas[i].get_end();
                    if s_v.0 == cur && e_v.0 <= hi && e_v.0 > cur {
                        found = true;
                        found_end = e_v.0;
                        proof {
                            found_i = i as int;
                        }
                    }
                }
                i = i + 1;
            }
            if !found {
                proof {
                    assert(!munmap_cover(areas0, cur as int, hi as int));
                }
                return -1;
            }
            proof {
                lemma_cover_step(areas0, cur as int, hi as int, found_i);
            }
            cur = found_end;
        }
        // The tiling is exact; second pass: tear the covered segments down.
        proof {
            assert(munmap_cover(areas0, lo as int, hi as int));
        }
        let mut cur2: usize = lo;
        while cur2 < hi
            invariant
                old(self).wf(),
                self.wf(),
                allocator@.wf(),
                allocator@.end == old(allocator)@.end,
                lo <= cur2 <= hi,
                start + len <= usize::MAX,
                lo == start / PAGE_SIZE,
                hi == (start + len + PAGE_SIZE - 1) / (PAGE_SIZE as int),
                munmap_cover(self.areas_spec(), cur2 as int, hi as int),
                forall|v: int|
                    lo <= v < cur2 ==> !#[trigger] self.mapping().contains_key(v % 0x8000000),
                forall|k: int|
                    #[trigger] self.mapping().contains_key(k) ==> old(self).mapping().contains_key(
                        k,
                    ) && self.mapping()[k] == old(self).mapping()[k],
                forall|i: int|
                    0 <= i < old(self).areas_spec().len() && !area_contained(
                        #[trigger] old(self).areas_spec()[i],
                        lo as int,
                        hi as int,
                    ) ==> exists|j: int|
                        0 <= j < self.areas_spec().len() && self.areas_spec()[j] == old(self).areas_spec()[i],
                forall|j: int|
                    0 <= j < self.areas_spec().len() ==> exists|i: int|
                        0 <= i < old(self).areas_spec().len() && old(self).areas_spec()[i]
                            == #[trigger] self.areas_spec()[j],
            decreases hi - cur2,
        {
            let ghost areas_pre = self.areas_spec();
            let mut found = false;
            let mut found_idx: usize = 0;
            let n = self.areas.len();
            let mut i: usize = 0;
            while i < n
                invariant
                    self.wf(),
                    areas_pre == self.areas_spec(),
                    n == self.areas.len(),
                    0 <= i <= n,
                    lo <= cur2 < hi,
                    !found ==> forall|t: int|
                        0 <= t < i ==> !((#[trigger] areas_pre[t]).start_vpn() == cur2 && cur2
                            < areas_pre[t].end_vpn() <= hi),
                    found ==> found_idx < n && areas_pre[found_idx as int].start_vpn() == cur2
                        && cur2 < areas_pre[found_idx as int].end_vpn() <= hi,
                decreases n - i,
            {
                if !found {
                    let s_v = self.areas[i].get_start();
                    let e_v = self.areas[i].get_end();
                    if s_v.0 == cur2 && e_v.0 <= hi && e_v.0 > cur2 {
                        found = true;
                        found_idx = i;
                    }
                }
                i = i + 1;
            }
            if !found {
                proof {
                    assert(!munmap_cover(areas_pre, cur2 as int, hi as int));
                    assert(false);
                }
                return -1;
            }
            let ghost fi = found_idx as int;
            let ghost a0 = areas_pre[fi];
            let ghost ms_pre = *self;
            let mut area = self.areas.remove(found_idx);
            let next: usize = area.get_end().0;
            let ghost ms_mid = *self;
            proof {
                assert(area == a0);
                assert(ms_pre.area_installed(a0));
                assert(a0.wf_mapped());
                lemma_cover_step(areas_pre, cur2 as int, hi as int, fi);
                lemma_cover_remove(areas_pre, fi, next as int, hi as int);
                assert(ms_mid.areas_spec() == areas_pre.remove(fi));
                assert(munmap_cover(ms_mid.areas_spec(), next as int, hi as int));
                assert forall|k: int|
                    a0.key_start() <= k < a0.key_start() + a0.len_pages() implies #[trigger] self.page_table.mapping().contains_key(k) by {
                    assert(ms_pre.mapping().contains_key(k));
                }
            }
            area.unmap(&mut self.page_table, allocator);
            proof {
                let ks_a = a0.key_start();
                let ke_a = ks_a + a0.len_pages();
                // Remaining segments keep their translations: their windows
                // are disjoint from the removed one.
                assert forall|i2: int|
                    0 <= i2 < self.areas_spec().len() implies self.area_installed(
                    #[trigger] self.areas_spec()[i2],
                ) by {
                    let b = self.areas_spec()[i2];
                    let bi = if i2 < fi {
                        i2
                    } else {
                        i2 + 1
                    };
                    assert(b == areas_pre[bi]);
                    assert(ms_pre.area_installed(areas_pre[bi]));
                    assert(areas_disjoint(areas_pre[bi], areas_pre[fi]));
                    assert forall|k: int|
                        b.key_start() <= k < b.key_start() + b.len_pages() implies #[trigger] self.mapping().contains_key(k) by {
                        assert(ms_pre.mapping().contains_key(k));
                        assert(!(ks_a <= k < ke_a));
                    }
                }
                assert forall|i2: int, j2: int|
                    0 <= i2 < self.areas_spec().len() && 0 <= j2 < self.areas_spec().len() && i2
                        != j2 implies areas_disjoint(
                    #[trigger] self.areas_spec()[i2],
                    #[trigger] self.areas_spec()[j2],
                ) by {
                    let bi = if i2 < fi {
                        i2
                    } else {
                        i2 + 1
                    };
                    let bj = if j2 < fi {
                        j2
                    } else {
                        j2 + 1
                    };
                    assert(self.areas_spec()[i2] == areas_pre[bi]);
                    assert(self.areas_spec()[j2] == areas_pre[bj]);
                    assert(areas_disjoint(areas_pre[bi], areas_pre[bj]));
                }
                // The freshly covered pages lost their translations.
                assert forall|v: int|
                    lo <= v < next implies !#[trigger] self.mapping().contains_key(
                    v % 0x8000000,
                ) by {
                    if v < cur2 {
                        assert(!ms_pre.mapping().contains_key(v % 0x8000000));
                        let k = v % 0x8000000;
                        if self.mapping().contains_key(k) {
                            if ks_a <= k < ke_a {
                                assert(!self.mapping().contains_key(k));
                            } else {
                                assert(ms_mid.mapping().contains_key(k));
                            }
                        }
                    } else {
                        lemma_key_offset(a0.start_vpn(), v - a0.start_vpn());
                        assert(v % 0x8000000 == ks_a + (v - a0.start_vpn()));
                        assert(!self.mapping().contains_key(ks_a + (v - a0.start_vpn())));
                    }
                }
                // Only the covered keys disappeared; everything else keeps
                // its entry.
                assert forall|k: int| #[trigger] self.mapping().contains_key(k) implies old(self).mapping().contains_key(k) && self.mapping()[k] == old(self).mapping()[k] by {
                    if ks_a <= k < ke_a {
                        assert(!self.mapping().contains_key(k));
                    } else {
                        assert(ms_mid.mapping().contains_key(k) == self.mapping().contains_key(k));
                        assert(ms_pre.mapping().contains_key(k));
                        assert(self.mapping()[k] == ms_mid.mapping()[k]);
                    }
                }
                // Non-contained segments survive the removal.
                assert forall|i2: int|
                    0 <= i2 < old(self).areas_spec().len() && !area_contained(
                        #[trigger] old(self).areas_spec()[i2],
                        lo as int,
                        hi as int,
                    ) implies exists|j2: int|
                    0 <= j2 < self.areas_spec().len() && self.areas_spec()[j2] == old(self).areas_spec()[i2] by {
                    assert(area_contained(a0, lo as int, hi as int));
                    let jp = choose|jp: int|
                        0 <= jp < areas_pre.len() && areas_pre[jp] == old(self).areas_spec()[i2];
                    assert(jp != fi);
                    let j2 = if jp < fi {
                        jp
                    } else {
                        jp - 1
                    };
                    assert(self.areas_spec()[j2] == areas_pre[jp]);
                }
                assert forall|j2: int|
                    0 <= j2 < self.areas_spec().len() implies exists|i2: int|
                    0 <= i2 < old(self).areas_spec().len() && old(self).areas_spec()[i2]
                        == #[trigger] self.areas_spec()[j2] by {
                    let bj = if j2 < fi {
                        j2
                    } else {
                        j2 + 1
                    };
                    assert(self.areas_spec()[j2] == areas_pre[bj]);
                    let ip = choose|ip: int|
                        0 <= ip < old(self).areas_spec().len() && old(self).areas_spec()[ip]
                            == areas_pre[bj];
                }
            }
            cur2 = next;
        }
        0
    }
}

/// Removing a segment whose pages all lie below `m` does not affect whether
/// `[m, hi)` is tiled by whole segments.
proof fn lemma_cover_remove(areas: Seq<MapArea>, idx: int, m: int, hi: int)
    requires
        0 <= idx < areas.len(),
        areas[idx].start_vpn() < m,
        munmap_cover(areas, m, hi),
    ensures
        munmap_cover(areas.remove(idx), m, hi),
    decreases hi - m,
{
    if m < hi {
        let j = choose|j: int|
            0 <= j < areas.len() && (#[trigger] areas[j]).start_vpn() == m && m < areas[j].end_vpn()
                <= hi && munmap_cover(areas, areas[j].end_vpn(), hi);
        assert(j != idx);
        let j2 = if j < idx {
            j
        } else {
            j - 1
        };
        assert(areas.remove(idx)[j2] == areas[j]);
        lemma_cover_remove(areas, idx, areas[j].end_vpn(), hi);
        assert(munmap_cover(areas.remove(idx), m, hi)) by {
            assert(0 <= j2 < areas.remove(idx).len() && areas.remove(idx)[j2].start_vpn() == m && m
                < areas.remove(idx)[j2].end_vpn() <= hi && munmap_cover(
                areas.remove(idx),
                areas.remove(idx)[j2].end_vpn(),
                hi,
            ));
        }
    }
}

/// Helper for the tiling walk: if some contained segment starts at `lo`, the
/// cover predicate for `[lo, hi)` is equivalent to the one for the rest of
/// the range, because segments are unique by their starting page among the
/// nonempty ones of a well-formed address space.
proof fn lemma_cover_step(areas: Seq<MapArea>, lo: int, hi: int, i: int)
    requires
        lo < hi,
        0 <= i < areas.len(),
        areas[i].start_vpn() == lo,
        lo < areas[i].end_vpn() <= hi,
        forall|x: int, y: int|
            0 <= x < areas.len() && 0 <= y < areas.len() && x != y ==> areas_disjoint(
                #[trigger] areas[x],
                #[trigger] areas[y],
            ),
        forall|x: int| 0 <= x < areas.len() ==> (#[trigger] areas[x]).wf_base(),
    ensures
        munmap_cover(areas, lo, hi) == munmap_cover(areas, areas[i].end_vpn(), hi),
{
    if munmap_cover(areas, lo, hi) {
        let j = choose|j: int|
            0 <= j < areas.len() && (#[trigger] areas[j]).start_vpn() == lo && lo
                < areas[j].end_vpn() <= hi && munmap_cover(areas, areas[j].end_vpn(), hi);
        if j != i {
            assert(areas_disjoint(areas[i], areas[j]));
            assert(areas[i].key_start() == areas[j].key_start());
            assert(false);
        }
    }
}


/// Translation key of the trampoline page, the top page of the virtual
/// address range.
pub open spec fn trampoline_key() -> int {
    ((TRAMPOLINE / PAGE_SIZE) as int) % 0x8000000
}

/// The entry `map` builds carries exactly the requested page number and the
/// requested flags plus the valid bit.
pub proof fn lemma_pte_for_fields(ppn: PhysPageNum, flags: PTEFlags)
    requires
        (ppn.0 as u64) < PPN_LIMIT,
    ensures
        pte_for(ppn, flags).spec_flags() == (flags.bits | PTE_V),
        pte_for(ppn, flags).spec_ppn() == ppn.0 as u64,
{
    let p = ppn.0 as u64;
    let f = flags.bits;
    assert((((p << 10) | ((f | 1) as u64)) & 0xFF) as u8 == f | 1 && (((p << 10) | ((f
        | 1) as u64)) >> 10) & 0xFFFFFFFFFFF == p) by (bit_vector)
        requires
            p < 0x100000000000,
    ;
}

/// The linker-described layout of the kernel image: the bounds of its code,
/// read-only data, writable data and zero-initialized sections, the end of
/// the whole image, the memory ceiling, and the physical address of the
/// trampoline code page. All bounds are page-aligned and ordered, and the
/// whole image sits below the trampoline's translation key.
pub struct KernelLayout {
    pub stext: usize,
    pub etext: usize,
    pub srodata: usize,
    pub erodata: usize,
    pub sdata: usize,
    pub edata: usize,
    pub sbss_with_stack: usize,
    pub ebss: usize,
    pub ekernel: usize,
    pub memory_end: usize,
    pub strampoline: usize,
}

impl KernelLayout {
    /// Validity of a layout: aligned, ordered, small enough that every
    /// identity-mapped page keeps its own number as translation key, below
    /// the trampoline key.
    pub open spec fn wf(self) -> bool {
        &&& self.stext % PAGE_SIZE == 0
        &&& self.etext % PAGE_SIZE == 0
        &&& self.srodata % PAGE_SIZE == 0
        &&& self.erodata % PAGE_SIZE == 0
        &&& self.sdata % PAGE_SIZE == 0
        &&& self.edata % PAGE_SIZE == 0
        &&& self.sbss_with_stack % PAGE_SIZE == 0
        &&& self.ebss % PAGE_SIZE == 0
        &&& self.ekernel % PAGE_SIZE == 0
        &&& self.memory_end % PAGE_SIZE == 0
        &&& self.strampoline % PAGE_SIZE == 0
        &&& self.stext <= self.etext <= self.srodata <= self.erodata <= self.sdata <= self.edata
            <= self.sbss_with_stack <= self.ebss <= self.ekernel <= self.memory_end
        &&& (self.memory_end / PAGE_SIZE) as int <= trampoline_key()
        &&& ((self.strampoline / PAGE_SIZE) as u64) < PPN_LIMIT
    }

    /// Worst-case table-node frames needed to identity-map `[s, e)`.
    pub open spec fn region_frames(s: int, e: int) -> int {
        if s >= e {
            0
        } else {
            ((e - 1) / 512 - s / 512 + 1) + ((e - 1) / 0x40000 - s / 0x40000 + 1)
        }
    }

    /// Frames the construction of the kernel address space may consume: the
    /// root table, the trampoline's walk, and each section's walk.
    pub open spec fn frames_needed(self) -> int {
        3 + Self::region_frames(
            self.stext as int / PAGE_SIZE as int,
            self.etext as int / PAGE_SIZE as int,
        ) + Self::region_frames(
            self.srodata as int / PAGE_SIZE as int,
            self.erodata as int / PAGE_SIZE as int,
        ) + Self::region_frames(
            self.sdata as int / PAGE_SIZE as int,
            self.edata as int / PAGE_SIZE as int,
        ) + Self::region_frames(
            self.sbss_with_stack as int / PAGE_SIZE as int,
            self.ebss as int / PAGE_SIZE as int,
        ) + Self::region_frames(
            self.ekernel as int / PAGE_SIZE as int,
            self.memory_end as int / PAGE_SIZE as int,
        )
    }
}

/// A region's worst-case node count is never negative.
pub proof fn lemma_region_frames_nonneg(s: int, e: int)
    ensures
        KernelLayout::region_frames(s, e) >= 0,
{
    if s < e {
        vstd::arithmetic::div_mod::lemma_div_is_ordered(s, e - 1, 512);
        vstd::arithmetic::div_mod::lemma_div_is_ordered(s, e - 1, 0x40000);
    }
}

/// Composes the two halves of the kernel construction: regions installed
/// before the second half survive it, so the finished address space carries
/// the trampoline and all five identity-mapped regions.
proof fn lemma_kernel_compose(ms1: MemorySet, ms2: MemorySet, ms3: MemorySet, layout: KernelLayout)
    requires
        layout.wf(),
        ms1.mapping().contains_key(trampoline_key()),
        ms1.mapping()[trampoline_key()].spec_flags() == (PTE_R | PTE_X | PTE_V),
        ms1.mapping()[trampoline_key()].spec_ppn() == (layout.strampoline / PAGE_SIZE) as u64,
        kernel_region_mapped(ms2, layout.stext as int, layout.etext as int, MAP_PERM_R | MAP_PERM_X),
        kernel_region_mapped(ms2, layout.srodata as int, layout.erodata as int, MAP_PERM_R),
        kernel_region_mapped(ms2, layout.sdata as int, layout.edata as int, MAP_PERM_R | MAP_PERM_W),
        forall|k: int|
            ms1.mapping().contains_key(k) ==> #[trigger] ms2.mapping().contains_key(k)
                && ms2.mapping()[k] == ms1.mapping()[k],
        kernel_region_mapped(
            ms3,
            layout.sbss_with_stack as int,
            layout.ebss as int,
            MAP_PERM_R | MAP_PERM_W,
        ),
        kernel_region_mapped(ms3, layout.ekernel as int, layout.memory_end as int, MAP_PERM_R | MAP_PERM_W),
        forall|k: int|
            ms2.mapping().contains_key(k) ==> #[trigger] ms3.mapping().contains_key(k)
                && ms3.mapping()[k] == ms2.mapping()[k],
    ensures
        ms3.mapping().contains_key(trampoline_key()),
        ms3.mapping()[trampoline_key()].spec_flags() == (PTE_R | PTE_X | PTE_V),
        ms3.mapping()[trampoline_key()].spec_ppn() == (layout.strampoline / PAGE_SIZE) as u64,
        kernel_region_mapped(ms3, layout.stext as int, layout.etext as int, MAP_PERM_R | MAP_PERM_X),
        kernel_region_mapped(ms3, layout.srodata as int, layout.erodata as int, MAP_PERM_R),
        kernel_region_mapped(ms3, layout.sdata as int, layout.edata as int, MAP_PERM_R | MAP_PERM_W),
{
    assert(ms2.mapping().contains_key(trampoline_key()));
    assert(ms2.mapping()[trampoline_key()] == ms1.mapping()[trampoline_key()]);
    assert(ms3.mapping().contains_key(trampoline_key()));
    assert(ms3.mapping()[trampoline_key()] == ms2.mapping()[trampoline_key()]);
    assert forall|k: int|
        layout.stext / PAGE_SIZE <= k < layout.etext / PAGE_SIZE implies #[trigger] ms3.mapping().contains_key(k) && ms3.mapping()[k].spec_flags() == ((MAP_PERM_R | MAP_PERM_X)
        | PTE_V) && ms3.mapping()[k].spec_ppn() == k as u64 by {
        assert(ms2.mapping().contains_key(k));
        assert(ms3.mapping()[k] == ms2.mapping()[k]);
    }
    assert forall|k: int|
        layout.srodata / PAGE_SIZE <= k < layout.erodata / PAGE_SIZE implies #[trigger] ms3.mapping().contains_key(k) && ms3.mapping()[k].spec_flags() == (MAP_PERM_R | PTE_V)
        && ms3.mapping()[k].spec_ppn() == k as u64 by {
        assert(ms2.mapping().contains_key(k));
        assert(ms3.mapping()[k] == ms2.mapping()[k]);
    }
    assert forall|k: int|
        layout.sdata / PAGE_SIZE <= k < layout.edata / PAGE_SIZE implies #[trigger] ms3.mapping().contains_key(k) && ms3.mapping()[k].spec_flags() == ((MAP_PERM_R | MAP_PERM_W)
        | PTE_V) && ms3.mapping()[k].spec_ppn() == k as u64 by {
        assert(ms2.mapping().contains_key(k));
        assert(ms3.mapping()[k] == ms2.mapping()[k]);
    }
}

/// A page of the identity-mapped kernel region `[s, e)` (given in bytes) is
/// translated to itself with the given permissions plus the valid bit.
pub open spec fn kernel_region_mapped(ms: MemorySet, s: int, e: int, perm: u8) -> bool {
    forall|k: int|
        s / (PAGE_SIZE as int) <= k < e / (PAGE_SIZE as int) ==> #[trigger] ms.mapping().contains_key(
            k,
        ) && ms.mapping()[k].spec_flags() == (perm | PTE_V) && ms.mapping()[k].spec_ppn()
            == k as u64
}

impl MemorySet {
    /// Installs the fixed trampoline mapping: the single page at the very top
    /// of the virtual range, translated to the physical trampoline code page
    /// with read and execute permission. Every address space carries this
    /// identical mapping so the trap path survives a root-table switch.
    fn map_trampoline(&mut self, strampoline: PhysAddr, allocator: &mut StackFrameAllocator)
        requires
            old(self).wf(),
            old(allocator)@.wf(),
            old(allocator)@.end <= PPN_LIMIT,
            strampoline.0 % PAGE_SIZE == 0,
            ((strampoline.0 / PAGE_SIZE) as u64) < PPN_LIMIT,
            !old(self).mapping().contains_key(trampoline_key()),
            old(allocator)@.free_count() >= 2,
        ensures
            final(self).wf(),
            final(allocator)@.wf(),
            final(allocator)@.end == old(allocator)@.end,
            final(allocator)@.free_count() >= old(allocator)@.free_count() - 2,
            final(self).areas_spec() == old(self).areas_spec(),
            final(self).mapping().contains_key(trampoline_key()),
            final(self).mapping()[trampoline_key()].spec_flags() == (PTE_R | PTE_X | PTE_V),
            final(self).mapping()[trampoline_key()].spec_ppn() == (strampoline.0 / PAGE_SIZE) as u64,
            forall|k: int|
                k != trampoline_key() ==> #[trigger] final(self).mapping().contains_key(k) == old(self).mapping().contains_key(k),
            forall|k: int|
                k != trampoline_key() && old(self).mapping().contains_key(k) ==> #[trigger] final(self).mapping()[k] == old(self).mapping()[k],
    {
        let vpn = VirtAddr(TRAMPOLINE).floor();
        let ppn = strampoline.floor();
        proof {
            assert(key_of(vpn) == trampoline_key());
        }
        let flags = PTEFlags { bits: PTE_R | PTE_X };
        let ghost needed = self.page_table.nodes_needed(trampoline_key());
        let r = self.page_table.map(vpn, ppn, flags, allocator);
        proof {
            assert(r is Ok);
            lemma_pte_for_fields(ppn, flags);
            assert forall|i: int|
                0 <= i < final(self).areas_spec().len() implies final(self).area_installed(
                #[trigger] final(self).areas_spec()[i],
            ) by {
                let a = old(self).areas_spec()[i];
                assert(old(self).area_installed(a));
                assert forall|k: int|
                    a.key_start() <= k < a.key_start() + a.len_pages() implies #[trigger] final(self).mapping().contains_key(k) by {
                    assert(old(self).mapping().contains_key(k));
                }
            }
        }
    }

    /// Builds the kernel's own address space: the trampoline mapping plus one
    /// identity-mapped segment per linker region — code read-execute,
    /// read-only data read-only, writable and zero-initialized data
    /// read-write, and the remaining physical memory up to the ceiling
    /// read-write. This gives the kernel direct access to all physical
    /// memory through its own table.
    #[verifier::rlimit(100)]
    #[verifier::spinoff_prover]
    pub fn new_kernel(layout: &KernelLayout, allocator: &mut StackFrameAllocator) -> (r: MemorySet)
        requires
            layout.wf(),
            old(allocator)@.wf(),
            old(allocator)@.end <= PPN_LIMIT,
            old(allocator)@.free_count() >= layout.frames_needed(),
        ensures
            r.wf(),
            final(allocator)@.wf(),
            final(allocator)@.end == old(allocator)@.end,
            r.mapping().contains_key(trampoline_key()),
            r.mapping()[trampoline_key()].spec_flags() == (PTE_R | PTE_X | PTE_V),
            r.mapping()[trampoline_key()].spec_ppn() == (layout.strampoline / PAGE_SIZE) as u64,
            kernel_region_mapped(r, layout.stext as int, layout.etext as int, MAP_PERM_R | MAP_PERM_X),
            kernel_region_mapped(r, layout.srodata as int, layout.erodata as int, MAP_PERM_R),
            kernel_region_mapped(r, layout.sdata as int, layout.edata as int, MAP_PERM_R | MAP_PERM_W),
            kernel_region_mapped(
                r,
                layout.sbss_with_stack as int,
                layout.ebss as int,
                MAP_PERM_R | MAP_PERM_W,
            ),
            kernel_region_mapped(
                r,
                layout.ekernel as int,
                layout.memory_end as int,
                MAP_PERM_R | MAP_PERM_W,
            ),
    {
        let mut memory_set = match Self::new_bare(allocator) {
            Ok(ms) => ms,
            Err(_) => {
                proof {
                    assert(false);
                }
                return MemorySet { page_table: PageTable::from_token(0), areas: Vec::new() };
            },
        };
        memory_set.map_trampoline(PhysAddr(layout.strampoline), allocator);
        proof {
            lemma_region_frames_nonneg(
                layout.stext as int / PAGE_SIZE as int,
                layout.etext as int / PAGE_SIZE as int,
            );
            lemma_region_frames_nonneg(
                layout.srodata as int / PAGE_SIZE as int,
                layout.erodata as int / PAGE_SIZE as int,
            );
            lemma_region_frames_nonneg(
                layout.sdata as int / PAGE_SIZE as int,
                layout.edata as int / PAGE_SIZE as int,
            );
            lemma_region_frames_nonneg(
                layout.sbss_with_stack as int / PAGE_SIZE as int,
                layout.ebss as int / PAGE_SIZE as int,
            );
            lemma_region_frames_nonneg(
                layout.ekernel as int / PAGE_SIZE as int,
                layout.memory_end as int / PAGE_SIZE as int,
            );
            assert forall|k: int| #[trigger] memory_set.mapping().contains_key(k) implies k == trampoline_key() by {
            }
        }
        let ghost ms1 = memory_set;
        memory_set.map_kernel_lower(layout, allocator);
        let ghost ms2 = memory_set;
        proof {
            assert(ms1.mapping().contains_key(trampoline_key()));
            assert(memory_set.mapping().contains_key(trampoline_key()));
            assert(memory_set.mapping()[trampoline_key()] == ms1.mapping()[trampoline_key()]);
        }
        memory_set.map_kernel_upper(layout, allocator);
        proof {
            lemma_kernel_compose(ms1, ms2, memory_set, *layout);
        }
        memory_set
    }

    /// Identity-maps the kernel's code, read-only data and writable data
    /// sections.
    fn map_kernel_lower(&mut self, layout: &KernelLayout, allocator: &mut StackFrameAllocator)
        requires
            old(self).wf(),
            layout.wf(),
            old(allocator)@.wf(),
            old(allocator)@.end <= PPN_LIMIT,
            forall|k: int| old(self).mapping().contains_key(k) ==> k == trampoline_key(),
            old(allocator)@.free_count() >= KernelLayout::region_frames(
                layout.stext as int / PAGE_SIZE as int,
                layout.etext as int / PAGE_SIZE as int,
            ) + KernelLayout::region_frames(
                layout.srodata as int / PAGE_SIZE as int,
                layout.erodata as int / PAGE_SIZE as int,
            ) + KernelLayout::region_frames(
                layout.sdata as int / PAGE_SIZE as int,
                layout.edata as int / PAGE_SIZE as int,
            ),
        ensures
            final(self).wf(),
            final(allocator)@.wf(),
            final(allocator)@.end == old(allocator)@.end,
            kernel_region_mapped(
                *final(self),
                layout.stext as int,
                layout.etext as int,
                MAP_PERM_R | MAP_PERM_X,
            ),
            kernel_region_mapped(
                *final(self),
                layout.srodata as int,
                layout.erodata as int,
                MAP_PERM_R,
            ),
            kernel_region_mapped(
                *final(self),
                layout.sdata as int,
                layout.edata as int,
                MAP_PERM_R | MAP_PERM_W,
            ),
            forall|k: int|
                #[trigger] final(self).mapping().contains_key(k) ==> k == trampoline_key() || k
                    < layout.edata as int / PAGE_SIZE as int,
            forall|k: int|
                old(self).mapping().contains_key(k) ==> #[trigger] final(self).mapping().contains_key(k) && final(self).mapping()[k] == old(self).mapping()[k],
            final(allocator)@.free_count() >= old(allocator)@.free_count()
                - KernelLayout::region_frames(
                layout.stext as int / PAGE_SIZE as int,
                layout.etext as int / PAGE_SIZE as int,
            ) - KernelLayout::region_frames(
                layout.srodata as int / PAGE_SIZE as int,
                layout.erodata as int / PAGE_SIZE as int,
            ) - KernelLayout::region_frames(
                layout.sdata as int / PAGE_SIZE as int,
                layout.edata as int / PAGE_SIZE as int,
            ),
    {
        proof {
            assert forall|k: int|
                layout.stext / PAGE_SIZE <= k < layout.etext / PAGE_SIZE implies !self.mapping().contains_key(k) by {
                if self.mapping().contains_key(k) {
                    assert((k as int) < trampoline_key());
                }
            }
        }
        proof {
            lemma_region_frames_nonneg(
                layout.srodata as int / PAGE_SIZE as int,
                layout.erodata as int / PAGE_SIZE as int,
            );
            lemma_region_frames_nonneg(
                layout.sdata as int / PAGE_SIZE as int,
                layout.edata as int / PAGE_SIZE as int,
            );
        }
        self.push_kernel_region(layout.stext, layout.etext, MAP_PERM_R | MAP_PERM_X, allocator);
        proof {
            assert forall|k: int|
                layout.srodata / PAGE_SIZE <= k < layout.erodata / PAGE_SIZE implies !self.mapping().contains_key(k) by {
                if self.mapping().contains_key(k) {
                    assert((k as int) < trampoline_key());
                }
            }
        }
        self.push_kernel_region(layout.srodata, layout.erodata, MAP_PERM_R, allocator);
        proof {
            assert forall|k: int|
                layout.sdata / PAGE_SIZE <= k < layout.edata / PAGE_SIZE implies !self.mapping().contains_key(k) by {
                if self.mapping().contains_key(k) {
                    assert((k as int) < trampoline_key());
                }
            }
        }
        self.push_kernel_region(layout.sdata, layout.edata, MAP_PERM_R | MAP_PERM_W, allocator);
    }

    /// Identity-maps the kernel's zero-initialized section and the remaining
    /// physical memory up to the ceiling.
    fn map_kernel_upper(&mut self, layout: &KernelLayout, allocator: &mut StackFrameAllocator)
        requires
            old(self).wf(),
            layout.wf(),
            old(allocator)@.wf(),
            old(allocator)@.end <= PPN_LIMIT,
            forall|k: int|
                old(self).mapping().contains_key(k) ==> k == trampoline_key() || k
                    < layout.edata as int / PAGE_SIZE as int,
            old(allocator)@.free_count() >= KernelLayout::region_frames(
                layout.sbss_with_stack as int / PAGE_SIZE as int,
                layout.ebss as int / PAGE_SIZE as int,
            ) + KernelLayout::region_frames(
                layout.ekernel as int / PAGE_SIZE as int,
                layout.memory_end as int / PAGE_SIZE as int,
            ),
        ensures
            final(self).wf(),
            final(allocator)@.wf(),
            final(allocator)@.end == old(allocator)@.end,
            kernel_region_mapped(
                *final(self),
                layout.sbss_with_stack as int,
                layout.ebss as int,
                MAP_PERM_R | MAP_PERM_W,
            ),
            kernel_region_mapped(
                *final(self),
                layout.ekernel as int,
                layout.memory_end as int,
                MAP_PERM_R | MAP_PERM_W,
            ),
            forall|k: int|
                old(self).mapping().contains_key(k) ==> #[trigger] final(self).mapping().contains_key(k) && final(self).mapping()[k] == old(self).mapping()[k],
    {
        proof {
            assert forall|k: int|
                layout.sbss_with_stack / PAGE_SIZE <= k < layout.ebss / PAGE_SIZE implies !self.mapping().contains_key(k) by {
                if self.mapping().contains_key(k) {
                    assert((k as int) < trampoline_key());
                }
            }
        }
        proof {
            lemma_region_frames_nonneg(
                layout.ekernel as int / PAGE_SIZE as int,
                layout.memory_end as int / PAGE_SIZE as int,
            );
        }
        self.push_kernel_region(
            layout.sbss_with_stack,
            layout.ebss,
            MAP_PERM_R | MAP_PERM_W,
            allocator,
        );
        proof {
            assert forall|k: int|
                layout.ekernel / PAGE_SIZE <= k < layout.memory_end / PAGE_SIZE implies !self.mapping().contains_key(k) by {
                if self.mapping().contains_key(k) {
                    assert((k as int) < trampoline_key());
                }
            }
        }
        self.push_kernel_region(
            layout.ekernel,
            layout.memory_end,
            MAP_PERM_R | MAP_PERM_W,
            allocator,
        );
    }

    /// Installs one identity-mapped kernel segment over the page-aligned byte
    /// range `[s, e)`.
    fn push_kernel_region(
        &mut self,
        s: usize,
        e: usize,
        perm: u8,
        allocator: &mut StackFrameAllocator,
    )
        requires
            old(self).wf(),
            old(allocator)@.wf(),
            old(allocator)@.end <= PPN_LIMIT,
            s % PAGE_SIZE == 0,
            e % PAGE_SIZE == 0,
            s <= e,
            (e / PAGE_SIZE) as int <= trampoline_key(),
            forall|k: int|
                s / PAGE_SIZE <= k < e / PAGE_SIZE ==> !old(self).mapping().contains_key(k),
            old(allocator)@.free_count() >= KernelLayout::region_frames(
                s as int / PAGE_SIZE as int,
                e as int / PAGE_SIZE as int,
            ),
        ensures
            final(self).wf(),
            final(allocator)@.wf(),
            final(allocator)@.end == old(allocator)@.end,
            final(allocator)@.free_count() >= old(allocator)@.free_count()
                - KernelLayout::region_frames(
                s as int / PAGE_SIZE as int,
                e as int / PAGE_SIZE as int,
            ),
            forall|k: int|
                s / PAGE_SIZE <= k < e / PAGE_SIZE ==> #[trigger] final(self).mapping().contains_key(
                    k,
                ) && final(self).mapping()[k].spec_flags() == (perm | PTE_V) && final(self).mapping()[k].spec_ppn() == k as u64,
            forall|k: int|
                !(s / PAGE_SIZE <= k < e / PAGE_SIZE) ==> #[trigger] final(self).mapping().contains_key(k) == old(self).mapping().contains_key(k),
            forall|k: int|
                !(s / PAGE_SIZE <= k < e / PAGE_SIZE) && old(self).mapping().contains_key(k)
                    ==> #[trigger] final(self).mapping()[k] == old(self).mapping()[k],
    {
        proof {
            lemma_ceil_form(e as int);
            vstd::arithmetic::div_mod::lemma_small_mod(
                (s / PAGE_SIZE) as nat,
                0x8000000nat,
            );
        }
        let area = MapArea::new(
            VirtAddr(s),
            VirtAddr(e),
            MapType::Identical,
            MapPermission { bits: perm },
        );
        proof {
            assert(area.key_start() == s as int / PAGE_SIZE as int);
            assert(area.frames_bound() == KernelLayout::region_frames(
                s as int / PAGE_SIZE as int,
                e as int / PAGE_SIZE as int,
            ));
        }
        self.push(area, None, allocator, Ghost(area));
        proof {
            let b = self.areas_spec().last();
            assert forall|k: int|
                s / PAGE_SIZE <= k < e / PAGE_SIZE implies #[trigger] self.mapping().contains_key(
                k,
            ) && self.mapping()[k].spec_flags() == (perm | PTE_V) && self.mapping()[k].spec_ppn()
                == k as u64 by {
                assert(area.key_start() <= k < area.key_start() + area.len_pages());
                assert(self.mapping().contains_key(k));
                assert(self.mapping()[k] == self.areas_spec().last().page_pte(
                    k - area.key_start(),
                ));
                assert(b.page_ppn(k - b.key_start()) == k);
                assert(b.page_pte(k - b.key_start()) == pte_for(
                    PhysPageNum(k as usize),
                    PTEFlags { bits: b.map_perm_spec().bits },
                ));
                lemma_pte_for_fields(
                    PhysPageNum(k as usize),
                    PTEFlags { bits: b.map_perm_spec().bits },
                );
            }
        }
    }
}


/// Translation key of the per-task trap-context page, directly below the
/// trampoline.
pub open spec fn trap_context_key() -> int {
    ((TRAP_CONTEXT / PAGE_SIZE) as int) % 0x8000000
}

/// Pages of one user stack.
pub open spec fn stack_pages() -> int {
    (USER_STACK_SIZE / PAGE_SIZE) as int
}

/// The two fixed top-of-range keys: the trampoline occupies the last key of
/// the index space and the trap context the one below it.
pub proof fn lemma_top_keys()
    ensures
        3 <= trampoline_key() < 0x8000000,
        trap_context_key() == trampoline_key() - 1,
        TRAMPOLINE % PAGE_SIZE == 0,
        TRAP_CONTEXT % PAGE_SIZE == 0,
        TRAMPOLINE / PAGE_SIZE == TRAP_CONTEXT / PAGE_SIZE + 1,
{
    if usize::MAX == 0xFFFFFFFF {
        assert(TRAMPOLINE as int == 0xFFFFF000);
        assert(TRAP_CONTEXT as int == 0xFFFFE000);
        assert((TRAMPOLINE / PAGE_SIZE) as int == 0xFFFFF) by (nonlinear_arith)
            requires
                TRAMPOLINE as int == 0xFFFFF000,
                PAGE_SIZE == 4096,
        ;
        assert((TRAP_CONTEXT / PAGE_SIZE) as int == 0xFFFFE) by (nonlinear_arith)
            requires
                TRAP_CONTEXT as int == 0xFFFFE000,
                PAGE_SIZE == 4096,
        ;
        assert((0xFFFFFint) % 0x8000000 == 0xFFFFF) by (nonlinear_arith);
        assert((0xFFFFEint) % 0x8000000 == 0xFFFFE) by (nonlinear_arith);
        assert((0xFFFFF000int) % 4096 == 0) by (nonlinear_arith);
        assert((0xFFFFE000int) % 4096 == 0) by (nonlinear_arith);
    } else {
        assert(usize::MAX == 0xFFFFFFFFFFFFFFFF);
        assert(TRAMPOLINE as int == 0xFFFFFFFFFFFFF000);
        assert(TRAP_CONTEXT as int == 0xFFFFFFFFFFFFE000);
        assert((TRAMPOLINE / PAGE_SIZE) as int == 0xFFFFFFFFFFFFF) by (nonlinear_arith)
            requires
                TRAMPOLINE as int == 0xFFFFFFFFFFFFF000,
                PAGE_SIZE == 4096,
        ;
        assert((TRAP_CONTEXT / PAGE_SIZE) as int == 0xFFFFFFFFFFFFE) by (nonlinear_arith)
            requires
                TRAP_CONTEXT as int == 0xFFFFFFFFFFFFE000,
                PAGE_SIZE == 4096,
        ;
        assert((0xFFFFFFFFFFFFFint) % 0x8000000 == 0x7FFFFFF) by (nonlinear_arith);
        assert((0xFFFFFFFFFFFFEint) % 0x8000000 == 0x7FFFFFE) by (nonlinear_arith);
        assert((0xFFFFFFFFFFFFF000int) % 4096 == 0) by (nonlinear_arith);
        assert((0xFFFFFFFFFFFFE000int) % 4096 == 0) by (nonlinear_arith);
    }
}

/// Worst-case frames a framed user area of `pages` pages can consume.
pub open spec fn user_area_frames(pages: int) -> int {
    pages + 4 + pages / 512 + pages / 0x40000
}

/// First page of a loadable segment.
pub open spec fn seg_start_vpn(g: crate::elf::SegmentInfo) -> int {
    g.start_va as int / (PAGE_SIZE as int)
}

/// One past the last page of a loadable segment.
pub open spec fn seg_end_vpn(g: crate::elf::SegmentInfo) -> int {
    (g.end_va + PAGE_SIZE - 1) / (PAGE_SIZE as int)
}

/// The user-mode permission byte derived from a segment's header flags:
/// always user-accessible, plus read/write/execute as the header states them.
pub open spec fn user_perm(flags: u32) -> u8 {
    MAP_PERM_U | (if flags & 4 != 0 {
        MAP_PERM_R
    } else {
        0
    }) | (if flags & 2 != 0 {
        MAP_PERM_W
    } else {
        0
    }) | (if flags & 1 != 0 {
        MAP_PERM_X
    } else {
        0
    })
}

/// Whether the loadable segments from index `j` on, with the previous
/// segment ending at page `prev`, lay out properly: ascending and
/// page-disjoint, each below the trap-context page with room for the guard
/// page and the user stack.
pub open spec fn elf_layout_ok(segs: Seq<crate::elf::SegmentInfo>, j: int, prev: int) -> bool
    decreases segs.len() - j,
{
    if j >= segs.len() {
        prev + 1 + stack_pages() <= trap_context_key()
    } else {
        &&& segs[j].start_va <= segs[j].end_va
        &&& prev <= seg_start_vpn(segs[j])
        &&& seg_end_vpn(segs[j]) + 1 + stack_pages() <= trap_context_key()
        &&& elf_layout_ok(segs, j + 1, seg_end_vpn(segs[j]))
    }
}

/// One page above the end of the highest loadable segment (or page zero for
/// an empty image): where the guard page sits.
pub open spec fn elf_max_end(segs: Seq<crate::elf::SegmentInfo>, j: int, prev: int) -> int
    decreases segs.len() - j,
{
    if j >= segs.len() {
        prev
    } else {
        elf_max_end(segs, j + 1, seg_end_vpn(segs[j]))
    }
}

/// Frames consumed by the root table, the trampoline walk, and the first `j`
/// loadable segments.
pub open spec fn elf_frames_upto(segs: Seq<crate::elf::SegmentInfo>, j: int) -> int
    decreases j,
{
    if j <= 0 {
        3
    } else {
        elf_frames_upto(segs, j - 1) + user_area_frames(
            seg_end_vpn(segs[j - 1]) - seg_start_vpn(segs[j - 1]),
        )
    }
}

/// Every frame the whole load can consume: segments, user stack and trap
/// context page included.
pub open spec fn elf_frames_needed(segs: Seq<crate::elf::SegmentInfo>) -> int {
    elf_frames_upto(segs, segs.len() as int) + user_area_frames(stack_pages()) + user_area_frames(1)
}

impl MemorySet {
    /// Installs one user area over the page range with keys
    /// `[ks, ks + pages)`, framed, optionally filled with initial data.
    fn push_user_area(
        &mut self,
        start_va: usize,
        end_va: usize,
        perm: u8,
        data: Option<&[u8]>,
        allocator: &mut StackFrameAllocator,
    )
        requires
            old(self).wf(),
            old(allocator)@.wf(),
            old(allocator)@.end <= PPN_LIMIT,
            start_va <= end_va,
            (start_va / PAGE_SIZE) % 0x8000000 + ((end_va + PAGE_SIZE - 1) / (PAGE_SIZE as int)
                - start_va / PAGE_SIZE) <= 0x8000000,
            (start_va / PAGE_SIZE) % 0x8000000 + ((end_va + PAGE_SIZE - 1) / (PAGE_SIZE as int)
                - start_va / PAGE_SIZE) <= trampoline_key(),
            forall|k: int|
                old(self).mapping().contains_key(k) ==> k == trampoline_key() || k < (start_va
                    / PAGE_SIZE) % 0x8000000,
            old(allocator)@.free_count() >= user_area_frames(
                (end_va + PAGE_SIZE - 1) / (PAGE_SIZE as int) - start_va / PAGE_SIZE,
            ),
            data is Some ==> data.unwrap()@.len() <= ((end_va + PAGE_SIZE - 1) / (
            PAGE_SIZE as int) - start_va / PAGE_SIZE) * PAGE_SIZE && ((end_va + PAGE_SIZE - 1) / (
            PAGE_SIZE as int) - start_va / PAGE_SIZE) * PAGE_SIZE <= usize::MAX,
        ensures
            final(self).wf(),
            final(allocator)@.wf(),
            final(allocator)@.end == old(allocator)@.end,
            final(allocator)@.free_count() >= old(allocator)@.free_count() - user_area_frames(
                (end_va + PAGE_SIZE - 1) / (PAGE_SIZE as int) - start_va / PAGE_SIZE,
            ),
            forall|k: int|
                (start_va / PAGE_SIZE) % 0x8000000 <= k < (start_va / PAGE_SIZE) % 0x8000000 + (
                (end_va + PAGE_SIZE - 1) / (PAGE_SIZE as int) - start_va / PAGE_SIZE)
                    ==> #[trigger] final(self).mapping().contains_key(k) && final(self).mapping()[k].spec_flags() == (perm | PTE_V),
            forall|k: int|
                !((start_va / PAGE_SIZE) % 0x8000000 <= k < (start_va / PAGE_SIZE) % 0x8000000 + (
                (end_va + PAGE_SIZE - 1) / (PAGE_SIZE as int) - start_va / PAGE_SIZE))
                    ==> #[trigger] final(self).mapping().contains_key(k) == old(self).mapping().contains_key(k),
            forall|k: int|
                !((start_va / PAGE_SIZE) % 0x8000000 <= k < (start_va / PAGE_SIZE) % 0x8000000 + (
                (end_va + PAGE_SIZE - 1) / (PAGE_SIZE as int) - start_va / PAGE_SIZE)) && old(self).mapping().contains_key(k) ==> #[trigger] final(self).mapping()[k] == old(self).mapping()[k],
            forall|k: int|
                #[trigger] final(self).mapping().contains_key(k) ==> old(self).mapping().contains_key(k) || (start_va / PAGE_SIZE) % 0x8000000 <= k < (start_va
                    / PAGE_SIZE) % 0x8000000 + ((end_va + PAGE_SIZE - 1) / (PAGE_SIZE as int)
                    - start_va / PAGE_SIZE),
    {
        let area = MapArea::new(
            VirtAddr(start_va),
            VirtAddr(end_va),
            MapType::Framed,
            MapPermission { bits: perm },
        );
        proof {
            lemma_area_bound_le(area);
            assert forall|k: int|
                area.key_start() <= k < area.key_start() + area.len_pages() implies !old(self).mapping().contains_key(k) by {
                if old(self).mapping().contains_key(k) {
                    assert(k < area.key_start());
                }
            }
        }
        self.push(area, data, allocator, Ghost(area));
        proof {
            lemma_area_pte_flags(self.areas_spec().last());
            let b = self.areas_spec().last();
            assert forall|k: int|
                (start_va / PAGE_SIZE) % 0x8000000 <= k < (start_va / PAGE_SIZE) % 0x8000000 + (
                (end_va + PAGE_SIZE - 1) / (PAGE_SIZE as int) - start_va / PAGE_SIZE) implies #[trigger] self.mapping().contains_key(k) && self.mapping()[k].spec_flags() == (perm
                | PTE_V) by {
                assert(area.key_start() <= k < area.key_start() + area.len_pages());
                assert(self.mapping().contains_key(k));
                assert(self.mapping()[k] == b.page_pte(k - area.key_start()));
                assert((b.page_pte(k - area.key_start())).spec_flags() == (b.map_perm_spec().bits
                    | PTE_V));
            }
        }
    }
}


impl MemorySet {
    /// Builds a task's address space from an executable image: validates the
    /// image, lays out one user-accessible framed segment per loadable entry
    /// with its initialized bytes copied in, leaves one unmapped guard page
    /// above the highest segment, places the fixed-size user stack above the
    /// guard, reserves the trap-context page below the trampoline, and maps
    /// the trampoline itself. Returns the address space, the user stack top
    /// and the image's declared entry point; rejects a malformed image, an
    /// image whose segments do not lay out, and exhaustion of the allocator,
    /// each exactly under the conditions stated below.
    #[verifier::rlimit(100)]
    #[verifier::spinoff_prover]
    pub fn from_elf(
        elf_data: &[u8],
        strampoline: PhysAddr,
        allocator: &mut StackFrameAllocator,
    ) -> (r: Result<(MemorySet, usize, usize), crate::elf::ElfError>)
        requires
            old(allocator)@.wf(),
            old(allocator)@.end <= PPN_LIMIT,
            strampoline.0 % PAGE_SIZE == 0,
            ((strampoline.0 / PAGE_SIZE) as u64) < PPN_LIMIT,
        ensures
            final(allocator)@.wf(),
            final(allocator)@.end == old(allocator)@.end,
            r is Ok <==> crate::elf::parse_ok(elf_data@) && elf_layout_ok(
                crate::elf::load_segments(elf_data@),
                0,
                0,
            ) && old(allocator)@.free_count() >= elf_frames_needed(
                crate::elf::load_segments(elf_data@),
            ),
            r == Err::<(MemorySet, usize, usize), crate::elf::ElfError>(
                crate::elf::ElfError::TruncatedHeader,
            ) <==> !crate::elf::header_len_ok(elf_data@),
            r == Err::<(MemorySet, usize, usize), crate::elf::ElfError>(
                crate::elf::ElfError::BadMagic,
            ) <==> crate::elf::header_len_ok(elf_data@) && !crate::elf::magic_ok(elf_data@),
            r == Err::<(MemorySet, usize, usize), crate::elf::ElfError>(
                crate::elf::ElfError::UnsupportedClass,
            ) <==> crate::elf::header_len_ok(elf_data@) && crate::elf::magic_ok(elf_data@)
                && !crate::elf::class_ok(elf_data@),
            r == Err::<(MemorySet, usize, usize), crate::elf::ElfError>(
                crate::elf::ElfError::TruncatedProgramHeaders,
            ) <==> crate::elf::header_len_ok(elf_data@) && crate::elf::magic_ok(elf_data@)
                && crate::elf::class_ok(elf_data@) && !crate::elf::phdrs_ok(elf_data@),
            r == Err::<(MemorySet, usize, usize), crate::elf::ElfError>(
                crate::elf::ElfError::MalformedSegment,
            ) <==> crate::elf::header_len_ok(elf_data@) && crate::elf::magic_ok(elf_data@)
                && crate::elf::class_ok(elf_data@) && crate::elf::phdrs_ok(elf_data@)
                && !crate::elf::segs_ok(elf_data@),
            r == Err::<(MemorySet, usize, usize), crate::elf::ElfError>(
                crate::elf::ElfError::BadLayout,
            ) <==> crate::elf::parse_ok(elf_data@) && !elf_layout_ok(
                crate::elf::load_segments(elf_data@),
                0,
                0,
            ),
            r == Err::<(MemorySet, usize, usize), crate::elf::ElfError>(
                crate::elf::ElfError::FrameExhausted,
            ) <==> crate::elf::parse_ok(elf_data@) && elf_layout_ok(
                crate::elf::load_segments(elf_data@),
                0,
                0,
            ) && old(allocator)@.free_count() < elf_frames_needed(
                crate::elf::load_segments(elf_data@),
            ),
            r is Ok ==> ({
                let segs = crate::elf::load_segments(elf_data@);
                let me = elf_max_end(segs, 0, 0);
                let ms = r.unwrap().0;
                &&& ms.wf()
                &&& r.unwrap().2 == crate::elf::spec_entry(elf_data@) as usize
                &&& r.unwrap().1 == (me + 1 + stack_pages()) * PAGE_SIZE
                &&& forall|t: int, k: int|
                    #![trigger ms.mapping().contains_key(k), segs[t]]
                    0 <= t < segs.len() && seg_start_vpn(segs[t]) <= k < seg_end_vpn(segs[t])
                        ==> ms.mapping().contains_key(k) && ms.mapping()[k].spec_flags() == (
                    user_perm(segs[t].flags) | PTE_V)
                &&& forall|k: int|
                    me + 1 <= k < me + 1 + stack_pages() ==> #[trigger] ms.mapping().contains_key(k)
                        && ms.mapping()[k].spec_flags() == ((MAP_PERM_R | MAP_PERM_W | MAP_PERM_U)
                        | PTE_V)
                &&& !ms.mapping().contains_key(me)
                &&& ms.mapping().contains_key(trap_context_key()) && ms.mapping()[trap_context_key()].spec_flags() == ((MAP_PERM_R | MAP_PERM_W) | PTE_V)
                &&& ms.mapping().contains_key(trampoline_key()) && ms.mapping()[trampoline_key()].spec_flags() == (PTE_R | PTE_X | PTE_V) && ms.mapping()[trampoline_key()].spec_ppn()
                    == (strampoline.0 / PAGE_SIZE) as u64
            }),
    {
        let image = match crate::elf::parse_elf(elf_data) {
            Ok(i) => i,
            Err(e) => {
                return Err(e);
            },
        };
        let ghost segs = crate::elf::load_segments(elf_data@);
        proof {
            lemma_top_keys();
            crate::elf::lemma_load_segments_len(elf_data@, crate::elf::spec_ph_count(elf_data@));
            crate::elf::lemma_load_segments_sound(
                elf_data@,
                crate::elf::spec_ph_count(elf_data@),
            );
        }
        let n = image.segments.len();
        let stack_pgs: usize = USER_STACK_SIZE / PAGE_SIZE;
        let trap_key_e: usize = (TRAP_CONTEXT / PAGE_SIZE) % 0x8000000;
        let data_len = elf_data.len();
        // First pass: check the layout and add up the frame demand.
        let mut prev: usize = 0;
        let mut need: u64 = 3;
        let mut j: usize = 0;
        while j < n
            invariant
                segs == image.segments@,
                segs == crate::elf::load_segments(elf_data@),
                n == segs.len(),
                n <= 0x10000,
                0 <= j <= n,
                stack_pgs == stack_pages(),
                trap_key_e == trap_context_key(),
                3 <= trampoline_key() < 0x8000000,
                trap_context_key() == trampoline_key() - 1,
                prev as int <= trap_context_key(),
                elf_layout_ok(segs, 0, 0) == elf_layout_ok(segs, j as int, prev as int),
                need == elf_frames_upto(segs, j as int),
                need <= 3 + j * 0x10000000,
                crate::elf::parse_ok(elf_data@),
                allocator@ == old(allocator)@,
                old(allocator)@.wf(),
                old(allocator)@.end <= PPN_LIMIT,
            decreases n - j,
        {
            let g = image.segments[j];
            if g.start_va > g.end_va {
                proof {
                    assert(!elf_layout_ok(segs, j as int, prev as int));
                }
                return Err(crate::elf::ElfError::BadLayout);
            }
            let sv: usize = VirtAddr(g.start_va).floor().0;
            let ev: usize = VirtAddr(g.end_va).ceil().0;
            proof {
                lemma_ceil_form(g.end_va as int);
                assert(sv == seg_start_vpn(segs[j as int]));
                assert(ev == seg_end_vpn(segs[j as int]));
            }
            if prev > sv {
                proof {
                    assert(!elf_layout_ok(segs, j as int, prev as int));
                }
                return Err(crate::elf::ElfError::BadLayout);
            }
            if !(ev <= trap_key_e && 1 + stack_pgs <= trap_key_e - ev) {
                proof {
                    assert(!elf_layout_ok(segs, j as int, prev as int));
                }
                return Err(crate::elf::ElfError::BadLayout);
            }
            let pages: usize = ev - sv;
            let add: u64 = (pages as u64) + 4 + (pages as u64) / 512 + (pages as u64) / 0x40000;
            proof {
                assert(add < 0x10000000);
                vstd::arithmetic::mul::lemma_mul_is_distributive_add_other_way(
                    0x10000000,
                    j as int,
                    1,
                );
                vstd::arithmetic::mul::lemma_mul_inequality(j as int + 1, 0x10000, 0x10000000);
            }
            need = need + add;
            prev = ev;
            j = j + 1;
            proof {
                assert(need == elf_frames_upto(segs, j as int));
            }
        }
        if !(prev <= trap_key_e && 1 + stack_pgs <= trap_key_e - prev) {
            proof {
                assert(!elf_layout_ok(segs, n as int, prev as int));
            }
            return Err(crate::elf::ElfError::BadLayout);
        }
        proof {
            assert(elf_layout_ok(segs, n as int, prev as int));
            assert(elf_layout_ok(segs, 0, 0));
        }
        let stack_need: u64 = (stack_pgs as u64) + 4 + (stack_pgs as u64) / 512 + (
        stack_pgs as u64) / 0x40000;
        let trap_need: u64 = 1 + 4;
        let need_total: u64 = need + stack_need + trap_need;
        proof {
            assert(stack_need == user_area_frames(stack_pages()));
            assert(trap_need == user_area_frames(1));
            assert(need_total == elf_frames_needed(segs));
        }
        if (frame_remain_num(allocator) as u64) < need_total {
            proof {
                crate::frame_allocator::lemma_recycled_len_bounded(allocator@);
            }
            return Err(crate::elf::ElfError::FrameExhausted);
        }
        proof {
            lemma_frames_upto_mono(segs, 0, n as int);
        }
        // Second pass: build the address space.
        let mut memory_set = match Self::new_bare(allocator) {
            Ok(ms) => ms,
            Err(_) => {
                proof {
                    assert(false);
                }
                return Err(crate::elf::ElfError::FrameExhausted);
            },
        };
        memory_set.map_trampoline(strampoline, allocator);
        proof {
            assert forall|k: int| #[trigger] memory_set.mapping().contains_key(k) implies k
                == trampoline_key() by {
            }
        }
        let mut prev2: usize = 0;
        let mut j2: usize = 0;
        while j2 < n
            invariant
                segs == image.segments@,
                segs == crate::elf::load_segments(elf_data@),
                n == segs.len(),
                0 <= j2 <= n,
                stack_pgs == stack_pages(),
                trap_key_e == trap_context_key(),
                3 <= trampoline_key() < 0x8000000,
                trap_context_key() == trampoline_key() - 1,
                data_len == elf_data@.len(),
                forall|t: int|
                    0 <= t < segs.len() ==> {
                        let g = #[trigger] segs[t];
                        &&& g.start_va <= g.end_va
                        &&& g.file_off + g.file_size <= elf_data@.len()
                        &&& g.file_size <= g.end_va - g.start_va
                    },
                prev2 as int <= trap_context_key(),
                crate::elf::parse_ok(elf_data@),
                elf_layout_ok(segs, 0, 0),
                old(allocator)@.free_count() >= elf_frames_needed(segs),
                elf_layout_ok(segs, j2 as int, prev2 as int),
                elf_max_end(segs, j2 as int, prev2 as int) == elf_max_end(segs, 0, 0),
                forall|t: int| 0 <= t < j2 ==> seg_end_vpn(#[trigger] segs[t]) <= prev2,
                memory_set.wf(),
                allocator@.wf(),
                allocator@.end == old(allocator)@.end,
                allocator@.end <= PPN_LIMIT,
                allocator@.free_count() >= elf_frames_upto(segs, n as int) - elf_frames_upto(
                    segs,
                    j2 as int,
                ) + user_area_frames(stack_pages()) + user_area_frames(1),
                forall|k: int|
                    #[trigger] memory_set.mapping().contains_key(k) ==> k == trampoline_key() || k
                        < prev2,
                memory_set.mapping().contains_key(trampoline_key()) && memory_set.mapping()[
                    trampoline_key()].spec_flags() == (PTE_R | PTE_X | PTE_V)
                    && memory_set.mapping()[trampoline_key()].spec_ppn() == (strampoline.0
                    / PAGE_SIZE) as u64,
                forall|t: int, k: int|
                    #![trigger memory_set.mapping().contains_key(k), segs[t]]
                    0 <= t < j2 && seg_start_vpn(segs[t]) <= k < seg_end_vpn(segs[t])
                        ==> memory_set.mapping().contains_key(k),
                forall|t: int, k: int|
                    #![trigger memory_set.mapping()[k], segs[t]]
                    0 <= t < j2 && seg_start_vpn(segs[t]) <= k < seg_end_vpn(segs[t])
                        ==> memory_set.mapping()[k].spec_flags() == (user_perm(segs[t].flags)
                        | PTE_V),
            decreases n - j2,
        {
            let g = image.segments[j2];
            let sv: usize = VirtAddr(g.start_va).floor().0;
            let ev: usize = VirtAddr(g.end_va).ceil().0;
            proof {
                lemma_ceil_form(g.end_va as int);
                assert(sv == seg_start_vpn(segs[j2 as int]));
                assert(ev == seg_end_vpn(segs[j2 as int]));
                vstd::arithmetic::div_mod::lemma_small_mod(sv as nat, 0x8000000nat);
                lemma_pages_cover_bytes(g.start_va as int, g.end_va as int);
                vstd::arithmetic::mul::lemma_mul_upper_bound(
                    (ev - sv) as int,
                    0x8000000,
                    PAGE_SIZE as int,
                    PAGE_SIZE as int,
                );
            }
            let pb: u8 = MAP_PERM_U | (if g.flags & 4 != 0 {
                MAP_PERM_R
            } else {
                0
            }) | (if g.flags & 2 != 0 {
                MAP_PERM_W
            } else {
                0
            }) | (if g.flags & 1 != 0 {
                MAP_PERM_X
            } else {
                0
            });
            proof {
                assert(pb == user_perm(g.flags));
            }
            proof {
                lemma_frames_upto_mono(segs, j2 as int + 1, n as int);
                assert(elf_frames_upto(segs, j2 as int + 1) == elf_frames_upto(segs, j2 as int)
                    + user_area_frames(ev - sv));
            }
            let init = vstd::slice::slice_subrange(elf_data, g.file_off, g.file_off + g.file_size);
            let ghost ms_pre = memory_set;
            memory_set.push_user_area(g.start_va, g.end_va, pb, Some(init), allocator);
            prev2 = ev;
            j2 = j2 + 1;
            proof {
                assert forall|t: int, k: int|
                    #![trigger memory_set.mapping().contains_key(k), segs[t]]
                    0 <= t < j2 && seg_start_vpn(segs[t]) <= k < seg_end_vpn(segs[t]) implies memory_set.mapping().contains_key(k) by {
                    if t < j2 - 1 {
                        assert(ms_pre.mapping().contains_key(k));
                        assert(seg_end_vpn(segs[t]) <= sv);
                    } else {
                        assert((g.start_va / PAGE_SIZE) % 0x8000000 == sv);
                        assert((g.start_va / PAGE_SIZE) % 0x8000000 <= k < (g.start_va
                            / PAGE_SIZE) % 0x8000000 + ((g.end_va + PAGE_SIZE - 1) / (
                        PAGE_SIZE as int) - g.start_va / PAGE_SIZE));
                    }
                }
                assert forall|t: int, k: int|
                    #![trigger memory_set.mapping()[k], segs[t]]
                    0 <= t < j2 && seg_start_vpn(segs[t]) <= k < seg_end_vpn(segs[t]) implies memory_set.mapping()[k].spec_flags() == (user_perm(segs[t].flags) | PTE_V) by {
                    if t < j2 - 1 {
                        assert(ms_pre.mapping().contains_key(k));
                        assert(seg_end_vpn(segs[t]) <= sv);
                        assert(memory_set.mapping()[k] == ms_pre.mapping()[k]);
                    } else {
                        assert(t == j2 - 1);
                        assert((g.start_va / PAGE_SIZE) % 0x8000000 == sv);
                        assert((g.start_va / PAGE_SIZE) % 0x8000000 <= k < (g.start_va
                            / PAGE_SIZE) % 0x8000000 + ((g.end_va + PAGE_SIZE - 1) / (
                        PAGE_SIZE as int) - g.start_va / PAGE_SIZE));
                        assert(memory_set.mapping().contains_key(k));
                        assert(memory_set.mapping()[k].spec_flags() == (pb | PTE_V));
                    }
                }
            }
        }
        let ghost me = prev2 as int;
        proof {
            assert(me == elf_max_end(segs, 0, 0));
            assert(!memory_set.mapping().contains_key(me));
        }
        // Guard page at `prev2`, then the user stack above it.
        let stack_bottom: usize = (prev2 + 1) * PAGE_SIZE;
        let stack_top: usize = stack_bottom + USER_STACK_SIZE;
        proof {
            lemma_mul_page_aligned(prev2 as int + 1);
            lemma_ceil_form(stack_top as int);
            assert(stack_top as int == (prev2 + 1 + stack_pages()) * PAGE_SIZE) by (nonlinear_arith)
                requires
                    stack_top == stack_bottom + USER_STACK_SIZE,
                    stack_bottom == (prev2 + 1) * PAGE_SIZE,
                    USER_STACK_SIZE == stack_pages() * PAGE_SIZE,
            ;
        }
        proof {
            lemma_mul_page_aligned(prev2 as int + 1);
            lemma_mul_page_aligned(prev2 as int + 1 + stack_pages());
            vstd::arithmetic::div_mod::lemma_small_mod((prev2 + 1) as nat, 0x8000000nat);
        }
        let ghost ms_seg = memory_set;
        memory_set.push_user_area(
            stack_bottom,
            stack_top,
            MAP_PERM_R | MAP_PERM_W | MAP_PERM_U,
            None,
            allocator,
        );
        proof {
            assert(!memory_set.mapping().contains_key(me));
        }
        // The trap-context page, directly below the trampoline.
        let ghost ms_stk = memory_set;
        proof {
            lemma_ceil_form(TRAMPOLINE as int);
            vstd::arithmetic::div_mod::lemma_small_mod((prev2 + 1) as nat, 0x8000000nat);
            assert((TRAP_CONTEXT / PAGE_SIZE) % 0x8000000 == trap_context_key());
            assert(((TRAMPOLINE + PAGE_SIZE - 1) / (PAGE_SIZE as int)) == (TRAP_CONTEXT
                / PAGE_SIZE) + 1);
            assert forall|k: int| memory_set.mapping().contains_key(k) implies k
                == trampoline_key() || k < (TRAP_CONTEXT / PAGE_SIZE) % 0x8000000 by {
            }
        }
        memory_set.push_user_area(
            TRAP_CONTEXT,
            TRAMPOLINE,
            MAP_PERM_R | MAP_PERM_W,
            None,
            allocator,
        );
        proof {
            assert(!memory_set.mapping().contains_key(me));
            assert forall|t: int, k: int|
                #![trigger memory_set.mapping().contains_key(k), segs[t]]
                0 <= t < segs.len() && seg_start_vpn(segs[t]) <= k < seg_end_vpn(segs[t]) implies memory_set.mapping().contains_key(k) by {
                assert(ms_seg.mapping().contains_key(k));
                assert(seg_end_vpn(segs[t]) <= me);
                assert(k < me + 1);
                assert(ms_stk.mapping().contains_key(k));
            }
            assert forall|t: int, k: int|
                #![trigger memory_set.mapping()[k], segs[t]]
                0 <= t < segs.len() && seg_start_vpn(segs[t]) <= k < seg_end_vpn(segs[t]) implies memory_set.mapping()[k].spec_flags() == (user_perm(segs[t].flags) | PTE_V) by {
                assert(ms_seg.mapping().contains_key(k));
                assert(seg_end_vpn(segs[t]) <= me);
                assert(k < me + 1);
                assert(ms_stk.mapping().contains_key(k));
                assert(ms_stk.mapping()[k] == ms_seg.mapping()[k]);
                assert(memory_set.mapping()[k] == ms_stk.mapping()[k]);
            }
            assert((stack_bottom / PAGE_SIZE) % 0x8000000 == me + 1);
            assert(((stack_top + PAGE_SIZE - 1) / (PAGE_SIZE as int)) == me + 1 + stack_pages());
            assert forall|k: int|
                me + 1 <= k < me + 1 + stack_pages() implies #[trigger] memory_set.mapping().contains_key(k) && memory_set.mapping()[k].spec_flags() == ((MAP_PERM_R | MAP_PERM_W
                | MAP_PERM_U) | PTE_V) by {
                assert((stack_bottom / PAGE_SIZE) % 0x8000000 <= k < (stack_bottom / PAGE_SIZE)
                    % 0x8000000 + ((stack_top + PAGE_SIZE - 1) / (PAGE_SIZE as int) - stack_bottom
                    / PAGE_SIZE));
                assert(ms_stk.mapping().contains_key(k));
                assert(ms_stk.mapping()[k].spec_flags() == ((MAP_PERM_R | MAP_PERM_W | MAP_PERM_U)
                    | PTE_V));
                assert(memory_set.mapping()[k] == ms_stk.mapping()[k]);
            }
            assert((TRAP_CONTEXT / PAGE_SIZE) % 0x8000000 == trap_context_key());
            assert((TRAP_CONTEXT / PAGE_SIZE) % 0x8000000 <= trap_context_key() < (TRAP_CONTEXT
                / PAGE_SIZE) % 0x8000000 + ((TRAMPOLINE + PAGE_SIZE - 1) / (PAGE_SIZE as int)
                - TRAP_CONTEXT / PAGE_SIZE));
            assert(memory_set.mapping().contains_key(trap_context_key()));
            assert(memory_set.mapping()[trap_context_key()].spec_flags() == ((MAP_PERM_R
                | MAP_PERM_W) | PTE_V));
            assert(ms_stk.mapping().contains_key(trampoline_key()));
            assert(memory_set.mapping().contains_key(trampoline_key()));
            assert(memory_set.mapping()[trampoline_key()] == ms_stk.mapping()[trampoline_key()]);
        }
        Ok((memory_set, stack_top, image.entry))
    }
}

/// The frame demand of any prefix of segments includes at least the three
/// fixed frames.
pub proof fn lemma_frames_lb(segs: Seq<crate::elf::SegmentInfo>, a: int)
    requires
        0 <= a <= segs.len(),
        forall|t: int| 0 <= t < segs.len() ==> (#[trigger] segs[t]).start_va <= segs[t].end_va,
    ensures
        elf_frames_upto(segs, a) >= 3,
    decreases a,
{
    if a > 0 {
        lemma_frames_lb(segs, a - 1);
        vstd::arithmetic::div_mod::lemma_div_is_ordered(
            segs[a - 1].start_va as int,
            segs[a - 1].end_va as int,
            PAGE_SIZE as int,
        );
        vstd::arithmetic::div_mod::lemma_div_is_ordered(
            segs[a - 1].end_va as int,
            segs[a - 1].end_va + PAGE_SIZE - 1,
            PAGE_SIZE as int,
        );
    }
}

/// The frame demand of a prefix of segments only grows.
pub proof fn lemma_frames_upto_mono(segs: Seq<crate::elf::SegmentInfo>, a: int, b: int)
    requires
        0 <= a <= b <= segs.len(),
        forall|t: int| 0 <= t < segs.len() ==> (#[trigger] segs[t]).start_va <= segs[t].end_va,
    ensures
        elf_frames_upto(segs, a) <= elf_frames_upto(segs, b),
        elf_frames_upto(segs, a) >= 3,
    decreases b - a,
{
    lemma_frames_lb(segs, a);
    if a < b {
        lemma_frames_upto_mono(segs, a, b - 1);
        vstd::arithmetic::div_mod::lemma_div_is_ordered(
            segs[b - 1].start_va as int,
            segs[b - 1].end_va as int,
            PAGE_SIZE as int,
        );
        vstd::arithmetic::div_mod::lemma_div_is_ordered(
            segs[b - 1].end_va as int,
            segs[b - 1].end_va + PAGE_SIZE - 1,
            PAGE_SIZE as int,
        );
    }
}

/// A page-aligned product stays aligned and floors back to its factor.
pub proof fn lemma_mul_page_aligned(x: int)
    requires
        0 <= x,
    ensures
        (x * PAGE_SIZE) % (PAGE_SIZE as int) == 0,
        (x * PAGE_SIZE) / (PAGE_SIZE as int) == x,
{
    vstd::arithmetic::div_mod::lemma_fundamental_div_mod_converse(
        x * PAGE_SIZE,
        PAGE_SIZE as int,
        x,
        0,
    );
}

/// A segment's pages cover at least its bytes.
pub proof fn lemma_pages_cover_bytes(start: int, end: int)
    requires
        0 <= start <= end,
    ensures
        ((end + PAGE_SIZE - 1) / (PAGE_SIZE as int) - start / PAGE_SIZE as int) * PAGE_SIZE >= end
            - start,
{
    vstd::arithmetic::div_mod::lemma_fundamental_div_mod(start, PAGE_SIZE as int);
    vstd::arithmetic::div_mod::lemma_fundamental_div_mod(end + PAGE_SIZE - 1, PAGE_SIZE as int);
    vstd::arithmetic::div_mod::lemma_mod_pos_bound(start, PAGE_SIZE as int);
    vstd::arithmetic::div_mod::lemma_mod_pos_bound(end + PAGE_SIZE - 1, PAGE_SIZE as int);
    let q1 = start / PAGE_SIZE as int;
    let q2 = (end + PAGE_SIZE - 1) / (PAGE_SIZE as int);
    assert((q2 - q1) * PAGE_SIZE == q2 * PAGE_SIZE - q1 * PAGE_SIZE) by (nonlinear_arith);
    assert(q2 * PAGE_SIZE >= end - 1 - (PAGE_SIZE - 1) + 1) by (nonlinear_arith)
        requires
            end + PAGE_SIZE - 1 == PAGE_SIZE as int * q2 + (end + PAGE_SIZE - 1) % (
            PAGE_SIZE as int),
            0 <= (end + PAGE_SIZE - 1) % (PAGE_SIZE as int) < PAGE_SIZE,
    ;
    assert(q1 * PAGE_SIZE <= start) by (nonlinear_arith)
        requires
            start == PAGE_SIZE as int * q1 + start % (PAGE_SIZE as int),
            0 <= start % (PAGE_SIZE as int),
    ;
}


} // verus!
