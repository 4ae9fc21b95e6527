//! Three-level page table: 64-bit entries with the hardware bit layout
//! (physical page number in bits 55:10, flag byte in bits 7:0), lazily built
//! nodes, and exact contracts for mapping, unmapping and translation.
use vstd::prelude::*;

use crate::address::{vpn_index0, vpn_index1, vpn_index2, PhysPageNum, VirtPageNum};
use crate::config::PAGE_SIZE;
use crate::frame_allocator::{frame_alloc, FrameTracker, StackFrameAllocator};

verus! {

/// Entry flag: the entry is valid.
pub const PTE_V: u8 = 1;

/// Entry flag: readable.
pub const PTE_R: u8 = 2;

/// Entry flag: writable.
pub const PTE_W: u8 = 4;

/// Entry flag: executable.
pub const PTE_X: u8 = 8;

/// Entry flag: accessible in user mode.
pub const PTE_U: u8 = 16;

/// Entry flag: global mapping.
pub const PTE_G: u8 = 32;

/// Entry flag: accessed.
pub const PTE_A: u8 = 64;

/// Entry flag: dirty.
pub const PTE_D: u8 = 128;

/// One past the largest physical page number a page-table entry can carry
/// (the entry's page-number field is 44 bits wide).
pub const PPN_LIMIT: u64 = 0x100000000000;

/// The flag byte of a page-table entry, one bit per named flag.
#[derive(Copy, Clone, Debug, PartialEq, Eq, Structural)]
pub struct PTEFlags {
    pub bits: u8,
}

impl PTEFlags {
    /// No flag set.
    pub fn empty() -> (r: Self)
        ensures
            r.bits == 0,
    {
        PTEFlags { bits: 0 }
    }

    /// The flag set with exactly the given bits.
    pub fn from_bits(bits: u8) -> (r: Self)
        ensures
            r.bits == bits,
    {
        PTEFlags { bits }
    }

    /// Set union of two flag sets.
    pub fn union(self, other: Self) -> (r: Self)
        ensures
            r.bits == self.bits | other.bits,
    {
        PTEFlags { bits: self.bits | other.bits }
    }

    /// Whether every flag of `other` is also set in `self`.
    pub fn contains(self, other: Self) -> (r: bool)
        ensures
            r == (self.bits & other.bits == other.bits),
    {
        self.bits & other.bits == other.bits
    }
}

/// One 64-bit page-table entry: bits 55:10 hold a physical page number, bits
/// 7:0 the flag byte; bits 9:8 and 63:56 are reserved.
#[derive(Copy, Clone, Debug, PartialEq, Eq, Structural)]
pub struct PageTableEntry {
    pub bits: u64,
}

impl PageTableEntry {
    /// The physical page number stored in bits 55:10.
    pub open spec fn spec_ppn(self) -> u64 {
        (self.bits >> 10) & 0xFFFFFFFFFFF
    }

    /// The flag byte stored in bits 7:0.
    pub open spec fn spec_flags(self) -> u8 {
        (self.bits & 0xFF) as u8
    }

    /// Whether the valid flag is set.
    pub open spec fn spec_valid(self) -> bool {
        self.bits & (PTE_V as u64) != 0
    }

    /// Whether the readable flag is set.
    pub open spec fn spec_readable(self) -> bool {
        self.bits & (PTE_R as u64) != 0
    }

    /// Whether the writable flag is set.
    pub open spec fn spec_writable(self) -> bool {
        self.bits & (PTE_W as u64) != 0
    }

    /// Whether the executable flag is set.
    pub open spec fn spec_executable(self) -> bool {
        self.bits & (PTE_X as u64) != 0
    }

    /// Builds the entry for `ppn` with exactly the given flags.
    pub fn new(ppn: PhysPageNum, flags: PTEFlags) -> (r: Self)
        requires
            (ppn.0 as u64) < PPN_LIMIT,
        ensures
            r.bits == ((ppn.0 as u64) << 10) | (flags.bits as u64),
            r.spec_ppn() == ppn.0 as u64,
            r.spec_flags() == flags.bits,
    {
        let bits: u64 = ((ppn.0 as u64) << 10) | (flags.bits as u64);
        proof {
            let p = ppn.0 as u64;
            let f = flags.bits;
            assert((((p << 10) | (f as u64)) >> 10) & 0xFFFFFFFFFFF == p && (((p << 10) | (
            f as u64)) & 0xFF) as u8 == f) by (bit_vector)
                requires
                    p < 0x100000000000,
            ;
        }
        PageTableEntry { bits }
    }

    /// The all-zero entry, which is invalid.
    pub fn empty() -> (r: Self)
        ensures
            r.bits == 0,
            !r.spec_valid(),
    {
        proof {
            assert(0u64 & 1u64 == 0) by (bit_vector);
        }
        PageTableEntry { bits: 0 }
    }

    /// The physical page number this entry points at.
    pub fn ppn(&self) -> (r: PhysPageNum)
        ensures
            r.0 == self.spec_ppn() as usize,
    {
        PhysPageNum(((self.bits >> 10) & 0xFFFFFFFFFFF) as usize)
    }

    /// The flag byte of this entry.
    pub fn flags(&self) -> (r: PTEFlags)
        ensures
            r.bits == self.spec_flags(),
    {
        PTEFlags { bits: (self.bits & 0xFF) as u8 }
    }

    /// Whether this entry is a live translation or pointer.
    pub fn is_valid(&self) -> (r: bool)
        ensures
            r == self.spec_valid(),
    {
        self.bits & (PTE_V as u64) != 0
    }

    /// Whether this entry permits reads.
    pub fn readable(&self) -> (r: bool)
        ensures
            r == self.spec_readable(),
    {
        self.bits & (PTE_R as u64) != 0
    }

    /// Whether this entry permits writes.
    pub fn writable(&self) -> (r: bool)
        ensures
            r == self.spec_writable(),
    {
        self.bits & (PTE_W as u64) != 0
    }

    /// Whether this entry permits instruction fetch.
    pub fn executable(&self) -> (r: bool)
        ensures
            r == self.spec_executable(),
    {
        self.bits & (PTE_X as u64) != 0
    }
}

/// The entry that `map` installs for a frame: the target page number plus the
/// requested flags with the valid bit forced on.
pub open spec fn pte_for(ppn: PhysPageNum, flags: PTEFlags) -> PageTableEntry {
    PageTableEntry { bits: ((ppn.0 as u64) << 10) | ((flags.bits | PTE_V) as u64) }
}

/// Errors of the page-table operations. The kernel treats every one of them
/// as fatal: mapping over a live translation or unmapping a dead one signals
/// a kernel bug, and exhaustion while creating table nodes is unrecoverable.
#[derive(Copy, Clone, Debug, PartialEq, Eq, Structural)]
pub enum PagingError {
    AlreadyMapped,
    FrameExhausted,
    NotMapped,
}

/// Lowest-level table node: 512 leaf entries, each a translation.
pub(crate) struct PtNodeLeaf {
    pub(crate) frame: FrameTracker,
    pub(crate) entries: Vec<PageTableEntry>,
}

/// Middle-level table node: 512 entries pointing at leaf nodes.
pub(crate) struct PtNodeMid {
    pub(crate) frame: FrameTracker,
    pub(crate) entries: Vec<PageTableEntry>,
    pub(crate) children: Vec<Option<PtNodeLeaf>>,
}

/// Root table node: 512 entries pointing at middle nodes.
pub(crate) struct PtNodeRoot {
    pub(crate) entries: Vec<PageTableEntry>,
    pub(crate) children: Vec<Option<PtNodeMid>>,
}

impl PtNodeLeaf {
    pub(crate) open spec fn wf(self) -> bool {
        self.entries@.len() == 512
    }
}

impl PtNodeMid {
    pub(crate) open spec fn wf(self) -> bool {
        &&& self.entries@.len() == 512
        &&& self.children@.len() == 512
        &&& forall|i: int|
            0 <= i < 512 ==> ((#[trigger] self.entries@[i]).spec_valid() <==> self.children@[i]
                is Some)
        &&& forall|i: int|
            0 <= i < 512 && self.children@[i] is Some ==> (#[trigger] self.children@[i]).unwrap().wf()
                && self.entries@[i].spec_flags() == PTE_V && (
            self.children@[i]).unwrap().frame.ppn.0 as u64 == self.entries@[i].spec_ppn()
    }
}

impl PtNodeRoot {
    pub(crate) open spec fn wf(self) -> bool {
        &&& self.entries@.len() == 512
        &&& self.children@.len() == 512
        &&& forall|i: int|
            0 <= i < 512 ==> ((#[trigger] self.entries@[i]).spec_valid() <==> self.children@[i]
                is Some)
        &&& forall|i: int|
            0 <= i < 512 && self.children@[i] is Some ==> (#[trigger] self.children@[i]).unwrap().wf()
                && self.entries@[i].spec_flags() == PTE_V && (
            self.children@[i]).unwrap().frame.ppn.0 as u64 == self.entries@[i].spec_ppn()
    }
}

/// The translation key of a virtual page number: its low 27 bits, i.e. the
/// three 9-bit indices the hardware walk consumes. Two page numbers with the
/// same key reach the same leaf entry.
pub open spec fn key_of(vpn: VirtPageNum) -> int {
    vpn.0 as int % 0x8000000
}

/// The three table indices of a translation key, most significant first.
pub open spec fn key_index0(k: int) -> int {
    k / 0x40000
}

/// Middle table index of a translation key.
pub open spec fn key_index1(k: int) -> int {
    (k / 512) % 512
}

/// Leaf table index of a translation key.
pub open spec fn key_index2(k: int) -> int {
    k % 512
}

/// The walk indices of a page number agree with the index decomposition of
/// its translation key.
pub proof fn lemma_key_indexes(vpn: VirtPageNum)
    ensures
        0 <= key_of(vpn) < 0x8000000,
        key_index0(key_of(vpn)) == vpn_index0(vpn),
        key_index1(key_of(vpn)) == vpn_index1(vpn),
        key_index2(key_of(vpn)) == vpn_index2(vpn),
{
    let v = vpn.0;
    assert((v % 0x8000000) / 0x40000 == (v / 0x40000) % 512 && ((v % 0x8000000) / 512) % 512 == (v
        / 512) % 512 && (v % 0x8000000) % 512 == v % 512) by (bit_vector);
}

/// A three-level page table for one address space. The table owns the frames
/// of its own nodes; leaf frames belong to the logical segments that mapped
/// them.
pub struct PageTable {
    root_ppn: PhysPageNum,
    root_frame: Option<FrameTracker>,
    root: PtNodeRoot,
}

impl PageTable {
    /// Structural invariant of the whole tree.
    pub closed spec fn wf(self) -> bool {
        self.root.wf()
    }

    /// Physical page number of the root node.
    pub closed spec fn root_ppn_spec(self) -> usize {
        self.root_ppn.0
    }

    /// Whether a middle node exists under root index `i0`.
    pub closed spec fn has_mid(self, i0: int) -> bool {
        0 <= i0 < 512 && self.root.children@[i0] is Some
    }

    /// Whether a leaf node exists under root index `i0`, middle index `i1`.
    pub closed spec fn has_leaf(self, i0: int, i1: int) -> bool {
        self.has_mid(i0) && 0 <= i1 < 512 && self.root.children@[i0].unwrap().children@[i1] is Some
    }

    /// The leaf entry stored at the given walk indices.
    pub closed spec fn leaf_entry(self, i0: int, i1: int, i2: int) -> PageTableEntry {
        self.root.children@[i0].unwrap().children@[i1].unwrap().entries@[i2]
    }

    /// The leaf entry a walk for key `k` reaches: present exactly when every
    /// node on the path exists, whether or not the entry itself is valid.
    pub open spec fn entry_for_key(self, k: int) -> Option<PageTableEntry> {
        if self.has_leaf(key_index0(k), key_index1(k)) {
            Some(self.leaf_entry(key_index0(k), key_index1(k), key_index2(k)))
        } else {
            None
        }
    }

    /// What `translate` returns for `vpn`.
    pub open spec fn translate_spec(self, vpn: VirtPageNum) -> Option<PageTableEntry> {
        self.entry_for_key(key_of(vpn))
    }

    /// The translation relation of this table: every key whose walk reaches a
    /// valid leaf entry, mapped to that entry.
    pub open spec fn mapping(self) -> Map<int, PageTableEntry> {
        Map::new(
            |k: int|
                0 <= k < 0x8000000 && self.entry_for_key(k) is Some && self.entry_for_key(
                    k,
                ).unwrap().spec_valid(),
            |k: int| self.entry_for_key(k).unwrap(),
        )
    }

    /// How many table-node frames a `map` of key `k` would have to allocate.
    pub open spec fn nodes_needed(self, k: int) -> int {
        if self.has_leaf(key_index0(k), key_index1(k)) {
            0
        } else if self.has_mid(key_index0(k)) {
            1
        } else {
            2
        }
    }

    /// Control-register value selecting this table: the paging-mode tag in
    /// the top bits and the root node's physical page number in the low bits.
    pub open spec fn token_spec(self) -> u64 {
        (3u64 << 62) | (self.root_ppn_spec() as u64)
    }

    /// Read-only lookup: walks the three levels and copies out the leaf
    /// entry, without ever creating nodes; `None` when some node on the path
    /// is missing.
    pub fn translate(&self, vpn: VirtPageNum) -> (r: Option<PageTableEntry>)
        requires
            self.wf(),
        ensures
            r == self.translate_spec(vpn),
            self.mapping().contains_key(key_of(vpn)) ==> r is Some && r.unwrap() == self.mapping()[
                key_of(vpn)
            ] && r.unwrap().spec_valid(),
            !self.mapping().contains_key(key_of(vpn)) ==> (r is None || !r.unwrap().spec_valid()),
    {
        proof {
            lemma_key_indexes(vpn);
        }
        let idx = vpn.indexes();
        match &self.root.children[idx[0]] {
            None => None,
            Some(mid) => match &mid.children[idx[1]] {
                None => None,
                Some(leaf) => Some(leaf.entries[idx[2]]),
            },
        }
    }

    /// Control-register encoding of this table, bit-for-bit what the hardware
    /// root register expects.
    pub fn token(&self) -> (r: u64)
        requires
            (self.root_ppn_spec() as u64) < PPN_LIMIT,
        ensures
            r == self.token_spec(),
    {
        (3u64 << 62) | (self.root_ppn() as u64)
    }

    fn root_ppn(&self) -> (r: usize)
        ensures
            r == self.root_ppn_spec(),
    {
        self.root_ppn.0
    }

    /// Creates an empty table: one freshly allocated root frame whose entries
    /// all start invalid. Fails exactly when the allocator is exhausted,
    /// which the kernel treats as unrecoverable.
    pub fn new(allocator: &mut StackFrameAllocator) -> (r: Result<PageTable, PagingError>)
        requires
            old(allocator)@.wf(),
        ensures
            final(allocator)@.wf(),
            final(allocator)@.end == old(allocator)@.end,
            r is Err <==> old(allocator)@.free_count() == 0,
            r is Err ==> r == Err::<PageTable, PagingError>(PagingError::FrameExhausted)
                && final(allocator)@ == old(allocator)@,
            r is Ok ==> {
                &&& r.unwrap().wf()
                &&& r.unwrap().mapping() =~= Map::<int, PageTableEntry>::empty()
                &&& forall|i0: int| !(#[trigger] r.unwrap().has_mid(i0))
                &&& forall|i0: int, i1: int| !(#[trigger] r.unwrap().has_leaf(i0, i1))
                &&& r.unwrap().root_ppn_spec() == old(allocator)@.alloc_result().unwrap()
                &&& final(allocator)@ == old(allocator)@.alloc_next()
                &&& final(allocator)@.free_count() == old(allocator)@.free_count() - 1
            },
    {
        let frame = match frame_alloc(allocator) {
            Some(f) => f,
            None => {
                return Err(PagingError::FrameExhausted);
            },
        };
        let root_ppn = frame.ppn;
        let table = PageTable {
            root_ppn,
            root_frame: Some(frame),
            root: PtNodeRoot { entries: make_empty_entries(), children: make_mid_slots() },
        };
        proof {
            assert(table.mapping() =~= Map::<int, PageTableEntry>::empty());
        }
        Ok(table)
    }

    /// A read-only view over an existing root, identified by a control
    /// register value: used to inspect another address space's token without
    /// taking ownership of its frames. In this model the node contents stay
    /// with the owning table, so the view must never be asked to map, unmap
    /// or translate; it only carries the root page number.
    pub fn from_token(satp: u64) -> (r: PageTable)
        ensures
            r.wf(),
            r.root_ppn_spec() == (satp & 0xFFFFFFFFFFF) as usize,
            satp & 0xFFFFFFFFFFF <= usize::MAX ==> r.token_spec() == (3u64 << 62) | (satp
                & 0xFFFFFFFFFFF),
    {
        PageTable {
            root_ppn: PhysPageNum((satp & 0xFFFFFFFFFFF) as usize),
            root_frame: None,
            root: PtNodeRoot { entries: make_empty_entries(), children: make_mid_slots() },
        }
    }
}

/// The translation key is recovered from its three indices, so distinct keys
/// differ in at least one index.
pub proof fn lemma_key_decompose(k: int)
    requires
        0 <= k < 0x8000000,
    ensures
        k == key_index0(k) * 0x40000 + key_index1(k) * 512 + key_index2(k),
        0 <= key_index0(k) < 512,
        0 <= key_index1(k) < 512,
        0 <= key_index2(k) < 512,
{
    let ku = k as usize;
    assert(ku == (ku / 0x40000) * 0x40000 + ((ku / 512) % 512) * 512 + ku % 512 && (ku / 0x40000)
        < 512) by (bit_vector)
        requires
            ku < 0x8000000,
    ;
}

impl PageTableEntry {
    /// Each permission answer of an entry is the corresponding bit of its
    /// flag byte.
    pub proof fn lemma_flag_bits(self)
        ensures
            self.spec_valid() == (self.spec_flags() & PTE_V != 0),
            self.spec_readable() == (self.spec_flags() & PTE_R != 0),
            self.spec_writable() == (self.spec_flags() & PTE_W != 0),
            self.spec_executable() == (self.spec_flags() & PTE_X != 0),
    {
        let b = self.bits;
        assert((b & 1u64 != 0) == (((b & 0xFF) as u8) & 1 != 0) && (b & 2u64 != 0) == (((b
            & 0xFF) as u8) & 2 != 0) && (b & 4u64 != 0) == (((b & 0xFF) as u8) & 4 != 0) && (b
            & 8u64 != 0) == (((b & 0xFF) as u8) & 8 != 0)) by (bit_vector);
    }
}

impl PtNodeMid {
    /// Creates the leaf node under index `i1`, backed by `frame`, and installs
    /// the pointer entry for it.
    fn ensure_leaf(&mut self, i1: usize, frame: FrameTracker)
        requires
            old(self).wf(),
            i1 < 512,
            old(self).children@[i1 as int] is None,
            (frame.ppn.0 as u64) < PPN_LIMIT,
        ensures
            final(self).wf(),
            final(self).children@.len() == 512,
            forall|j: int|
                0 <= j < 512 && j != i1 ==> #[trigger] final(self).children@[j] == old(self).children@[j],
            final(self).children@[i1 as int] is Some,
            final(self).children@[i1 as int].unwrap().entries@.len() == 512,
            forall|j: int|
                0 <= j < 512 ==> !(#[trigger] final(self).children@[i1 as int].unwrap().entries@[j]).spec_valid(),
            final(self).frame == old(self).frame,
    {
        let pte = PageTableEntry::new(frame.ppn, PTEFlags { bits: PTE_V });
        proof {
            pte.lemma_flag_bits();
            assert(PTE_V & PTE_V != 0) by (bit_vector);
        }
        self.entries.set(i1, pte);
        self.children.set(i1, Some(PtNodeLeaf { frame, entries: make_empty_entries() }));
    }

    /// Overwrites the leaf entry at `(i1, i2)`; the leaf node must exist.
    fn set_leaf_entry(&mut self, i1: usize, i2: usize, pte: PageTableEntry)
        requires
            old(self).wf(),
            i1 < 512,
            i2 < 512,
            old(self).children@[i1 as int] is Some,
        ensures
            final(self).wf(),
            final(self).children@.len() == 512,
            forall|j: int|
                0 <= j < 512 && j != i1 ==> #[trigger] final(self).children@[j] == old(self).children@[j],
            final(self).children@[i1 as int] is Some,
            final(self).children@[i1 as int].unwrap().entries@ == old(self).children@[
                i1 as int
            ].unwrap().entries@.update(i2 as int, pte),
            final(self).children@[i1 as int].unwrap().frame.ppn == old(self).children@[
                i1 as int
            ].unwrap().frame.ppn,
            final(self).frame == old(self).frame,
    {
        match &mut self.children[i1] {
            Some(leaf) => {
                leaf.entries.set(i2, pte);
            },
            None => {
                proof {
                    assert(false);
                }
            },
        }
    }
}

impl PageTable {
    /// Creates the middle node under root index `i0`, backed by `frame`.
    fn ensure_mid(&mut self, i0: usize, frame: FrameTracker)
        requires
            old(self).wf(),
            i0 < 512,
            !old(self).has_mid(i0 as int),
            (frame.ppn.0 as u64) < PPN_LIMIT,
        ensures
            final(self).wf(),
            final(self).root_ppn_spec() == old(self).root_ppn_spec(),
            forall|a: int|
                #[trigger] final(self).has_mid(a) == (old(self).has_mid(a) || a == i0),
            forall|a: int, b: int|
                #[trigger] final(self).has_leaf(a, b) == old(self).has_leaf(a, b),
            forall|a: int, b: int, c: int|
                old(self).has_leaf(a, b) ==> #[trigger] final(self).leaf_entry(a, b, c) == old(self).leaf_entry(a, b, c),
    {
        let pte = PageTableEntry::new(frame.ppn, PTEFlags { bits: PTE_V });
        proof {
            pte.lemma_flag_bits();
            assert(PTE_V & PTE_V != 0) by (bit_vector);
        }
        self.root.entries.set(i0, pte);
        let mid = PtNodeMid { frame, entries: make_empty_entries(), children: make_leaf_slots() };
        self.root.children.set(i0, Some(mid));
        proof {
            assert forall|a: int, b: int| #[trigger] final(self).has_leaf(a, b) == old(self).has_leaf(a, b) by {
                if a == i0 {
                    assert(!old(self).has_mid(a));
                    if 0 <= b < 512 {
                        assert(final(self).root.children@[a].unwrap().children@[b] is None);
                    }
                }
            }
        }
    }

    /// Creates the leaf node under `(i0, i1)`, backed by `frame`; the middle
    /// node must already exist.
    fn add_leaf(&mut self, i0: usize, i1: usize, frame: FrameTracker)
        requires
            old(self).wf(),
            i0 < 512,
            i1 < 512,
            old(self).has_mid(i0 as int),
            !old(self).has_leaf(i0 as int, i1 as int),
            (frame.ppn.0 as u64) < PPN_LIMIT,
        ensures
            final(self).wf(),
            final(self).root_ppn_spec() == old(self).root_ppn_spec(),
            forall|a: int| #[trigger] final(self).has_mid(a) == old(self).has_mid(a),
            forall|a: int, b: int|
                #[trigger] final(self).has_leaf(a, b) == (old(self).has_leaf(a, b) || (a == i0 && b
                    == i1)),
            forall|a: int, b: int, c: int|
                old(self).has_leaf(a, b) ==> #[trigger] final(self).leaf_entry(a, b, c) == old(self).leaf_entry(a, b, c),
            forall|c: int|
                0 <= c < 512 ==> !(#[trigger] final(self).leaf_entry(
                    i0 as int,
                    i1 as int,
                    c,
                )).spec_valid(),
    {
        match &mut self.root.children[i0] {
            Some(mid) => {
                mid.ensure_leaf(i1, frame);
            },
            None => {
                proof {
                    assert(false);
                }
            },
        }
        proof {
            let pre = *old(self);
            let post = *self;
            assert(post.root.entries@ == pre.root.entries@);
            assert(post.root.children@.len() == 512);
            assert(forall|j: int|
                0 <= j < 512 && j != i0 ==> post.root.children@[j] == #[trigger] pre.root.children@[j]);
            let newmid = post.root.children@[i0 as int].unwrap();
            let oldmid = pre.root.children@[i0 as int].unwrap();
            assert(newmid.wf());
            assert(post.wf()) by {
                assert forall|i: int|
                    0 <= i < 512 implies ((#[trigger] post.root.entries@[i]).spec_valid()
                    <==> post.root.children@[i] is Some) by {
                    assert(pre.root.entries@[i].spec_valid() <==> pre.root.children@[i] is Some);
                }
                assert forall|i: int|
                    0 <= i < 512 && post.root.children@[i] is Some implies (
                #[trigger] post.root.children@[i]).unwrap().wf() && post.root.entries@[i].spec_flags()
                    == PTE_V && (post.root.children@[i]).unwrap().frame.ppn.0 as u64
                    == post.root.entries@[i].spec_ppn() by {
                    if i != i0 {
                        assert(post.root.children@[i] == pre.root.children@[i]);
                    } else {
                        assert(newmid.frame == oldmid.frame);
                    }
                }
            }
            assert forall|a: int, b: int|
                #[trigger] post.has_leaf(a, b) == (pre.has_leaf(a, b) || (a == i0 && b
                    == i1)) by {
                if 0 <= a < 512 && a == i0 && 0 <= b < 512 {
                    assert(newmid.children@[b] == (if b == i1 {
                        newmid.children@[i1 as int]
                    } else {
                        oldmid.children@[b]
                    }));
                }
            }
            assert forall|a: int, b: int, c: int|
                pre.has_leaf(a, b) implies #[trigger] post.leaf_entry(a, b, c) == pre.leaf_entry(
                a,
                b,
                c,
            ) by {
                if a == i0 {
                    assert(newmid.children@[b] == oldmid.children@[b]);
                }
            }
        }
    }

    /// Overwrites the leaf entry at the given walk indices; the whole path
    /// must exist.
    fn set_entry(&mut self, i0: usize, i1: usize, i2: usize, pte: PageTableEntry)
        requires
            old(self).wf(),
            i0 < 512,
            i1 < 512,
            i2 < 512,
            old(self).has_leaf(i0 as int, i1 as int),
        ensures
            final(self).wf(),
            final(self).root_ppn_spec() == old(self).root_ppn_spec(),
            forall|a: int| #[trigger] final(self).has_mid(a) == old(self).has_mid(a),
            forall|a: int, b: int|
                #[trigger] final(self).has_leaf(a, b) == old(self).has_leaf(a, b),
            forall|a: int, b: int, c: int|
                old(self).has_leaf(a, b) && 0 <= c < 512 ==> #[trigger] final(self).leaf_entry(
                    a,
                    b,
                    c,
                ) == (if a == i0 && b == i1 && c == i2 {
                    pte
                } else {
                    old(self).leaf_entry(a, b, c)
                }),
    {
        match &mut self.root.children[i0] {
            Some(mid) => {
                mid.set_leaf_entry(i1, i2, pte);
            },
            None => {
                proof {
                    assert(false);
                }
            },
        }
        proof {
            let pre = *old(self);
            let post = *self;
            assert(post.root.entries@ == pre.root.entries@);
            assert(post.root.children@.len() == 512);
            assert(forall|j: int|
                0 <= j < 512 && j != i0 ==> post.root.children@[j] == #[trigger] pre.root.children@[j]);
            let newmid = post.root.children@[i0 as int].unwrap();
            let oldmid = pre.root.children@[i0 as int].unwrap();
            assert(newmid.wf());
            assert(post.wf()) by {
                assert forall|i: int|
                    0 <= i < 512 implies ((#[trigger] post.root.entries@[i]).spec_valid()
                    <==> post.root.children@[i] is Some) by {
                    assert(pre.root.entries@[i].spec_valid() <==> pre.root.children@[i] is Some);
                }
                assert forall|i: int|
                    0 <= i < 512 && post.root.children@[i] is Some implies (
                #[trigger] post.root.children@[i]).unwrap().wf() && post.root.entries@[i].spec_flags()
                    == PTE_V && (post.root.children@[i]).unwrap().frame.ppn.0 as u64
                    == post.root.entries@[i].spec_ppn() by {
                    if i != i0 {
                        assert(post.root.children@[i] == pre.root.children@[i]);
                    } else {
                        assert(newmid.frame == oldmid.frame);
                    }
                }
            }
            assert forall|a: int, b: int|
                #[trigger] post.has_leaf(a, b) == pre.has_leaf(a, b) by {
                if 0 <= a < 512 && a == i0 && 0 <= b < 512 {
                    if b == i1 {
                        assert(newmid.children@[b] is Some);
                        assert(oldmid.children@[b] is Some);
                    } else {
                        assert(newmid.children@[b] == oldmid.children@[b]);
                    }
                }
            }
            assert forall|a: int, b: int, c: int|
                pre.has_leaf(a, b) && 0 <= c < 512 implies #[trigger] post.leaf_entry(a, b, c)
                == (if a == i0 && b == i1 && c == i2 {
                pte
            } else {
                pre.leaf_entry(a, b, c)
            }) by {
                if a == i0 {
                    if b == i1 {
                        assert(newmid.children@[b].unwrap().entries@ == oldmid.children@[
                            b
                        ].unwrap().entries@.update(i2 as int, pte));
                    } else {
                        assert(newmid.children@[b] == oldmid.children@[b]);
                    }
                }
            }
        }
    }

    /// Installs the translation `vpn -> ppn` with `flags` plus the valid bit,
    /// creating the missing nodes of the walk on demand. Rejects a key whose
    /// leaf entry is already valid, and reports exhaustion without touching
    /// anything if the allocator cannot supply the missing nodes; the kernel
    /// treats both as fatal.
    pub fn map(
        &mut self,
        vpn: VirtPageNum,
        ppn: PhysPageNum,
        flags: PTEFlags,
        allocator: &mut StackFrameAllocator,
    ) -> (r: Result<(), PagingError>)
        requires
            old(self).wf(),
            old(allocator)@.wf(),
            (ppn.0 as u64) < PPN_LIMIT,
            old(allocator)@.end <= PPN_LIMIT,
        ensures
            final(self).wf(),
            final(allocator)@.wf(),
            final(allocator)@.end == old(allocator)@.end,
            final(self).root_ppn_spec() == old(self).root_ppn_spec(),
            r is Ok <==> !old(self).mapping().contains_key(key_of(vpn)) && old(allocator)@.free_count() >= old(self).nodes_needed(key_of(vpn)),
            r == Err::<(), PagingError>(PagingError::AlreadyMapped) <==> old(self).mapping().contains_key(key_of(vpn)),
            r is Err ==> final(self).mapping() == old(self).mapping() && final(allocator)@ == old(allocator)@,
            r is Ok ==> final(self).mapping() =~= old(self).mapping().insert(
                key_of(vpn),
                pte_for(ppn, flags),
            ),
            r is Ok ==> final(self).entry_for_key(key_of(vpn)) == Some(pte_for(ppn, flags)),
            r is Ok ==> final(allocator)@.free_count() == old(allocator)@.free_count() - old(self).nodes_needed(key_of(vpn)),
            forall|i0: int|
                #[trigger] final(self).has_mid(i0) == (old(self).has_mid(i0) || (r is Ok && i0
                    == key_index0(key_of(vpn)))),
            forall|i0: int, i1: int|
                #[trigger] final(self).has_leaf(i0, i1) == (old(self).has_leaf(i0, i1) || (r is Ok
                    && i0 == key_index0(key_of(vpn)) && i1 == key_index1(key_of(vpn)))),
    {
        proof {
            lemma_key_indexes(vpn);
        }
        let idx = vpn.indexes();
        let i0 = idx[0];
        let i1 = idx[1];
        let i2 = idx[2];
        let ghost k = key_of(vpn);
        // Read-only probe of the walk: which nodes exist, and is the leaf
        // entry already live?
        let mut has_mid_b = false;
        let mut has_leaf_b = false;
        let mut already = false;
        match &self.root.children[i0] {
            Some(mid) => {
                has_mid_b = true;
                match &mid.children[i1] {
                    Some(leaf) => {
                        has_leaf_b = true;
                        already = leaf.entries[i2].is_valid();
                    },
                    None => {},
                }
            },
            None => {},
        }
        if already {
            return Err(PagingError::AlreadyMapped);
        }
        let needed: usize = if has_leaf_b {
            0
        } else if has_mid_b {
            1
        } else {
            2
        };
        if crate::frame_allocator::frame_remain_num(allocator) < needed {
            proof {
                assert(!old(self).mapping().contains_key(k));
            }
            return Err(PagingError::FrameExhausted);
        }
        // Create the missing nodes of the walk.
        if !has_mid_b {
            let ghost a_pre = allocator@;
            let f = match frame_alloc(allocator) {
                Some(f) => f,
                None => {
                    proof {
                        assert(false);
                    }
                    return Err(PagingError::FrameExhausted);
                },
            };
            proof {
                lemma_alloc_ppn_in_range(a_pre);
            }
            self.ensure_mid(i0, f);
        }
        if !has_leaf_b {
            let ghost a_pre = allocator@;
            let f = match frame_alloc(allocator) {
                Some(f) => f,
                None => {
                    proof {
                        assert(false);
                    }
                    return Err(PagingError::FrameExhausted);
                },
            };
            proof {
                lemma_alloc_ppn_in_range(a_pre);
            }
            self.add_leaf(i0, i1, f);
        }
        // Install the translation in the (now present) leaf.
        let new_pte = PageTableEntry::new(ppn, flags.union(PTEFlags { bits: PTE_V }));
        self.set_entry(i0, i1, i2, new_pte);
        proof {
            lemma_key_decompose(k);
            let post = *self;
            let pre = *old(self);
            let target = pre.mapping().insert(k, pte_for(ppn, flags));
            assert(new_pte == pte_for(ppn, flags));
            let fb = flags.bits;
            assert((fb | 1) & 1 != 0) by (bit_vector);
            new_pte.lemma_flag_bits();
            assert(new_pte.spec_valid());
            assert(post.entry_for_key(k) == Some(new_pte));
            assert forall|q: int| post.mapping().contains_key(q) == target.contains_key(q) && (
            post.mapping().contains_key(q) ==> post.mapping()[q] == target[q]) by {
                if 0 <= q < 0x8000000 {
                    lemma_key_decompose(q);
                    let qi0 = key_index0(q);
                    let qi1 = key_index1(q);
                    let qi2 = key_index2(q);
                    if q != k {
                        if qi0 == key_index0(k) && qi1 == key_index1(k) && qi2 == key_index2(k) {
                            assert(q == k);
                        }
                        if pre.has_leaf(qi0, qi1) {
                            assert(post.leaf_entry(qi0, qi1, qi2) == pre.leaf_entry(
                                qi0,
                                qi1,
                                qi2,
                            ));
                        } else if post.has_leaf(qi0, qi1) {
                            assert(qi0 == key_index0(k) && qi1 == key_index1(k));
                            assert(!(post.leaf_entry(qi0, qi1, qi2)).spec_valid());
                        }
                    }
                }
            }
            assert(post.mapping().dom() =~= target.dom());
            assert(post.mapping() =~= target);
        }
        Ok(())
    }

    /// Removes the translation of `vpn`: walks without creating nodes, clears
    /// the leaf entry back to the all-zero invalid state, and rejects a key
    /// that holds no live translation; the kernel treats that as fatal. Node
    /// frames stay with the table for reuse.
    pub fn unmap(&mut self, vpn: VirtPageNum) -> (r: Result<(), PagingError>)
        requires
            old(self).wf(),
        ensures
            final(self).wf(),
            final(self).root_ppn_spec() == old(self).root_ppn_spec(),
            r is Ok <==> old(self).mapping().contains_key(key_of(vpn)),
            r is Err ==> r == Err::<(), PagingError>(PagingError::NotMapped) && final(self).mapping()
                == old(self).mapping(),
            r is Ok ==> final(self).mapping() =~= old(self).mapping().remove(key_of(vpn)),
            forall|i0: int| #[trigger] final(self).has_mid(i0) == old(self).has_mid(i0),
            forall|i0: int, i1: int|
                #[trigger] final(self).has_leaf(i0, i1) == old(self).has_leaf(i0, i1),
    {
        proof {
            lemma_key_indexes(vpn);
        }
        let idx = vpn.indexes();
        let i0 = idx[0];
        let i1 = idx[1];
        let i2 = idx[2];
        let ghost k = key_of(vpn);
        let mut live = false;
        match &self.root.children[i0] {
            Some(mid) => {
                match &mid.children[i1] {
                    Some(leaf) => {
                        live = leaf.entries[i2].is_valid();
                    },
                    None => {},
                }
            },
            None => {},
        }
        if !live {
            return Err(PagingError::NotMapped);
        }
        let cleared = PageTableEntry::empty();
        self.set_entry(i0, i1, i2, cleared);
        proof {
            lemma_key_decompose(k);
            let post = *self;
            let pre = *old(self);
            let target = pre.mapping().remove(k);
            assert forall|q: int| post.mapping().contains_key(q) == target.contains_key(q) && (
            post.mapping().contains_key(q) ==> post.mapping()[q] == target[q]) by {
                if 0 <= q < 0x8000000 {
                    lemma_key_decompose(q);
                    let qi0 = key_index0(q);
                    let qi1 = key_index1(q);
                    let qi2 = key_index2(q);
                    if q != k {
                        if qi0 == key_index0(k) && qi1 == key_index1(k) && qi2 == key_index2(k) {
                            assert(q == k);
                        }
                        if pre.has_leaf(qi0, qi1) {
                            assert(post.leaf_entry(qi0, qi1, qi2) == pre.leaf_entry(
                                qi0,
                                qi1,
                                qi2,
                            ));
                        }
                    }
                }
            }
            assert(post.mapping().dom() =~= target.dom());
            assert(post.mapping() =~= target);
        }
        Ok(())
    }
}

/// Shape facts of the walk predicates: a leaf node can only hang under an
/// existing middle node, and both indices are in table range.
pub proof fn lemma_walk_shape(pt: PageTable, i0: int, i1: int)
    ensures
        pt.has_leaf(i0, i1) ==> pt.has_mid(i0),
        pt.has_leaf(i0, i1) ==> 0 <= i0 < 512 && 0 <= i1 < 512,
        pt.has_mid(i0) ==> 0 <= i0 < 512,
{
}

/// Any page number the allocator can hand out lies below its range bound.
pub proof fn lemma_alloc_ppn_in_range(a: crate::frame_allocator::FrameAllocModel)
    requires
        a.wf(),
        a.alloc_result() is Some,
    ensures
        (a.alloc_result().unwrap() as int) < a.end,
{
    if a.recycled.len() > 0 {
        assert(a.recycled[a.recycled.len() - 1] < a.current);
    }
}

/// 512 all-zero (invalid) entries: the content of a freshly zero-filled node
/// frame.
fn make_empty_entries() -> (v: Vec<PageTableEntry>)
    ensures
        v@.len() == 512,
        forall|i: int| 0 <= i < 512 ==> (#[trigger] v@[i]).bits == 0,
        forall|i: int| 0 <= i < 512 ==> !(#[trigger] v@[i]).spec_valid(),
{
    let mut v: Vec<PageTableEntry> = Vec::new();
    let mut i: usize = 0;
    while i < 512
        invariant
            i <= 512,
            v@.len() == i,
            forall|j: int| 0 <= j < i ==> (#[trigger] v@[j]).bits == 0,
        decreases 512 - i,
    {
        v.push(PageTableEntry::empty());
        i = i + 1;
    }
    proof {
        assert(0u64 & 1u64 == 0) by (bit_vector);
        assert forall|j: int| 0 <= j < 512 implies !(#[trigger] v@[j]).spec_valid() by {
            assert(v@[j].bits == 0);
        }
    }
    v
}

/// 512 empty middle-node slots.
fn make_mid_slots() -> (v: Vec<Option<PtNodeMid>>)
    ensures
        v@.len() == 512,
        forall|i: int| 0 <= i < 512 ==> (#[trigger] v@[i]) is None,
{
    let mut v: Vec<Option<PtNodeMid>> = Vec::new();
    let mut i: usize = 0;
    while i < 512
        invariant
            i <= 512,
            v@.len() == i,
            forall|j: int| 0 <= j < i ==> (#[trigger] v@[j]) is None,
        decreases 512 - i,
    {
        v.push(None);
        i = i + 1;
    }
    v
}

/// 512 empty leaf-node slots.
fn make_leaf_slots() -> (v: Vec<Option<PtNodeLeaf>>)
    ensures
        v@.len() == 512,
        forall|i: int| 0 <= i < 512 ==> (#[trigger] v@[i]) is None,
{
    let mut v: Vec<Option<PtNodeLeaf>> = Vec::new();
    let mut i: usize = 0;
    while i < 512
        invariant
            i <= 512,
            v@.len() == i,
            forall|j: int| 0 <= j < i ==> (#[trigger] v@[j]) is None,
        decreases 512 - i,
    {
        v.push(None);
        i = i + 1;
    }
    v
}

/// Remapping reflects only the most recent translation: over the relation
/// that `map`, `unmap` and `translate` speak of, mapping a key, unmapping it,
/// and mapping it again with a different entry leaves exactly the second
/// entry visible.
pub proof fn lemma_remap_latest(
    m: Map<int, PageTableEntry>,
    k: int,
    first: PageTableEntry,
    second: PageTableEntry,
)
    requires
        !m.contains_key(k),
    ensures
        m.insert(k, first).remove(k).insert(k, second).contains_key(k),
        m.insert(k, first).remove(k).insert(k, second)[k] == second,
        m.insert(k, first).remove(k).insert(k, second) =~= m.insert(k, second),
{
}

/// Number of page-sized chunks the byte range `[ptr, ptr + len)` touches.
pub open spec fn buffer_chunks(ptr: usize, len: usize) -> int {
    if len == 0 {
        0
    } else {
        (ptr + len - 1) / (PAGE_SIZE as int) - ptr / PAGE_SIZE + 1
    }
}

/// Turns a virtual byte range into the physical page chunks that back it:
/// for each page the range touches, the backing frame together with the
/// first and one-past-last byte offset used within that page. Fails exactly
/// when some touched page has no live translation.
pub fn translated_byte_buffer(page_table: &PageTable, ptr: usize, len: usize) -> (r: Option<
    Vec<(PhysPageNum, usize, usize)>,
>)
    requires
        page_table.wf(),
        ptr + len <= usize::MAX,
    ensures
        r is Some <==> forall|v: int|
            ptr / PAGE_SIZE <= v < ptr / PAGE_SIZE + buffer_chunks(ptr, len)
                ==> #[trigger] page_table.mapping().contains_key(v % 0x8000000),
        r is Some ==> ({
            let chunks = r.unwrap()@;
            &&& chunks.len() == buffer_chunks(ptr, len)
            &&& forall|i: int|
                0 <= i < chunks.len() ==> (#[trigger] chunks[i]).0.0 == page_table.mapping()[(ptr
                    / PAGE_SIZE + i) % 0x8000000].spec_ppn() as usize
            &&& forall|i: int|
                0 <= i < chunks.len() ==> (#[trigger] chunks[i]).1 == (if i == 0 {
                    (ptr % PAGE_SIZE) as int
                } else {
                    0int
                })
            &&& forall|i: int|
                0 <= i < chunks.len() ==> (#[trigger] chunks[i]).2 == (if i == chunks.len() - 1 {
                    (ptr + len - 1) % (PAGE_SIZE as int) + 1
                } else {
                    PAGE_SIZE as int
                })
        }),
{
    let mut v: Vec<(PhysPageNum, usize, usize)> = Vec::new();
    if len == 0 {
        return Some(v);
    }
    let lo: usize = ptr / PAGE_SIZE;
    let last: usize = (ptr + len - 1) / PAGE_SIZE;
    let c: usize = last - lo + 1;
    let mut i: usize = 0;
    while i < c
        invariant
            page_table.wf(),
            len > 0,
            ptr + len <= usize::MAX,
            lo == ptr / PAGE_SIZE,
            last == (ptr + len - 1) / (PAGE_SIZE as int),
            c == buffer_chunks(ptr, len),
            0 <= i <= c,
            v@.len() == i,
            forall|w: int|
                lo <= w < lo + i ==> #[trigger] page_table.mapping().contains_key(w % 0x8000000),
            forall|t: int|
                0 <= t < i ==> (#[trigger] v@[t]).0.0 == page_table.mapping()[(lo + t)
                    % 0x8000000].spec_ppn() as usize,
            forall|t: int|
                0 <= t < i ==> (#[trigger] v@[t]).1 == (if t == 0 {
                    (ptr % PAGE_SIZE) as int
                } else {
                    0int
                }),
            forall|t: int|
                0 <= t < i ==> (#[trigger] v@[t]).2 == (if t == c - 1 {
                    (ptr + len - 1) % (PAGE_SIZE as int) + 1
                } else {
                    PAGE_SIZE as int
                }),
        decreases c - i,
    {
        let vpn = VirtPageNum(lo + i);
        proof {
            lemma_key_indexes(vpn);
            assert(key_of(vpn) == (lo + i) as int % 0x8000000);
        }
        let pte = match page_table.translate(vpn) {
            Some(p) => p,
            None => {
                proof {
                    assert(!page_table.mapping().contains_key((lo + i) as int % 0x8000000));
                }
                return None;
            },
        };
        if !pte.is_valid() {
            proof {
                assert(!page_table.mapping().contains_key((lo + i) as int % 0x8000000));
            }
            return None;
        }
        proof {
            assert(page_table.mapping().contains_key((lo + i) as int % 0x8000000));
            assert(pte == page_table.mapping()[(lo + i) as int % 0x8000000]);
        }
        let start_off: usize = if i == 0 {
            ptr % PAGE_SIZE
        } else {
            0
        };
        let end_off: usize = if i == c - 1 {
            (ptr + len - 1) % PAGE_SIZE + 1
        } else {
            PAGE_SIZE
        };
        v.push((pte.ppn(), start_off, end_off));
        i = i + 1;
    }
    Some(v)
}


} // verus!
