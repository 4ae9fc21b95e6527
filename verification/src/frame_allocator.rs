//! Stack-style physical frame allocator: hands out unique physical page
//! numbers from a fixed range, reuses recycled frames LIFO, and detects
//! invalid or duplicate frees instead of corrupting the pool.
use vstd::prelude::*;

use crate::address::PhysPageNum;

verus! {

/// Owned handle for exactly one physical frame. While a tracker is live, the
/// allocator will not hand its page number out again; releasing it happens
/// explicitly through `frame_dealloc`.
pub struct FrameTracker {
    pub ppn: PhysPageNum,
}

impl FrameTracker {
    /// Takes ownership of a freshly allocated frame. In the running kernel the
    /// frame's backing bytes start zero-filled; the structures of this crate
    /// that interpret a frame's contents start from that all-zero state.
    pub fn new(ppn: PhysPageNum) -> (r: Self)
        ensures
            r.ppn == ppn,
    {
        FrameTracker { ppn }
    }
}

/// Why a frame cannot be recycled: its page number was never handed out, or it
/// is already sitting in the recycle stack (a double free). The kernel treats
/// either answer as a fatal contract violation.
#[derive(Copy, Clone, Debug, PartialEq, Eq, Structural)]
pub enum FrameDeallocError {
    NotAllocated,
    DoubleFree,
}

/// Mathematical state of the allocator: the never-allocated watermark, the
/// exclusive bound of the managed range, and the recycle stack (most recently
/// freed last).
#[verifier::ext_equal]
pub ghost struct FrameAllocModel {
    pub current: int,
    pub end: int,
    pub recycled: Seq<usize>,
}

impl FrameAllocModel {
    /// Structural invariant: the bounds are ordered and every recycled page
    /// number was previously allocated (below `current`) and appears only once.
    pub open spec fn wf(self) -> bool {
        &&& 0 <= self.current <= self.end
        &&& self.end <= usize::MAX
        &&& forall|i: int|
            0 <= i < self.recycled.len() ==> #[trigger] self.recycled[i] < self.current
        &&& self.recycled.no_duplicates()
    }

    /// Whether `ppn` can still be returned by some future allocation.
    pub open spec fn available(self, ppn: usize) -> bool {
        self.recycled.contains(ppn) || (self.current <= ppn < self.end)
    }

    /// Number of frames the allocator can still hand out.
    pub open spec fn free_count(self) -> int {
        self.recycled.len() + self.end - self.current
    }

    /// What `alloc` returns: the most recently recycled page number if any,
    /// otherwise the next never-used one, or nothing once the pool is empty.
    pub open spec fn alloc_result(self) -> Option<usize> {
        if self.recycled.len() > 0 {
            Some(self.recycled.last())
        } else if self.current == self.end {
            None
        } else {
            Some(self.current as usize)
        }
    }

    /// The allocator state after `alloc`.
    pub open spec fn alloc_next(self) -> Self {
        if self.recycled.len() > 0 {
            FrameAllocModel { recycled: self.recycled.drop_last(), ..self }
        } else if self.current == self.end {
            self
        } else {
            FrameAllocModel { current: self.current + 1, ..self }
        }
    }

    /// What `dealloc` answers for `ppn`: rejected if never allocated or
    /// already recycled, accepted otherwise.
    pub open spec fn dealloc_result(self, ppn: usize) -> Result<(), FrameDeallocError> {
        if ppn >= self.current {
            Err(FrameDeallocError::NotAllocated)
        } else if self.recycled.contains(ppn) {
            Err(FrameDeallocError::DoubleFree)
        } else {
            Ok(())
        }
    }

    /// The allocator state after a successful `dealloc` of `ppn`.
    pub open spec fn dealloc_next(self, ppn: usize) -> Self {
        FrameAllocModel { recycled: self.recycled.push(ppn), ..self }
    }
}

/// The allocator: `current` is the lowest never-allocated page number, `end`
/// the exclusive bound of the managed range, and `recycled` the stack of page
/// numbers returned for reuse.
pub struct StackFrameAllocator {
    current: usize,
    end: usize,
    recycled: Vec<usize>,
}

impl View for StackFrameAllocator {
    type V = FrameAllocModel;

    closed spec fn view(&self) -> FrameAllocModel {
        FrameAllocModel {
            current: self.current as int,
            end: self.end as int,
            recycled: self.recycled@,
        }
    }
}

impl StackFrameAllocator {
    /// A fresh allocator managing no frames at all until `init` is called.
    pub fn new() -> (r: Self)
        ensures
            r@.wf(),
            r@.current == 0,
            r@.end == 0,
            r@.recycled =~= Seq::<usize>::empty(),
    {
        StackFrameAllocator { current: 0, end: 0, recycled: Vec::new() }
    }

    /// Sets the managed page-number range `[l, r)`. By contract this happens
    /// once, before any allocation.
    pub fn init(&mut self, l: PhysPageNum, r: PhysPageNum)
        requires
            old(self)@.recycled.len() == 0,
            l.0 <= r.0,
        ensures
            final(self)@.wf(),
            final(self)@.current == l.0,
            final(self)@.end == r.0,
            final(self)@.recycled.len() == 0,
    {
        self.current = l.0;
        self.end = r.0;
    }

    /// Hands out a page number: the most recently recycled one if any exists
    /// (LIFO reuse), otherwise the next never-used one; `None` exactly when
    /// the pool is exhausted.
    pub fn allocate(&mut self) -> (r: Option<PhysPageNum>)
        requires
            old(self)@.wf(),
        ensures
            final(self)@.wf(),
            final(self)@ == old(self)@.alloc_next(),
            old(self)@.alloc_result() is Some ==> r == Some(
                PhysPageNum(old(self)@.alloc_result().unwrap()),
            ),
            old(self)@.alloc_result() is None ==> r is None,
            r is None <==> old(self)@.free_count() == 0,
            final(self)@.free_count() == if r is Some {
                old(self)@.free_count() - 1
            } else {
                old(self)@.free_count()
            },
    {
        if let Some(ppn) = self.recycled.pop() {
            Some(PhysPageNum(ppn))
        } else if self.current == self.end {
            None
        } else {
            let p = self.current;
            self.current = self.current + 1;
            Some(PhysPageNum(p))
        }
    }

    /// Recycles `ppn`, detecting frees of never-allocated pages and double
    /// frees; on rejection the allocator is unchanged.
    pub fn dealloc(&mut self, ppn: PhysPageNum) -> (r: Result<(), FrameDeallocError>)
        requires
            old(self)@.wf(),
        ensures
            final(self)@.wf(),
            r == old(self)@.dealloc_result(ppn.0),
            r is Ok ==> final(self)@ == old(self)@.dealloc_next(ppn.0),
            r is Err ==> final(self)@ == old(self)@,
            r is Ok ==> final(self)@.free_count() == old(self)@.free_count() + 1,
    {
        if ppn.0 >= self.current {
            return Err(FrameDeallocError::NotAllocated);
        }
        let n = self.recycled.len();
        let mut i: usize = 0;
        while i < n
            invariant
                old(self)@.wf(),
                self@ == old(self)@,
                ppn.0 < self@.current,
                n == self.recycled.len(),
                i <= n,
                forall|j: int| 0 <= j < i ==> self.recycled@[j] != ppn.0,
            decreases n - i,
        {
            if self.recycled[i] == ppn.0 {
                proof {
                    assert(self@.recycled.contains(ppn.0));
                }
                return Err(FrameDeallocError::DoubleFree);
            }
            i = i + 1;
        }
        proof {
            if self@.recycled.contains(ppn.0) {
                let k = choose|k: int| 0 <= k < self@.recycled.len() && self@.recycled[k] == ppn.0;
                assert(self.recycled@[k] == ppn.0);
            }
        }
        self.recycled.push(ppn.0);
        Ok(())
    }
}

/// Builds the process-wide allocator over the physical page range `[l, r)`,
/// as the boot layer does from the end of the kernel image and the memory
/// ceiling.
pub fn init_frame_allocator(l: PhysPageNum, r: PhysPageNum) -> (a: StackFrameAllocator)
    requires
        l.0 <= r.0,
    ensures
        a@.wf(),
        a@.current == l.0,
        a@.end == r.0,
        a@.recycled.len() == 0,
{
    let mut a = StackFrameAllocator::new();
    a.init(l, r);
    a
}

/// Allocates one frame and wraps it in its owning tracker.
pub fn frame_alloc(allocator: &mut StackFrameAllocator) -> (r: Option<FrameTracker>)
    requires
        old(allocator)@.wf(),
    ensures
        final(allocator)@.wf(),
        final(allocator)@ == old(allocator)@.alloc_next(),
        old(allocator)@.alloc_result() is Some ==> r is Some && r.unwrap().ppn == PhysPageNum(
            old(allocator)@.alloc_result().unwrap(),
        ),
        old(allocator)@.alloc_result() is None ==> r is None,
        r is None <==> old(allocator)@.free_count() == 0,
        final(allocator)@.free_count() == if r is Some {
            old(allocator)@.free_count() - 1
        } else {
            old(allocator)@.free_count()
        },
{
    match allocator.allocate() {
        Some(ppn) => Some(FrameTracker::new(ppn)),
        None => None,
    }
}

/// Returns a frame to the allocator, with the same rejection answers as
/// `StackFrameAllocator::dealloc`.
pub fn frame_dealloc(allocator: &mut StackFrameAllocator, ppn: PhysPageNum) -> (r: Result<
    (),
    FrameDeallocError,
>)
    requires
        old(allocator)@.wf(),
    ensures
        final(allocator)@.wf(),
        r == old(allocator)@.dealloc_result(ppn.0),
        r is Ok ==> final(allocator)@ == old(allocator)@.dealloc_next(ppn.0),
        r is Err ==> final(allocator)@ == old(allocator)@,
{
    allocator.dealloc(ppn)
}

/// How many frames are still available, counting both the never-used tail of
/// the range and the recycle stack.
pub fn frame_remain_num(allocator: &StackFrameAllocator) -> (r: usize)
    requires
        allocator@.wf(),
    ensures
        r == allocator@.free_count(),
{
    proof {
        lemma_recycled_len_bounded(allocator@);
    }
    allocator.recycled_len() + (allocator.end_exec() - allocator.current_exec())
}

impl StackFrameAllocator {
    fn recycled_len(&self) -> (r: usize)
        ensures
            r == self@.recycled.len(),
    {
        self.recycled.len()
    }

    fn current_exec(&self) -> (r: usize)
        ensures
            r == self@.current,
    {
        self.current
    }

    fn end_exec(&self) -> (r: usize)
        ensures
            r == self@.end,
    {
        self.end
    }
}

/// A sequence of distinct page numbers all below `bound` cannot be longer than
/// `bound` itself.
proof fn lemma_distinct_bounded_len(s: Seq<usize>, bound: int)
    requires
        s.no_duplicates(),
        0 <= bound,
        forall|i: int| 0 <= i < s.len() ==> #[trigger] s[i] < bound,
    ensures
        s.len() <= bound,
{
    let si = s.map_values(|x: usize| x as int);
    assert(si.no_duplicates()) by {
        assert forall|i: int, j: int|
            0 <= i < si.len() && 0 <= j < si.len() && i != j implies si[i] != si[j] by {
            assert(s[i] != s[j]);
        }
    }
    si.unique_seq_to_set();
    let range = vstd::set_lib::set_int_range(0, bound);
    vstd::set_lib::lemma_int_range(0, bound);
    assert(si.to_set().subset_of(range)) by {
        assert forall|x: int| si.to_set().contains(x) implies range.contains(x) by {
            let k = choose|k: int| 0 <= k < si.len() && si[k] == x;
            assert(s[k] < bound);
        }
    }
    vstd::set_lib::lemma_len_subset(si.to_set(), range);
}

/// The recycle stack of a well-formed allocator is never longer than
/// `current`, so the free count fits in a machine word.
pub proof fn lemma_recycled_len_bounded(a: FrameAllocModel)
    requires
        a.wf(),
    ensures
        a.recycled.len() <= a.current,
        a.free_count() <= a.end,
{
    lemma_distinct_bounded_len(a.recycled, a.current);
}

/// Freshness of allocation: a page number that is unavailable — as every
/// live, never-deallocated frame's page number is — stays unavailable across
/// further allocations, and `alloc` never answers with an unavailable page
/// number. Together with `lemma_alloc_consumes`, a frame handed out and never
/// recycled is never handed out a second time.
pub proof fn lemma_alloc_never_returns_unavailable(a: FrameAllocModel, p: usize)
    requires
        a.wf(),
        !a.available(p),
    ensures
        a.alloc_result() != Some(p),
        !a.alloc_next().available(p),
{
    if a.recycled.len() > 0 {
        assert(a.recycled.contains(a.recycled.last()));
        if a.alloc_next().recycled.contains(p) {
            let k = choose|k: int|
                0 <= k < a.recycled.drop_last().len() && a.recycled.drop_last()[k] == p;
            assert(a.recycled[k] == p);
        }
    }
}

/// Allocation consumes its answer: the page number returned by `alloc` was
/// available before and is unavailable afterwards, until it is deallocated.
pub proof fn lemma_alloc_consumes(a: FrameAllocModel, p: usize)
    requires
        a.wf(),
        a.alloc_result() == Some(p),
    ensures
        a.available(p),
        !a.alloc_next().available(p),
{
    if a.recycled.len() > 0 {
        assert(a.recycled.contains(a.recycled.last()));
        if a.alloc_next().recycled.contains(p) {
            let k = choose|k: int|
                0 <= k < a.recycled.drop_last().len() && a.recycled.drop_last()[k] == p;
            assert(a.recycled[k] == p);
            assert(a.recycled[a.recycled.len() - 1] == p);
        }
    }
}

/// Deallocating one page number leaves every other unavailable page number
/// unavailable.
pub proof fn lemma_unavailable_preserved_by_dealloc(a: FrameAllocModel, p: usize, q: usize)
    requires
        a.wf(),
        !a.available(p),
        a.dealloc_result(q) is Ok,
        q != p,
    ensures
        !a.dealloc_next(q).available(p),
{
    if a.dealloc_next(q).recycled.contains(p) {
        let k = choose|k: int| 0 <= k < a.recycled.len() + 1 && a.recycled.push(q)[k] == p;
        assert(a.recycled[k] == p);
    }
}

/// Double-free detection: after a successful `dealloc` of `ppn`, a second
/// `dealloc` of the same page number, with no allocation in between, is
/// rejected as a double free.
pub proof fn lemma_double_free_detected(a: FrameAllocModel, ppn: usize)
    requires
        a.wf(),
        a.dealloc_result(ppn) is Ok,
    ensures
        a.dealloc_next(ppn).dealloc_result(ppn) == Err::<(), FrameDeallocError>(
            FrameDeallocError::DoubleFree,
        ),
{
    assert(a.dealloc_next(ppn).recycled[a.recycled.len() as int] == ppn);
    assert(a.dealloc_next(ppn).recycled.contains(ppn));
}

} // verus!
