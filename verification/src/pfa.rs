//! Page frame allocator: a free list of 4096-byte physical frames.
//!
//! Frames leave the allocator as [`PageFrame`] ownership tokens, produced
//! only by `alloc_page` and consumed only by `free_page`; the caller
//! that holds a token is responsible for returning it exactly once. The allocator is
//! owned explicitly by whoever performed the boot-time seeding and is
//! meant to be shared behind a lock by the embedding kernel.

use vstd::prelude::*;

use crate::address::align_down_spec;
use crate::address::align_up_spec;
use crate::address::lemma_page_size_power_of_two;
use crate::address::Alignment;
use crate::address::PhysicalAddress;
use crate::address::PAGE_SIZE;
use crate::page_list::PageList;

verus! {

/// Exclusive upper bound of the physical address space covered by the
/// kernel's permanent linear map (`VIRTUAL_OFFSET + MAX_PHYS - 1` is the
/// last representable virtual address).
pub const MAX_PHYS: u64 = 0x8000_0000_0000;

/// Exclusive upper bound on physical page numbers, `MAX_PHYS / PAGE_SIZE`.
pub const MAX_PPN: u64 = 0x8_0000_0000;

/// Ownership token for one 4096-byte physical frame. Holding one means
/// owning the frame `[ppn * PAGE_SIZE, (ppn + 1) * PAGE_SIZE)`.
pub struct PageFrame {
    pub ppn: u64,
}

impl PageFrame {
    pub open spec fn wf(self) -> bool {
        self.ppn < MAX_PPN
    }

    /// Physical page number of the owned frame.
    pub fn page_number(&self) -> (r: u64)
        ensures
            r == self.ppn,
    {
        self.ppn
    }

    /// Physical address of the first byte of the owned frame.
    pub fn base_addr(&self) -> (r: PhysicalAddress)
        requires
            self.wf(),
        ensures
            r.0 == self.ppn * PAGE_SIZE,
            r.0 < MAX_PHYS,
            r.0 as int % PAGE_SIZE as int == 0,
    {
        proof {
            vstd::arithmetic::div_mod::lemma_mod_multiples_basic(
                self.ppn as int,
                PAGE_SIZE as int,
            );
        }
        PhysicalAddress(self.ppn * PAGE_SIZE)
    }
}

/// The identity of one 4096-byte page of physical memory, as the
/// linear map presents it: where [`PageFrame`] is the ownership token
/// `alloc_page` hands out, a `Page` merely names a frame's location.
pub struct Page {
    pub ppn: u64,
}

impl Page {
    pub open spec fn wf(self) -> bool {
        self.ppn < MAX_PPN
    }

    /// The page with the given physical page number.
    pub fn from_ppn(ppn: u64) -> (r: Self)
        requires
            ppn < MAX_PPN,
        ensures
            r.ppn == ppn,
            r.wf(),
    {
        Page { ppn }
    }

    /// Physical page number of this page.
    pub fn ppn(&self) -> (r: u64)
        ensures
            r == self.ppn,
    {
        self.ppn
    }

    /// Where this page's bytes sit in the kernel's permanent linear map.
    pub fn virt_addr(&self) -> (r: crate::address::VirtualAddress)
        requires
            self.wf(),
        ensures
            r.0 == self.ppn * PAGE_SIZE + crate::address::VIRTUAL_OFFSET,
    {
        proof {
            vstd::arithmetic::div_mod::lemma_mod_multiples_basic(self.ppn as int, PAGE_SIZE as int);
        }
        crate::address::PhysicalAddress(self.ppn * PAGE_SIZE).to_virt()
    }
}

/// The global frame free list. The view is the chain of free page
/// numbers, head first.
pub struct FrameAllocator {
    list: PageList,
}

impl View for FrameAllocator {
    type V = Seq<u64>;

    closed spec fn view(&self) -> Seq<u64> {
        self.list@
    }
}

impl FrameAllocator {
    /// No page number is linked twice, and every linked frame lies in
    /// the physical space covered by the linear map.
    pub open spec fn wf(self) -> bool {
        &&& self@.no_duplicates()
        &&& forall|i: int| 0 <= i < self@.len() ==> self@[i] < MAX_PPN
    }

    pub fn new() -> (r: Self)
        ensures
            r@ == Seq::<u64>::empty(),
            r.wf(),
    {
        FrameAllocator { list: PageList::new() }
    }

    /// Pop the head of the free list; `None` means out of memory, which
    /// callers must treat as a recoverable condition.
    pub fn alloc_page(&mut self) -> (r: Option<PageFrame>)
        requires
            old(self).wf(),
        ensures
            final(self).wf(),
            old(self)@.len() == 0 ==> r is None && final(self)@ == old(self)@,
            old(self)@.len() > 0 ==> (r matches Some(f) && f.ppn == old(self)@[0] && f.wf()
                && final(self)@ == old(self)@.drop_first()),
    {
        let popped = self.list.pop();
        proof {
            if old(self)@.len() > 0 {
                assert forall|i: int, j: int|
                    0 <= i < final(self)@.len() && 0 <= j < final(self)@.len() && i
                        != j implies final(self)@[i] != final(self)@[j] by {
                    assert(final(self)@[i] == old(self)@[i + 1]);
                    assert(final(self)@[j] == old(self)@[j + 1]);
                }
            }
        }
        match popped {
            Some(ppn) => Some(PageFrame { ppn }),
            None => None,
        }
    }

    /// Push a frame onto the free list. The frame must have been
    /// obtained from `alloc_page` (or the boot-time seeding) and not
    /// freed since; that is exactly what the token plus the precondition
    /// state, and it is what keeps the chain free of double links.
    pub fn free_page(&mut self, frame: PageFrame)
        requires
            old(self).wf(),
            frame.wf(),
            !old(self)@.contains(frame.ppn),
        ensures
            final(self).wf(),
            final(self)@ == seq![frame.ppn] + old(self)@,
    {
        self.list.prepend(frame.ppn);
        proof {
            assert forall|i: int, j: int|
                0 <= i < final(self)@.len() && 0 <= j < final(self)@.len() && i != j
                implies final(self)@[i] != final(self)@[j] by {
                if i == 0 {
                    assert(final(self)@[j] == old(self)@[j - 1]);
                } else if j == 0 {
                    assert(final(self)@[i] == old(self)@[i - 1]);
                } else {
                    assert(final(self)@[i] == old(self)@[i - 1]);
                    assert(final(self)@[j] == old(self)@[j - 1]);
                }
            }
        }
    }

    /// Number of frames currently linked; meaningful to a caller only
    /// while it has exclusive access to the allocator.
    pub fn free_page_count(&self) -> (r: usize)
        ensures
            r == self@.len(),
    {
        self.list.len()
    }
}

/// Two half-open ranges share at least one byte.
pub open spec fn ranges_overlap(a0: int, a1: int, b0: int, b1: int) -> bool {
    a0 < b1 && b0 < a1
}

/// A frame is eligible for the boot-time seeding when it lies wholly
/// inside the page-aligned interior of the probed RAM region and does
/// not overlap the reserved byte range.
pub open spec fn frame_eligible(
    ram_start: u64,
    ram_end: u64,
    resv_start: u64,
    resv_end: u64,
    ppn: u64,
) -> bool {
    let base = ppn as int * PAGE_SIZE as int;
    &&& align_up_spec(ram_start as int, PAGE_SIZE as int) <= base
    &&& base < align_down_spec(ram_end as int, PAGE_SIZE as int)
    &&& !ranges_overlap(base, base + PAGE_SIZE as int, resv_start as int, resv_end as int)
}

pub open spec fn sorted_descending(s: Seq<u64>) -> bool {
    forall|i: int, j: int| 0 <= i < j < s.len() ==> s[i] > s[j]
}

/// Boot-time population: seed a fresh allocator with every frame of the
/// probed RAM region `[ram_start, ram_end)` that does not overlap the
/// reserved byte range `[resv_start, resv_end)`, freeing them one at a
/// time in ascending address order.
pub fn init(
    ram_start: PhysicalAddress,
    ram_end: PhysicalAddress,
    resv_start: PhysicalAddress,
    resv_end: PhysicalAddress,
) -> (r: FrameAllocator)
    requires
        ram_start.0 <= ram_end.0,
        ram_end.0 <= MAX_PHYS,
    ensures
        r.wf(),
        sorted_descending(r@),
        forall|ppn: u64|
            r@.contains(ppn) <==> frame_eligible(
                ram_start.0,
                ram_end.0,
                resv_start.0,
                resv_end.0,
                ppn,
            ),
{
    proof {
        lemma_page_size_power_of_two();
    }
    let page_align = Alignment::new(PAGE_SIZE);
    let aligned_start = ram_start.align_up(page_align);
    let aligned_end = ram_end.align_down(page_align);
    proof {
        crate::address::lemma_alignment_law(ram_start.0 as int, PAGE_SIZE as int);
        crate::address::lemma_alignment_law(ram_end.0 as int, PAGE_SIZE as int);
    }
    let mut fa = FrameAllocator::new();
    let mut current = aligned_start;
    while current.0 < aligned_end.0
        invariant
            aligned_start.0 == align_up_spec(ram_start.0 as int, PAGE_SIZE as int),
            aligned_end.0 == align_down_spec(ram_end.0 as int, PAGE_SIZE as int),
            aligned_end.0 <= ram_end.0 <= MAX_PHYS,
            current.0 as int % PAGE_SIZE as int == 0,
            aligned_start.0 <= current.0,
            current.0 <= aligned_end.0 || current.0 == aligned_start.0,
            fa.wf(),
            sorted_descending(fa@),
            forall|i: int| 0 <= i < fa@.len() ==> (fa@[i] as int * PAGE_SIZE as int) < current.0,
            forall|ppn: u64|
                fa@.contains(ppn) <==> (frame_eligible(
                    ram_start.0,
                    ram_end.0,
                    resv_start.0,
                    resv_end.0,
                    ppn,
                ) && (ppn as int * PAGE_SIZE as int) < current.0),
        decreases aligned_end.0 - current.0,
    {
        let overlaps_reserved = current.0 < resv_end.0 && resv_start.0 < current.0 + PAGE_SIZE;
        let ghost prev = fa@;
        let ghost cur = current.0;
        if !overlaps_reserved {
            let ppn = current.0 / PAGE_SIZE;
            proof {
                vstd::arithmetic::div_mod::lemma_fundamental_div_mod(
                    current.0 as int,
                    PAGE_SIZE as int,
                );
                assert(ppn as int * PAGE_SIZE as int == current.0 as int);
                assert(forall|i: int| 0 <= i < fa@.len() ==> fa@[i] != ppn);
                assert(!fa@.contains(ppn));
            }
            fa.free_page(PageFrame { ppn });
            proof {
                assert forall|q: u64|
                    fa@.contains(q) <==> (frame_eligible(
                        ram_start.0,
                        ram_end.0,
                        resv_start.0,
                        resv_end.0,
                        q,
                    ) && (q as int * PAGE_SIZE as int) < cur + PAGE_SIZE as int) by {
                    if fa@.contains(q) {
                        if q == ppn {
                        } else {
                            assert(prev.contains(q)) by {
                                let k = choose|k: int| 0 <= k < fa@.len() && fa@[k] == q;
                                assert(fa@[k] == prev[k - 1]);
                            }
                        }
                    } else {
                        assert(!prev.contains(q)) by {
                            if prev.contains(q) {
                                let k = choose|k: int| 0 <= k < prev.len() && prev[k] == q;
                                assert(fa@[k + 1] == q);
                            }
                        }
                        assert(q != ppn) by {
                            if q == ppn {
                                assert(fa@[0] == ppn);
                            }
                        }
                        if frame_eligible(ram_start.0, ram_end.0, resv_start.0, resv_end.0, q)
                            && (q as int * PAGE_SIZE as int) < cur + PAGE_SIZE as int {
                            assert((q as int * PAGE_SIZE as int) < cur) by {
                                vstd::arithmetic::div_mod::lemma_fundamental_div_mod_converse_mod(
                                    q as int * PAGE_SIZE as int,
                                    PAGE_SIZE as int,
                                    q as int,
                                    0,
                                );
                                if (q as int * PAGE_SIZE as int) >= cur {
                                    assert(q as int * PAGE_SIZE as int == cur);
                                }
                            }
                        }
                    }
                }
            }
        } else {
            proof {
                assert forall|q: u64|
                    fa@.contains(q) <==> (frame_eligible(
                        ram_start.0,
                        ram_end.0,
                        resv_start.0,
                        resv_end.0,
                        q,
                    ) && (q as int * PAGE_SIZE as int) < cur + PAGE_SIZE as int) by {
                    if !fa@.contains(q) && frame_eligible(
                        ram_start.0,
                        ram_end.0,
                        resv_start.0,
                        resv_end.0,
                        q,
                    ) && (q as int * PAGE_SIZE as int) < cur + PAGE_SIZE as int {
                        assert((q as int * PAGE_SIZE as int) < cur || q as int * PAGE_SIZE as int
                            == cur) by {
                            vstd::arithmetic::div_mod::lemma_fundamental_div_mod_converse_mod(
                                q as int * PAGE_SIZE as int,
                                PAGE_SIZE as int,
                                q as int,
                                0,
                            );
                        }
                    }
                }
            }
        }
        proof {
            assert(current.0 + PAGE_SIZE <= aligned_end.0) by {
                let d = aligned_end.0 - current.0;
                crate::address::lemma_alignment_law(ram_end.0 as int, PAGE_SIZE as int);
                assert(aligned_end.0 as int % PAGE_SIZE as int == 0);
                vstd::arithmetic::div_mod::lemma_sub_mod_noop(
                    aligned_end.0 as int,
                    current.0 as int,
                    PAGE_SIZE as int,
                );
                vstd::arithmetic::div_mod::lemma_small_mod(0nat, PAGE_SIZE as nat);
                assert(d % (PAGE_SIZE as int) == 0);
                if d < PAGE_SIZE {
                    vstd::arithmetic::div_mod::lemma_small_mod(d as nat, PAGE_SIZE as nat);
                }
            }
            vstd::arithmetic::div_mod::lemma_add_mod_noop(
                current.0 as int,
                PAGE_SIZE as int,
                PAGE_SIZE as int,
            );
            vstd::arithmetic::div_mod::lemma_mod_self_0(PAGE_SIZE as int);
        }
        current = current.add_offset(PAGE_SIZE);
    }
    fa
}


/// Highest end address over a list of memory regions, each given as a
/// (start, size) pair: the boot path reserves everything below the
/// highest end of the firmware's reservations.
pub fn highest_reserved_end(regions: &Vec<(u64, u64)>) -> (r: PhysicalAddress)
    requires
        forall|i: int| 0 <= i < regions@.len() ==> (#[trigger] regions@[i]).0 + regions@[i].1 <= u64::MAX,
    ensures
        forall|i: int| 0 <= i < regions@.len() ==> r.0 >= (#[trigger] regions@[i]).0 + regions@[i].1,
        r.0 == 0 || exists|i: int|
            0 <= i < regions@.len() && r.0 == (#[trigger] regions@[i]).0 + regions@[i].1,
{
    let mut best: u64 = 0;
    let mut i: usize = 0;
    while i < regions.len()
        invariant
            i <= regions@.len(),
            forall|j: int| 0 <= j < regions@.len() ==> (#[trigger] regions@[j]).0 + regions@[j].1 <= u64::MAX,
            forall|j: int| 0 <= j < i ==> best >= (#[trigger] regions@[j]).0 + regions@[j].1,
            best == 0 || exists|j: int|
                0 <= j < i && best == (#[trigger] regions@[j]).0 + regions@[j].1,
        decreases regions@.len() - i,
    {
        let (start, size) = regions[i];
        let end = start + size;
        if end > best {
            best = end;
        }
        i = i + 1;
    }
    PhysicalAddress(best)
}

/// One observable step against the frame allocator: an allocation
/// attempt, or the return of a previously allocated page number.
pub enum FrameOp {
    Alloc,
    Free(u64),
}

/// Ghost state of an allocator together with its clients: the free
/// chain, and the set of page numbers handed out and not yet returned.
pub struct FrameAllocModel {
    pub free: Seq<u64>,
    pub live: Set<u64>,
}

/// No page number is linked twice, and no live page number is also
/// linked free. A freshly seeded allocator satisfies this with an
/// empty live set, and `lemma_frame_op_preserves_inv` shows every
/// alloc/free step keeps it.
pub open spec fn frame_model_inv(m: FrameAllocModel) -> bool {
    &&& m.free.no_duplicates()
    &&& forall|p: u64| m.live.contains(p) ==> !m.free.contains(p)
}

/// The state change of one step, exactly as the contracts of
/// `alloc_page` and `free_page` describe it: `Alloc` pops the head of
/// the chain into the live set and fails without effect on an empty
/// chain; `Free(p)` of a live page links it in front of the head, and
/// a free that violates `free_page`'s precondition has no model.
pub open spec fn apply_frame_op(m: FrameAllocModel, op: FrameOp) -> FrameAllocModel {
    match op {
        FrameOp::Alloc => if m.free.len() == 0 {
            m
        } else {
            FrameAllocModel { free: m.free.drop_first(), live: m.live.insert(m.free[0]) }
        },
        FrameOp::Free(p) => if m.live.contains(p) {
            FrameAllocModel { free: seq![p] + m.free, live: m.live.remove(p) }
        } else {
            m
        },
    }
}

pub open spec fn run_frame_ops(m: FrameAllocModel, ops: Seq<FrameOp>) -> FrameAllocModel
    decreases ops.len(),
{
    if ops.len() == 0 {
        m
    } else {
        run_frame_ops(apply_frame_op(m, ops[0]), ops.drop_first())
    }
}

/// Number of `Alloc` steps in `ops` that succeed when run from `m`.
pub open spec fn successful_allocs(m: FrameAllocModel, ops: Seq<FrameOp>) -> int
    decreases ops.len(),
{
    if ops.len() == 0 {
        0
    } else {
        (if ops[0] is Alloc && m.free.len() > 0 {
            1int
        } else {
            0int
        }) + successful_allocs(apply_frame_op(m, ops[0]), ops.drop_first())
    }
}

/// Number of `Free` steps in `ops` that return a live page when run
/// from `m`.
pub open spec fn successful_frees(m: FrameAllocModel, ops: Seq<FrameOp>) -> int
    decreases ops.len(),
{
    if ops.len() == 0 {
        0
    } else {
        (if ops[0] matches FrameOp::Free(p) && m.live.contains(p) {
            1int
        } else {
            0int
        }) + successful_frees(apply_frame_op(m, ops[0]), ops.drop_first())
    }
}

proof fn lemma_prepend_contains(s: Seq<u64>, p: u64, q: u64)
    ensures
        (seq![p] + s).contains(q) <==> (q == p || s.contains(q)),
{
    let t = seq![p] + s;
    if t.contains(q) {
        let k = choose|k: int| 0 <= k < t.len() && t[k] == q;
        if k == 0 {
        } else {
            assert(s[k - 1] == q);
        }
    }
    if q == p {
        assert(t[0] == q);
    }
    if s.contains(q) {
        let k = choose|k: int| 0 <= k < s.len() && s[k] == q;
        assert(t[k + 1] == q);
    }
}

proof fn lemma_drop_first_contains(s: Seq<u64>, q: u64)
    requires
        s.len() > 0,
        s.drop_first().contains(q),
    ensures
        s.contains(q),
{
    let k = choose|k: int| 0 <= k < s.drop_first().len() && s.drop_first()[k] == q;
    assert(s[k + 1] == q);
}

proof fn lemma_drop_first_no_duplicates(s: Seq<u64>)
    requires
        s.len() > 0,
        s.no_duplicates(),
    ensures
        s.drop_first().no_duplicates(),
        !s.drop_first().contains(s[0]),
{
    let t = s.drop_first();
    assert forall|i: int, j: int| 0 <= i < t.len() && 0 <= j < t.len() && i != j
        implies t[i] != t[j] by {
        assert(t[i] == s[i + 1]);
        assert(t[j] == s[j + 1]);
    }
    if t.contains(s[0]) {
        let k = choose|k: int| 0 <= k < t.len() && t[k] == s[0];
        assert(s[k + 1] == s[0]);
    }
}

/// Every alloc/free step preserves the allocator invariant.
pub proof fn lemma_frame_op_preserves_inv(m: FrameAllocModel, op: FrameOp)
    requires
        frame_model_inv(m),
    ensures
        frame_model_inv(apply_frame_op(m, op)),
{
    let m2 = apply_frame_op(m, op);
    match op {
        FrameOp::Alloc => {
            if m.free.len() > 0 {
                lemma_drop_first_no_duplicates(m.free);
                assert forall|p: u64| m2.live.contains(p) implies !m2.free.contains(p) by {
                    if p == m.free[0] {
                    } else {
                        if m2.free.contains(p) {
                            lemma_drop_first_contains(m.free, p);
                        }
                    }
                }
            }
        },
        FrameOp::Free(p) => {
            if m.live.contains(p) {
                assert forall|i: int, j: int|
                    0 <= i < m2.free.len() && 0 <= j < m2.free.len() && i != j
                    implies m2.free[i] != m2.free[j] by {
                    if i == 0 {
                        assert(m2.free[j] == m.free[j - 1]);
                        assert(m.free.contains(m.free[j - 1]));
                    } else if j == 0 {
                        assert(m2.free[i] == m.free[i - 1]);
                        assert(m.free.contains(m.free[i - 1]));
                    } else {
                        assert(m2.free[i] == m.free[i - 1]);
                        assert(m2.free[j] == m.free[j - 1]);
                    }
                }
                assert forall|q: u64| m2.live.contains(q) implies !m2.free.contains(q) by {
                    lemma_prepend_contains(m.free, p, q);
                }
            }
        },
    }
}

pub proof fn lemma_frame_run_preserves_inv(m: FrameAllocModel, ops: Seq<FrameOp>)
    requires
        frame_model_inv(m),
    ensures
        frame_model_inv(run_frame_ops(m, ops)),
    decreases ops.len(),
{
    if ops.len() > 0 {
        lemma_frame_op_preserves_inv(m, ops[0]);
        lemma_frame_run_preserves_inv(apply_frame_op(m, ops[0]), ops.drop_first());
    }
}

/// No double allocation: after any sequence of alloc/free steps from a
/// state satisfying the invariant, the page number the next successful
/// allocation would hand out differs from every allocation that is
/// still live.
pub proof fn lemma_no_double_allocation(m: FrameAllocModel, ops: Seq<FrameOp>)
    requires
        frame_model_inv(m),
    ensures
        ({
            let s = run_frame_ops(m, ops);
            s.free.len() > 0 ==> !s.live.contains(s.free[0])
        }),
{
    lemma_frame_run_preserves_inv(m, ops);
    let s = run_frame_ops(m, ops);
    if s.free.len() > 0 {
        assert(s.free.contains(s.free[0]));
    }
}

/// Conservation: after any sequence of alloc/free steps, the length of
/// the free chain is the seeded length plus the number of pages
/// returned, minus the number of successful allocations.
pub proof fn lemma_conservation(m: FrameAllocModel, ops: Seq<FrameOp>)
    ensures
        run_frame_ops(m, ops).free.len() == m.free.len() + successful_frees(m, ops)
            - successful_allocs(m, ops),
    decreases ops.len(),
{
    if ops.len() > 0 {
        lemma_conservation(apply_frame_op(m, ops[0]), ops.drop_first());
    }
}

} // verus!
