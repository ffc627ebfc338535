//! Size-classed slab allocator: the kernel's general-purpose dynamic
//! allocation facility, built on the frame allocator.
//!
//! A [`Slab`] slices one 4096-byte frame into equal slots of
//! `2^order` bytes behind a small header; a [`Cache`] keeps the slabs of
//! one size class, with the fully-taken ones unlinked from its
//! allocation list; a [`KernelHeap`] keeps one cache per size class and
//! a degenerate whole-frame path for requests too large for any class.
//!
//! Reclamation policy: a slab whose slots are all free again is retained
//! by its cache for reuse; only whole-frame allocations return their
//! frame to the frame allocator when freed.

use vstd::prelude::*;

use crate::address::VirtualAddress;
use crate::address::PAGE_SIZE;
use crate::address::VIRTUAL_OFFSET;
use crate::pfa::FrameAllocator;
use crate::pfa::PageFrame;
use vstd::set_lib::lemma_int_range;
use vstd::set_lib::lemma_len_subset;
use vstd::set_lib::set_int_range;

verus! {

/// Bytes reserved at the start of a slab's frame for its header: the
/// next-slab link, the used-slot count and the free-slot list head.
pub const SLAB_HEADER_SIZE: u64 = 24;

/// Smallest size class: a free slot must hold one machine-word link.
pub const MIN_ORDER: u64 = 3;

/// Largest size class that still fits several times into one frame's
/// usable remainder; bigger requests take whole frames.
pub const MAX_ORDER: u64 = 11;

/// Slot size of a class, `2^order` bytes.
pub open spec fn slot_size(order: u64) -> u64 {
    if order == 3 {
        8
    } else if order == 4 {
        16
    } else if order == 5 {
        32
    } else if order == 6 {
        64
    } else if order == 7 {
        128
    } else if order == 8 {
        256
    } else if order == 9 {
        512
    } else if order == 10 {
        1024
    } else {
        2048
    }
}

/// Slots per slab: `floor((PAGE_SIZE - SLAB_HEADER_SIZE) / 2^order)`.
pub open spec fn total_slots(order: u64) -> u64 {
    if order == 3 {
        509
    } else if order == 4 {
        254
    } else if order == 5 {
        127
    } else if order == 6 {
        63
    } else if order == 7 {
        31
    } else if order == 8 {
        15
    } else if order == 9 {
        7
    } else if order == 10 {
        3
    } else {
        1
    }
}

/// Offset of the first slot inside the frame: the header, rounded up to
/// the slot size so that every slot is slot-size aligned.
pub open spec fn first_slot_offset(order: u64) -> u64 {
    if order == 3 {
        24
    } else if order == 4 {
        32
    } else if order == 5 {
        32
    } else {
        slot_size(order)
    }
}

/// The layout facts every size class satisfies: the class's slot count
/// is exactly `floor((PAGE_SIZE - SLAB_HEADER_SIZE) / 2^order)`, slots
/// start behind the header at a slot-aligned offset, and the last slot
/// ends inside the frame.
pub proof fn lemma_slab_layout(order: u64)
    requires
        MIN_ORDER <= order <= MAX_ORDER,
    ensures
        total_slots(order) == (PAGE_SIZE - SLAB_HEADER_SIZE) as u64 / slot_size(order),
        1 <= total_slots(order) <= 509,
        SLAB_HEADER_SIZE <= first_slot_offset(order),
        first_slot_offset(order) % slot_size(order) == 0,
        first_slot_offset(order) + total_slots(order) * slot_size(order) <= PAGE_SIZE,
        PAGE_SIZE as int % slot_size(order) as int == 0,
        slot_size(order) >= 8,
{
    if order == 3 {
        assert((PAGE_SIZE - SLAB_HEADER_SIZE) as u64 / 8u64 == 509);
        assert(24u64 % 8u64 == 0);
        assert(PAGE_SIZE as int % 8 == 0);
    } else if order == 4 {
        assert((PAGE_SIZE - SLAB_HEADER_SIZE) as u64 / 16u64 == 254);
        assert(32u64 % 16u64 == 0);
        assert(PAGE_SIZE as int % 16 == 0);
    } else if order == 5 {
        assert((PAGE_SIZE - SLAB_HEADER_SIZE) as u64 / 32u64 == 127);
        assert(32u64 % 32u64 == 0);
        assert(PAGE_SIZE as int % 32 == 0);
    } else if order == 6 {
        assert((PAGE_SIZE - SLAB_HEADER_SIZE) as u64 / 64u64 == 63);
        assert(64u64 % 64u64 == 0);
        assert(PAGE_SIZE as int % 64 == 0);
    } else if order == 7 {
        assert((PAGE_SIZE - SLAB_HEADER_SIZE) as u64 / 128u64 == 31);
        assert(128u64 % 128u64 == 0);
        assert(PAGE_SIZE as int % 128 == 0);
    } else if order == 8 {
        assert((PAGE_SIZE - SLAB_HEADER_SIZE) as u64 / 256u64 == 15);
        assert(256u64 % 256u64 == 0);
        assert(PAGE_SIZE as int % 256 == 0);
    } else if order == 9 {
        assert((PAGE_SIZE - SLAB_HEADER_SIZE) as u64 / 512u64 == 7);
        assert(512u64 % 512u64 == 0);
        assert(PAGE_SIZE as int % 512 == 0);
    } else if order == 10 {
        assert((PAGE_SIZE - SLAB_HEADER_SIZE) as u64 / 1024u64 == 3);
        assert(1024u64 % 1024u64 == 0);
        assert(PAGE_SIZE as int % 1024 == 0);
    } else {
        assert((PAGE_SIZE - SLAB_HEADER_SIZE) as u64 / 2048u64 == 1);
        assert(2048u64 % 2048u64 == 0);
        assert(PAGE_SIZE as int % 2048 == 0);
    }
}

/// Virtual base address of the frame holding a slab with this frame
/// page number: its place in the kernel's permanent linear map.
pub open spec fn slab_base(ppn: u64) -> int {
    ppn * PAGE_SIZE + VIRTUAL_OFFSET
}

proof fn lemma_bounded_distinct_missing(free: Seq<u64>, total: u64, idx: u64)
    requires
        free.no_duplicates(),
        forall|j: int| 0 <= j < free.len() ==> free[j] < total,
        idx < total,
        !free.contains(idx),
    ensures
        free.len() < total,
{
    let f = |x: u64| x as int;
    let fi = free.map_values(f);
    assert(forall|x: u64, y: u64| #[trigger] f(x) == #[trigger] f(y) ==> x == y);
    free.lemma_no_duplicates_injective(f);
    fi.unique_seq_to_set();
    let target = set_int_range(0, total as int).remove(idx as int);
    lemma_int_range(0, total as int);
    assert(fi.to_set() <= target) by {
        assert forall|el: int| fi.to_set().contains(el) implies target.contains(el) by {
            let j = choose|j: int| 0 <= j < fi.len() && fi[j] == el;
            assert(free[j] < total && free[j] != idx);
        }
    }
    lemma_len_subset(fi.to_set(), target);
}

/// Distinct slot indices of one slab sit at distinct addresses.
proof fn lemma_slot_addr_injective(s: Slab, i1: u64, i2: u64)
    requires
        s.wf(),
        s.spec_slot_addr(i1) == s.spec_slot_addr(i2),
    ensures
        i1 == i2,
{
    lemma_slab_layout(s.spec_order());
    assert(i1 as int * slot_size(s.spec_order()) as int == i2 as int * slot_size(
        s.spec_order(),
    ) as int);
    assert(i1 == i2) by (nonlinear_arith)
        requires
            i1 as int * slot_size(s.spec_order()) as int == i2 as int * slot_size(
                s.spec_order(),
            ) as int,
            slot_size(s.spec_order()) >= 8,
    ;
}

proof fn lemma_membership_drop_last(s: Seq<u64>)
    requires
        s.len() > 0,
        s.no_duplicates(),
    ensures
        !s.drop_last().contains(s.last()),
        forall|x: u64| x != s.last() ==> s.drop_last().contains(x) == s.contains(x),
{
    let t = s.drop_last();
    if t.contains(s.last()) {
        let k = choose|k: int| 0 <= k < t.len() && t[k] == s.last();
        assert(s[k] == s[s.len() - 1]);
    }
    assert forall|x: u64| x != s.last() implies t.contains(x) == s.contains(x) by {
        if t.contains(x) {
            let k = choose|k: int| 0 <= k < t.len() && t[k] == x;
            assert(s[k] == x);
        }
        if s.contains(x) {
            let k = choose|k: int| 0 <= k < s.len() && s[k] == x;
            assert(t[k] == x);
        }
    }
}

proof fn lemma_membership_push(s: Seq<u64>, v: u64)
    ensures
        forall|x: u64| s.push(v).contains(x) == (s.contains(x) || x == v),
{
    assert forall|x: u64| s.push(v).contains(x) == (s.contains(x) || x == v) by {
        if s.push(v).contains(x) {
            let k = choose|k: int| 0 <= k < s.push(v).len() && s.push(v)[k] == x;
            if k < s.len() {
                assert(s[k] == x);
            }
        }
        if s.contains(x) {
            let k = choose|k: int| 0 <= k < s.len() && s[k] == x;
            assert(s.push(v)[k] == x);
        }
        if x == v {
            assert(s.push(v)[s.len() as int] == x);
        }
    }
}

/// One frame sliced into `2^order`-byte slots. The free slots form a
/// list whose head is where slots leave and re-enter.
pub struct Slab {
    frame: PageFrame,
    order: u64,
    free_slots: Vec<u64>,
    used: u64,
}

impl Slab {
    /// Size class of this slab.
    pub closed spec fn spec_order(self) -> u64 {
        self.order
    }

    /// Page number of the frame this slab occupies.
    pub closed spec fn spec_ppn(self) -> u64 {
        self.frame.ppn
    }

    /// Free-slot indices, list head last.
    pub closed spec fn spec_free(self) -> Seq<u64> {
        self.free_slots@
    }

    /// Count of slots currently handed out.
    pub closed spec fn spec_used(self) -> int {
        self.used as int
    }

    /// Virtual address of slot `idx`.
    pub open spec fn spec_slot_addr(self, idx: u64) -> int {
        slab_base(self.spec_ppn()) + first_slot_offset(self.spec_order()) + idx * slot_size(
            self.spec_order(),
        )
    }

    /// `addr` is a slot of this slab that is currently handed out.
    pub open spec fn owns_live_slot(self, addr: int) -> bool {
        exists|idx: u64|
            idx < total_slots(self.spec_order()) && addr == #[trigger] self.spec_slot_addr(idx)
                && !self.spec_free().contains(idx)
    }

    pub closed spec fn wf(self) -> bool {
        &&& MIN_ORDER <= self.order <= MAX_ORDER
        &&& self.frame.wf()
        &&& self.used + self.free_slots@.len() == total_slots(self.order)
        &&& self.free_slots@.no_duplicates()
        &&& forall|j: int|
            0 <= j < self.free_slots@.len() ==> self.free_slots@[j] < total_slots(self.order)
    }

    /// Format `frame` as a fresh slab of the given class: a header and
    /// exactly `floor((PAGE_SIZE - SLAB_HEADER_SIZE) / 2^order)` free
    /// slots, linked so that slot 0 is handed out first.
    pub fn new(frame: PageFrame, order: u64) -> (r: Self)
        requires
            frame.wf(),
            MIN_ORDER <= order <= MAX_ORDER,
        ensures
            r.wf(),
            r.spec_order() == order,
            r.spec_ppn() == frame.ppn,
            r.spec_used() == 0,
            r.spec_free().len() == total_slots(order),
            forall|j: int|
                0 <= j < r.spec_free().len() ==> r.spec_free()[j] == total_slots(order) - 1 - j,
    {
        let total = total_slots_exec(order);
        let mut free_slots: Vec<u64> = Vec::new();
        let mut k = total;
        while k > 0
            invariant
                k <= total,
                free_slots@.len() == total - k,
                forall|j: int| 0 <= j < free_slots@.len() ==> free_slots@[j] == total - 1 - j,
            decreases k,
        {
            k = k - 1;
            free_slots.push(k);
        }
        proof {
            assert forall|i: int, j: int|
                0 <= i < free_slots@.len() && 0 <= j < free_slots@.len() && i != j
                implies free_slots@[i] != free_slots@[j] by {}
        }
        Slab { frame, order, free_slots, used: 0 }
    }

    /// Hand out the head free slot, if any; `None` means the slab is
    /// fully taken.
    pub fn alloc_slot(&mut self) -> (r: Option<VirtualAddress>)
        requires
            old(self).wf(),
        ensures
            final(self).wf(),
            final(self).spec_order() == old(self).spec_order(),
            final(self).spec_ppn() == old(self).spec_ppn(),
            old(self).spec_free().len() == 0 ==> r is None && final(self).spec_free() == old(self).spec_free() && final(self).spec_used() == old(self).spec_used(),
            old(self).spec_free().len() > 0 ==> (r matches Some(a) && a.0
                == old(self).spec_slot_addr(old(self).spec_free().last()) && final(self).spec_free() == old(self).spec_free().drop_last() && final(self).spec_used() == old(self).spec_used() + 1),
            old(self).spec_free().len() > 0 ==> (r matches Some(a) && final(self).owns_live_slot(
                a.0 as int,
            ) && !old(self).owns_live_slot(a.0 as int)),
            forall|x: int|
                (r matches Some(a) && x != a.0 as int) ==> final(self).owns_live_slot(x) == old(
                    self,
                ).owns_live_slot(x),
    {
        let idx = match self.free_slots.pop() {
            None => {
                return None;
            },
            Some(idx) => idx,
        };
        proof {
            lemma_slab_layout(self.order);
            vstd::arithmetic::mul::lemma_mul_inequality(
                idx as int + 1,
                total_slots(self.order) as int,
                slot_size(self.order) as int,
            );
            assert((idx + 1) * slot_size(self.order) == idx * slot_size(self.order) + slot_size(
                self.order,
            )) by (nonlinear_arith);
            assert(idx * slot_size(self.order) >= 0) by (nonlinear_arith)
                requires
                    idx >= 0,
                    slot_size(self.order) >= 0,
            ;
        }
        let base = self.frame.base_addr().to_virt();
        let addr = base.0 + first_slot_offset_exec(self.order) + idx * slot_size_exec(self.order);
        self.used = self.used + 1;
        proof {
            lemma_membership_drop_last(old(self).spec_free());
            assert(self.owns_live_slot(addr as int)) by {
                assert(addr as int == self.spec_slot_addr(idx));
                assert(!self.spec_free().contains(idx));
            }
            assert(!old(self).owns_live_slot(addr as int)) by {
                if old(self).owns_live_slot(addr as int) {
                    let j = choose|j: u64|
                        j < total_slots(old(self).spec_order()) && addr as int
                            == #[trigger] old(self).spec_slot_addr(j) && !old(
                            self,
                        ).spec_free().contains(j);
                    lemma_slot_addr_injective(*old(self), j, idx);
                    assert(old(self).spec_free().contains(idx));
                }
            }
            assert forall|x: int| x != addr as int implies self.owns_live_slot(x) == old(
                self,
            ).owns_live_slot(x) by {
                if self.owns_live_slot(x) {
                    let j = choose|j: u64|
                        j < total_slots(self.spec_order()) && x == #[trigger] self.spec_slot_addr(
                            j,
                        ) && !self.spec_free().contains(j);
                    assert(j != idx);
                    assert(old(self).spec_slot_addr(j) == x);
                }
                if old(self).owns_live_slot(x) {
                    let j = choose|j: u64|
                        j < total_slots(old(self).spec_order()) && x == #[trigger] old(
                            self,
                        ).spec_slot_addr(j) && !old(self).spec_free().contains(j);
                    assert(j != idx);
                    assert(self.spec_slot_addr(j) == x);
                }
            }
        }
        Some(VirtualAddress(addr))
    }

    /// Take back slot `idx`, linking it as the new head. The slot must
    /// be one this slab handed out and not already returned: exactly
    /// the allocate/free contract's ownership discipline.
    pub fn free_slot(&mut self, idx: u64)
        requires
            old(self).wf(),
            idx < total_slots(old(self).spec_order()),
            !old(self).spec_free().contains(idx),
        ensures
            final(self).wf(),
            final(self).spec_order() == old(self).spec_order(),
            final(self).spec_ppn() == old(self).spec_ppn(),
            final(self).spec_free() == old(self).spec_free().push(idx),
            final(self).spec_used() == old(self).spec_used() - 1,
            forall|x: int|
                final(self).owns_live_slot(x) == (old(self).owns_live_slot(x) && x != old(
                    self,
                ).spec_slot_addr(idx)),
    {
        proof {
            lemma_bounded_distinct_missing(
                self.free_slots@,
                total_slots(self.order),
                idx,
            );
            assert forall|i: int, j: int|
                0 <= i < self.free_slots@.push(idx).len() && 0 <= j < self.free_slots@.push(
                    idx,
                ).len() && i != j implies self.free_slots@.push(idx)[i] != self.free_slots@.push(
                idx,
            )[j] by {
                let p = self.free_slots@.push(idx);
                if i < p.len() - 1 && j < p.len() - 1 {
                    assert(p[i] == self.free_slots@[i] && p[j] == self.free_slots@[j]);
                } else if i == p.len() - 1 {
                    assert(p[j] == self.free_slots@[j]);
                    assert(self.free_slots@.contains(self.free_slots@[j]));
                } else {
                    assert(p[i] == self.free_slots@[i]);
                    assert(self.free_slots@.contains(self.free_slots@[i]));
                }
            }
        }
        self.free_slots.push(idx);
        self.used = self.used - 1;
        proof {
            lemma_membership_push(old(self).spec_free(), idx);
            assert forall|x: int|
                self.owns_live_slot(x) == (old(self).owns_live_slot(x) && x != old(
                    self,
                ).spec_slot_addr(idx)) by {
                if self.owns_live_slot(x) {
                    let j = choose|j: u64|
                        j < total_slots(self.spec_order()) && x == #[trigger] self.spec_slot_addr(
                            j,
                        ) && !self.spec_free().contains(j);
                    assert(j != idx);
                    assert(old(self).spec_slot_addr(j) == x);
                    if x == old(self).spec_slot_addr(idx) {
                        lemma_slot_addr_injective(*old(self), j, idx);
                    }
                }
                if old(self).owns_live_slot(x) && x != old(self).spec_slot_addr(idx) {
                    let j = choose|j: u64|
                        j < total_slots(old(self).spec_order()) && x == #[trigger] old(
                            self,
                        ).spec_slot_addr(j) && !old(self).spec_free().contains(j);
                    assert(j != idx);
                    assert(self.spec_slot_addr(j) == x);
                    assert(!self.spec_free().contains(j));
                }
            }
        }
    }

    /// Recover the slot index of a live slot address: the address's
    /// displacement behind the first slot, divided by the slot size.
    pub fn index_of(&self, addr: VirtualAddress) -> (idx: u64)
        requires
            self.wf(),
            self.owns_live_slot(addr.0 as int),
        ensures
            idx < total_slots(self.spec_order()),
            addr.0 as int == self.spec_slot_addr(idx),
            !self.spec_free().contains(idx),
    {
        proof {
            let idx0 = choose|idx0: u64|
                idx0 < total_slots(self.spec_order()) && addr.0 as int == #[trigger] self.spec_slot_addr(idx0)
                    && !self.spec_free().contains(idx0);
            lemma_slot_addr_facts(*self, idx0);
            lemma_slab_layout(self.order);
            assert(idx0 * slot_size(self.order) >= 0) by (nonlinear_arith)
                requires
                    idx0 >= 0,
                    slot_size(self.order) >= 0,
            ;
            vstd::arithmetic::div_mod::lemma_fundamental_div_mod_converse_div(
                idx0 as int * slot_size(self.order) as int,
                slot_size(self.order) as int,
                idx0 as int,
                0,
            );
        }
        let base = self.frame.base_addr().to_virt();
        let off = addr.as_int() - (base.as_int() + first_slot_offset_exec(self.order));
        off / slot_size_exec(self.order)
    }

    /// Number of slots still free.
    pub fn free_count(&self) -> (r: usize)
        ensures
            r == self.spec_free().len(),
    {
        self.free_slots.len()
    }
}

fn slot_size_exec(order: u64) -> (r: u64)
    requires
        MIN_ORDER <= order <= MAX_ORDER,
    ensures
        r == slot_size(order),
{
    if order == 3 {
        8
    } else if order == 4 {
        16
    } else if order == 5 {
        32
    } else if order == 6 {
        64
    } else if order == 7 {
        128
    } else if order == 8 {
        256
    } else if order == 9 {
        512
    } else if order == 10 {
        1024
    } else {
        2048
    }
}

fn total_slots_exec(order: u64) -> (r: u64)
    requires
        MIN_ORDER <= order <= MAX_ORDER,
    ensures
        r == total_slots(order),
{
    if order == 3 {
        509
    } else if order == 4 {
        254
    } else if order == 5 {
        127
    } else if order == 6 {
        63
    } else if order == 7 {
        31
    } else if order == 8 {
        15
    } else if order == 9 {
        7
    } else if order == 10 {
        3
    } else {
        1
    }
}

fn first_slot_offset_exec(order: u64) -> (r: u64)
    requires
        MIN_ORDER <= order <= MAX_ORDER,
    ensures
        r == first_slot_offset(order),
{
    if order == 3 {
        24
    } else if order == 4 {
        32
    } else if order == 5 {
        32
    } else {
        slot_size_exec(order)
    }
}

/// Total free slots across a sequence of slabs.
pub open spec fn sum_free(s: Seq<Slab>) -> int
    decreases s.len(),
{
    if s.len() == 0 {
        0
    } else {
        s.last().spec_free().len() + sum_free(s.drop_last())
    }
}

proof fn lemma_sum_free_push(s: Seq<Slab>, x: Slab)
    ensures
        sum_free(s.push(x)) == sum_free(s) + x.spec_free().len(),
{
    assert(s.push(x).drop_last() =~= s);
}

proof fn lemma_sum_free_remove(s: Seq<Slab>, i: int)
    requires
        0 <= i < s.len(),
    ensures
        sum_free(s.remove(i)) == sum_free(s) - s[i].spec_free().len(),
    decreases s.len(),
{
    if i == s.len() - 1 {
        assert(s.remove(i) =~= s.drop_last());
    } else {
        assert(s.remove(i).drop_last() =~= s.drop_last().remove(i));
        assert(s.remove(i).last() == s.last());
        lemma_sum_free_remove(s.drop_last(), i);
    }
}

proof fn lemma_divides_transitive(a: int, m: int, n: int)
    requires
        m > 0,
        n > 0,
        a >= 0,
        a % m == 0,
        m % n == 0,
    ensures
        a % n == 0,
{
    vstd::arithmetic::div_mod::lemma_fundamental_div_mod(a, m);
    vstd::arithmetic::div_mod::lemma_fundamental_div_mod(m, n);
    assert(a == ((m / n) * (a / m)) * n) by (nonlinear_arith)
        requires
            a == m * (a / m),
            m == n * (m / n),
    ;
    vstd::arithmetic::div_mod::lemma_mod_multiples_basic((m / n) * (a / m), n);
}

/// Every slot address is aligned to its class's slot size and lies
/// inside its slab's frame.
proof fn lemma_slot_addr_facts(s: Slab, idx: u64)
    requires
        s.wf(),
        idx < total_slots(s.spec_order()),
    ensures
        s.spec_slot_addr(idx) % slot_size(s.spec_order()) as int == 0,
        slab_base(s.spec_ppn()) <= s.spec_slot_addr(idx),
        s.spec_slot_addr(idx) + slot_size(s.spec_order()) <= slab_base(s.spec_ppn()) + PAGE_SIZE,
        VIRTUAL_OFFSET <= s.spec_slot_addr(idx),
{
    let order = s.spec_order();
    let size = slot_size(order) as int;
    let ppn = s.spec_ppn() as int;
    lemma_slab_layout(order);
    assert((idx + 1) * size <= total_slots(order) * size) by (nonlinear_arith)
        requires
            idx + 1 <= total_slots(order),
            size >= 0,
    ;
    assert((idx + 1) * size == idx * size + size) by (nonlinear_arith);
    assert(idx * size >= 0) by (nonlinear_arith)
        requires
            idx >= 0,
            size >= 0,
    ;
    assert(ppn * PAGE_SIZE >= 0) by (nonlinear_arith)
        requires
            ppn >= 0,
    ;
    // ppn * PAGE_SIZE is a multiple of the slot size
    vstd::arithmetic::div_mod::lemma_fundamental_div_mod(PAGE_SIZE as int, size);
    assert(ppn * PAGE_SIZE == ((PAGE_SIZE as int / size) * ppn) * size) by (nonlinear_arith)
        requires
            PAGE_SIZE == size * (PAGE_SIZE as int / size),
    ;
    vstd::arithmetic::div_mod::lemma_mod_multiples_basic((PAGE_SIZE as int / size) * ppn, size);
    // so is the linear-map offset
    assert(VIRTUAL_OFFSET as int % PAGE_SIZE as int == 0);
    lemma_divides_transitive(VIRTUAL_OFFSET as int, PAGE_SIZE as int, size);
    // and the first-slot offset and the slot displacement
    vstd::arithmetic::div_mod::lemma_mod_multiples_basic(idx as int, size);
    // sum the four congruent-to-zero parts
    let b = ppn * PAGE_SIZE + VIRTUAL_OFFSET;
    vstd::arithmetic::div_mod::lemma_add_mod_noop(ppn * PAGE_SIZE, VIRTUAL_OFFSET as int, size);
    vstd::arithmetic::div_mod::lemma_add_mod_noop(b, first_slot_offset(order) as int, size);
    vstd::arithmetic::div_mod::lemma_add_mod_noop(
        b + first_slot_offset(order),
        idx as int * size,
        size,
    );
    vstd::arithmetic::div_mod::lemma_small_mod(0nat, size as nat);
}

/// A live slot address determines the page number of the slab that
/// handed it out.
proof fn lemma_owner_ppn(s: Slab, addr: int)
    requires
        s.wf(),
        s.owns_live_slot(addr),
    ensures
        VIRTUAL_OFFSET <= addr,
        (addr - VIRTUAL_OFFSET) / PAGE_SIZE as int == s.spec_ppn(),
{
    let idx = choose|idx: u64|
        idx < total_slots(s.spec_order()) && addr == #[trigger] s.spec_slot_addr(idx)
            && !s.spec_free().contains(idx);
    lemma_slot_addr_facts(s, idx);
    lemma_slab_layout(s.spec_order());
    let disp = first_slot_offset(s.spec_order()) + idx * slot_size(s.spec_order());
    assert(0 <= disp < PAGE_SIZE);
    vstd::arithmetic::div_mod::lemma_fundamental_div_mod_converse_div(
        addr - VIRTUAL_OFFSET,
        PAGE_SIZE as int,
        s.spec_ppn() as int,
        disp,
    );
    assert(VIRTUAL_OFFSET <= addr) by (nonlinear_arith)
        requires
            addr == s.spec_ppn() * PAGE_SIZE + VIRTUAL_OFFSET + disp,
            disp >= 0,
            s.spec_ppn() >= 0,
    ;
}



/// Some slab in the list currently has `x` handed out.
pub open spec fn seq_owns(s: Seq<Slab>, x: int) -> bool {
    exists|k: int| 0 <= k < s.len() && (#[trigger] s[k]).owns_live_slot(x)
}

/// Some slab in the list occupies the frame with this page number.
pub open spec fn seq_has_ppn(s: Seq<Slab>, p: u64) -> bool {
    exists|k: int| 0 <= k < s.len() && #[trigger] s[k].spec_ppn() == p
}

/// A slot address inside a slab's frame pins that frame's page number,
/// whether or not the slot is handed out.
proof fn lemma_slot_addr_frame(s: Slab, idx: u64)
    requires
        s.wf(),
        idx < total_slots(s.spec_order()),
    ensures
        VIRTUAL_OFFSET <= s.spec_slot_addr(idx),
        (s.spec_slot_addr(idx) - VIRTUAL_OFFSET) / PAGE_SIZE as int == s.spec_ppn(),
{
    lemma_slot_addr_facts(s, idx);
    lemma_slab_layout(s.spec_order());
    let disp = first_slot_offset(s.spec_order()) + idx * slot_size(s.spec_order());
    assert(0 <= disp < PAGE_SIZE);
    vstd::arithmetic::div_mod::lemma_fundamental_div_mod_converse_div(
        s.spec_slot_addr(idx) - VIRTUAL_OFFSET,
        PAGE_SIZE as int,
        s.spec_ppn() as int,
        disp,
    );
}

/// A slab fresh from `Slab::new` has every slot free, so it owns no
/// address.
proof fn lemma_fresh_slab_owns_nothing(s: Slab)
    requires
        s.wf(),
        s.spec_free().len() == total_slots(s.spec_order()),
        forall|j: int|
            0 <= j < s.spec_free().len() ==> s.spec_free()[j] == total_slots(s.spec_order()) - 1
                - j,
    ensures
        forall|x: int| !s.owns_live_slot(x),
{
    assert forall|x: int| !s.owns_live_slot(x) by {
        if s.owns_live_slot(x) {
            let j = choose|j: u64|
                j < total_slots(s.spec_order()) && x == #[trigger] s.spec_slot_addr(j)
                    && !s.spec_free().contains(j);
            assert(s.spec_free()[total_slots(s.spec_order()) - 1 - j] == j);
        }
    }
}

proof fn lemma_owns_after_serve(post: Cache, pre: Cache, slab: Slab, x: int)
    requires
        pre.partial@.len() > 0,
        slab.owns_live_slot(x) == pre.partial@.last().owns_live_slot(x),
        (post.partial@ == pre.partial@.drop_last().push(slab) && post.full@ == pre.full@) || (
        post.partial@ == pre.partial@.drop_last() && post.full@ == pre.full@.push(slab)),
    ensures
        post.owns_live_slot(x) <==> pre.owns_live_slot(x),
{
    let moved = post.partial@ == pre.partial@.drop_last() && post.full@ == pre.full@.push(slab);
    if post.owns_live_slot(x) {
        if seq_owns(post.partial@, x) {
            let i = choose|i: int|
                0 <= i < post.partial@.len() && (#[trigger] post.partial@[i]).owns_live_slot(x);
            if i < pre.partial@.len() - 1 {
                assert(pre.partial@[i].owns_live_slot(x));
            } else {
                assert(pre.partial@[pre.partial@.len() - 1].owns_live_slot(x));
            }
        } else {
            let i = choose|i: int|
                0 <= i < post.full@.len() && (#[trigger] post.full@[i]).owns_live_slot(x);
            if i < pre.full@.len() {
                assert(pre.full@[i].owns_live_slot(x));
            } else {
                assert(pre.partial@[pre.partial@.len() - 1].owns_live_slot(x));
            }
        }
    }
    if pre.owns_live_slot(x) {
        if seq_owns(pre.partial@, x) {
            let i = choose|i: int|
                0 <= i < pre.partial@.len() && (#[trigger] pre.partial@[i]).owns_live_slot(x);
            if i < pre.partial@.len() - 1 {
                assert(post.partial@[i].owns_live_slot(x));
            } else {
                if moved {
                    assert(post.full@[pre.full@.len() as int].owns_live_slot(x));
                } else {
                    assert(post.partial@[pre.partial@.len() - 1].owns_live_slot(x));
                }
            }
        } else {
            let i = choose|i: int|
                0 <= i < pre.full@.len() && (#[trigger] pre.full@[i]).owns_live_slot(x);
            assert(post.full@[i].owns_live_slot(x));
        }
    }
}

proof fn lemma_owns_after_requeue(post: Seq<Slab>, pre: Seq<Slab>, i: int, slab: Slab, x: int)
    requires
        0 <= i < pre.len(),
        slab.owns_live_slot(x) == pre[i].owns_live_slot(x),
        post == pre.remove(i).push(slab),
    ensures
        seq_owns(post, x) <==> seq_owns(pre, x),
{
    if seq_owns(pre, x) {
        let k = choose|k: int| 0 <= k < pre.len() && (#[trigger] pre[k]).owns_live_slot(x);
        if k == i {
            assert(post[post.len() - 1].owns_live_slot(x));
        } else if k < i {
            assert(post[k].owns_live_slot(x));
        } else {
            assert(post[k - 1].owns_live_slot(x));
        }
    }
    if seq_owns(post, x) {
        let k = choose|k: int| 0 <= k < post.len() && (#[trigger] post[k]).owns_live_slot(x);
        if k == post.len() - 1 {
            assert(pre[i].owns_live_slot(x));
        } else if k < i {
            assert(pre[k].owns_live_slot(x));
        } else {
            assert(pre[k + 1].owns_live_slot(x));
        }
    }
}

proof fn lemma_owns_after_refill(post: Cache, pre: Cache, i: int, slab: Slab, x: int)
    requires
        0 <= i < pre.full@.len(),
        slab.owns_live_slot(x) == pre.full@[i].owns_live_slot(x),
        post.partial@ == pre.partial@.push(slab),
        post.full@ == pre.full@.remove(i),
    ensures
        post.owns_live_slot(x) <==> pre.owns_live_slot(x),
{
    if pre.owns_live_slot(x) {
        if seq_owns(pre.partial@, x) {
            let k = choose|k: int|
                0 <= k < pre.partial@.len() && (#[trigger] pre.partial@[k]).owns_live_slot(x);
            assert(post.partial@[k].owns_live_slot(x));
        } else {
            let k = choose|k: int|
                0 <= k < pre.full@.len() && (#[trigger] pre.full@[k]).owns_live_slot(x);
            if k == i {
                assert(post.partial@[pre.partial@.len() as int].owns_live_slot(x));
            } else if k < i {
                assert(post.full@[k].owns_live_slot(x));
            } else {
                assert(post.full@[k - 1].owns_live_slot(x));
            }
        }
    }
    if post.owns_live_slot(x) {
        if seq_owns(post.partial@, x) {
            let k = choose|k: int|
                0 <= k < post.partial@.len() && (#[trigger] post.partial@[k]).owns_live_slot(x);
            if k < pre.partial@.len() {
                assert(pre.partial@[k].owns_live_slot(x));
            } else {
                assert(pre.full@[i].owns_live_slot(x));
            }
        } else {
            let k = choose|k: int|
                0 <= k < post.full@.len() && (#[trigger] post.full@[k]).owns_live_slot(x);
            if k < i {
                assert(pre.full@[k].owns_live_slot(x));
            } else {
                assert(pre.full@[k + 1].owns_live_slot(x));
            }
        }
    }
}

/// Source index in the original list for position `k` after a
/// remove-at-`i`-then-push requeue of a list of length `n`.
pub open spec fn requeue_src(n: int, i: int, k: int) -> int {
    if k == n - 1 {
        i
    } else if k < i {
        k
    } else {
        k + 1
    }
}

/// The slabs of one size class. Allocation serves from the last slab of
/// the `partial` list (its head); slabs with no free slot are unlinked
/// into `full` so allocation skips them, and return to the head of
/// `partial` when one of their slots is freed.
pub struct Cache {
    order: u64,
    partial: Vec<Slab>,
    full: Vec<Slab>,
}

impl Cache {
    pub closed spec fn spec_order(self) -> u64 {
        self.order
    }

    /// Number of slabs this cache owns, linked or unlinked.
    pub closed spec fn spec_slab_count(self) -> int {
        self.partial@.len() + self.full@.len() as int
    }

    /// Total free slots across the cache.
    pub closed spec fn spec_free_slots(self) -> int {
        sum_free(self.partial@)
    }

    /// Whether some linked slab has a free slot.
    pub closed spec fn has_room(self) -> bool {
        self.partial@.len() > 0
    }

    /// Whether this cache owns the frame with the given page number.
    pub closed spec fn has_ppn(self, ppn: u64) -> bool {
        seq_has_ppn(self.partial@, ppn) || seq_has_ppn(self.full@, ppn)
    }

    /// Whether `addr` is a currently-allocated slot of this cache.
    pub closed spec fn owns_live_slot(self, addr: int) -> bool {
        seq_owns(self.partial@, addr) || seq_owns(self.full@, addr)
    }

    pub closed spec fn wf(self) -> bool {
        &&& MIN_ORDER <= self.order <= MAX_ORDER
        &&& forall|i: int|
            0 <= i < self.partial@.len() ==> (#[trigger] self.partial@[i]).wf()
                && self.partial@[i].spec_order() == self.order
                && self.partial@[i].spec_free().len() > 0
        &&& forall|i: int|
            0 <= i < self.full@.len() ==> (#[trigger] self.full@[i]).wf()
                && self.full@[i].spec_order() == self.order && self.full@[i].spec_free().len()
                == 0
        &&& forall|i: int, j: int|
            0 <= i < self.partial@.len() && 0 <= j < self.partial@.len() && i != j
                ==> (#[trigger] self.partial@[i]).spec_ppn() != (
            #[trigger] self.partial@[j]).spec_ppn()
        &&& forall|i: int, j: int|
            0 <= i < self.full@.len() && 0 <= j < self.full@.len() && i != j
                ==> (#[trigger] self.full@[i]).spec_ppn() != (#[trigger] self.full@[j]).spec_ppn()
        &&& forall|i: int, j: int|
            0 <= i < self.partial@.len() && 0 <= j < self.full@.len()
                ==> (#[trigger] self.partial@[i]).spec_ppn() != (
            #[trigger] self.full@[j]).spec_ppn()
    }

    /// An empty cache for one size class.
    pub fn new(order: u64) -> (r: Self)
        requires
            MIN_ORDER <= order <= MAX_ORDER,
        ensures
            r.wf(),
            r.spec_order() == order,
            r.spec_slab_count() == 0,
            r.spec_free_slots() == 0,
            !r.has_room(),
            forall|p: u64| !r.has_ppn(p),
            forall|a: int| !r.owns_live_slot(a),
    {
        Cache { order, partial: Vec::new(), full: Vec::new() }
    }

    /// Number of slabs this cache owns.
    pub fn slab_count(&self) -> (r: usize)
        requires
            self.spec_slab_count() <= usize::MAX,
        ensures
            r == self.spec_slab_count(),
    {
        self.partial.len() + self.full.len()
    }

    /// Total free slots across the cache's linked slabs.
    pub fn free_slot_count(&self) -> (r: usize)
        requires
            self.wf(),
            self.spec_slab_count() <= 0x10_0000,
        ensures
            r == self.spec_free_slots(),
    {
        let mut total: usize = 0;
        let mut i: usize = 0;
        proof {
            assert(self.partial@.subrange(0, 0) =~= Seq::<Slab>::empty());
        }
        while i < self.partial.len()
            invariant
                self.wf(),
                i <= self.partial@.len(),
                total == sum_free(self.partial@.subrange(0, i as int)),
                self.partial@.len() <= 0x10_0000,
                total <= i * 512,
            decreases self.partial@.len() - i,
        {
            proof {
                let pre = self.partial@.subrange(0, i as int);
                let post = self.partial@.subrange(0, i as int + 1);
                assert(post.drop_last() =~= pre);
                assert(post.last() == self.partial@[i as int]);
                assert((i + 1) * 512 == i * 512 + 512) by (nonlinear_arith);
            }
            total = total + self.partial[i].free_count();
            i = i + 1;
        }
        proof {
            assert(self.partial@.subrange(0, self.partial@.len() as int) =~= self.partial@);
        }
        total
    }

    /// Serve one slot. If no linked slab has room, one frame is taken
    /// from `fa` and formatted as a new slab first; `None` is returned
    /// exactly when the cache is out of room and `fa` out of frames. A
    /// slab whose last slot is handed out is unlinked from the
    /// allocation list.
    pub fn allocate(&mut self, fa: &mut FrameAllocator) -> (r: Option<VirtualAddress>)
        requires
            old(self).wf(),
            old(fa).wf(),
            forall|j: int| 0 <= j < old(fa)@.len() ==> !old(self).has_ppn(old(fa)@[j]),
        ensures
            final(self).wf(),
            final(fa).wf(),
            final(self).spec_order() == old(self).spec_order(),
            r is Some <==> (old(self).has_room() || old(fa)@.len() > 0),
            r is None ==> *final(self) == *old(self) && *final(fa) == *old(fa),
            r matches Some(a) ==> a.0 as int % slot_size(old(self).spec_order()) as int == 0
                && a.0 >= VIRTUAL_OFFSET,
            old(self).has_room() ==> *final(fa) == *old(fa) && final(self).spec_slab_count()
                == old(self).spec_slab_count() && final(self).spec_free_slots() == old(self).spec_free_slots() - 1 && (forall|p: u64|
                final(self).has_ppn(p) <==> old(self).has_ppn(p)),
            !old(self).has_room() && old(fa)@.len() > 0 ==> final(fa)@ == old(fa)@.drop_first()
                && final(self).spec_slab_count() == old(self).spec_slab_count() + 1 && final(self).spec_free_slots() == total_slots(old(self).spec_order()) - 1 && (forall|p: u64|
                final(self).has_ppn(p) <==> (old(self).has_ppn(p) || p == old(fa)@[0])),
            forall|j: int| 0 <= j < final(fa)@.len() ==> !final(self).has_ppn(final(fa)@[j]),
            r matches Some(a) ==> final(self).owns_live_slot(a.0 as int) && !old(
                self,
            ).owns_live_slot(a.0 as int),
            forall|x: int|
                (r matches Some(a) && x != a.0 as int) ==> final(self).owns_live_slot(x) == old(
                    self,
                ).owns_live_slot(x),
    {
        let ghost pre = *self;
        if self.partial.len() == 0 {
            if self.free_frame_probe(fa) {
                // a fresh slab from one frame
                let frame = match fa.alloc_page() {
                    Some(frame) => frame,
                    None => {
                        proof {
                            assert(false);
                        }
                        return None;
                    },
                };
                let ghost fppn = frame.ppn;
                let mut slab = Slab::new(frame, self.order);
                let ghost sl0 = slab;
                proof {
                    lemma_slab_layout(pre.spec_order());
                }
                let a = match slab.alloc_slot() {
                    Some(a) => a,
                    None => {
                        proof {
                            assert(false);
                        }
                        return None;
                    },
                };
                proof {
                    lemma_slot_addr_facts(sl0, sl0.spec_free().last());
                }
                if self.free_count_of(&slab) == 0 {
                    self.full.push(slab);
                } else {
                    self.partial.push(slab);
                    proof {
                        lemma_sum_free_push(pre.partial@, slab);
                    }
                }
                proof {
                    assert(sum_free(pre.partial@) == 0);
                    assert(self.spec_free_slots() == total_slots(pre.spec_order()) - 1);
                    lemma_fresh_slab_owns_nothing(sl0);
                    let av = a.0 as int;
                    lemma_slot_addr_frame(sl0, sl0.spec_free().last());
                    assert(!pre.owns_live_slot(av)) by {
                        if seq_owns(pre.partial@, av) {
                            let k = choose|k: int|
                                0 <= k < pre.partial@.len() && (
                                #[trigger] pre.partial@[k]).owns_live_slot(av);
                        } else if seq_owns(pre.full@, av) {
                            let k = choose|k: int|
                                0 <= k < pre.full@.len() && (
                                #[trigger] pre.full@[k]).owns_live_slot(av);
                            lemma_owner_ppn(pre.full@[k], av);
                            assert(pre.full@[k].spec_ppn() == fppn);
                        }
                    }
                    assert(self.owns_live_slot(av)) by {
                        if self.partial@.len() > 0 {
                            assert(self.partial@[0].owns_live_slot(av));
                        } else {
                            assert(self.full@[pre.full@.len() as int].owns_live_slot(av));
                        }
                    }
                    assert forall|x: int| x != av implies self.owns_live_slot(x) == pre.owns_live_slot(
                        x,
                    ) by {
                        assert(!slab.owns_live_slot(x));
                        if self.owns_live_slot(x) {
                            if seq_owns(self.partial@, x) {
                                let k = choose|k: int|
                                    0 <= k < self.partial@.len() && (
                                    #[trigger] self.partial@[k]).owns_live_slot(x);
                            } else {
                                let k = choose|k: int|
                                    0 <= k < self.full@.len() && (
                                    #[trigger] self.full@[k]).owns_live_slot(x);
                                if k < pre.full@.len() {
                                    assert(pre.full@[k].owns_live_slot(x));
                                }
                            }
                        }
                        if pre.owns_live_slot(x) {
                            let k = choose|k: int|
                                0 <= k < pre.full@.len() && (
                                #[trigger] pre.full@[k]).owns_live_slot(x);
                            assert(self.full@[k].owns_live_slot(x));
                        }
                    }
                    assert forall|p: u64|
                        self.has_ppn(p) <==> (pre.has_ppn(p) || p == fppn) by {
                        if self.has_ppn(p) && p != fppn {
                            if exists|i: int|
                                0 <= i < self.partial@.len()
                                    && #[trigger] self.partial@[i].spec_ppn() == p {
                                let i = choose|i: int|
                                    0 <= i < self.partial@.len()
                                        && #[trigger] self.partial@[i].spec_ppn() == p;
                                assert(false);
                            } else if exists|i: int|
                                0 <= i < self.full@.len() && #[trigger] self.full@[i].spec_ppn()
                                    == p {
                                let i = choose|i: int|
                                    0 <= i < self.full@.len() && #[trigger] self.full@[i].spec_ppn()
                                        == p;
                                if i < pre.full@.len() {
                                    assert(pre.full@[i].spec_ppn() == p);
                                }
                            }
                        }
                        if pre.has_ppn(p) {
                            let i = choose|i: int|
                                0 <= i < pre.full@.len() && #[trigger] pre.full@[i].spec_ppn()
                                    == p;
                            assert(self.full@[i].spec_ppn() == p);
                        }
                        if p == fppn {
                            if self.partial@.len() > 0 {
                                assert(self.partial@[0].spec_ppn() == p);
                            } else {
                                assert(self.full@[pre.full@.len() as int].spec_ppn() == p);
                            }
                        }
                    }
                    assert forall|j: int|
                        0 <= j < final(fa)@.len() implies !self.has_ppn(final(fa)@[j]) by {
                        assert(final(fa)@[j] == old(fa)@[j + 1]);
                        assert(!pre.has_ppn(old(fa)@[j + 1]));
                        assert(old(fa)@[j + 1] != old(fa)@[0]);
                    }
                }
                Some(a)
            } else {
                None
            }
        } else {
            // serve from the head (last) linked slab
            let mut slab = match self.partial.pop() {
                Some(s) => s,
                None => {
                    proof {
                        assert(false);
                    }
                    return None;
                },
            };
            let ghost sl0 = slab;
            let a = match slab.alloc_slot() {
                Some(a) => a,
                None => {
                    proof {
                        assert(false);
                    }
                    return None;
                },
            };
            proof {
                lemma_slot_addr_facts(sl0, sl0.spec_free().last());
            }
            let went_full = self.free_count_of(&slab) == 0;
            if went_full {
                self.full.push(slab);
            } else {
                self.partial.push(slab);
                proof {
                    lemma_sum_free_push(pre.partial@.drop_last(), slab);
                }
            }
            proof {
                assert(sum_free(pre.partial@) == pre.partial@.last().spec_free().len() + sum_free(
                    pre.partial@.drop_last(),
                ));
                assert(self.spec_free_slots() == pre.spec_free_slots() - 1);
                assert forall|p: u64| self.has_ppn(p) <==> pre.has_ppn(p) by {
                    Self::lemma_has_ppn_after_serve(*self, pre, slab, p);
                }
                let av = a.0 as int;
                lemma_slot_addr_frame(sl0, sl0.spec_free().last());
                assert(!pre.owns_live_slot(av)) by {
                    if seq_owns(pre.partial@, av) {
                        let k = choose|k: int|
                            0 <= k < pre.partial@.len() && (
                            #[trigger] pre.partial@[k]).owns_live_slot(av);
                        if k < pre.partial@.len() - 1 {
                            lemma_owner_ppn(pre.partial@[k], av);
                        }
                    } else if seq_owns(pre.full@, av) {
                        let k = choose|k: int|
                            0 <= k < pre.full@.len() && (#[trigger] pre.full@[k]).owns_live_slot(
                                av,
                            );
                        lemma_owner_ppn(pre.full@[k], av);
                        assert(pre.full@[k].spec_ppn() == sl0.spec_ppn());
                    }
                }
                assert(self.owns_live_slot(av)) by {
                    if went_full {
                        assert(self.full@[pre.full@.len() as int].owns_live_slot(av));
                    } else {
                        assert(self.partial@[self.partial@.len() - 1].owns_live_slot(av));
                    }
                }
                assert forall|x: int| x != av implies self.owns_live_slot(x) == pre.owns_live_slot(
                    x,
                ) by {
                    lemma_owns_after_serve(*self, pre, slab, x);
                }
                assert forall|j: int|
                    0 <= j < final(fa)@.len() implies !self.has_ppn(final(fa)@[j]) by {
                    assert(!pre.has_ppn(old(fa)@[j]));
                }
            }
            Some(a)
        }
    }

    /// True when `fa` can supply a frame; touches nothing.
    fn free_frame_probe(&self, fa: &FrameAllocator) -> (r: bool)
        ensures
            r == (fa@.len() > 0),
    {
        fa.free_page_count() > 0
    }

    /// Free slots of one slab; reads only.
    fn free_count_of(&self, slab: &Slab) -> (r: usize)
        ensures
            r == slab.spec_free().len(),
    {
        slab.free_count()
    }

    proof fn lemma_has_ppn_after_serve(post: Cache, pre: Cache, slab: Slab, p: u64)
        requires
            pre.partial@.len() > 0,
            slab.spec_ppn() == pre.partial@.last().spec_ppn(),
            (post.partial@ == pre.partial@.drop_last().push(slab) && post.full@ == pre.full@) || (
            post.partial@ == pre.partial@.drop_last() && post.full@ == pre.full@.push(slab)),
        ensures
            post.has_ppn(p) <==> pre.has_ppn(p),
    {
        let moved = post.partial@ == pre.partial@.drop_last() && post.full@ == pre.full@.push(
            slab,
        );
        if post.has_ppn(p) {
            if exists|i: int|
                0 <= i < post.partial@.len() && #[trigger] post.partial@[i].spec_ppn() == p {
                let i = choose|i: int|
                    0 <= i < post.partial@.len() && #[trigger] post.partial@[i].spec_ppn() == p;
                if i < pre.partial@.len() - 1 {
                    assert(pre.partial@[i].spec_ppn() == p);
                } else {
                    assert(pre.partial@[pre.partial@.len() - 1].spec_ppn() == p);
                }
            } else {
                let i = choose|i: int|
                    0 <= i < post.full@.len() && #[trigger] post.full@[i].spec_ppn() == p;
                if i < pre.full@.len() {
                    assert(pre.full@[i].spec_ppn() == p);
                } else {
                    assert(pre.partial@[pre.partial@.len() - 1].spec_ppn() == p);
                }
            }
        }
        if pre.has_ppn(p) {
            if exists|i: int|
                0 <= i < pre.partial@.len() && #[trigger] pre.partial@[i].spec_ppn() == p {
                let i = choose|i: int|
                    0 <= i < pre.partial@.len() && #[trigger] pre.partial@[i].spec_ppn() == p;
                if i < pre.partial@.len() - 1 {
                    assert(post.partial@[i].spec_ppn() == p);
                } else {
                    if moved {
                        assert(post.full@[pre.full@.len() as int].spec_ppn() == p);
                    } else {
                        assert(post.partial@[pre.partial@.len() - 1].spec_ppn() == p);
                    }
                }
            } else {
                let i = choose|i: int|
                    0 <= i < pre.full@.len() && #[trigger] pre.full@[i].spec_ppn() == p;
                assert(post.full@[i].spec_ppn() == p);
            }
        }
    }

    proof fn lemma_room_free_slots(self)
        requires
            self.wf(),
        ensures
            self.has_room() <==> self.spec_free_slots() > 0,
    {
        if self.partial@.len() > 0 {
            lemma_sum_free_nonneg(self.partial@.drop_last());
            assert(self.partial@[self.partial@.len() - 1].spec_free().len() > 0);
        }
    }

    fn find_ppn(v: &Vec<Slab>, ppn: u64) -> (r: Option<usize>)
        ensures
            r matches Some(i) ==> i < v@.len() && v@[i as int].spec_ppn() == ppn,
            r is None ==> forall|i: int| 0 <= i < v@.len() ==> v@[i].spec_ppn() != ppn,
    {
        let mut i: usize = 0;
        while i < v.len()
            invariant
                i <= v@.len(),
                forall|j: int| 0 <= j < i ==> v@[j].spec_ppn() != ppn,
            decreases v@.len() - i,
        {
            if Self::ppn_of(&v[i]) == ppn {
                return Some(i);
            }
            i = i + 1;
        }
        None
    }

    fn ppn_of(slab: &Slab) -> (r: u64)
        ensures
            r == slab.spec_ppn(),
    {
        slab.frame.page_number()
    }

    proof fn lemma_requeue_ppns(post: Seq<Slab>, pre: Seq<Slab>, i: int, slab: Slab)
        requires
            0 <= i < pre.len(),
            slab.spec_ppn() == pre[i].spec_ppn(),
            post == pre.remove(i).push(slab),
        ensures
            forall|p: u64| #[trigger] seq_has_ppn(post, p) <==> seq_has_ppn(pre, p),
            (forall|k1: int, k2: int|
                0 <= k1 < pre.len() && 0 <= k2 < pre.len() && k1 != k2 ==> (
                #[trigger] pre[k1]).spec_ppn() != (#[trigger] pre[k2]).spec_ppn()) ==> (forall|
                k1: int,
                k2: int,
            |
                0 <= k1 < post.len() && 0 <= k2 < post.len() && k1 != k2 ==> (
                #[trigger] post[k1]).spec_ppn() != (#[trigger] post[k2]).spec_ppn()),
    {
        assert(post.len() == pre.len());
        assert forall|k: int| 0 <= k < post.len() implies #[trigger] post[k].spec_ppn() == pre[
            requeue_src(pre.len() as int, i, k)].spec_ppn() && 0 <= requeue_src(
            pre.len() as int,
            i,
            k,
        ) < pre.len() by {
            if k == post.len() - 1 {
                assert(post[k] == slab);
            } else if k < i {
                assert(post[k] == pre[k]);
            } else {
                assert(post[k] == pre[k + 1]);
            }
        }
        assert forall|p: u64| #[trigger] seq_has_ppn(post, p) <==> seq_has_ppn(pre, p) by {
            if seq_has_ppn(pre, p) {
                let k = choose|k: int| 0 <= k < pre.len() && #[trigger] pre[k].spec_ppn() == p;
                if k == i {
                    assert(post[post.len() - 1].spec_ppn() == p);
                } else if k < i {
                    assert(post[k].spec_ppn() == p);
                } else {
                    assert(post[k - 1].spec_ppn() == p);
                }
            }
            if seq_has_ppn(post, p) {
                let k = choose|k: int| 0 <= k < post.len() && #[trigger] post[k].spec_ppn() == p;
                assert(pre[requeue_src(pre.len() as int, i, k)].spec_ppn() == p);
            }
        }
        if forall|a: int, b: int|
            0 <= a < pre.len() && 0 <= b < pre.len() && a != b ==> (#[trigger] pre[a]).spec_ppn()
                != (#[trigger] pre[b]).spec_ppn() {
            assert forall|k1: int, k2: int|
                0 <= k1 < post.len() && 0 <= k2 < post.len() && k1 != k2 implies (
            #[trigger] post[k1]).spec_ppn() != (#[trigger] post[k2]).spec_ppn() by {
                let a = requeue_src(pre.len() as int, i, k1);
                let b = requeue_src(pre.len() as int, i, k2);
                assert(a != b);
                assert(pre[a].spec_ppn() != pre[b].spec_ppn());
            }
        }
    }

    /// Take back a currently-allocated slot; its owning slab is found
    /// by the address's frame, and is re-linked at the allocation
    /// list's head if it had been unlinked as full. Freeing an address
    /// this cache did not hand out, or freeing one twice, is excluded
    /// by contract.
    pub fn deallocate(&mut self, addr: VirtualAddress)
        requires
            old(self).wf(),
            old(self).owns_live_slot(addr.0 as int),
        ensures
            final(self).wf(),
            final(self).spec_order() == old(self).spec_order(),
            final(self).spec_slab_count() == old(self).spec_slab_count(),
            final(self).spec_free_slots() == old(self).spec_free_slots() + 1,
            forall|p: u64| final(self).has_ppn(p) <==> old(self).has_ppn(p),
            !final(self).owns_live_slot(addr.0 as int),
            forall|x: int|
                x != addr.0 as int ==> final(self).owns_live_slot(x) == old(self).owns_live_slot(
                    x,
                ),
    {
        let ghost pre = *self;
        proof {
            if exists|i: int|
                0 <= i < self.partial@.len() && #[trigger] self.partial@[i].owns_live_slot(
                    addr.0 as int,
                ) {
                let i = choose|i: int|
                    0 <= i < self.partial@.len() && #[trigger] self.partial@[i].owns_live_slot(
                        addr.0 as int,
                    );
                lemma_owner_ppn(self.partial@[i], addr.0 as int);
            } else {
                let i = choose|i: int|
                    0 <= i < self.full@.len() && #[trigger] self.full@[i].owns_live_slot(
                        addr.0 as int,
                    );
                lemma_owner_ppn(self.full@[i], addr.0 as int);
            }
        }
        let ppn = (addr.as_int() - VIRTUAL_OFFSET) / PAGE_SIZE;
        proof {
            Self::lemma_unique_owner(pre, addr.0 as int, ppn);
        }
        match Self::find_ppn(&self.partial, ppn) {
            Some(i) => {
                let mut slab = self.partial.remove(i);
                let ghost slab0 = slab;
                let idx = slab.index_of(addr);
                slab.free_slot(idx);
                self.partial.push(slab);
                proof {
                    lemma_sum_free_remove(pre.partial@, i as int);
                    lemma_sum_free_push(pre.partial@.remove(i as int), slab);
                    Self::lemma_requeue_ppns(self.partial@, pre.partial@, i as int, slab);
                    let av = addr.0 as int;
                    lemma_slot_addr_frame(slab0, idx);
                    assert(!slab.owns_live_slot(av));
                    assert(!self.owns_live_slot(av)) by {
                        if seq_owns(self.partial@, av) {
                            let k = choose|k: int|
                                0 <= k < self.partial@.len() && (
                                #[trigger] self.partial@[k]).owns_live_slot(av);
                            if k < self.partial@.len() - 1 {
                                let k0 = requeue_src(pre.partial@.len() as int, i as int, k);
                                assert(self.partial@[k] == pre.partial@[k0]);
                                lemma_owner_ppn(pre.partial@[k0], av);
                                assert(pre.partial@[k0].spec_ppn() == slab0.spec_ppn());
                            }
                        } else if seq_owns(self.full@, av) {
                            let k = choose|k: int|
                                0 <= k < self.full@.len() && (
                                #[trigger] self.full@[k]).owns_live_slot(av);
                            lemma_owner_ppn(pre.full@[k], av);
                            assert(pre.full@[k].spec_ppn() == slab0.spec_ppn());
                        }
                    }
                    assert forall|x: int| x != av implies self.owns_live_slot(x)
                        == pre.owns_live_slot(x) by {
                        assert(slab.owns_live_slot(x) == slab0.owns_live_slot(x));
                        lemma_owns_after_requeue(self.partial@, pre.partial@, i as int, slab, x);
                    }
                }
            },
            None => {
                match Self::find_ppn(&self.full, ppn) {
                    Some(i) => {
                        let mut slab = self.full.remove(i);
                        let ghost slab0 = slab;
                        let idx = slab.index_of(addr);
                        slab.free_slot(idx);
                        self.partial.push(slab);
                        proof {
                            lemma_sum_free_push(pre.partial@, slab);
                            let av = addr.0 as int;
                            lemma_slot_addr_frame(slab0, idx);
                            assert(!slab.owns_live_slot(av));
                            assert(!self.owns_live_slot(av)) by {
                                if seq_owns(self.partial@, av) {
                                    let k = choose|k: int|
                                        0 <= k < self.partial@.len() && (
                                        #[trigger] self.partial@[k]).owns_live_slot(av);
                                    if k < self.partial@.len() - 1 {
                                        assert(self.partial@[k] == pre.partial@[k]);
                                        lemma_owner_ppn(pre.partial@[k], av);
                                        assert(pre.partial@[k].spec_ppn() == slab0.spec_ppn());
                                    }
                                } else if seq_owns(self.full@, av) {
                                    let k = choose|k: int|
                                        0 <= k < self.full@.len() && (
                                        #[trigger] self.full@[k]).owns_live_slot(av);
                                    let k0: int = if k < i {
                                        k
                                    } else {
                                        k + 1
                                    };
                                    assert(self.full@[k] == pre.full@[k0]);
                                    lemma_owner_ppn(pre.full@[k0], av);
                                    assert(pre.full@[k0].spec_ppn() == slab0.spec_ppn());
                                }
                            }
                            assert forall|x: int| x != av implies self.owns_live_slot(x)
                                == pre.owns_live_slot(x) by {
                                assert(slab.owns_live_slot(x) == slab0.owns_live_slot(x));
                                lemma_owns_after_refill(*self, pre, i as int, slab, x);
                            }
                            assert forall|p: u64|
                                final(self).has_ppn(p) <==> pre.has_ppn(p) by {
                                if p == slab.spec_ppn() {
                                    assert(pre.full@[i as int].spec_ppn() == p);
                                    assert(self.partial@[self.partial@.len() - 1].spec_ppn() == p);
                                } else {
                                    if pre.has_ppn(p) {
                                        if exists|k: int|
                                            0 <= k < pre.partial@.len()
                                                && #[trigger] pre.partial@[k].spec_ppn() == p {
                                            let k = choose|k: int|
                                                0 <= k < pre.partial@.len()
                                                    && #[trigger] pre.partial@[k].spec_ppn() == p;
                                            assert(self.partial@[k].spec_ppn() == p);
                                        } else {
                                            let k = choose|k: int|
                                                0 <= k < pre.full@.len()
                                                    && #[trigger] pre.full@[k].spec_ppn() == p;
                                            if k < i {
                                                assert(self.full@[k].spec_ppn() == p);
                                            } else {
                                                assert(self.full@[k - 1].spec_ppn() == p);
                                            }
                                        }
                                    }
                                    if final(self).has_ppn(p) {
                                        if exists|k: int|
                                            0 <= k < self.partial@.len()
                                                && #[trigger] self.partial@[k].spec_ppn() == p {
                                            let k = choose|k: int|
                                                0 <= k < self.partial@.len()
                                                    && #[trigger] self.partial@[k].spec_ppn() == p;
                                            assert(pre.partial@[k].spec_ppn() == p);
                                        } else {
                                            let k = choose|k: int|
                                                0 <= k < self.full@.len()
                                                    && #[trigger] self.full@[k].spec_ppn() == p;
                                            if k < i {
                                                assert(pre.full@[k].spec_ppn() == p);
                                            } else {
                                                assert(pre.full@[k + 1].spec_ppn() == p);
                                            }
                                        }
                                    }
                                }
                            }
                        }
                    },
                    None => {
                        proof {
                            assert(false);
                        }
                    },
                }
            },
        }
    }

    /// The owner of a live slot is every slab of this cache whose frame
    /// the address falls in, and at least one such slab exists.
    proof fn lemma_unique_owner(pre: Cache, addr: int, ppn: u64)
        requires
            pre.wf(),
            pre.owns_live_slot(addr),
            addr >= VIRTUAL_OFFSET,
            ppn == (addr - VIRTUAL_OFFSET) / PAGE_SIZE as int,
        ensures
            forall|k: int|
                0 <= k < pre.partial@.len() && (#[trigger] pre.partial@[k]).spec_ppn() == ppn
                    ==> pre.partial@[k].owns_live_slot(addr),
            forall|k: int|
                0 <= k < pre.full@.len() && (#[trigger] pre.full@[k]).spec_ppn() == ppn
                    ==> pre.full@[k].owns_live_slot(addr),
            (exists|k: int|
                0 <= k < pre.partial@.len() && (#[trigger] pre.partial@[k]).spec_ppn() == ppn)
                || (exists|k: int|
                0 <= k < pre.full@.len() && (#[trigger] pre.full@[k]).spec_ppn() == ppn),
    {
        if exists|i: int|
            0 <= i < pre.partial@.len() && #[trigger] pre.partial@[i].owns_live_slot(addr) {
            let i = choose|i: int|
                0 <= i < pre.partial@.len() && #[trigger] pre.partial@[i].owns_live_slot(addr);
            lemma_owner_ppn(pre.partial@[i], addr);
            assert(pre.partial@[i].spec_ppn() == ppn);
            assert forall|k: int|
                0 <= k < pre.partial@.len() && (#[trigger] pre.partial@[k]).spec_ppn()
                    == ppn implies pre.partial@[k].owns_live_slot(addr) by {
                if k != i {
                    assert(pre.partial@[k].spec_ppn() != pre.partial@[i].spec_ppn());
                }
            }
            assert forall|k: int|
                0 <= k < pre.full@.len() && (#[trigger] pre.full@[k]).spec_ppn()
                    == ppn implies pre.full@[k].owns_live_slot(addr) by {
                assert(pre.full@[k].spec_ppn() != pre.partial@[i].spec_ppn());
            }
        } else {
            let i = choose|i: int|
                0 <= i < pre.full@.len() && #[trigger] pre.full@[i].owns_live_slot(addr);
            lemma_owner_ppn(pre.full@[i], addr);
            assert(pre.full@[i].spec_ppn() == ppn);
            assert forall|k: int|
                0 <= k < pre.full@.len() && (#[trigger] pre.full@[k]).spec_ppn()
                    == ppn implies pre.full@[k].owns_live_slot(addr) by {
                if k != i {
                    assert(pre.full@[k].spec_ppn() != pre.full@[i].spec_ppn());
                }
            }
            assert forall|k: int|
                0 <= k < pre.partial@.len() && (#[trigger] pre.partial@[k]).spec_ppn()
                    == ppn implies pre.partial@[k].owns_live_slot(addr) by {
                assert(pre.partial@[k].spec_ppn() != pre.full@[i].spec_ppn());
            }
        }
    }
}




proof fn lemma_sum_free_nonneg(s: Seq<Slab>)
    ensures
        sum_free(s) >= 0,
    decreases s.len(),
{
    if s.len() > 0 {
        lemma_sum_free_nonneg(s.drop_last());
    }
}

/// Slab capacity law: a cache can serve from a linked slab exactly
/// while it has a free slot left. With `allocate`'s contract this
/// gives the capacity behaviour of one slab: a fresh slab starts with
/// `floor((PAGE_SIZE - SLAB_HEADER_SIZE) / 2^order)` slots, each
/// further allocation of the class lowers the free count by one, and
/// the allocation after the count reaches zero must create a new slab.
pub proof fn lemma_cache_room_free_slots(c: Cache)
    requires
        c.wf(),
    ensures
        c.has_room() <==> c.spec_free_slots() > 0,
{
    c.lemma_room_free_slots();
}

/// Size class serving a request: the smallest class whose slot holds
/// `size` bytes at alignment `align`; `None` when the request needs a
/// whole frame or more.
pub open spec fn order_for(size: u64, align: u64) -> Option<u64> {
    let need: u64 = if size >= align {
        size
    } else {
        align
    };
    if need <= 8 {
        Some(3)
    } else if need <= 16 {
        Some(4)
    } else if need <= 32 {
        Some(5)
    } else if need <= 64 {
        Some(6)
    } else if need <= 128 {
        Some(7)
    } else if need <= 256 {
        Some(8)
    } else if need <= 512 {
        Some(9)
    } else if need <= 1024 {
        Some(10)
    } else if need <= 2048 {
        Some(11)
    } else {
        None
    }
}

/// Powers of two divide each other upward.
proof fn lemma_pow2_divides(j: u64, m: u64)
    requires
        j <= m < 64,
    ensures
        ((1u64 << m) as int) % ((1u64 << j) as int) == 0,
{
    vstd::bits::lemma_u64_pow2_no_overflow(m as nat);
    vstd::bits::lemma_u64_pow2_no_overflow(j as nat);
    vstd::arithmetic::power2::lemma_pow2_pos(j as nat);
    vstd::arithmetic::power2::lemma_pow2_pos((m - j) as nat);
    vstd::bits::lemma_u64_shl_is_mul(1u64, j);
    vstd::bits::lemma_u64_shl_is_mul(1u64, m);
    vstd::arithmetic::power2::lemma_pow2_adds((m - j) as nat, j as nat);
    vstd::arithmetic::div_mod::lemma_mod_multiples_basic(
        vstd::arithmetic::power2::pow2((m - j) as nat) as int,
        vstd::arithmetic::power2::pow2(j as nat) as int,
    );
}

/// A slot-size-aligned address is aligned for every power-of-two
/// request its class accepts.
proof fn lemma_align_from_slot(a: int, ssz: u64, align: u64)
    requires
        a >= 0,
        a % ssz as int == 0,
        crate::address::is_power_of_two(align),
        align <= ssz,
        ssz == 8 || ssz == 16 || ssz == 32 || ssz == 64 || ssz == 128 || ssz == 256 || ssz == 512
            || ssz == 1024 || ssz == 2048 || ssz == 4096,
    ensures
        a % align as int == 0,
{
    let j = choose|j: u64| j < 64 && align == (1u64 << j);
    let m: u64 = if ssz == 8 {
        3
    } else if ssz == 16 {
        4
    } else if ssz == 32 {
        5
    } else if ssz == 64 {
        6
    } else if ssz == 128 {
        7
    } else if ssz == 256 {
        8
    } else if ssz == 512 {
        9
    } else if ssz == 1024 {
        10
    } else if ssz == 2048 {
        11
    } else {
        12
    };
    assert(ssz == (1u64 << m)) by (bit_vector)
        requires
            m == 3 && ssz == 8 || m == 4 && ssz == 16 || m == 5 && ssz == 32 || m == 6 && ssz == 64
                || m == 7 && ssz == 128 || m == 8 && ssz == 256 || m == 9 && ssz == 512 || m == 10
                && ssz == 1024 || m == 11 && ssz == 2048 || m == 12 && ssz == 4096,
    ;
    assert(j <= m) by (bit_vector)
        requires
            (1u64 << j) <= (1u64 << m),
            j < 64,
            m < 64,
    ;
    lemma_pow2_divides(j, m);
    crate::address::lemma_power_of_two_nonzero(align);
    lemma_divides_transitive(a, ssz as int, align as int);
}

/// The kernel's general-purpose allocator: one cache per size class,
/// and a degenerate whole-frame path for requests larger than the
/// largest class (at most one frame; larger requests fail).
pub struct KernelHeap {
    caches: Vec<Cache>,
    large: Vec<PageFrame>,
}

impl KernelHeap {
    /// Number of size classes.
    pub closed spec fn cache_count(self) -> int {
        self.caches@.len() as int
    }

    /// Free slots currently linked in the cache of one class.
    pub closed spec fn spec_free_slots(self, order: u64) -> int {
        self.caches@[order - MIN_ORDER].spec_free_slots()
    }

    /// Slabs owned by the cache of one class.
    pub closed spec fn spec_slab_count(self, order: u64) -> int {
        self.caches@[order - MIN_ORDER].spec_slab_count()
    }

    /// Whether the cache of one class can serve without a new frame.
    pub closed spec fn has_room(self, order: u64) -> bool {
        self.caches@[order - MIN_ORDER].has_room()
    }

    /// Live whole-frame allocations.
    pub closed spec fn spec_large_count(self) -> int {
        self.large@.len() as int
    }

    /// Whether `addr` is a live slot of the class that serves
    /// `(size, align)` requests.
    pub closed spec fn owns_small(self, addr: int, order: u64) -> bool {
        self.caches@[order - MIN_ORDER].owns_live_slot(addr)
    }

    /// Whether `addr` is the base of a live whole-frame allocation.
    pub closed spec fn owns_large(self, addr: int) -> bool {
        exists|i: int| 0 <= i < self.large@.len() && addr == slab_base((#[trigger] self.large@[i]).ppn)
    }

    /// Whether the heap holds the frame with this page number, inside
    /// some slab or as a whole-frame allocation.
    pub closed spec fn owns_frame_ppn(self, p: u64) -> bool {
        (exists|c: int| 0 <= c < self.caches@.len() && (#[trigger] self.caches@[c]).has_ppn(p))
            || (exists|i: int| 0 <= i < self.large@.len() && (#[trigger] self.large@[i]).ppn == p)
    }

    /// No frame of the allocator's free list is also held by the heap:
    /// the ownership discipline between the two allocators.
    pub open spec fn fa_disjoint(self, fa_view: Seq<u64>) -> bool {
        forall|j: int| 0 <= j < fa_view.len() ==> !self.owns_frame_ppn(#[trigger] fa_view[j])
    }

    pub closed spec fn wf(self) -> bool {
        &&& self.caches@.len() == MAX_ORDER - MIN_ORDER + 1
        &&& forall|c: int|
            0 <= c < self.caches@.len() ==> (#[trigger] self.caches@[c]).wf()
                && self.caches@[c].spec_order() == MIN_ORDER + c
        &&& forall|i: int| 0 <= i < self.large@.len() ==> (#[trigger] self.large@[i]).wf()
        &&& forall|i: int, j: int|
            0 <= i < self.large@.len() && 0 <= j < self.large@.len() && i != j
                ==> (#[trigger] self.large@[i]).ppn != (#[trigger] self.large@[j]).ppn
        &&& forall|i: int, c: int|
            0 <= i < self.large@.len() && 0 <= c < self.caches@.len()
                ==> !(#[trigger] self.caches@[c]).has_ppn((#[trigger] self.large@[i]).ppn)
    }

    /// An empty heap: one empty cache per size class.
    pub fn new() -> (r: Self)
        ensures
            r.wf(),
            forall|k: u64| MIN_ORDER <= k <= MAX_ORDER ==> r.spec_free_slots(k) == 0,
            forall|k: u64| MIN_ORDER <= k <= MAX_ORDER ==> r.spec_slab_count(k) == 0,
            r.spec_large_count() == 0,
            forall|fa_view: Seq<u64>| r.fa_disjoint(fa_view),
    {
        let mut caches: Vec<Cache> = Vec::new();
        let mut k: u64 = MIN_ORDER;
        while k <= MAX_ORDER
            invariant
                MIN_ORDER <= k <= MAX_ORDER + 1,
                caches@.len() == k - MIN_ORDER,
                forall|c: int|
                    0 <= c < caches@.len() ==> (#[trigger] caches@[c]).wf()
                        && caches@[c].spec_order() == MIN_ORDER + c && caches@[c].spec_slab_count()
                        == 0 && caches@[c].spec_free_slots() == 0 && (forall|p: u64|
                        !caches@[c].has_ppn(p)),
            decreases MAX_ORDER + 1 - k,
        {
            caches.push(Cache::new(k));
            k = k + 1;
        }
        let r = KernelHeap { caches, large: Vec::new() };
        r
    }

    /// Slabs owned by the cache serving one size class.
    pub fn slab_count(&self, order: u64) -> (r: usize)
        requires
            self.wf(),
            MIN_ORDER <= order <= MAX_ORDER,
            self.spec_slab_count(order) <= usize::MAX,
        ensures
            r == self.spec_slab_count(order),
    {
        self.caches[(order - MIN_ORDER) as usize].slab_count()
    }

    /// Free slots linked in the cache serving one size class.
    pub fn free_slot_count(&self, order: u64) -> (r: usize)
        requires
            self.wf(),
            MIN_ORDER <= order <= MAX_ORDER,
            self.spec_slab_count(order) <= 0x10_0000,
        ensures
            r == self.spec_free_slots(order),
    {
        self.caches[(order - MIN_ORDER) as usize].free_slot_count()
    }

    /// Serve an allocation request: `size` bytes at power-of-two
    /// alignment `align`. Requests up to the largest size class come
    /// from its cache, growing it by one frame if no linked slab has
    /// room; larger requests up to one frame take a whole frame; yet
    /// larger ones fail. `None` is otherwise returned exactly when the
    /// frame allocator is exhausted and no linked slab has room: out
    /// of memory, a recoverable condition for the caller.
    pub fn allocate(&mut self, fa: &mut FrameAllocator, size: u64, align: u64) -> (r: Option<
        VirtualAddress,
    >)
        requires
            old(self).wf(),
            old(fa).wf(),
            1 <= size,
            crate::address::is_power_of_two(align),
            old(self).fa_disjoint(old(fa)@),
        ensures
            final(self).wf(),
            final(fa).wf(),
            final(self).fa_disjoint(final(fa)@),
            r matches Some(a) ==> a.0 as int % align as int == 0 && a.0 >= VIRTUAL_OFFSET,
            order_for(size, align) matches Some(k) ==> {
                &&& (r is Some <==> (old(self).has_room(k) || old(fa)@.len() > 0))
                &&& final(self).spec_large_count() == old(self).spec_large_count()
                &&& (old(self).has_room(k) ==> final(fa)@ == old(fa)@ && final(self).spec_slab_count(k) == old(self).spec_slab_count(k) && final(self).spec_free_slots(k) == old(self).spec_free_slots(k) - 1)
                &&& (!old(self).has_room(k) && old(fa)@.len() > 0 ==> final(fa)@ == old(fa)@.drop_first() && final(self).spec_slab_count(k) == old(self).spec_slab_count(k)
                    + 1 && final(self).spec_free_slots(k) == total_slots(k) - 1)
                &&& slot_size(k) >= size
                &&& (r matches Some(a) ==> final(self).owns_small(a.0 as int, k) && !old(
                    self,
                ).owns_small(a.0 as int, k))
                &&& (forall|x: int|
                    (r matches Some(a) && x != a.0 as int) ==> final(self).owns_small(x, k)
                        == old(self).owns_small(x, k))
                &&& (forall|x: int, k2: u64|
                    MIN_ORDER <= k2 <= MAX_ORDER && k2 != k ==> final(self).owns_small(x, k2)
                        == old(self).owns_small(x, k2))
                &&& (forall|x: int| final(self).owns_large(x) == old(self).owns_large(x))
            },
            order_for(size, align) is None ==> {
                &&& (r is Some <==> (size <= PAGE_SIZE && align <= PAGE_SIZE && old(fa)@.len()
                    > 0))
                &&& (r matches Some(a) ==> final(fa)@ == old(fa)@.drop_first() && final(self).spec_large_count() == old(self).spec_large_count() + 1 && a.0 == slab_base(
                    old(fa)@[0],
                ))
                &&& (r is Some ==> PAGE_SIZE >= size)
                &&& (r matches Some(a) ==> final(self).owns_large(a.0 as int) && !old(
                    self,
                ).owns_large(a.0 as int))
                &&& (forall|x: int|
                    (r matches Some(a) && x != a.0 as int) ==> final(self).owns_large(x) == old(
                        self,
                    ).owns_large(x))
                &&& (forall|x: int, k2: u64|
                    MIN_ORDER <= k2 <= MAX_ORDER ==> final(self).owns_small(x, k2) == old(
                        self,
                    ).owns_small(x, k2))
            },
            r is None ==> final(fa)@ == old(fa)@ && final(self).spec_large_count() == old(self).spec_large_count() && (forall|k2: u64|
                MIN_ORDER <= k2 <= MAX_ORDER ==> final(self).spec_slab_count(k2) == old(self).spec_slab_count(k2) && final(self).spec_free_slots(k2) == old(self).spec_free_slots(k2)),
    {
        let order = size_to_order(size, align);
        match order {
            Some(k) => {
                let idx = (k - MIN_ORDER) as usize;
                let ghost pre = *self;
                let mut c = self.caches.remove(idx);
                proof {
                    assert forall|j: int|
                        0 <= j < old(fa)@.len() implies !c.has_ppn(old(fa)@[j]) by {
                        assert(!pre.owns_frame_ppn(old(fa)@[j]));
                    }
                }
                let r = c.allocate(fa);
                let ghost cpost = c;
                self.caches.insert(idx, c);
                proof {
                    assert(self.caches@ =~= pre.caches@.update(idx as int, cpost));
                    if r is None {
                        assert(self.caches@ =~= pre.caches@);
                    }
                    lemma_slab_layout(k);
                    if r is Some {
                        let a = r->Some_0;
                        lemma_align_from_slot(a.0 as int, slot_size(k), align);
                    }
                    assert forall|x: int, k2: u64|
                        MIN_ORDER <= k2 <= MAX_ORDER && k2 != k implies self.owns_small(x, k2)
                            == pre.owns_small(x, k2) by {
                        assert(self.caches@[k2 - MIN_ORDER] == pre.caches@[k2 - MIN_ORDER]);
                    }
                    assert(self.caches@[k - MIN_ORDER] == cpost);
                    assert(pre.caches@[k - MIN_ORDER] == pre.caches@[idx as int]);
                    assert forall|j: int|
                        0 <= j < final(fa)@.len() implies !self.owns_frame_ppn(
                        #[trigger] final(fa)@[j],
                    ) by {
                        let p = final(fa)@[j];
                        assert(!cpost.has_ppn(p));
                        if pre.has_room(k) {
                            assert(!pre.owns_frame_ppn(p));
                        } else {
                            assert(old(fa)@.contains(p)) by {
                                if final(fa)@ == old(fa)@ {
                                    assert(old(fa)@[j] == p);
                                } else {
                                    assert(old(fa)@[j + 1] == p);
                                }
                            }
                            let j0 = choose|j0: int| 0 <= j0 < old(fa)@.len() && old(fa)@[j0] == p;
                            assert(!pre.owns_frame_ppn(p));
                        }
                        assert forall|ci: int|
                            0 <= ci < self.caches@.len() implies !(
                        #[trigger] self.caches@[ci]).has_ppn(p) by {
                            if ci != idx {
                                assert(self.caches@[ci] == pre.caches@[ci]);
                            }
                        }
                    }
                    assert forall|i: int, ci: int|
                        0 <= i < self.large@.len() && 0 <= ci < self.caches@.len() implies !(
                    #[trigger] self.caches@[ci]).has_ppn((#[trigger] self.large@[i]).ppn) by {
                        let p = self.large@[i].ppn;
                        assert(!pre.caches@[idx as int].has_ppn(p));
                        if ci != idx {
                            assert(self.caches@[ci] == pre.caches@[ci]);
                        } else {
                            if cpost.has_ppn(p) {
                                assert(pre.has_room(k) || old(fa)@.len() > 0);
                                if !pre.has_room(k) && old(fa)@.len() > 0 {
                                    assert(p == old(fa)@[0]);
                                    assert(!pre.owns_frame_ppn(old(fa)@[0]));
                                }
                            }
                        }
                    }
                }
                r
            },
            None => {
                if size <= PAGE_SIZE && align <= PAGE_SIZE {
                    match fa.alloc_page() {
                        None => None,
                        Some(frame) => {
                            let ghost pre = *self;
                            let a = frame.base_addr().to_virt();
                            self.large.push(frame);
                            proof {
                                assert(a.0 as int % PAGE_SIZE as int == 0) by {
                                    vstd::arithmetic::div_mod::lemma_mod_multiples_basic(
                                        frame.ppn as int,
                                        PAGE_SIZE as int,
                                    );
                                    assert(frame.ppn * PAGE_SIZE == (frame.ppn as int)
                                        * (PAGE_SIZE as int));
                                    assert(VIRTUAL_OFFSET as int % PAGE_SIZE as int == 0);
                                    vstd::arithmetic::div_mod::lemma_add_mod_noop(
                                        frame.ppn as int * PAGE_SIZE as int,
                                        VIRTUAL_OFFSET as int,
                                        PAGE_SIZE as int,
                                    );
                                    vstd::arithmetic::div_mod::lemma_small_mod(
                                        0nat,
                                        PAGE_SIZE as nat,
                                    );
                                }
                                lemma_align_from_slot(a.0 as int, PAGE_SIZE, align);
                                let av = a.0 as int;
                                assert(self.owns_large(av)) by {
                                    assert(self.large@[pre.large@.len() as int].ppn == frame.ppn);
                                }
                                assert(!pre.owns_large(av)) by {
                                    if pre.owns_large(av) {
                                        let i0 = choose|i0: int|
                                            0 <= i0 < pre.large@.len() && av == slab_base(
                                                (#[trigger] pre.large@[i0]).ppn,
                                            );
                                        assert(pre.large@[i0].ppn == frame.ppn)
                                            by (nonlinear_arith)
                                            requires
                                                pre.large@[i0].ppn * PAGE_SIZE + VIRTUAL_OFFSET
                                                    == frame.ppn * PAGE_SIZE + VIRTUAL_OFFSET,
                                                PAGE_SIZE > 0,
                                        ;
                                        assert(!pre.owns_frame_ppn(old(fa)@[0]));
                                    }
                                }
                                assert forall|x: int| x != av implies self.owns_large(x)
                                    == pre.owns_large(x) by {
                                    if self.owns_large(x) {
                                        let i0 = choose|i0: int|
                                            0 <= i0 < self.large@.len() && x == slab_base(
                                                (#[trigger] self.large@[i0]).ppn,
                                            );
                                        if i0 < pre.large@.len() {
                                            assert(x == slab_base(pre.large@[i0].ppn));
                                        }
                                    }
                                    if pre.owns_large(x) {
                                        let i0 = choose|i0: int|
                                            0 <= i0 < pre.large@.len() && x == slab_base(
                                                (#[trigger] pre.large@[i0]).ppn,
                                            );
                                        assert(x == slab_base(self.large@[i0].ppn));
                                    }
                                }
                                assert forall|j: int|
                                    0 <= j < final(fa)@.len() implies !self.owns_frame_ppn(
                                    #[trigger] final(fa)@[j],
                                ) by {
                                    let p = final(fa)@[j];
                                    assert(old(fa)@[j + 1] == p);
                                    assert(!pre.owns_frame_ppn(p));
                                    assert(p != old(fa)@[0]);
                                    assert forall|i: int|
                                        0 <= i < self.large@.len() implies (
                                    #[trigger] self.large@[i]).ppn != p by {
                                        if i < pre.large@.len() {
                                            assert(pre.large@[i].ppn != p);
                                        }
                                    }
                                }
                                assert forall|i: int, j2: int|
                                    0 <= i < self.large@.len() && 0 <= j2 < self.large@.len() && i
                                        != j2 implies (#[trigger] self.large@[i]).ppn != (
                                #[trigger] self.large@[j2]).ppn by {
                                    assert(!pre.owns_frame_ppn(old(fa)@[0]));
                                    if i < pre.large@.len() && j2 < pre.large@.len() {
                                    } else if i == pre.large@.len() as int {
                                        assert(pre.large@[j2].ppn != old(fa)@[0]);
                                    } else {
                                        assert(pre.large@[i].ppn != old(fa)@[0]);
                                    }
                                }
                                assert forall|i: int, ci: int|
                                    0 <= i < self.large@.len() && 0 <= ci < self.caches@.len()
                                        implies !(#[trigger] self.caches@[ci]).has_ppn(
                                    (#[trigger] self.large@[i]).ppn,
                                ) by {
                                    if i == pre.large@.len() as int {
                                        assert(!pre.owns_frame_ppn(old(fa)@[0]));
                                    }
                                }
                            }
                            Some(a)
                        },
                    }
                } else {
                    None
                }
            },
        }
    }

    /// Return an allocation obtained from `allocate` with the same size
    /// and alignment. Returning an address this heap did not hand out,
    /// or returning one twice, is excluded by contract. A slab's slot
    /// goes back to its slab; a whole-frame allocation's frame goes
    /// back to the frame allocator.
    pub fn deallocate(
        &mut self,
        fa: &mut FrameAllocator,
        addr: VirtualAddress,
        size: u64,
        align: u64,
    )
        requires
            old(self).wf(),
            old(fa).wf(),
            1 <= size,
            crate::address::is_power_of_two(align),
            old(self).fa_disjoint(old(fa)@),
            match order_for(size, align) {
                Some(k) => old(self).owns_small(addr.0 as int, k),
                None => size <= PAGE_SIZE && align <= PAGE_SIZE && old(self).owns_large(
                    addr.0 as int,
                ),
            },
        ensures
            final(self).wf(),
            final(fa).wf(),
            final(self).fa_disjoint(final(fa)@),
            order_for(size, align) matches Some(k) ==> final(fa)@ == old(fa)@ && final(self).spec_free_slots(k) == old(self).spec_free_slots(k) + 1 && final(self).spec_slab_count(k) == old(self).spec_slab_count(k) && final(self).spec_large_count()
                == old(self).spec_large_count(),
            order_for(size, align) matches Some(k) ==> {
                &&& !final(self).owns_small(addr.0 as int, k)
                &&& (forall|x: int|
                    x != addr.0 as int ==> final(self).owns_small(x, k) == old(self).owns_small(
                        x,
                        k,
                    ))
                &&& (forall|x: int, k2: u64|
                    MIN_ORDER <= k2 <= MAX_ORDER && k2 != k ==> final(self).owns_small(x, k2)
                        == old(self).owns_small(x, k2))
                &&& (forall|x: int| final(self).owns_large(x) == old(self).owns_large(x))
            },
            order_for(size, align) is None ==> final(self).spec_large_count() == old(self).spec_large_count() - 1 && final(fa)@ == seq![
                (((addr.0 - VIRTUAL_OFFSET) as u64) / PAGE_SIZE) as u64,
            ] + old(fa)@,
            order_for(size, align) is None ==> {
                &&& !final(self).owns_large(addr.0 as int)
                &&& (forall|x: int|
                    x != addr.0 as int ==> final(self).owns_large(x) == old(self).owns_large(x))
                &&& (forall|x: int, k2: u64|
                    MIN_ORDER <= k2 <= MAX_ORDER ==> final(self).owns_small(x, k2) == old(
                        self,
                    ).owns_small(x, k2))
            },
    {
        let order = size_to_order(size, align);
        match order {
            Some(k) => {
                let idx = (k - MIN_ORDER) as usize;
                let ghost pre = *self;
                let mut c = self.caches.remove(idx);
                c.deallocate(addr);
                let ghost cpost = c;
                self.caches.insert(idx, c);
                proof {
                    assert(self.caches@ =~= pre.caches@.update(idx as int, cpost));
                    assert forall|x: int, k2: u64|
                        MIN_ORDER <= k2 <= MAX_ORDER && k2 != k implies self.owns_small(x, k2)
                            == pre.owns_small(x, k2) by {
                        assert(self.caches@[k2 - MIN_ORDER] == pre.caches@[k2 - MIN_ORDER]);
                    }
                    assert(self.caches@[k - MIN_ORDER] == cpost);
                    assert(pre.caches@[k - MIN_ORDER] == pre.caches@[idx as int]);
                    assert forall|j: int|
                        0 <= j < final(fa)@.len() implies !self.owns_frame_ppn(
                        #[trigger] final(fa)@[j],
                    ) by {
                        let p = final(fa)@[j];
                        assert(!pre.owns_frame_ppn(p));
                        assert(!pre.caches@[idx as int].has_ppn(p));
                        assert forall|ci: int|
                            0 <= ci < self.caches@.len() implies !(
                        #[trigger] self.caches@[ci]).has_ppn(p) by {
                            if ci != idx {
                                assert(self.caches@[ci] == pre.caches@[ci]);
                            }
                        }
                    }
                    assert forall|i: int, ci: int|
                        0 <= i < self.large@.len() && 0 <= ci < self.caches@.len() implies !(
                    #[trigger] self.caches@[ci]).has_ppn((#[trigger] self.large@[i]).ppn) by {
                        if ci != idx {
                            assert(self.caches@[ci] == pre.caches@[ci]);
                        } else {
                            assert(!pre.caches@[idx as int].has_ppn(self.large@[i].ppn));
                        }
                    }
                }
            },
            None => {
                proof {
                    let i0 = choose|i0: int|
                        0 <= i0 < self.large@.len() && addr.0 as int == slab_base(
                            (#[trigger] self.large@[i0]).ppn,
                        );
                    assert(self.large@[i0].ppn * PAGE_SIZE >= 0) by (nonlinear_arith)
                        requires
                            self.large@[i0].ppn >= 0,
                    ;
                    vstd::arithmetic::div_mod::lemma_fundamental_div_mod_converse_div(
                        addr.0 - VIRTUAL_OFFSET,
                        PAGE_SIZE as int,
                        self.large@[i0].ppn as int,
                        0,
                    );
                }
                let ppn = (addr.as_int() - VIRTUAL_OFFSET) / PAGE_SIZE;
                let ghost pre = *self;
                match Self::find_frame(&self.large, ppn) {
                    Some(i) => {
                        let frame = self.large.remove(i);
                        proof {
                            assert(!old(fa)@.contains(frame.ppn)) by {
                                if old(fa)@.contains(frame.ppn) {
                                    let j = choose|j: int|
                                        0 <= j < old(fa)@.len() && old(fa)@[j] == frame.ppn;
                                    assert(!pre.owns_frame_ppn(old(fa)@[j]));
                                    assert(pre.large@[i as int].ppn == frame.ppn);
                                }
                            }
                        }
                        fa.free_page(frame);
                        proof {
                            let av = addr.0 as int;
                            let i0 = choose|i0: int|
                                0 <= i0 < pre.large@.len() && av == slab_base(
                                    (#[trigger] pre.large@[i0]).ppn,
                                );
                            assert(pre.large@[i0].ppn == frame.ppn) by {
                                assert(pre.large@[i0].ppn * PAGE_SIZE >= 0) by (nonlinear_arith)
                                    requires
                                        pre.large@[i0].ppn >= 0,
                                ;
                                vstd::arithmetic::div_mod::lemma_fundamental_div_mod_converse_div(
                                    av - VIRTUAL_OFFSET,
                                    PAGE_SIZE as int,
                                    pre.large@[i0].ppn as int,
                                    0,
                                );
                            }
                            assert(av == slab_base(frame.ppn));
                            assert(!self.owns_large(av)) by {
                                if self.owns_large(av) {
                                    let i2 = choose|i2: int|
                                        0 <= i2 < self.large@.len() && av == slab_base(
                                            (#[trigger] self.large@[i2]).ppn,
                                        );
                                    assert(self.large@[i2].ppn == frame.ppn) by (nonlinear_arith)
                                        requires
                                            self.large@[i2].ppn * PAGE_SIZE + VIRTUAL_OFFSET
                                                == frame.ppn * PAGE_SIZE + VIRTUAL_OFFSET,
                                            PAGE_SIZE > 0,
                                    ;
                                    let p2: int = if i2 < i {
                                        i2
                                    } else {
                                        i2 + 1
                                    };
                                    assert(self.large@[i2] == pre.large@[p2]);
                                    assert(pre.large@[p2].ppn != pre.large@[i as int].ppn);
                                }
                            }
                            assert forall|x: int| x != av implies self.owns_large(x)
                                == pre.owns_large(x) by {
                                if self.owns_large(x) {
                                    let i2 = choose|i2: int|
                                        0 <= i2 < self.large@.len() && x == slab_base(
                                            (#[trigger] self.large@[i2]).ppn,
                                        );
                                    let p2: int = if i2 < i {
                                        i2
                                    } else {
                                        i2 + 1
                                    };
                                    assert(self.large@[i2] == pre.large@[p2]);
                                    assert(x == slab_base(pre.large@[p2].ppn));
                                }
                                if pre.owns_large(x) {
                                    let i2 = choose|i2: int|
                                        0 <= i2 < pre.large@.len() && x == slab_base(
                                            (#[trigger] pre.large@[i2]).ppn,
                                        );
                                    assert(i2 != i) by {
                                        if i2 == i {
                                            assert(x == slab_base(frame.ppn));
                                        }
                                    }
                                    if i2 < i {
                                        assert(x == slab_base(self.large@[i2].ppn));
                                    } else {
                                        assert(x == slab_base(self.large@[i2 - 1].ppn));
                                    }
                                }
                            }
                            assert forall|j: int|
                                0 <= j < final(fa)@.len() implies !self.owns_frame_ppn(
                                #[trigger] final(fa)@[j],
                            ) by {
                                let p = final(fa)@[j];
                                if j == 0 {
                                    assert(p == frame.ppn);
                                    assert forall|i2: int|
                                        0 <= i2 < self.large@.len() implies (
                                    #[trigger] self.large@[i2]).ppn != p by {
                                        if i2 < i {
                                            assert(pre.large@[i2].ppn != pre.large@[i as int].ppn);
                                        } else {
                                            assert(self.large@[i2] == pre.large@[i2 + 1]);
                                            assert(pre.large@[i2 + 1].ppn != pre.large@[
                                                i as int].ppn);
                                        }
                                    }
                                    assert forall|ci: int|
                                        0 <= ci < self.caches@.len() implies !(
                                    #[trigger] self.caches@[ci]).has_ppn(p) by {
                                        assert(!pre.caches@[ci].has_ppn(pre.large@[i as int].ppn));
                                    }
                                } else {
                                    assert(old(fa)@[j - 1] == p);
                                    assert(!pre.owns_frame_ppn(p));
                                    assert forall|i2: int|
                                        0 <= i2 < self.large@.len() implies (
                                    #[trigger] self.large@[i2]).ppn != p by {
                                        if i2 < i {
                                            assert(pre.large@[i2].ppn != p);
                                        } else {
                                            assert(self.large@[i2] == pre.large@[i2 + 1]);
                                        }
                                    }
                                }
                            }
                            assert forall|i2: int, j2: int|
                                0 <= i2 < self.large@.len() && 0 <= j2 < self.large@.len() && i2
                                    != j2 implies (#[trigger] self.large@[i2]).ppn != (
                            #[trigger] self.large@[j2]).ppn by {
                                let a2: int = if i2 < i {
                                    i2
                                } else {
                                    i2 + 1
                                };
                                let b2: int = if j2 < i {
                                    j2
                                } else {
                                    j2 + 1
                                };
                                assert(self.large@[i2] == pre.large@[a2]);
                                assert(self.large@[j2] == pre.large@[b2]);
                            }
                            assert forall|i2: int, ci: int|
                                0 <= i2 < self.large@.len() && 0 <= ci < self.caches@.len()
                                    implies !(#[trigger] self.caches@[ci]).has_ppn(
                                (#[trigger] self.large@[i2]).ppn,
                            ) by {
                                if i2 < i {
                                    assert(self.large@[i2] == pre.large@[i2]);
                                } else {
                                    assert(self.large@[i2] == pre.large@[i2 + 1]);
                                }
                            }
                        }
                    },
                    None => {
                        proof {
                            let i0 = choose|i0: int|
                                0 <= i0 < pre.large@.len() && addr.0 as int == slab_base(
                                    (#[trigger] pre.large@[i0]).ppn,
                                );
                            assert(pre.large@[i0].ppn == ppn) by {
                                assert(pre.large@[i0].ppn * PAGE_SIZE >= 0) by (nonlinear_arith)
                                    requires
                                        pre.large@[i0].ppn >= 0,
                                ;
                                vstd::arithmetic::div_mod::lemma_fundamental_div_mod_converse_div(
                                    addr.0 - VIRTUAL_OFFSET,
                                    PAGE_SIZE as int,
                                    pre.large@[i0].ppn as int,
                                    0,
                                );
                            }
                            assert(false);
                        }
                    },
                }
            },
        }
    }

    fn find_frame(v: &Vec<PageFrame>, ppn: u64) -> (r: Option<usize>)
        ensures
            r matches Some(i) ==> i < v@.len() && v@[i as int].ppn == ppn,
            r is None ==> forall|i: int| 0 <= i < v@.len() ==> v@[i].ppn != ppn,
    {
        let mut i: usize = 0;
        while i < v.len()
            invariant
                i <= v@.len(),
                forall|j: int| 0 <= j < i ==> v@[j].ppn != ppn,
            decreases v@.len() - i,
        {
            if v[i].page_number() == ppn {
                return Some(i);
            }
            i = i + 1;
        }
        None
    }
}

/// Executable size classing, `order_for` computed.
fn size_to_order(size: u64, align: u64) -> (r: Option<u64>)
    ensures
        r == order_for(size, align),
        r matches Some(k) ==> MIN_ORDER <= k <= MAX_ORDER && slot_size(k) >= size && slot_size(k)
            >= align,
{
    let need: u64 = if size >= align {
        size
    } else {
        align
    };
    if need <= 8 {
        Some(3)
    } else if need <= 16 {
        Some(4)
    } else if need <= 32 {
        Some(5)
    } else if need <= 64 {
        Some(6)
    } else if need <= 128 {
        Some(7)
    } else if need <= 256 {
        Some(8)
    } else if need <= 512 {
        Some(9)
    } else if need <= 1024 {
        Some(10)
    } else if need <= 2048 {
        Some(11)
    } else {
        None
    }
}



} // verus!
