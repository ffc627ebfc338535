//! Typed physical and virtual addresses over a 64-bit machine word, with
//! alignment-aware arithmetic and the fixed-offset conversion that takes
//! a physical address into the kernel's permanent linear map.

use vstd::prelude::*;

verus! {

/// Size in bytes of one physical memory frame.
pub const PAGE_SIZE: u64 = 0x1000;

/// Base of the kernel's permanent linear mapping of all physical RAM:
/// physical address `p` is always reachable at virtual address
/// `p + VIRTUAL_OFFSET`.
pub const VIRTUAL_OFFSET: u64 = 0xffff_8000_0000_0000;

/// A word is a power of two exactly when it is 1 shifted left some amount.
pub open spec fn is_power_of_two(n: u64) -> bool {
    exists|k: u64| k < 64 && n == #[trigger] (1u64 << k)
}

pub proof fn lemma_power_of_two_nonzero(n: u64)
    requires
        is_power_of_two(n),
    ensures
        n >= 1,
{
    let k = choose|k: u64| k < 64 && n == (1u64 << k);
    assert(k < 64 ==> (1u64 << k) >= 1) by (bit_vector);
}

/// The standard library's power-of-two notion coincides with this
/// module's for 64-bit words.
pub proof fn lemma_pow2_int_is_power_of_two(v: u64)
    requires
        vstd::arithmetic::power2::is_pow2(v as int),
    ensures
        is_power_of_two(v),
{
    vstd::arithmetic::power2::is_pow2_equiv(v as int);
    let i = choose|i: nat| vstd::arithmetic::power::pow(2, i) == v as int;
    assert(vstd::arithmetic::power2::pow2(i) == v);
    assert(i < 64) by {
        if i >= 64 {
            vstd::arithmetic::power2::lemma2_to64();
            if i > 64 {
                vstd::arithmetic::power2::lemma_pow2_strictly_increases(64, i);
            }
        }
    }
    vstd::bits::lemma_u64_pow2_no_overflow(i);
    vstd::bits::lemma_u64_shl_is_mul(1u64, i as u64);
    assert(v == (1u64 << (i as u64)));
}

/// Largest multiple of `n` that is at most `a`.
pub open spec fn align_down_spec(a: int, n: int) -> int
    recommends
        n > 0,
{
    a - a % n
}

/// Smallest multiple of `n` that is at least `a`.
pub open spec fn align_up_spec(a: int, n: int) -> int
    recommends
        n > 0,
{
    align_down_spec(a + n - 1, n)
}

/// Alignment law: an address is bracketed by its two roundings, both of
/// which are multiples of the alignment, and each rounding moves the
/// address by less than one alignment unit.
pub proof fn lemma_alignment_law(a: int, n: int)
    requires
        n > 0,
    ensures
        align_down_spec(a, n) <= a,
        a <= align_up_spec(a, n),
        align_down_spec(a, n) % n == 0,
        align_up_spec(a, n) % n == 0,
        a - align_down_spec(a, n) < n,
        align_up_spec(a, n) - a < n,
{
    vstd::arithmetic::div_mod::lemma_mod_bound(a, n);
    vstd::arithmetic::div_mod::lemma_mod_bound(a + n - 1, n);
    vstd::arithmetic::div_mod::lemma_fundamental_div_mod(a, n);
    vstd::arithmetic::div_mod::lemma_fundamental_div_mod(a + n - 1, n);
    vstd::arithmetic::mul::lemma_mul_is_commutative(n, a / n);
    vstd::arithmetic::mul::lemma_mul_is_commutative(n, (a + n - 1) / n);
    assert(align_down_spec(a, n) == (a / n) * n);
    assert(align_up_spec(a, n) == ((a + n - 1) / n) * n);
    vstd::arithmetic::div_mod::lemma_mod_multiples_basic(a / n, n);
    vstd::arithmetic::div_mod::lemma_mod_multiples_basic((a + n - 1) / n, n);
}

/// The masking trick used by the executable code agrees with the
/// arithmetic specification of rounding down.
pub proof fn lemma_align_down_mask(a: u64, n: u64)
    requires
        is_power_of_two(n),
    ensures
        (a & !((n - 1) as u64)) == align_down_spec(a as int, n as int),
{
    let k = choose|k: u64| k < 64 && n == (1u64 << k);
    lemma_power_of_two_nonzero(n);
    vstd::bits::lemma_u64_pow2_no_overflow(k as nat);
    vstd::bits::lemma_u64_shl_is_mul(1u64, k);
    vstd::bits::lemma_u64_low_bits_mask_is_mod(a, k as nat);
    let m: u64 = (n - 1) as u64;
    assert(vstd::bits::low_bits_mask(k as nat) as u64 == m);
    assert((a & !m) == a - (a & m)) by (bit_vector);
}

/// The mask test used by the executable code agrees with divisibility.
pub proof fn lemma_aligned_mask(a: u64, n: u64)
    requires
        is_power_of_two(n),
    ensures
        (a & ((n - 1) as u64) == 0) <==> a as int % n as int == 0,
{
    let k = choose|k: u64| k < 64 && n == (1u64 << k);
    lemma_power_of_two_nonzero(n);
    vstd::bits::lemma_u64_pow2_no_overflow(k as nat);
    vstd::bits::lemma_u64_shl_is_mul(1u64, k);
    vstd::bits::lemma_u64_low_bits_mask_is_mod(a, k as nat);
    assert(vstd::bits::low_bits_mask(k as nat) as u64 == (n - 1) as u64);
}

/// A memory alignment; constructed only from a power of two, so the
/// bit-masking arithmetic on addresses below is always meaningful.
#[derive(Clone, Copy, PartialEq, Eq, Structural)]
pub struct Alignment(pub u64);

impl Alignment {
    pub open spec fn wf(self) -> bool {
        is_power_of_two(self.0)
    }

    /// Passing a zero or non-power-of-two boundary is a fatal contract
    /// violation, excluded by the precondition.
    pub fn new(value: u64) -> (r: Self)
        requires
            is_power_of_two(value),
        ensures
            r.0 == value,
            r.wf(),
    {
        Alignment(value)
    }

    /// Alignment of a type, as the language reports it; every Rust
    /// type's alignment is a power of two.
    pub fn of<T>() -> (r: Self)
        ensures
            r.wf(),
            r.0 == vstd::layout::align_of::<T>(),
    {
        vstd::layout::layout_for_type_is_valid::<T>();
        let a = core::mem::align_of::<T>();
        proof {
            lemma_pow2_int_is_power_of_two(a as u64);
        }
        Alignment(a as u64)
    }

    /// The low-bit mask covering offsets inside one aligned block.
    pub fn mask(self) -> (r: u64)
        requires
            self.wf(),
        ensures
            r == self.0 - 1,
    {
        proof {
            lemma_power_of_two_nonzero(self.0);
        }
        self.0 - 1
    }
}

/// An address in physical memory. Not interchangeable with a virtual
/// address; the only conversion is the explicit `to_virt` below.
#[derive(Clone, Copy, PartialEq, Eq, Structural)]
pub struct PhysicalAddress(pub u64);

impl PhysicalAddress {
    pub fn new(value: u64) -> (r: Self)
        ensures
            r.0 == value,
    {
        PhysicalAddress(value)
    }

    pub fn null() -> (r: Self)
        ensures
            r.0 == 0,
    {
        PhysicalAddress(0)
    }

    pub fn is_null(self) -> (r: bool)
        ensures
            r == (self.0 == 0),
    {
        self.0 == 0
    }

    pub fn as_int(self) -> (r: u64)
        ensures
            r == self.0,
    {
        self.0
    }

    pub fn is_aligned(self, align: Alignment) -> (r: bool)
        requires
            align.wf(),
        ensures
            r == (self.0 as int % align.0 as int == 0),
    {
        proof {
            lemma_power_of_two_nonzero(align.0);
            lemma_aligned_mask(self.0, align.0);
        }
        self.0 & (align.0 - 1) == 0
    }

    pub fn align_down(self, align: Alignment) -> (r: Self)
        requires
            align.wf(),
        ensures
            r.0 == align_down_spec(self.0 as int, align.0 as int),
    {
        proof {
            lemma_power_of_two_nonzero(align.0);
            lemma_align_down_mask(self.0, align.0);
        }
        PhysicalAddress(self.0 & !(align.0 - 1))
    }

    pub fn align_up(self, align: Alignment) -> (r: Self)
        requires
            align.wf(),
            self.0 + align.0 - 1 <= u64::MAX,
        ensures
            r.0 == align_up_spec(self.0 as int, align.0 as int),
    {
        proof {
            lemma_power_of_two_nonzero(align.0);
            lemma_align_down_mask((self.0 + align.0 - 1) as u64, align.0);
        }
        let mask = align.0 - 1;
        PhysicalAddress((self.0 + mask) & !mask)
    }

    /// Checked offset addition; overflow is a fatal contract violation,
    /// excluded by the precondition.
    pub fn add_offset(self, n: u64) -> (r: Self)
        requires
            self.0 + n <= u64::MAX,
        ensures
            r.0 == self.0 + n,
    {
        PhysicalAddress(self.0 + n)
    }

    /// Checked offset subtraction; underflow is a fatal contract
    /// violation, excluded by the precondition.
    pub fn sub_offset(self, n: u64) -> (r: Self)
        requires
            n <= self.0,
        ensures
            r.0 == self.0 - n,
    {
        PhysicalAddress(self.0 - n)
    }

    /// The permanent linear mapping of this physical address in kernel
    /// space. The map covers the whole physical address space, so the
    /// addition never overflows for a real physical address.
    pub fn to_virt(self) -> (r: VirtualAddress)
        requires
            self.0 + VIRTUAL_OFFSET <= u64::MAX,
        ensures
            r.0 == self.0 + VIRTUAL_OFFSET,
    {
        VirtualAddress(self.0 + VIRTUAL_OFFSET)
    }
}

/// An address in some virtual address space.
#[derive(Clone, Copy, PartialEq, Eq, Structural)]
pub struct VirtualAddress(pub u64);

impl VirtualAddress {
    pub fn new(value: u64) -> (r: Self)
        ensures
            r.0 == value,
    {
        VirtualAddress(value)
    }

    pub fn null() -> (r: Self)
        ensures
            r.0 == 0,
    {
        VirtualAddress(0)
    }

    pub fn is_null(self) -> (r: bool)
        ensures
            r == (self.0 == 0),
    {
        self.0 == 0
    }

    pub fn as_int(self) -> (r: u64)
        ensures
            r == self.0,
    {
        self.0
    }

    pub fn is_aligned(self, align: Alignment) -> (r: bool)
        requires
            align.wf(),
        ensures
            r == (self.0 as int % align.0 as int == 0),
    {
        proof {
            lemma_power_of_two_nonzero(align.0);
            lemma_aligned_mask(self.0, align.0);
        }
        self.0 & (align.0 - 1) == 0
    }

    pub fn align_down(self, align: Alignment) -> (r: Self)
        requires
            align.wf(),
        ensures
            r.0 == align_down_spec(self.0 as int, align.0 as int),
    {
        proof {
            lemma_power_of_two_nonzero(align.0);
            lemma_align_down_mask(self.0, align.0);
        }
        VirtualAddress(self.0 & !(align.0 - 1))
    }

    pub fn align_up(self, align: Alignment) -> (r: Self)
        requires
            align.wf(),
            self.0 + align.0 - 1 <= u64::MAX,
        ensures
            r.0 == align_up_spec(self.0 as int, align.0 as int),
    {
        proof {
            lemma_power_of_two_nonzero(align.0);
            lemma_align_down_mask((self.0 + align.0 - 1) as u64, align.0);
        }
        let mask = align.0 - 1;
        VirtualAddress((self.0 + mask) & !mask)
    }

    /// Checked offset addition; overflow is a fatal contract violation,
    /// excluded by the precondition.
    pub fn add_offset(self, n: u64) -> (r: Self)
        requires
            self.0 + n <= u64::MAX,
        ensures
            r.0 == self.0 + n,
    {
        VirtualAddress(self.0 + n)
    }

    /// Checked offset subtraction; underflow is a fatal contract
    /// violation, excluded by the precondition.
    pub fn sub_offset(self, n: u64) -> (r: Self)
        requires
            n <= self.0,
        ensures
            r.0 == self.0 - n,
    {
        VirtualAddress(self.0 - n)
    }
}

/// The page size is a power of two; gives callers the witness they need
/// to build a page-sized `Alignment`.
pub proof fn lemma_page_size_power_of_two()
    ensures
        is_power_of_two(PAGE_SIZE),
{
    assert(0x1000u64 == (1u64 << 12)) by (bit_vector);
}

} // verus!
