//! The memory of the kernel: a flat arena that stands for physical memory,
//! the bookkeeping of its frames, page tables of three levels in it, and a
//! heap with a free list. Every failure is one of the kinds of
//! [`MemoryError`].

pub mod arena;
pub mod bits;
pub mod consts;
pub mod frames;
pub mod heap;
pub mod identity;
pub mod kernel;
pub mod paging;

pub use frames::init_frames_allocation;
pub use identity::identity_map_range;
pub use kernel::map_kernel;

use vstd::prelude::*;

verus! {

/// The ways in which a memory operation can fail. A failed operation reports
/// its kind and leaves retrying to the caller.
#[derive(Clone, Copy, Debug, PartialEq, Eq, Structural)]
pub enum MemoryError {
    /// A leaf was to be written into a slot that already holds a valid entry.
    AlreadyMapped,
    /// No frame, region or run satisfies the request.
    AllocationExhausted,
    /// The frames to release were not all marked used.
    DoubleFree,
    /// An address or size violates the alignment that the operation asks for.
    MisalignedAddress,
    /// A traversal met a leaf where a branch was expected, or the reverse.
    StructuralInconsistency,
    /// A single frame of the 1 GiB class was requested or released.
    UnsupportedOperation,
}

/// Two to the power `order`, for an order that fits the machine word.
pub open spec fn order_size(order: usize) -> int {
    vstd::arithmetic::power2::pow2(order as nat) as int
}

/// `aligned` is the least multiple of `unit` that is not below `value`.
pub open spec fn is_aligned_up(value: int, unit: int, aligned: int) -> bool {
    &&& aligned % unit == 0
    &&& value <= aligned < value + unit
}

/// Aligns `value` to 2 to the power of `order`. Always rounds up.
pub fn align_order(value: usize, order: usize) -> (aligned: usize)
    requires
        order < usize::BITS,
        value + order_size(order) - 1 <= usize::MAX,
    ensures
        is_aligned_up(value as int, order_size(order), aligned as int),
{
    let unit: usize = 1usize << order;
    proof {
        vstd::bits::lemma_usize_pow2_no_overflow(order as nat);
        vstd::bits::lemma_usize_shl_is_mul(1, order);
    }
    let o: usize = unit - 1;
    let sum: usize = value + o;
    let aligned: usize = sum & !o;
    proof {
        assert(sum & !o == sum - (sum & o)) by (bit_vector);
        vstd::bits::lemma_usize_low_bits_mask_is_mod(sum, order as nat);
        assert(sum & o == sum % unit);
        vstd::arithmetic::div_mod::lemma_fundamental_div_mod(sum as int, unit as int);
        vstd::arithmetic::div_mod::lemma_mod_multiples_basic(sum as int / unit as int, unit as int);
        assert(unit as int * (sum as int / unit as int) == (sum as int / unit as int) * unit as int)
            by (nonlinear_arith);
    }
    aligned
}

/// Aligns `value` to `align`. Always rounds up.
pub fn align_up(value: usize, align: usize) -> (aligned: usize)
    requires
        align > 0,
        value + align - 1 <= usize::MAX,
    ensures
        is_aligned_up(value as int, align as int, aligned as int),
{
    let remainder: usize = value % align;
    if remainder == 0 {
        value
    } else {
        let aligned: usize = value + (align - remainder);
        proof {
            vstd::arithmetic::div_mod::lemma_fundamental_div_mod(value as int, align as int);
            let q = value as int / align as int;
            assert(aligned as int == align as int * (q + 1)) by (nonlinear_arith)
                requires
                    value as int == align as int * q + remainder as int,
                    aligned as int == value as int + align as int - remainder as int,
            ;
            vstd::arithmetic::div_mod::lemma_mod_multiples_basic(q + 1, align as int);
            assert(align as int * (q + 1) == (q + 1) * align as int) by (nonlinear_arith);
        }
        aligned
    }
}

} // verus!
