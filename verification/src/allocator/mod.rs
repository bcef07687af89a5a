//! Memory allocators for the kernel heap.

pub mod bin;
pub mod bump;
pub mod util;

use vstd::prelude::*;

verus! {

/// The size and alignment of a memory request.
///
/// Well-formed layouts, as `from_size_align` builds them, have an alignment
/// that is a power of two and a size that, rounded up to the alignment, does
/// not exceed `isize::MAX`.
#[derive(Copy, Clone, Debug, PartialEq, Eq, Structural)]
pub struct Layout {
    size: usize,
    align: usize,
}

impl Layout {
    /// Every layout is well formed: `from_size_align` is the only way to
    /// build one.
    #[verifier::type_invariant]
    pub(crate) closed spec fn layout_invariant(self) -> bool {
        &&& util::is_pow2(self.align as int)
        &&& self.size <= isize::MAX - (self.align - 1)
    }

    /// The layout's well-formedness.
    pub open spec fn wf(&self) -> bool {
        &&& util::is_pow2(self.spec_align() as int)
        &&& self.spec_size() <= isize::MAX - (self.spec_align() - 1)
    }

    pub closed spec fn spec_size(&self) -> usize {
        self.size
    }

    pub closed spec fn spec_align(&self) -> usize {
        self.align
    }

    /// A layout of `size` bytes aligned to `align`, or `None` when `align` is
    /// not a power of two or `size` rounded up to `align` exceeds
    /// `isize::MAX`.
    pub fn from_size_align(size: usize, align: usize) -> (r: Option<Layout>)
        ensures
            r is Some <==> (util::is_pow2(align as int) && size <= isize::MAX - (align - 1)),
            r matches Some(l) ==> l.spec_size() == size && l.spec_align() == align && l.wf(),
    {
        if !util::is_power_of_two(align) {
            return None;
        }
        proof {
            let k = choose|k: nat| util::exp2(k) == align as int;
            util::lemma_exp2_pos(k);
        }
        if align - 1 > isize::MAX as usize || size > (isize::MAX as usize) - (align - 1) {
            return None;
        }
        Some(Layout { size, align })
    }

    /// The requested size in bytes.
    #[verifier::when_used_as_spec(spec_size)]
    pub fn size(&self) -> (s: usize)
        ensures
            s == self.spec_size(),
    {
        self.size
    }

    /// The requested alignment.
    #[verifier::when_used_as_spec(spec_align)]
    pub fn align(&self) -> (a: usize)
        ensures
            a == self.spec_align(),
    {
        self.align
    }
}

/// Why an allocation request was refused.
#[derive(Copy, Clone, Debug)]
pub enum AllocErr {
    /// No free block large enough for `request` remains.
    Exhausted { request: Layout },
    /// The request has a zero size or an alignment that is not a power of two.
    Unsupported { details: &'static str },
}

} // verus!
