use vstd::prelude::*;

use crate::allocator::util::{align_up, is_power_of_two, is_pow2};
use crate::allocator::{AllocErr, Layout};

verus! {

/// A "bump" allocator: allocates memory by bumping a pointer; never frees.
#[derive(Debug)]
pub struct Allocator {
    current: usize,
    end: usize,
}

impl Allocator {
    /// The first address that has not been handed out.
    pub closed spec fn spec_current(&self) -> usize {
        self.current
    }

    /// The end of the region.
    pub closed spec fn spec_end(&self) -> usize {
        self.end
    }

    /// Creates a new bump allocator that will allocate memory from the region
    /// starting at address `start` and ending at address `end`.
    pub fn new(start: usize, end: usize) -> (a: Allocator)
        ensures
            a.spec_current() == start,
            a.spec_end() == end,
    {
        Allocator { current: start, end }
    }

    /// Allocates memory: returns the address of a block meeting the size and
    /// alignment of `layout`.
    ///
    /// Returns `Unsupported` when the size is zero or the alignment is not a
    /// power of two. Otherwise the block starts at the current address
    /// aligned up, as `bump_start` states; it is returned, and the current
    /// address moves past it, when it ends at or before the region's end;
    /// else `Exhausted` is returned and nothing changes. Aligning the current
    /// address must not overflow.
    pub fn allocate(&mut self, layout: Layout) -> (r: Result<usize, AllocErr>)
        requires
            layout.size() > 0 && is_pow2(layout.align() as int) ==> (old(self).spec_current()
                % layout.align() != 0 ==> old(self).spec_current() + (layout.align()
                - old(self).spec_current() % layout.align()) <= usize::MAX),
        ensures
            final(self).spec_end() == old(self).spec_end(),
            ({
                let start = bump_start(old(self).spec_current() as int, layout.align() as int);
                if layout.size() == 0 || !is_pow2(layout.align() as int) {
                    &&& r == Err::<usize, AllocErr>(AllocErr::Unsupported { details: "Unsupported" })
                    &&& final(self).spec_current() == old(self).spec_current()
                } else if start + layout.size() <= old(self).spec_end() {
                    &&& r == Ok::<usize, AllocErr>(start as usize)
                    &&& final(self).spec_current() == start + layout.size()
                } else {
                    &&& r == Err::<usize, AllocErr>(AllocErr::Exhausted { request: layout })
                    &&& final(self).spec_current() == old(self).spec_current()
                }
            }),
            r matches Ok(p) ==> p % layout.align() == 0 && p >= old(self).spec_current()
                && p + layout.size() == final(self).spec_current() && final(self).spec_current()
                <= final(self).spec_end(),
    {
        if layout.size() == 0 || !is_power_of_two(layout.align()) {
            return Err(AllocErr::Unsupported { details: "Unsupported" });
        }
        let newaddr = align_up(self.current, layout.align());
        match newaddr.checked_add(layout.size()) {
            Some(newcurrent) => {
                if newcurrent <= self.end {
                    self.current = newcurrent;
                    Ok(newaddr)
                } else {
                    Err(AllocErr::Exhausted { request: layout })
                }
            },
            None => Err(AllocErr::Exhausted { request: layout }),
        }
    }

    /// Deallocates the memory at `ptr`: a bump allocator never frees, so
    /// nothing changes.
    pub fn dealloc(&mut self, ptr: usize, layout: Layout)
        ensures
            final(self).spec_current() == old(self).spec_current(),
            final(self).spec_end() == old(self).spec_end(),
    {
    }
}

/// Where a block aligned to `align` starts when the current address is
/// `cur`: `cur` aligned up.
pub open spec fn bump_start(cur: int, align: int) -> int {
    if cur % align == 0 {
        cur
    } else {
        cur + (align - cur % align)
    }
}

/// Bump addresses only grow: after a block of `size1` bytes served at `p1`
/// (the current address then moves to its end), a block served next starts
/// at or after the first one's end and ends within the region, so the two
/// never overlap.
pub proof fn lemma_bump_grows(p1: int, size1: int, align2: int, size2: int, end: int)
    requires
        size1 > 0,
        align2 > 0,
        size2 > 0,
        p1 + size1 <= end,
        bump_start(p1 + size1, align2) + size2 <= end,
    ensures
        bump_start(p1 + size1, align2) >= p1 + size1,
        p1 + size1 <= bump_start(p1 + size1, align2) < bump_start(p1 + size1, align2) + size2 <= end,
{
    let cur = p1 + size1;
    if cur % align2 != 0 {
        assert(0 <= cur % align2 < align2);
    }
}

} // verus!
