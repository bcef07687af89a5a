//! Exception handling: the saved register state of a user process and the
//! system calls it makes.

pub mod syscall;

use vstd::prelude::*;

verus! {

/// The registers of a process, as the exception vector saves them on entry
/// to the kernel and restores them on return.
#[derive(Copy, Clone, Debug)]
pub struct TrapFrame {
    /// The exception link register: where the process resumes.
    pub elr: u64,
    /// The saved program status register.
    pub spsr: u64,
    /// The process's stack pointer.
    pub sp: u64,
    /// The thread ID register, holding the process's ID.
    pub tpidr: u64,
    /// The SIMD registers `q0` to `q31`.
    pub q0_q31: [u128; 32],
    /// The general registers `x1` to `x29`.
    pub x1_x29: [u64; 29],
    /// Padding that keeps the frame 16-byte aligned.
    pub reserved: u64,
    /// The link register `x30`.
    pub x30: u64,
    /// The general register `x0`.
    pub x0: u64,
}

/// The frame with every register zero.
pub open spec fn zeroed_frame() -> TrapFrame {
    TrapFrame {
        elr: 0,
        spsr: 0,
        sp: 0,
        tpidr: 0,
        q0_q31: vstd::array::spec_array_fill_for_copy_type::<u128, 32>(0u128),
        x1_x29: vstd::array::spec_array_fill_for_copy_type::<u64, 29>(0u64),
        reserved: 0,
        x30: 0,
        x0: 0,
    }
}

impl TrapFrame {
    /// A frame with every register zero.
    pub fn zeroed() -> (tf: TrapFrame)
        ensures
            tf == zeroed_frame(),
    {
        TrapFrame {
            elr: 0,
            spsr: 0,
            sp: 0,
            tpidr: 0,
            q0_q31: vstd::array::array_fill_for_copy_types::<u128, 32>(0u128),
            x1_x29: vstd::array::array_fill_for_copy_types::<u64, 29>(0u64),
            reserved: 0,
            x30: 0,
            x0: 0,
        }
    }
}

} // verus!
