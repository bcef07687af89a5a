use vstd::prelude::*;

use crate::process::scheduler::{removed, switched, GlobalScheduler, Switch};
use crate::process::{Sleep, State};
use crate::traps::TrapFrame;

verus! {

/// The frame `tf` with register `x7`, the status of a system call, set to
/// `status`.
pub open spec fn with_status(tf: TrapFrame, status: u64) -> TrapFrame {
    TrapFrame {
        elr: tf.elr,
        spsr: tf.spsr,
        sp: tf.sp,
        tpidr: tf.tpidr,
        q0_q31: tf.q0_q31,
        x1_x29: vstd::array::spec_array_update(tf.x1_x29, 6, status),
        reserved: tf.reserved,
        x30: tf.x30,
        x0: tf.x0,
    }
}

/// Puts the calling process, the one on the CPU, to sleep for `ms`
/// milliseconds from `now` microseconds and switches away from it. When it
/// wakes, `x7` holds zero and `x0` the milliseconds that passed.
pub fn sleep(scheduler: &mut GlobalScheduler, ms: u32, tf: &mut TrapFrame, now: u64) -> (r: Switch)
    requires
        old(scheduler)@ is Some,
        old(scheduler)@->0.processes.len() > 0,
        now + ms * 1000 <= u64::MAX,
    ensures
        ({
            let st = State::Waiting(Sleep::spec_new(now, ms));
            let (v, s, t) = switched(old(scheduler)@->0, st, *old(tf), now);
            &&& final(scheduler)@ == Some(v)
            &&& r == s
            &&& match t {
                Some(t) => *final(tf) == t,
                None => *final(tf) == *old(tf),
            }
        }),
{
    let sleeping = Sleep::new(now, ms);
    scheduler.switch(State::Waiting(sleeping), tf, now)
}

/// Handles system call `num` of the process on the CPU, whose registers are
/// in `tf`: 1 sleeps for `x0` milliseconds (the low 32 bits), 2 kills the
/// process whose ID is in `x0` and reports in `x7` whether one was found
/// (0) or not (1); any other number sets `x7` to 1. Answers the scheduling
/// round that a sleep began, `None` for the other calls.
pub fn handle_syscall(
    scheduler: &mut GlobalScheduler,
    num: u16,
    tf: &mut TrapFrame,
    now: u64,
) -> (r: Option<Switch>)
    requires
        old(scheduler)@ is Some,
        num == 1 || num == 2 ==> old(scheduler)@->0.processes.len() > 0,
        num == 1 ==> now + (old(tf).x0 as u32) * 1000 <= u64::MAX,
    ensures
        num == 1 ==> ({
            let st = State::Waiting(Sleep::spec_new(now, old(tf).x0 as u32));
            let (v, s, t) = switched(old(scheduler)@->0, st, *old(tf), now);
            &&& final(scheduler)@ == Some(v)
            &&& r == Some(s)
            &&& match t {
                Some(t) => *final(tf) == t,
                None => *final(tf) == *old(tf),
            }
        }),
        num == 2 ==> ({
            let (v, k, t) = removed(old(scheduler)@->0, old(tf).x0, *old(tf), now);
            let restored = match t {
                Some(t) => t,
                None => *old(tf),
            };
            &&& final(scheduler)@ == Some(v)
            &&& r is None
            &&& *final(tf) == with_status(
                restored,
                if k is Some {
                    0
                } else {
                    1
                },
            )
        }),
        num != 1 && num != 2 ==> {
            &&& final(scheduler)@ == old(scheduler)@
            &&& r is None
            &&& *final(tf) == with_status(*old(tf), 1)
        },
{
    if num == 1 {
        let ms: u32 = tf.x0 as u32;
        Some(sleep(scheduler, ms, tf, now))
    } else if num == 2 {
        let id: u64 = tf.x0;
        let found = scheduler.remove(id, tf, now);
        let ghost before = *tf;
        let status: u64 = if found.is_some() {
            0
        } else {
            1
        };
        tf.x1_x29[6] = status;
        proof {
            assert(tf.x1_x29 =~= vstd::array::spec_array_update(before.x1_x29, 6, status));
        }
        None
    } else {
        let ghost before = *tf;
        tf.x1_x29[6] = 1;
        proof {
            assert(tf.x1_x29 =~= vstd::array::spec_array_update(before.x1_x29, 6, 1u64));
        }
        None
    }
}

} // verus!
