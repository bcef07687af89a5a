//! User processes and their scheduling.

pub mod scheduler;

use vstd::prelude::*;

use crate::traps::{zeroed_frame, TrapFrame};

verus! {

/// A process's ID, kept in its thread ID register.
pub type Id = u64;

/// The interval of the scheduling timer, in microseconds.
pub const TICK: u32 = 100000;

/// The value of the saved program status register that runs a process at
/// exception level 0 with no interrupt masked.
pub const USER_SPSR: u64 = 0b1101_00_0000;

/// What a sleeping process waits for: the time, in microseconds, when it
/// fell asleep and when it may wake.
#[derive(Copy, Clone, Debug)]
pub struct Sleep {
    start: u64,
    end: u64,
}

impl Sleep {
    /// A sleep never ends before it starts.
    #[verifier::type_invariant]
    closed spec fn sleep_invariant(self) -> bool {
        self.start <= self.end
    }

    /// When the sleep started, in microseconds.
    pub closed spec fn spec_start(&self) -> u64 {
        self.start
    }

    /// When the sleep may end, in microseconds.
    pub closed spec fn spec_end(&self) -> u64 {
        self.end
    }

    /// The sleep of `ms` milliseconds from `start` microseconds.
    pub closed spec fn spec_new(start: u64, ms: u32) -> Sleep {
        Sleep { start, end: (start + ms * 1000) as u64 }
    }

    /// What `spec_new` gives: a sleep that starts at `start` and may end
    /// `ms` milliseconds later.
    pub proof fn lemma_spec_new(start: u64, ms: u32)
        requires
            start + ms * 1000 <= u64::MAX,
        ensures
            Sleep::spec_new(start, ms).spec_start() == start,
            Sleep::spec_new(start, ms).spec_end() == start + ms * 1000,
    {
    }

    /// A sleep of `ms` milliseconds from `start` microseconds.
    pub fn new(start: u64, ms: u32) -> (s: Sleep)
        requires
            start + ms * 1000 <= u64::MAX,
        ensures
            s == Sleep::spec_new(start, ms),
            s.spec_start() == start,
            s.spec_end() == start + ms * 1000,
    {
        Sleep { start, end: start + (ms as u64) * 1000 }
    }
}

/// The scheduling state of a process.
#[derive(Copy, Clone, Debug)]
pub enum State {
    /// Ready to run.
    Ready,
    /// Running on the CPU.
    Running,
    /// Asleep until the given time.
    Waiting(Sleep),
}

/// A user process: its saved registers and its scheduling state.
#[derive(Debug)]
pub struct Process {
    /// The registers saved when the process last left the CPU.
    pub trap_frame: Box<TrapFrame>,
    /// The scheduling state.
    pub state: State,
}

/// The milliseconds that have passed since `start` microseconds, at `now`.
pub open spec fn elapsed_ms(start: u64, now: u64) -> u64 {
    ((now - start) / 1000) as u64
}

/// The frame of a process that wakes from a sleep begun at `start`: `x7`
/// reports success (zero) and `x0` the milliseconds slept.
pub open spec fn woken_frame(tf: TrapFrame, start: u64, now: u64) -> TrapFrame {
    TrapFrame {
        elr: tf.elr,
        spsr: tf.spsr,
        sp: tf.sp,
        tpidr: tf.tpidr,
        q0_q31: tf.q0_q31,
        x1_x29: vstd::array::spec_array_update(tf.x1_x29, 6, 0u64),
        reserved: tf.reserved,
        x30: tf.x30,
        x0: elapsed_ms(start, now),
    }
}

/// Whether process `p` can run at time `now`: a ready process can, a
/// sleeping one once its sleep has ended, a running one cannot.
pub open spec fn ready_at(p: Process, now: u64) -> bool {
    match p.state {
        State::Ready => true,
        State::Waiting(s) => now > s.spec_end(),
        State::Running => false,
    }
}

/// Process `p` as it is once found ready at `now`: a sleeper is woken, with
/// its frame as `woken_frame` states, and is ready.
pub open spec fn woken(p: Process, now: u64) -> Process {
    match p.state {
        State::Waiting(s) => Process {
            trap_frame: Box::new(woken_frame(*p.trap_frame, s.spec_start(), now)),
            state: State::Ready,
        },
        _ => p,
    }
}

/// A sleeper woken at `now` learns how long it actually slept: `x0` holds
/// the whole milliseconds from the start of its sleep to `now` (at least
/// the milliseconds it asked for), `x7` holds 0 for success, its other
/// registers are kept, and it is ready.
pub proof fn lemma_woken_reports_elapsed(p: Process, s: Sleep, now: u64)
    requires
        p.state == State::Waiting(s),
        s.spec_start() <= s.spec_end() < now,
    ensures
        woken(p, now).trap_frame.x0 == (now - s.spec_start()) / 1000,
        woken(p, now).trap_frame.x0 >= (s.spec_end() - s.spec_start()) / 1000,
        woken(p, now).trap_frame.x1_x29[6] == 0,
        forall|i: int| 0 <= i < 29 && i != 6 ==> woken(p, now).trap_frame.x1_x29[i]
            == p.trap_frame.x1_x29[i],
        woken(p, now).trap_frame.elr == p.trap_frame.elr,
        woken(p, now).trap_frame.sp == p.trap_frame.sp,
        woken(p, now).trap_frame.spsr == p.trap_frame.spsr,
        woken(p, now).trap_frame.tpidr == p.trap_frame.tpidr,
        woken(p, now).trap_frame.x30 == p.trap_frame.x30,
        woken(p, now).state is Ready,
{
    let d = (now - s.spec_start()) as int;
    let e = (s.spec_end() - s.spec_start()) as int;
    assert(d / 1000 >= e / 1000) by {
        vstd::arithmetic::div_mod::lemma_div_is_ordered(e, d, 1000);
    }
}

/// A process asleep for `ms` milliseconds from `start` microseconds can run
/// again exactly once the time is past `start + 1000 * ms`; a ready process
/// always can, and stays as it is; a running one cannot.
pub proof fn lemma_sleeper_ready_after_its_sleep(p: Process, start: u64, ms: u32, now: u64)
    requires
        start + ms * 1000 <= u64::MAX,
    ensures
        p.state == State::Waiting(Sleep::spec_new(start, ms)) ==> (ready_at(p, now) <==> now
            > start + ms * 1000),
        p.state is Ready ==> ready_at(p, now) && woken(p, now) == p,
        p.state is Running ==> !ready_at(p, now),
{
    Sleep::lemma_spec_new(start, ms);
}

impl Process {
    /// A new process, ready, with every register zero.
    pub fn new() -> (p: Process)
        ensures
            p.state is Ready,
            *p.trap_frame == zeroed_frame(),
    {
        Process { trap_frame: Box::new(TrapFrame::zeroed()), state: State::Ready }
    }

    /// A new ready process that starts at `entry` in user mode with its
    /// stack at `stack_top`.
    pub fn user(entry: u64, stack_top: u64) -> (p: Process)
        ensures
            p.state is Ready,
            *p.trap_frame == (TrapFrame {
                elr: entry,
                spsr: USER_SPSR,
                sp: stack_top,
                tpidr: 0,
                q0_q31: zeroed_frame().q0_q31,
                x1_x29: zeroed_frame().x1_x29,
                reserved: 0,
                x30: 0,
                x0: 0,
            }),
    {
        let mut p = Process::new();
        p.trap_frame.elr = entry;
        p.trap_frame.sp = stack_top;
        p.trap_frame.spsr = USER_SPSR;
        p
    }

    /// The process's ID, as its thread ID register holds it.
    pub fn get_id(&self) -> (id: Id)
        ensures
            id == self.trap_frame.tpidr,
    {
        self.trap_frame.tpidr
    }

    /// Whether the process can run at time `now`, as `ready_at` states; a
    /// sleeper found ready is woken, as `woken` states. A process that cannot
    /// run is left as it is.
    pub fn is_ready(&mut self, now: u64) -> (r: bool)
        ensures
            r == ready_at(*old(self), now),
            r ==> *final(self) == woken(*old(self), now),
            !r ==> *final(self) == *old(self),
    {
        match self.state {
            State::Ready => true,
            State::Running => false,
            State::Waiting(s) => {
                if now > s.end {
                    proof {
                        use_type_invariant(&s);
                    }
                    let ghost before = *self.trap_frame;
                    self.trap_frame.x1_x29[6] = 0;
                    self.trap_frame.x0 = (now - s.start) / 1000;
                    self.state = State::Ready;
                    proof {
                        assert(self.trap_frame.x1_x29 =~= vstd::array::spec_array_update(
                            before.x1_x29,
                            6,
                            0u64,
                        ));
                    }
                    true
                } else {
                    false
                }
            },
        }
    }
}

} // verus!
