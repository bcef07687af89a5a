use std::collections::VecDeque;
use vstd::prelude::*;

use crate::process::{ready_at, woken, Id, Process, State};
use crate::traps::TrapFrame;

verus! {

broadcast use vstd::std_specs::vecdeque::group_vec_dequeue_axioms;

/// What one scheduling round gave.
#[derive(Copy, Clone, Debug, PartialEq, Eq, Structural)]
pub enum Switch {
    /// The process with this ID was switched into the trap frame.
    Switched(Id),
    /// No process could run: the caller waits for an interrupt and tries
    /// again with the new time.
    Idle,
    /// There is no process at all.
    Empty,
}

/// The scheduler's state as the contracts see it: the queue of processes,
/// front first, the current process and the last ID handed out.
pub struct SchedulerView {
    pub processes: Seq<Process>,
    pub current: Option<Id>,
    pub last_id: Option<Id>,
}

/// Process `p` with its frame's ID register set to `id`.
pub open spec fn with_id(p: Process, id: Id) -> Process {
    Process {
        trap_frame: Box::new(
            TrapFrame {
                elr: p.trap_frame.elr,
                spsr: p.trap_frame.spsr,
                sp: p.trap_frame.sp,
                tpidr: id,
                q0_q31: p.trap_frame.q0_q31,
                x1_x29: p.trap_frame.x1_x29,
                reserved: p.trap_frame.reserved,
                x30: p.trap_frame.x30,
                x0: p.trap_frame.x0,
            },
        ),
        state: p.state,
    }
}

/// Process `p` holding the frame `tf` in state `st`.
pub open spec fn saved(p: Process, tf: TrapFrame, st: State) -> Process {
    Process { trap_frame: Box::new(tf), state: st }
}

/// Process `p` marked running.
pub open spec fn running(p: Process) -> Process {
    Process { trap_frame: p.trap_frame, state: State::Running }
}

/// The ID of process `p`.
pub open spec fn id_of(p: Process) -> Id {
    p.trap_frame.tpidr
}

/// Adding process `p`: it gets the ID after the last one (zero for the
/// first), goes to the back of the queue and becomes the current process if
/// there is none. No ID is left after `u64::MAX`: then nothing changes.
pub open spec fn added(v: SchedulerView, p: Process) -> (SchedulerView, Option<Id>) {
    match v.last_id {
        Some(l) if l == u64::MAX => (v, None),
        _ => {
            let id: Id = match v.last_id {
                Some(l) => (l + 1) as u64,
                None => 0,
            };
            (
                SchedulerView {
                    processes: v.processes.push(with_id(p, id)),
                    current: if v.current is None {
                        Some(id)
                    } else {
                        v.current
                    },
                    last_id: Some(id),
                },
                Some(id),
            )
        },
    }
}

/// The index of the first process of `q`, from index `i` on, that can run
/// at `now`; the queue's length when there is none.
pub open spec fn first_ready(q: Seq<Process>, now: u64, i: int) -> int
    decreases q.len() - i,
{
    if i >= q.len() {
        q.len() as int
    } else if ready_at(q[i], now) {
        i
    } else {
        first_ready(q, now, i + 1)
    }
}

/// One scheduling round over queue `q` at time `now`: the processes are
/// tried front first; those that cannot run go to the back; the first that
/// can is woken, marked running and left at the front, and its frame is
/// restored. The result, the queue after the round and the frame restored
/// (`None` when the frame is left alone).
pub open spec fn round(q: Seq<Process>, now: u64) -> (Switch, Seq<Process>, Option<TrapFrame>) {
    if q.len() == 0 {
        (Switch::Empty, q, None)
    } else {
        let i = first_ready(q, now, 0);
        if i >= q.len() {
            (Switch::Idle, q, None)
        } else {
            let p = woken(q[i], now);
            (
                Switch::Switched(id_of(p)),
                seq![running(p)] + q.subrange(i + 1, q.len() as int) + q.subrange(0, i),
                Some(*p.trap_frame),
            )
        }
    }
}

/// The scheduler after a round that gave `r` with queue `q`.
pub open spec fn after_round(v: SchedulerView, r: Switch, q: Seq<Process>) -> SchedulerView {
    SchedulerView {
        processes: q,
        current: match r {
            Switch::Switched(id) => Some(id),
            _ => v.current,
        },
        last_id: v.last_id,
    }
}

/// Resuming: one round over the queue, as `round` states.
pub open spec fn resumed(v: SchedulerView, now: u64) -> (SchedulerView, Switch, Option<TrapFrame>) {
    let (r, q, tf) = round(v.processes, now);
    (after_round(v, r, q), r, tf)
}

/// The queue once the front process has left the CPU with frame `tf` in
/// state `st`: it goes to the back.
pub open spec fn parked(q: Seq<Process>, tf: TrapFrame, st: State) -> Seq<Process> {
    q.drop_first().push(saved(q[0], tf, st))
}

/// Switching: the front process, the one on the CPU, takes frame `tf` and
/// state `st` and goes to the back; then one round, as `round` states. An
/// empty queue is left alone.
pub open spec fn switched(v: SchedulerView, st: State, tf: TrapFrame, now: u64) -> (
    SchedulerView,
    Switch,
    Option<TrapFrame>,
) {
    if v.processes.len() == 0 {
        (v, Switch::Empty, None)
    } else {
        resumed(
            SchedulerView {
                processes: parked(v.processes, tf, st),
                current: v.current,
                last_id: v.last_id,
            },
            now,
        )
    }
}

/// The index of the first process of `q`, from index `i` on, with ID `id`;
/// the queue's length when there is none.
pub open spec fn index_of_id(q: Seq<Process>, id: Id, i: int) -> int
    decreases q.len() - i,
{
    if i >= q.len() {
        q.len() as int
    } else if id_of(q[i]) == id {
        i
    } else {
        index_of_id(q, id, i + 1)
    }
}

/// Removing the process with ID `id` from a non-empty queue. When it is the
/// front process, the one on the CPU, the scheduler switches away from it
/// as a ready process and then drops the process at the back of the queue,
/// answering `id`. Otherwise the first process with that ID is dropped and
/// its index in the queue is the answer; `None` when there is none. The
/// frame to restore is the third component.
pub open spec fn removed(v: SchedulerView, id: Id, tf: TrapFrame, now: u64) -> (
    SchedulerView,
    Option<u64>,
    Option<TrapFrame>,
) {
    if id_of(v.processes[0]) == id {
        let (w, r, t) = switched(v, State::Ready, tf, now);
        (
            SchedulerView {
                processes: w.processes.drop_last(),
                current: w.current,
                last_id: w.last_id,
            },
            Some(id),
            t,
        )
    } else {
        let i = index_of_id(v.processes, id, 0);
        if i >= v.processes.len() {
            (v, None, None)
        } else {
            (
                SchedulerView {
                    processes: v.processes.remove(i),
                    current: v.current,
                    last_id: v.last_id,
                },
                Some(i as u64),
                None,
            )
        }
    }
}

/// The round-robin scheduler: a queue of processes whose front is the one on
/// the CPU.
#[derive(Debug)]
pub struct Scheduler {
    processes: VecDeque<Process>,
    current: Option<Id>,
    last_id: Option<Id>,
}

impl View for Scheduler {
    type V = SchedulerView;

    closed spec fn view(&self) -> SchedulerView {
        SchedulerView { processes: self.processes@, current: self.current, last_id: self.last_id }
    }
}

/// Facts about `first_ready`: it lies in `[i, len]`, no process before it
/// can run, and the one at it can.
proof fn lemma_first_ready(q: Seq<Process>, now: u64, i: int)
    requires
        0 <= i <= q.len(),
    ensures
        i <= first_ready(q, now, i) <= q.len(),
        forall|j: int| i <= j < first_ready(q, now, i) ==> !ready_at(#[trigger] q[j], now),
        first_ready(q, now, i) < q.len() ==> ready_at(q[first_ready(q, now, i)], now),
    decreases q.len() - i,
{
    if i < q.len() && !ready_at(q[i], now) {
        lemma_first_ready(q, now, i + 1);
    }
}

/// Facts about `index_of_id`, as for `first_ready`.
proof fn lemma_index_of_id(q: Seq<Process>, id: Id, i: int)
    requires
        0 <= i <= q.len(),
    ensures
        i <= index_of_id(q, id, i) <= q.len(),
        forall|j: int| i <= j < index_of_id(q, id, i) ==> id_of(#[trigger] q[j]) != id,
        index_of_id(q, id, i) < q.len() ==> id_of(q[index_of_id(q, id, i)]) == id,
    decreases q.len() - i,
{
    if i < q.len() && id_of(q[i]) != id {
        lemma_index_of_id(q, id, i + 1);
    }
}

/// A first ready process is the one found by scanning from `k` when none
/// before `k` can run.
proof fn lemma_first_ready_from(q: Seq<Process>, now: u64, k: int)
    requires
        0 <= k <= q.len(),
        forall|j: int| 0 <= j < k ==> !ready_at(#[trigger] q[j], now),
    ensures
        first_ready(q, now, 0) == first_ready(q, now, k),
    decreases k,
{
    if k > 0 {
        lemma_first_ready_from(q, now, k - 1);
    }
}

impl Scheduler {
    /// A scheduler with an empty queue.
    pub fn new() -> (s: Scheduler)
        ensures
            s@.processes == Seq::<Process>::empty(),
            s@.current is None,
            s@.last_id is None,
    {
        Scheduler { processes: VecDeque::new(), current: None, last_id: None }
    }

    /// Adds `process` to the back of the queue under a new ID, saved in its
    /// frame, as `added` states; `None` when no ID is left.
    pub fn add(&mut self, process: Process) -> (r: Option<Id>)
        ensures
            (final(self)@, r) == added(old(self)@, process),
    {
        let mut process = process;
        let id: Id = match self.last_id {
            Some(l) => {
                if l == u64::MAX {
                    return None;
                }
                l + 1
            },
            None => 0,
        };
        process.trap_frame.tpidr = id;
        self.processes.push_back(process);
        if self.current.is_none() {
            self.current = Some(id);
        }
        self.last_id = Some(id);
        proof {
            assert(self@.processes =~= added(old(self)@, process).0.processes);
        }
        Some(id)
    }

    /// One scheduling round at time `now`, as `round` states: the first
    /// process that can run is switched into `tf` and becomes current.
    pub fn resume(&mut self, tf: &mut TrapFrame, now: u64) -> (r: Switch)
        ensures
            (final(self)@, r) == (resumed(old(self)@, now).0, resumed(old(self)@, now).1),
            match resumed(old(self)@, now).2 {
                Some(t) => *final(tf) == t,
                None => *final(tf) == *old(tf),
            },
    {
        let ghost q = self.processes@;
        let n: usize = self.processes.len();
        if n == 0 {
            return Switch::Empty;
        }
        let mut k: usize = 0;
        while k < n
            invariant
                n == q.len(),
                k <= n,
                self.processes@ == q.subrange(k as int, n as int) + q.subrange(0, k as int),
                forall|j: int| 0 <= j < k ==> !ready_at(#[trigger] q[j], now),
                self.current == old(self).current,
                self.last_id == old(self).last_id,
                *tf == *old(tf),
                q == old(self)@.processes,
            decreases n - k,
        {
            let ghost before = self.processes@;
            let mut p = self.processes.pop_front().unwrap();
            proof {
                assert(p == q[k as int]);
            }
            if p.is_ready(now) {
                *tf = *p.trap_frame;
                p.state = State::Running;
                let id: Id = p.get_id();
                self.processes.push_front(p);
                self.current = Some(id);
                proof {
                    lemma_first_ready_from(q, now, k as int);
                    assert(first_ready(q, now, k as int) == k);
                    assert(self.processes@ =~= seq![running(woken(q[k as int], now))]
                        + q.subrange(k + 1, n as int) + q.subrange(0, k as int));
                }
                return Switch::Switched(id);
            }
            self.processes.push_back(p);
            k = k + 1;
            proof {
                assert(self.processes@ =~= q.subrange(k as int, n as int) + q.subrange(0, k as int));
            }
        }
        proof {
            lemma_first_ready_from(q, now, n as int);
            assert(self.processes@ =~= q);
        }
        Switch::Idle
    }

    /// Switches away from the front process: it takes `tf` and `new_state`
    /// and goes to the back; then one round at time `now`, as `switched`
    /// states.
    pub fn switch(&mut self, new_state: State, tf: &mut TrapFrame, now: u64) -> (r: Switch)
        ensures
            (final(self)@, r) == (switched(old(self)@, new_state, *old(tf), now).0, switched(
                old(self)@,
                new_state,
                *old(tf),
                now,
            ).1),
            match switched(old(self)@, new_state, *old(tf), now).2 {
                Some(t) => *final(tf) == t,
                None => *final(tf) == *old(tf),
            },
    {
        let ghost q = self.processes@;
        match self.processes.pop_front() {
            None => Switch::Empty,
            Some(p) => {
                let mut p = p;
                p.trap_frame = Box::new(*tf);
                p.state = new_state;
                self.processes.push_back(p);
                proof {
                    assert(self.processes@ =~= parked(q, *old(tf), new_state));
                }
                self.resume(tf, now)
            },
        }
    }

    /// Removes the process with ID `remove_id`, as `removed` states.
    pub fn remove(&mut self, remove_id: Id, tf: &mut TrapFrame, now: u64) -> (r: Option<u64>)
        requires
            old(self)@.processes.len() > 0,
        ensures
            (final(self)@, r) == (removed(old(self)@, remove_id, *old(tf), now).0, removed(
                old(self)@,
                remove_id,
                *old(tf),
                now,
            ).1),
            match removed(old(self)@, remove_id, *old(tf), now).2 {
                Some(t) => *final(tf) == t,
                None => *final(tf) == *old(tf),
            },
    {
        let ghost q = self.processes@;
        if self.processes[0].get_id() == remove_id {
            proof {
                lemma_ready_switch(q, *old(tf), now);
            }
            let _ = self.switch(State::Ready, tf, now);
            self.processes.pop_back();
            proof {
                assert(self@.processes =~= switched(old(self)@, State::Ready, *old(tf), now).0.processes.drop_last());
            }
            Some(remove_id)
        } else {
            let n: usize = self.processes.len();
            let mut index: usize = 0;
            proof {
                lemma_index_of_id(q, remove_id, 0);
            }
            while index < n
                invariant
                    n == q.len(),
                    index <= n,
                    self.processes@ == q,
                    forall|j: int| 0 <= j < index ==> id_of(#[trigger] q[j]) != remove_id,
                    index_of_id(q, remove_id, 0) == index_of_id(q, remove_id, index as int),
                    id_of(q[0]) != remove_id,
                    *tf == *old(tf),
                    self.current == old(self).current,
                    self.last_id == old(self).last_id,
                    q == old(self)@.processes,
                decreases n - index,
            {
                if self.processes[index].get_id() == remove_id {
                    proof {
                        assert(index_of_id(q, remove_id, index as int) == index);
                    }
                    self.processes.remove(index);
                    return Some(index as u64);
                }
                index = index + 1;
            }
            None
        }
    }

    /// The IDs of the queued processes, front first.
    pub fn current(&self) -> (ids: Vec<u64>)
        ensures
            ids@ == self@.processes.map_values(|p: Process| id_of(p)),
    {
        let mut ids: Vec<u64> = Vec::new();
        let n: usize = self.processes.len();
        let mut i: usize = 0;
        while i < n
            invariant
                n == self@.processes.len(),
                i <= n,
                ids@ == self@.processes.subrange(0, i as int).map_values(|p: Process| id_of(p)),
            decreases n - i,
        {
            ids.push(self.processes[i].get_id());
            i = i + 1;
            proof {
                assert(ids@ =~= self@.processes.subrange(0, i as int).map_values(
                    |p: Process| id_of(p),
                ));
            }
        }
        proof {
            assert(self@.processes.subrange(0, n as int) =~= self@.processes);
        }
        ids
    }
}

/// The process scheduler of the whole machine: uninitialized until the
/// kernel starts scheduling.
#[derive(Debug)]
pub struct GlobalScheduler {
    inner: Option<Scheduler>,
}

impl View for GlobalScheduler {
    type V = Option<SchedulerView>;

    closed spec fn view(&self) -> Option<SchedulerView> {
        match self.inner {
            Some(s) => Some(s@),
            None => None,
        }
    }
}

impl GlobalScheduler {
    /// An uninitialized scheduler.
    pub fn uninitialized() -> (g: GlobalScheduler)
        ensures
            g@ is None,
    {
        GlobalScheduler { inner: None }
    }

    /// Starts scheduling with an empty queue.
    pub fn initialize(&mut self)
        ensures
            final(self)@ == Some(
                SchedulerView { processes: Seq::empty(), current: None, last_id: None },
            ),
    {
        self.inner = Some(Scheduler::new());
    }

    /// Adds `process`, as `Scheduler::add` does.
    pub fn add(&mut self, process: Process) -> (r: Option<Id>)
        requires
            old(self)@ is Some,
        ensures
            final(self)@ == Some(added(old(self)@->0, process).0),
            r == added(old(self)@->0, process).1,
    {
        match &mut self.inner {
            Some(s) => s.add(process),
            None => None,
        }
    }

    /// Switches away from the process on the CPU, as `Scheduler::switch`
    /// does.
    pub fn switch(&mut self, new_state: State, tf: &mut TrapFrame, now: u64) -> (r: Switch)
        requires
            old(self)@ is Some,
        ensures
            final(self)@ == Some(switched(old(self)@->0, new_state, *old(tf), now).0),
            r == switched(old(self)@->0, new_state, *old(tf), now).1,
            match switched(old(self)@->0, new_state, *old(tf), now).2 {
                Some(t) => *final(tf) == t,
                None => *final(tf) == *old(tf),
            },
    {
        match &mut self.inner {
            Some(s) => s.switch(new_state, tf, now),
            None => Switch::Empty,
        }
    }

    /// One more scheduling round after an idle one, as `Scheduler::resume`
    /// does.
    pub fn resume(&mut self, tf: &mut TrapFrame, now: u64) -> (r: Switch)
        requires
            old(self)@ is Some,
        ensures
            final(self)@ == Some(resumed(old(self)@->0, now).0),
            r == resumed(old(self)@->0, now).1,
            match resumed(old(self)@->0, now).2 {
                Some(t) => *final(tf) == t,
                None => *final(tf) == *old(tf),
            },
    {
        match &mut self.inner {
            Some(s) => s.resume(tf, now),
            None => Switch::Empty,
        }
    }

    /// Removes the process with ID `remove_id`, as `Scheduler::remove` does.
    pub fn remove(&mut self, remove_id: Id, tf: &mut TrapFrame, now: u64) -> (r: Option<u64>)
        requires
            old(self)@ is Some,
            old(self)@->0.processes.len() > 0,
        ensures
            final(self)@ == Some(removed(old(self)@->0, remove_id, *old(tf), now).0),
            r == removed(old(self)@->0, remove_id, *old(tf), now).1,
            match removed(old(self)@->0, remove_id, *old(tf), now).2 {
                Some(t) => *final(tf) == t,
                None => *final(tf) == *old(tf),
            },
    {
        match &mut self.inner {
            Some(s) => s.remove(remove_id, tf, now),
            None => None,
        }
    }

    /// The IDs of the queued processes, front first.
    pub fn current(&self) -> (ids: Vec<u64>)
        requires
            self@ is Some,
        ensures
            ids@ == self@->0.processes.map_values(|p: Process| id_of(p)),
    {
        match &self.inner {
            Some(s) => s.current(),
            None => Vec::new(),
        }
    }
}

/// Switching away from the process on the CPU as a ready process never
/// leaves the CPU idle: at worst that same process is switched back in.
pub proof fn lemma_ready_switch(q: Seq<Process>, tf: TrapFrame, now: u64)
    requires
        q.len() > 0,
    ensures
        round(parked(q, tf, State::Ready), now).0 is Switched,
{
    let p = parked(q, tf, State::Ready);
    lemma_first_ready(p, now, 0);
    assert(ready_at(p[p.len() - 1], now));
}

/// The IDs of the processes of `q`, front first.
pub open spec fn ids(q: Seq<Process>) -> Seq<Id> {
    q.map_values(|p: Process| id_of(p))
}

/// The scheduler's IDs are in order: no two queued processes share one, and
/// none is newer than the last ID handed out.
pub open spec fn ids_wf(v: SchedulerView) -> bool {
    &&& ids(v.processes).no_duplicates()
    &&& forall|i: int|
        0 <= i < v.processes.len() ==> v.last_id is Some && id_of(#[trigger] v.processes[i])
            <= v.last_id->0
}

/// Rotating a sequence left by `i` keeps it free of duplicates and keeps its
/// elements.
proof fn lemma_rotate(s: Seq<Id>, i: int)
    requires
        0 <= i <= s.len(),
    ensures
        s.no_duplicates() ==> (s.subrange(i, s.len() as int) + s.subrange(0, i)).no_duplicates(),
        forall|k: int|
            0 <= k < s.len() ==> #[trigger] (s.subrange(i, s.len() as int) + s.subrange(0, i))[k]
                == s[if k < s.len() - i {
                k + i
            } else {
                k - (s.len() - i)
            }],
{
    let n = s.len() as int;
    let r = s.subrange(i, n) + s.subrange(0, i);
    assert forall|k: int| 0 <= k < n implies #[trigger] r[k] == s[if k < n - i {
        k + i
    } else {
        k - (n - i)
    }] by {}
    if s.no_duplicates() {
        assert forall|a: int, b: int| 0 <= a < n && 0 <= b < n && a != b implies r[a] != r[b] by {
            let pa = if a < n - i {
                a + i
            } else {
                a - (n - i)
            };
            let pb = if b < n - i {
                b + i
            } else {
                b - (n - i)
            };
            assert(r[a] == s[pa]);
            assert(r[b] == s[pb]);
        }
    }
}

/// A round keeps the IDs of the queue, rotated.
proof fn lemma_round_ids(q: Seq<Process>, now: u64)
    ensures
        round(q, now).0 is Switched ==> ids(round(q, now).1) == ids(q).subrange(
            first_ready(q, now, 0),
            q.len() as int,
        ) + ids(q).subrange(0, first_ready(q, now, 0)),
        !(round(q, now).0 is Switched) ==> round(q, now).1 == q,
{
    if q.len() > 0 {
        lemma_first_ready(q, now, 0);
        let i = first_ready(q, now, 0);
        if i < q.len() {
            let p = woken(q[i], now);
            assert(id_of(p) == id_of(q[i]));
            assert(ids(round(q, now).1) =~= ids(q).subrange(i, q.len() as int) + ids(q).subrange(
                0,
                i,
            ));
        }
    }
}

/// Resuming keeps the scheduler's IDs in order.
pub proof fn lemma_resume_keeps_ids(v: SchedulerView, now: u64)
    requires
        ids_wf(v),
    ensures
        ids_wf(resumed(v, now).0),
{
    lemma_round_ids(v.processes, now);
    let q = v.processes;
    let w = resumed(v, now).0;
    if round(q, now).0 is Switched {
        lemma_first_ready(q, now, 0);
        let i = first_ready(q, now, 0);
        lemma_rotate(ids(q), i);
        assert forall|k: int| 0 <= k < w.processes.len() implies w.last_id is Some && id_of(
            #[trigger] w.processes[k],
        ) <= w.last_id->0 by {
            assert(id_of(w.processes[k]) == ids(w.processes)[k]);
            let j = if k < q.len() - i {
                k + i
            } else {
                k - (q.len() - i)
            };
            assert(ids(q)[j] == id_of(q[j]));
        }
    }
}

/// Parking the front process with a frame that carries its own ID rotates
/// the IDs by one.
proof fn lemma_parked_ids(q: Seq<Process>, tf: TrapFrame, st: State)
    requires
        q.len() > 0,
        tf.tpidr == id_of(q[0]),
    ensures
        ids(parked(q, tf, st)) == ids(q).subrange(1, q.len() as int) + ids(q).subrange(0, 1),
{
    assert(ids(parked(q, tf, st)) =~= ids(q).subrange(1, q.len() as int) + ids(q).subrange(0, 1));
}

/// Switching keeps the scheduler's IDs in order, when the frame saved into
/// the process on the CPU carries that process's ID.
pub proof fn lemma_switch_keeps_ids(v: SchedulerView, st: State, tf: TrapFrame, now: u64)
    requires
        ids_wf(v),
        v.processes.len() > 0 ==> tf.tpidr == id_of(v.processes[0]),
    ensures
        ids_wf(switched(v, st, tf, now).0),
{
    if v.processes.len() > 0 {
        let q = v.processes;
        let u = SchedulerView { processes: parked(q, tf, st), current: v.current, last_id: v.last_id };
        lemma_parked_ids(q, tf, st);
        lemma_rotate(ids(q), 1);
        assert forall|k: int| 0 <= k < u.processes.len() implies u.last_id is Some && id_of(
            #[trigger] u.processes[k],
        ) <= u.last_id->0 by {
            assert(id_of(u.processes[k]) == ids(u.processes)[k]);
            let j = if k < q.len() - 1 {
                k + 1
            } else {
                0
            };
            assert(ids(q)[j] == id_of(q[j]));
        }
        lemma_resume_keeps_ids(u, now);
    }
}

/// Adding a process keeps the scheduler's IDs in order, and the ID it gets
/// is new: no queued process has it.
pub proof fn lemma_add_keeps_ids(v: SchedulerView, p: Process)
    requires
        ids_wf(v),
    ensures
        ids_wf(added(v, p).0),
        added(v, p).1 matches Some(id) ==> !ids(v.processes).contains(id),
{
    let q = v.processes;
    match added(v, p).1 {
        Some(id) => {
            let w = added(v, p).0;
            assert(ids(w.processes) =~= ids(q).push(id));
            assert forall|k: int| 0 <= k < q.len() implies ids(q)[k] < id by {
                assert(ids(q)[k] == id_of(q[k]));
            }
            assert forall|k: int| 0 <= k < w.processes.len() implies w.last_id is Some && id_of(
                #[trigger] w.processes[k],
            ) <= w.last_id->0 by {
                if k < q.len() {
                    assert(w.processes[k] == q[k]);
                }
            }
        },
        None => {},
    }
}

/// Dropping the element at `i` keeps a sequence free of duplicates.
proof fn lemma_remove_nodup(s: Seq<Id>, i: int)
    requires
        s.no_duplicates(),
        0 <= i < s.len(),
    ensures
        s.remove(i).no_duplicates(),
{
    let r = s.remove(i);
    assert forall|a: int, b: int| 0 <= a < r.len() && 0 <= b < r.len() && a != b implies r[a]
        != r[b] by {
        let pa = if a < i {
            a
        } else {
            a + 1
        };
        let pb = if b < i {
            b
        } else {
            b + 1
        };
        assert(r[a] == s[pa]);
        assert(r[b] == s[pb]);
    }
}

/// Removing a process keeps the scheduler's IDs in order, when the frame
/// saved into the process on the CPU carries that process's ID.
pub proof fn lemma_remove_keeps_ids(v: SchedulerView, id: Id, tf: TrapFrame, now: u64)
    requires
        ids_wf(v),
        v.processes.len() > 0,
        tf.tpidr == id_of(v.processes[0]),
    ensures
        ids_wf(removed(v, id, tf, now).0),
{
    let q = v.processes;
    if id_of(q[0]) == id {
        lemma_switch_keeps_ids(v, State::Ready, tf, now);
        let w = switched(v, State::Ready, tf, now).0;
        let n = w.processes.len();
        if n > 0 {
            lemma_remove_nodup(ids(w.processes), n - 1);
            assert(ids(w.processes.drop_last()) =~= ids(w.processes).remove(n - 1));
        } else {
            assert(w.processes.drop_last().len() == 0);
        }
        assert forall|k: int| 0 <= k < w.processes.drop_last().len() implies w.last_id is Some
            && id_of(#[trigger] w.processes.drop_last()[k]) <= w.last_id->0 by {
            assert(w.processes.drop_last()[k] == w.processes[k]);
        }
    } else {
        lemma_index_of_id(q, id, 0);
        let i = index_of_id(q, id, 0);
        if i < q.len() {
            lemma_remove_nodup(ids(q), i);
            assert(ids(q.remove(i)) =~= ids(q).remove(i));
            assert forall|k: int| 0 <= k < q.remove(i).len() implies v.last_id is Some && id_of(
                #[trigger] q.remove(i)[k],
            ) <= v.last_id->0 by {
                if k < i {
                    assert(q.remove(i)[k] == q[k]);
                } else {
                    assert(q.remove(i)[k] == q[k + 1]);
                }
            }
        }
    }
}

} // verus!
