use cs140e::process::scheduler::{GlobalScheduler, Scheduler, Switch};
use cs140e::process::{Process, Sleep, State, TICK, USER_SPSR};
use cs140e::traps::syscall::{handle_syscall, sleep};
use cs140e::traps::TrapFrame;

fn user(entry: u64) -> Process {
    Process::user(entry, 0x8_0000 + entry)
}

fn frame_of(entry: u64, id: u64) -> TrapFrame {
    let mut tf = TrapFrame::zeroed();
    tf.elr = entry;
    tf.sp = 0x8_0000 + entry;
    tf.spsr = USER_SPSR;
    tf.tpidr = id;
    tf
}

#[test]
fn tick_is_a_tenth_of_a_second() {
    assert_eq!(TICK, 100_000);
}

#[test]
fn new_processes() {
    let p = Process::new();
    assert!(matches!(p.state, State::Ready));
    assert_eq!(p.get_id(), 0);
    assert_eq!(p.trap_frame.x1_x29, [0u64; 29]);
    let u = user(0x1000);
    assert_eq!(u.trap_frame.elr, 0x1000);
    assert_eq!(u.trap_frame.sp, 0x8_1000);
    assert_eq!(u.trap_frame.spsr, 0b1101_00_0000);
}

#[test]
fn add_hands_out_increasing_ids() {
    let mut s = Scheduler::new();
    assert_eq!(s.add(user(1)), Some(0));
    assert_eq!(s.add(user(2)), Some(1));
    assert_eq!(s.add(user(3)), Some(2));
    assert_eq!(s.current(), vec![0, 1, 2]);
}

#[test]
fn switch_round_robin() {
    let mut s = Scheduler::new();
    s.add(user(1));
    s.add(user(2));
    s.add(user(3));
    // process 0 is on the CPU
    let mut tf = frame_of(1, 0);
    tf.x0 = 77;
    assert_eq!(s.switch(State::Ready, &mut tf, 0), Switch::Switched(1));
    assert_eq!(tf.elr, 2);
    assert_eq!(tf.tpidr, 1);
    assert_eq!(s.current(), vec![1, 2, 0]);
    assert_eq!(s.switch(State::Ready, &mut tf, 0), Switch::Switched(2));
    assert_eq!(s.switch(State::Ready, &mut tf, 0), Switch::Switched(0));
    // the frame saved for process 0 comes back
    assert_eq!(tf.x0, 77);
    assert_eq!(s.current(), vec![0, 1, 2]);
}

#[test]
fn switch_on_an_empty_queue() {
    let mut s = Scheduler::new();
    let mut tf = TrapFrame::zeroed();
    assert_eq!(s.switch(State::Ready, &mut tf, 0), Switch::Empty);
    assert_eq!(s.resume(&mut tf, 0), Switch::Empty);
}

#[test]
fn sleeping_processes_wait_for_their_time() {
    let mut s = Scheduler::new();
    s.add(user(1));
    s.add(user(2));
    let mut tf = frame_of(1, 0);
    // process 0 sleeps 5 ms from t = 1000 us
    assert_eq!(
        s.switch(State::Waiting(Sleep::new(1000, 5)), &mut tf, 1000),
        Switch::Switched(1)
    );
    // process 1 blocks too, at t = 2000 us, until t = 12000 us
    assert_eq!(
        s.switch(State::Waiting(Sleep::new(2000, 10)), &mut tf, 2000),
        Switch::Idle
    );
    assert_eq!(s.resume(&mut tf, 6000), Switch::Idle);
    // at t = 6001 us process 0 wakes: x7 = 0 and x0 = 5 ms
    assert_eq!(s.resume(&mut tf, 6001), Switch::Switched(0));
    assert_eq!(tf.tpidr, 0);
    assert_eq!(tf.x1_x29[6], 0);
    assert_eq!(tf.x0, 5);
    assert_eq!(s.current(), vec![0, 1]);
}

#[test]
fn remove_others_answers_their_index() {
    let mut s = Scheduler::new();
    s.add(user(1));
    s.add(user(2));
    s.add(user(3));
    let mut tf = frame_of(1, 0);
    assert_eq!(s.remove(2, &mut tf, 0), Some(2));
    assert_eq!(s.current(), vec![0, 1]);
    assert_eq!(s.remove(9, &mut tf, 0), None);
    assert_eq!(s.current(), vec![0, 1]);
    assert_eq!(tf.elr, 1);
}

#[test]
fn remove_the_running_process() {
    let mut s = Scheduler::new();
    s.add(user(1));
    s.add(user(2));
    let mut tf = frame_of(1, 0);
    assert_eq!(s.remove(0, &mut tf, 0), Some(0));
    // switched to process 1, and process 0, at the back, was dropped
    assert_eq!(tf.tpidr, 1);
    assert_eq!(s.current(), vec![1]);
}

#[test]
fn global_scheduler_delegates() {
    let mut g = GlobalScheduler::uninitialized();
    g.initialize();
    assert_eq!(g.add(user(1)), Some(0));
    assert_eq!(g.add(user(2)), Some(1));
    let mut tf = frame_of(1, 0);
    assert_eq!(g.switch(State::Ready, &mut tf, 0), Switch::Switched(1));
    assert_eq!(g.current(), vec![1, 0]);
    assert_eq!(g.remove(0, &mut tf, 0), Some(1));
    assert_eq!(g.current(), vec![1]);
    // the only process is running: a round finds none ready
    assert_eq!(g.resume(&mut tf, 0), Switch::Idle);
    assert_eq!(tf.tpidr, 1);
}

#[test]
fn sleep_system_call() {
    let mut g = GlobalScheduler::uninitialized();
    g.initialize();
    g.add(user(1));
    g.add(user(2));
    let mut tf = frame_of(1, 0);
    assert_eq!(sleep(&mut g, 3, &mut tf, 500), Switch::Switched(1));
    assert_eq!(g.current(), vec![1, 0]);
}

#[test]
fn system_call_dispatch() {
    let mut g = GlobalScheduler::uninitialized();
    g.initialize();
    g.add(user(1));
    g.add(user(2));
    g.add(user(3));
    // kill process 2: found, so x7 = 0
    let mut tf = frame_of(1, 0);
    tf.x0 = 2;
    assert_eq!(handle_syscall(&mut g, 2, &mut tf, 0), None);
    assert_eq!(tf.x1_x29[6], 0);
    assert_eq!(g.current(), vec![0, 1]);
    // kill a process that does not exist: x7 = 1
    tf.x0 = 42;
    assert_eq!(handle_syscall(&mut g, 2, &mut tf, 0), None);
    assert_eq!(tf.x1_x29[6], 1);
    // an unknown call: x7 = 1
    tf.x1_x29[6] = 0;
    assert_eq!(handle_syscall(&mut g, 9, &mut tf, 0), None);
    assert_eq!(tf.x1_x29[6], 1);
    // sleep 4 ms
    tf.x0 = 4;
    assert_eq!(handle_syscall(&mut g, 1, &mut tf, 100), Some(Switch::Switched(1)));
}

#[test]
fn ids_stay_distinct_over_many_operations() {
    let mut s = Scheduler::new();
    for e in 0..5 {
        s.add(user(e));
    }
    let mut tf = frame_of(0, 0);
    for _ in 0..7 {
        s.switch(State::Ready, &mut tf, 0);
    }
    let front = s.current()[0];
    assert_eq!(tf.tpidr, front);
    s.remove(front, &mut tf, 0);
    s.add(user(9));
    let mut ids = s.current();
    ids.sort();
    ids.dedup();
    assert_eq!(ids.len(), s.current().len());
    assert!(ids.iter().all(|&i| i <= 5));
}

#[test]
fn switching_as_ready_never_idles() {
    let mut s = Scheduler::new();
    s.add(user(1));
    s.add(user(2));
    let mut tf = frame_of(1, 0);
    // process 1 sleeps, so only process 0 can run
    assert_eq!(
        s.switch(State::Waiting(Sleep::new(0, 1000)), &mut tf, 0),
        Switch::Switched(1)
    );
    assert_eq!(s.switch(State::Waiting(Sleep::new(0, 1000)), &mut tf, 10), Switch::Idle);
    let mut s = Scheduler::new();
    s.add(user(1));
    let mut tf = frame_of(1, 0);
    tf.x0 = 5;
    // the only process yields as ready: it is switched back in at once
    assert_eq!(s.switch(State::Ready, &mut tf, 0), Switch::Switched(0));
    assert_eq!(tf.x0, 5);
}
