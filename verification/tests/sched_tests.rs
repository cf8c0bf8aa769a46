use otteros_kernel::mm::addr::VirtAddr;
use otteros_kernel::mm::kstack::KernelStack;
use otteros_kernel::mm::addr::PhysAddr;
use otteros_kernel::mm::vmm::AddressSpace;
use otteros_kernel::sched::{
    self, block_current, current_id, exit_current, find, force_exit, init, join, on_timer_tick, preempt_if_needed,
    ready_len, schedule, sleep_ms, spawn, spawn_user, wake, wake_due, yield_now, ThreadState, TIMESLICE_TICKS,
};

fn stack(n: u64) -> KernelStack {
    let base = 0xffff_d000_0000_0000u64 + n * 0x20000;
    KernelStack { guard: VirtAddr(base), bottom: VirtAddr(base + 0x1000), top: VirtAddr(base + 0x11000) }
}

#[test]
fn init_makes_boot_thread_current() {
    let s = init(stack(0), stack(1), 0x1234);
    assert_eq!(current_id(&s), 0);
    assert_eq!(ready_len(&s), 0);
    assert_eq!(find(&s, 0).unwrap().state(), ThreadState::Running);
    assert_eq!(find(&s, 1).unwrap().state(), ThreadState::Ready);
    assert_eq!(find(&s, 1).unwrap().rsp(), 0x1234);
    assert!(find(&s, 2).is_none());
}

#[test]
fn spawn_queues_new_thread() {
    let mut s = init(stack(0), stack(1), 0);
    let id = spawn(&mut s, String::from("worker"), stack(2), 0x99);
    assert_eq!(id, 2);
    assert_eq!(ready_len(&s), 1);
    let t = find(&s, id).unwrap();
    assert_eq!(t.state(), ThreadState::Ready);
    assert_eq!(t.dispatches(), 0);
    assert_eq!(t.stack(), stack(2));
    assert_eq!(t.address_space(), None);
}

#[test]
fn spawn_user_records_address_space() {
    let mut s = init(stack(0), stack(1), 0);
    let space = AddressSpace { pml4: PhysAddr(0x5000) };
    let id = spawn_user(&mut s, String::from("user"), stack(2), 0, space);
    assert_eq!(find(&s, id).unwrap().address_space(), Some(space));
}

#[test]
fn yield_is_round_robin() {
    let mut s = init(stack(0), stack(1), 0);
    let a = spawn(&mut s, String::from("a"), stack(2), 0);
    let b = spawn(&mut s, String::from("b"), stack(3), 0);
    let sw = yield_now(&mut s);
    assert_eq!(sw.prev, 0);
    assert_eq!(sw.next, a);
    assert_eq!(sw.next_top, stack(2).top.0);
    assert_eq!(current_id(&s), a);
    assert_eq!(find(&s, 0).unwrap().state(), ThreadState::Ready);
    assert_eq!(find(&s, a).unwrap().dispatches(), 1);
    let sw = yield_now(&mut s);
    assert_eq!(sw.next, b);
    let sw = yield_now(&mut s);
    assert_eq!(sw.next, 0);
}

#[test]
fn nothing_ready_runs_idle() {
    let mut s = init(stack(0), stack(1), 0);
    let sw = block_current(&mut s, true).unwrap();
    assert_eq!(sw.next, 1);
    assert_eq!(find(&s, 0).unwrap().state(), ThreadState::Blocked);
    assert_eq!(find(&s, 1).unwrap().state(), ThreadState::Running);
}

#[test]
fn block_without_registration_changes_nothing() {
    let mut s = init(stack(0), stack(1), 0);
    assert!(block_current(&mut s, false).is_none());
    assert_eq!(current_id(&s), 0);
    assert_eq!(find(&s, 0).unwrap().state(), ThreadState::Running);
}

#[test]
fn exited_thread_is_reaped_by_the_next_switch() {
    let mut s = init(stack(0), stack(1), 0);
    let a = spawn(&mut s, String::from("a"), stack(2), 0);
    let sw = yield_now(&mut s);
    assert_eq!(sw.next, a);
    let sw = exit_current(&mut s);
    assert_eq!(sw.prev, a);
    assert_eq!(sw.next, 0);
    assert!(sw.reaped.is_empty());
    assert_eq!(join(&s, a), Some(0));
    let sw = yield_now(&mut s);
    assert_eq!(sw.reaped, vec![stack(2)]);
}

#[test]
fn join_running_thread_is_none() {
    let mut s = init(stack(0), stack(1), 0);
    let a = spawn(&mut s, String::from("a"), stack(2), 0);
    assert_eq!(join(&s, a), None);
}

#[test]
fn force_exit_ready_thread_is_skipped() {
    let mut s = init(stack(0), stack(1), 0);
    let a = spawn(&mut s, String::from("a"), stack(2), 0);
    let b = spawn(&mut s, String::from("b"), stack(3), 0);
    assert_eq!(force_exit(&mut s, a, 7), (true, None));
    assert_eq!(join(&s, a), Some(7));
    let sw = yield_now(&mut s);
    assert_eq!(sw.next, b);
    let sw = yield_now(&mut s);
    assert_eq!(sw.reaped, vec![stack(2)]);
}

#[test]
fn force_exit_unknown_and_twice() {
    let mut s = init(stack(0), stack(1), 0);
    assert_eq!(force_exit(&mut s, 42, 1), (false, None));
    let a = spawn(&mut s, String::from("a"), stack(2), 0);
    assert_eq!(force_exit(&mut s, a, 3), (true, None));
    assert_eq!(force_exit(&mut s, a, 4), (true, None));
    assert_eq!(join(&s, a), Some(3));
}

#[test]
fn force_exit_blocked_thread_returns_stack() {
    let mut s = init(stack(0), stack(1), 0);
    let a = spawn(&mut s, String::from("a"), stack(2), 0);
    yield_now(&mut s);
    assert_eq!(current_id(&s), a);
    block_current(&mut s, true).unwrap();
    assert_eq!(current_id(&s), 0);
    assert_eq!(force_exit(&mut s, a, -1), (true, Some(stack(2))));
    assert_eq!(join(&s, a), Some(-1));
}

#[test]
fn wake_is_idempotent() {
    let mut s = init(stack(0), stack(1), 0);
    let a = spawn(&mut s, String::from("a"), stack(2), 0);
    yield_now(&mut s);
    block_current(&mut s, true).unwrap();
    assert_eq!(ready_len(&s), 0);
    wake(&mut s, a);
    assert_eq!(find(&s, a).unwrap().state(), ThreadState::Ready);
    assert_eq!(ready_len(&s), 1);
    wake(&mut s, a);
    assert_eq!(ready_len(&s), 1);
}

#[test]
fn sleeping_thread_wakes_when_due() {
    let mut s = init(stack(0), stack(1), 0);
    let sw = sleep_ms(&mut s, 100, 5);
    assert_eq!(sw.next, 1);
    assert_eq!(find(&s, 0).unwrap().state(), ThreadState::Sleeping);
    assert!(!wake_due(&mut s, 104));
    assert!(wake_due(&mut s, 105));
    assert_eq!(find(&s, 0).unwrap().state(), ThreadState::Ready);
    assert_eq!(ready_len(&s), 1);
    assert!(!wake_due(&mut s, 200));
}

#[test]
fn sleep_saturates() {
    let mut s = init(stack(0), stack(1), 0);
    sleep_ms(&mut s, u64::MAX - 1, 10);
    assert!(!wake_due(&mut s, u64::MAX - 1));
    assert!(wake_due(&mut s, u64::MAX));
}

#[test]
fn timer_tick_counts_and_preempts() {
    let mut s = init(stack(0), stack(1), 0);
    let a = spawn(&mut s, String::from("a"), stack(2), 0);
    for t in 0..(TIMESLICE_TICKS - 1) {
        on_timer_tick(&mut s, t);
        assert!(preempt_if_needed(&mut s).is_none());
    }
    assert_eq!(find(&s, 0).unwrap().ticks_run(), TIMESLICE_TICKS - 1);
    on_timer_tick(&mut s, 100);
    let sw = preempt_if_needed(&mut s).unwrap();
    assert_eq!(sw.next, a);
    assert!(preempt_if_needed(&mut s).is_none());
}

#[test]
fn wake_while_idle_requests_reschedule() {
    let mut s = init(stack(0), stack(1), 0);
    sleep_ms(&mut s, 0, 1);
    assert_eq!(current_id(&s), 1);
    on_timer_tick(&mut s, 1);
    let sw = preempt_if_needed(&mut s).unwrap();
    assert_eq!(sw.next, 0);
}

#[test]
fn schedule_same_thread_keeps_timeslice() {
    let mut s = init(stack(0), stack(1), 0);
    on_timer_tick(&mut s, 0);
    let sw = schedule(&mut s);
    assert_eq!(sw.prev, 0);
    assert_eq!(sw.next, 0);
    assert_eq!(sched::current(&s).dispatches(), 1);
}
