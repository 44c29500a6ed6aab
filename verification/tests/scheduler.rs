use sched_core::{Scheduler, SwitchRequest, TaskId, HIGH_PRIO, LOW_PRIO, NORMAL_PRIO};

fn booted() -> (Scheduler, TaskId) {
    let mut s = Scheduler::new();
    s.add_idle_task();
    let idle = s.get_current_taskid();
    (s, idle)
}

#[test]
fn idle_only_hundred_reschedules() {
    let (mut s, idle) = booted();
    assert_eq!(s.number_of_tasks(), 0);
    for _ in 0..100 {
        let r = s.reschedule();
        assert!(r.is_none());
        assert_eq!(s.get_current_taskid(), idle);
        assert_eq!(s.number_of_tasks(), 0);
    }
}

#[test]
fn spawn_enqueues_without_preempting() {
    let (mut s, idle) = booted();
    let a = s.spawn(0x1000, NORMAL_PRIO).unwrap();
    assert_eq!(s.get_current_taskid(), idle);
    assert_eq!(s.number_of_tasks(), 1);
    let r = s.reschedule().unwrap();
    assert_eq!(r.old_id, idle);
    assert_eq!(r.new_id, a);
    assert_eq!(s.get_current_taskid(), a);
    // a running NORMAL task is not preempted by spawning alone, not even
    // by a HIGH spawn
    let _low = s.spawn(0x2000, LOW_PRIO).unwrap();
    let high = s.spawn(0x3000, HIGH_PRIO).unwrap();
    assert_eq!(s.get_current_taskid(), a);
    // the next reschedule hands the CPU to the highest-priority ready task
    let r2 = s.reschedule().unwrap();
    assert_eq!(r2.new_id, high);
    assert_eq!(s.get_current_taskid(), high);
}

#[test]
fn low_task_preempted_by_high_spawn_on_reschedule() {
    let (mut s, _idle) = booted();
    let low = s.spawn(0x1000, LOW_PRIO).unwrap();
    s.reschedule();
    assert_eq!(s.get_current_taskid(), low);
    let high = s.spawn(0x2000, HIGH_PRIO).unwrap();
    assert_eq!(s.get_current_taskid(), low);
    s.reschedule();
    assert_eq!(s.get_current_taskid(), high);
}

#[test]
fn equal_priority_tasks_alternate_fifo() {
    let (mut s, _idle) = booted();
    let a = s.spawn(0x1000, NORMAL_PRIO).unwrap();
    let b = s.spawn(0x2000, NORMAL_PRIO).unwrap();
    s.reschedule();
    assert_eq!(s.get_current_taskid(), a);
    let mut turns_a = 0u32;
    let mut turns_b = 0u32;
    let mut expect_a = false;
    for _ in 0..1000 {
        let r = s.reschedule().expect("peers must rotate");
        let cur = s.get_current_taskid();
        assert_eq!(r.new_id, cur);
        if expect_a {
            assert_eq!(cur, a);
            turns_a += 1;
        } else {
            assert_eq!(cur, b);
            turns_b += 1;
        }
        expect_a = !expect_a;
        assert_eq!(s.number_of_tasks(), 2);
    }
    assert_eq!(turns_a, 500);
    assert_eq!(turns_b, 500);
}

#[test]
fn exit_reclaims_and_reuses_the_control_block() {
    let (mut s, idle) = booted();
    let t1 = s.spawn(0x1000, NORMAL_PRIO).unwrap();
    s.reschedule();
    assert_eq!(s.get_current_taskid(), t1);
    assert_eq!(s.number_of_tasks(), 1);
    assert_eq!(s.number_of_tcbs(), 2);
    let r: SwitchRequest = s.exit();
    assert_eq!(r.old_id, t1);
    assert_eq!(r.new_id, idle);
    assert_eq!(s.get_current_taskid(), idle);
    assert_eq!(s.number_of_tasks(), 0);
    // the block survives the exit (its stack was still in use) ...
    assert_eq!(s.number_of_tcbs(), 2);
    // ... and the next spawn revives it, id and all
    let t2 = s.spawn(0x2000, NORMAL_PRIO).unwrap();
    assert_eq!(t2, t1);
    assert_eq!(s.number_of_tcbs(), 2);
    assert_eq!(s.number_of_tasks(), 1);
}

#[test]
fn finished_block_is_freed_by_the_next_reschedule() {
    let (mut s, idle) = booted();
    let t1 = s.spawn(0x1000, NORMAL_PRIO).unwrap();
    s.reschedule();
    assert_eq!(s.get_current_taskid(), t1);
    s.exit();
    assert_eq!(s.get_current_taskid(), idle);
    assert_eq!(s.number_of_tcbs(), 2);
    // one reschedule runs the deferred cleanup
    let r = s.reschedule();
    assert!(r.is_none());
    assert_eq!(s.number_of_tcbs(), 1);
    assert_eq!(s.number_of_tasks(), 0);
}

#[test]
fn thousand_short_lived_tasks_reuse_a_bounded_arena() {
    let (mut s, idle) = booted();
    let mut peak = 0usize;
    for i in 0..1000usize {
        let t = s.spawn(0x1000 + i, NORMAL_PRIO).unwrap();
        s.reschedule();
        assert_eq!(s.get_current_taskid(), t);
        s.exit();
        assert_eq!(s.get_current_taskid(), idle);
        if s.number_of_tcbs() > peak {
            peak = s.number_of_tcbs();
        }
    }
    assert!(peak <= 3);
    assert_eq!(s.number_of_tasks(), 0);
}

#[test]
fn abort_acts_like_exit() {
    let (mut s, idle) = booted();
    let t = s.spawn(0x1000, NORMAL_PRIO).unwrap();
    s.reschedule();
    assert_eq!(s.get_current_taskid(), t);
    let r = s.abort();
    assert_eq!(r.old_id, t);
    assert_eq!(s.get_current_taskid(), idle);
    assert_eq!(s.number_of_tasks(), 0);
}

#[test]
fn wakeup_before_reschedule_loses_no_wakeup() {
    let (mut s, _idle) = booted();
    let a = s.spawn(0x1000, NORMAL_PRIO).unwrap();
    s.reschedule();
    assert_eq!(s.get_current_taskid(), a);
    // a sync primitive blocks the current task and stores the handle ...
    let h = s.block_current_task();
    assert_eq!(h, a);
    // ... and the wakeup lands before the task ever reschedules
    s.wakeup_task(h);
    let r = s.reschedule().unwrap();
    // the task was already ready again: it keeps the CPU instead of
    // falling back to idle
    assert_eq!(r.new_id, a);
    assert_eq!(s.get_current_taskid(), a);
    assert_eq!(s.number_of_tasks(), 1);
}

#[test]
fn second_wakeup_is_a_no_op() {
    let (mut s, _idle) = booted();
    let a = s.spawn(0x1000, NORMAL_PRIO).unwrap();
    s.reschedule();
    let h = s.block_current_task();
    s.wakeup_task(h);
    s.wakeup_task(h);
    let b = s.spawn(0x2000, NORMAL_PRIO).unwrap();
    // ready order is [a, b]; were the second wakeup not a no-op it would
    // be [a, a, b] and b would not run second
    s.reschedule();
    assert_eq!(s.get_current_taskid(), a);
    s.reschedule();
    assert_eq!(s.get_current_taskid(), b);
}

#[test]
fn priorities_are_reported() {
    let (mut s, idle) = booted();
    let a = s.spawn(0x1000, HIGH_PRIO).unwrap();
    assert_eq!(s.get_priority(a), HIGH_PRIO);
    assert_eq!(s.get_priority(idle), LOW_PRIO);
    // an unknown id reports the default priority
    assert_eq!(s.get_priority(TaskId(999)), NORMAL_PRIO);
    assert_eq!(s.get_current_priority(), LOW_PRIO);
    s.reschedule();
    assert_eq!(s.get_current_priority(), HIGH_PRIO);
}

#[test]
fn stacks_are_distinct_and_nonzero() {
    let (mut s, _idle) = booted();
    let (rsp_idle, ist_idle) = s.get_current_stacks();
    assert!(rsp_idle > 0 && ist_idle > 0);
    assert_ne!(rsp_idle, ist_idle);
    assert_eq!(s.get_kernel_stack(), rsp_idle);
    let a = s.spawn(0x1000, NORMAL_PRIO).unwrap();
    s.reschedule();
    assert_eq!(s.get_current_taskid(), a);
    let (rsp_a, ist_a) = s.get_current_stacks();
    assert_ne!(rsp_a, rsp_idle);
    assert_ne!(ist_a, ist_idle);
}

#[test]
fn count_tracks_blocked_tasks_too() {
    let (mut s, _idle) = booted();
    let a = s.spawn(0x1000, NORMAL_PRIO).unwrap();
    s.reschedule();
    assert_eq!(s.number_of_tasks(), 1);
    let h = s.block_current_task();
    // a blocked task still counts: it is neither idle, finished nor invalid
    assert_eq!(s.number_of_tasks(), 1);
    s.reschedule();
    assert_ne!(s.get_current_taskid(), a);
    s.wakeup_task(h);
    assert_eq!(s.number_of_tasks(), 1);
    s.reschedule();
    assert_eq!(s.get_current_taskid(), a);
}
