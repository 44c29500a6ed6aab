use sched_core::{Mutex, MutexGuard, Scheduler, TaskId, HIGH_PRIO, NORMAL_PRIO};

fn booted() -> (Scheduler, TaskId) {
    let mut s = Scheduler::new();
    s.add_idle_task();
    let idle = s.get_current_taskid();
    (s, idle)
}

#[test]
fn uncontended_lock_never_touches_the_scheduler() {
    let (mut s, _idle) = booted();
    let a = s.spawn(0x1000, NORMAL_PRIO).unwrap();
    s.reschedule();
    let mut m: Mutex<u64> = Mutex::new(7);
    let before = s.get_current_taskid();
    let g = m.lock(&mut s).expect("free mutex must be taken at once");
    assert_eq!(*m.get(), 7);
    m.set(8);
    m.unlock(g, &mut s);
    // no contention: neither call involved the scheduler, so nothing
    // rescheduled and the current task is untouched
    assert_eq!(s.get_current_taskid(), before);
    assert_eq!(s.get_current_taskid(), a);
    assert_eq!(s.number_of_tasks(), 1);
    assert_eq!(*m.get(), 8);
}

#[test]
fn try_lock_takes_only_a_free_mutex() {
    let mut m: Mutex<u64> = Mutex::new(0);
    let g = m.try_lock().expect("free");
    assert!(m.try_lock().is_none());
    let mut s = Scheduler::new();
    s.add_idle_task();
    m.unlock(g, &mut s);
    assert!(m.try_lock().is_some());
}

#[test]
fn into_inner_returns_the_data() {
    let m: Mutex<u64> = Mutex::new(41);
    assert_eq!(m.into_inner(), 41);
}

#[test]
fn contended_lock_blocks_and_release_wakes() {
    let (mut s, _idle) = booted();
    let a = s.spawn(0x1000, NORMAL_PRIO).unwrap();
    let b = s.spawn(0x2000, NORMAL_PRIO).unwrap();
    s.reschedule();
    assert_eq!(s.get_current_taskid(), a);
    let mut m: Mutex<u64> = Mutex::new(0);
    let ga = m.lock(&mut s).unwrap();
    // a keeps holding the lock across its yield
    s.reschedule();
    assert_eq!(s.get_current_taskid(), b);
    // b contends: it is blocked and queued, and must yield
    assert!(m.lock(&mut s).is_none());
    s.reschedule();
    assert_eq!(s.get_current_taskid(), a);
    // a releases: b is woken and, being ready again, takes its turn
    m.unlock(ga, &mut s);
    s.reschedule();
    assert_eq!(s.get_current_taskid(), b);
    let gb = m.lock(&mut s).expect("released lock must be free for the woken task");
    m.unlock(gb, &mut s);
}

#[test]
fn release_wakes_the_highest_priority_waiter() {
    let (mut s, idle) = booted();
    let holder = s.spawn(0x1000, HIGH_PRIO).unwrap();
    let w_low = s.spawn(0x2000, sched_core::LOW_PRIO).unwrap();
    let w_mid = s.spawn(0x3000, NORMAL_PRIO).unwrap();
    let mut m: Mutex<u64> = Mutex::new(0);
    s.reschedule();
    assert_eq!(s.get_current_taskid(), holder);
    // the holder takes the lock, then parks itself on some other condition
    let g = m.lock(&mut s).unwrap();
    let h = s.block_current_task();
    s.reschedule();
    // both remaining tasks contend in turn and block in the mutex's queue
    assert_eq!(s.get_current_taskid(), w_mid);
    assert!(m.lock(&mut s).is_none());
    s.reschedule();
    assert_eq!(s.get_current_taskid(), w_low);
    assert!(m.lock(&mut s).is_none());
    s.reschedule();
    assert_eq!(s.get_current_taskid(), idle);
    // an interrupt wakes the holder, which releases the lock: of the two
    // waiters, the normal-priority one is woken, not the low one
    s.wakeup_task(h);
    s.reschedule();
    assert_eq!(s.get_current_taskid(), holder);
    m.unlock(g, &mut s);
    s.exit();
    assert_eq!(s.get_current_taskid(), w_mid);
    let g2 = m.lock(&mut s).expect("the woken waiter finds the lock free");
    // the low waiter is still blocked: only the holder's exit and this
    // release let it run
    m.unlock(g2, &mut s);
    s.exit();
    assert_eq!(s.get_current_taskid(), w_low);
    let g3 = m.lock(&mut s).unwrap();
    m.unlock(g3, &mut s);
}

#[test]
fn two_tasks_increment_to_twenty_thousand() {
    let (mut s, idle) = booted();
    let a = s.spawn(0x1000, NORMAL_PRIO).unwrap();
    let b = s.spawn(0x2000, NORMAL_PRIO).unwrap();
    s.reschedule();
    let mut m: Mutex<u64> = Mutex::new(0);
    const ROUNDS: u64 = 10_000;
    // per task: 0 = wants the lock, 1 = holds it, 2 = done
    let mut phase = [0u8; 2];
    let mut done = [0u64; 2];
    let mut guards: [Option<MutexGuard>; 2] = [None, None];
    let mut steps = 0u64;
    while done[0] < ROUNDS || done[1] < ROUNDS {
        steps += 1;
        assert!(steps < 500_000, "tasks must make progress");
        let cur = s.get_current_taskid();
        if cur == idle {
            s.reschedule();
            continue;
        }
        let i = if cur == a { 0 } else { 1 };
        assert!(cur == a || cur == b);
        match phase[i] {
            0 => {
                match m.lock(&mut s) {
                    Some(g) => {
                        guards[i] = Some(g);
                        phase[i] = 1;
                        // hold the lock across a yield to force contention
                        s.reschedule();
                    }
                    None => {
                        // blocked in the mutex's queue until the holder
                        // releases
                        s.reschedule();
                    }
                }
            }
            1 => {
                let v = *m.get();
                m.set(v + 1);
                // each critical section moves the counter by exactly one
                assert_eq!(*m.get(), v + 1);
                let g = guards[i].take().unwrap();
                m.unlock(g, &mut s);
                done[i] += 1;
                if done[i] == ROUNDS {
                    phase[i] = 2;
                    s.exit();
                } else {
                    phase[i] = 0;
                    s.reschedule();
                }
            }
            _ => {
                s.reschedule();
            }
        }
    }
    assert_eq!(*m.get(), 2 * ROUNDS);
    assert_eq!(s.number_of_tasks(), 0);
}
