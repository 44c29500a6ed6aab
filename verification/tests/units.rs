use sched_core::{
    Error, PriorityTaskQueue, SpinlockIrqSave, Task, TaskId, TaskStatus, CONTEXT_FRAME_SIZE,
    HIGH_PRIO, LOW_PRIO, NORMAL_PRIO, STACK_SIZE,
};

#[test]
fn error_messages_match() {
    assert_eq!(
        Error::InternalError.message(),
        "An internal error has occurred, please report."
    );
    assert_eq!(
        Error::NotEnoughMemory.message(),
        "The host system has not enough memory, please check your memory usage."
    );
    assert_eq!(
        Error::InvalidFile(String::from("guest.bin")).message(),
        "The file guest.bin was not found or is invalid."
    );
    assert_eq!(Error::UnknownExitReason(42).message(), "Unknown exit reason.");
    assert_eq!(Error::KVMInitFailed.message(), "Unable to initialize KVM");
    assert_eq!(Error::KVMUnableToCreateVM.message(), "Unable to create VM");
    assert_eq!(
        Error::MissingFrequency.message(),
        "Couldn't get the CPU frequency from your system. (is /proc/cpuinfo missing?)"
    );
    assert_eq!(
        Error::ParseMemory.message(),
        "Couldn't parse the guest memory size from the environment"
    );
    let cloned = Error::NotEnoughMemory.clone();
    assert!(matches!(cloned, Error::NotEnoughMemory));
}

#[test]
fn queue_serves_highest_level_fifo() {
    let mut q = PriorityTaskQueue::new();
    assert!(q.pop().is_none());
    q.push(NORMAL_PRIO, TaskId(1));
    q.push(NORMAL_PRIO, TaskId(2));
    q.push(HIGH_PRIO, TaskId(3));
    q.push(LOW_PRIO, TaskId(4));
    assert_eq!(q.pop(), Some(TaskId(3)));
    assert_eq!(q.pop(), Some(TaskId(1)));
    assert_eq!(q.pop(), Some(TaskId(2)));
    assert_eq!(q.pop(), Some(TaskId(4)));
    assert_eq!(q.pop(), None);
}

#[test]
fn queue_pop_with_prio_respects_the_floor() {
    let mut q = PriorityTaskQueue::new();
    q.push(LOW_PRIO, TaskId(1));
    q.push(NORMAL_PRIO, TaskId(2));
    // nothing at or above HIGH
    assert_eq!(q.pop_with_prio(HIGH_PRIO), None);
    // the best level equals the floor: served
    assert_eq!(q.pop_with_prio(NORMAL_PRIO), Some(TaskId(2)));
    assert_eq!(q.pop_with_prio(NORMAL_PRIO), None);
    assert_eq!(q.pop_with_prio(LOW_PRIO), Some(TaskId(1)));
}

#[test]
fn stack_frame_lands_inside_the_stack() {
    let stack = sched_core::StackRegion { base: 0x4000, size: STACK_SIZE };
    let ist = sched_core::StackRegion { base: 0x4000 + STACK_SIZE, size: STACK_SIZE };
    let mut t = Task::new(TaskId(9), TaskStatus::TaskReady, NORMAL_PRIO, stack, ist);
    assert_eq!(t.last_stack_pointer, 0);
    t.create_stack_frame(0xdead_0000);
    assert_eq!(t.entry, 0xdead_0000);
    assert_eq!(t.last_stack_pointer, 0x4000 + STACK_SIZE - CONTEXT_FRAME_SIZE);
    assert!(t.last_stack_pointer > stack.base);
    assert!(t.last_stack_pointer < stack.bottom());
}

#[test]
fn spinlock_round_trip() {
    let mut l = SpinlockIrqSave::new();
    l.acquire();
    l.release();
    l.acquire();
    l.release();
}
