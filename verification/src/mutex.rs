//! A blocking mutual-exclusion primitive built on the scheduler's
//! block/wakeup contract.

use vstd::prelude::*;

use crate::queue::{best_prio, PriorityTaskQueue};
use crate::scheduler::{block_post, wakeup_post, Scheduler};
use crate::spinlock::SpinlockIrqSave;
use crate::task::{TaskId, TaskStatus, NO_PRIORITIES};

verus! {

/// A mutex's state as contracts speak of it: whether the binary semaphore is
/// free, the priority queue of waiting task ids, and the protected data.
#[verifier::ext_equal]
pub ghost struct MutexView<T> {
    /// Whether the lock can be taken.
    pub free: bool,
    /// Waiting tasks, per priority level.
    pub queue: Seq<Seq<TaskId>>,
    /// The protected data.
    pub data: T,
}

/// A mutual exclusion primitive protecting data of type `T`. Contenders do
/// not spin: a task that finds the lock held parks itself in the mutex's
/// wait queue through [`Scheduler::block_current_task`] and yields; release
/// wakes the highest-priority waiter. Both of the mutex's own fields sit
/// behind IRQ-safe spinlocks, since they are touched from contexts that the
/// scheduler interleaves.
pub struct Mutex<T> {
    /// In principle a binary semaphore: true while the lock is free.
    value: bool,
    /// Guards `value`.
    value_lock: SpinlockIrqSave,
    /// Priority queue of waiting tasks.
    queue: PriorityTaskQueue,
    /// Guards `queue`.
    queue_lock: SpinlockIrqSave,
    /// The protected data.
    data: T,
}

/// Witness that its holder owns the mutex; handing it back to
/// [`Mutex::unlock`] is what releases the lock. In a kernel with run-time
/// cleanup this would be a drop guard; here the release is the explicit
/// call, so that what it does to the scheduler stands in a contract.
pub struct MutexGuard {}

impl<T> View for Mutex<T> {
    type V = MutexView<T>;

    closed spec fn view(&self) -> MutexView<T> {
        MutexView { free: self.value, queue: self.queue@, data: self.data }
    }
}

impl<T> Mutex<T> {
    /// Outside a critical section neither spinlock is held, and the wait
    /// queue has its full complement of levels.
    pub open spec fn inv(&self) -> bool {
        &&& !self.value_lock_held()
        &&& !self.queue_lock_held()
        &&& self@.queue.len() == NO_PRIORITIES
    }

    /// Whether the semaphore's spinlock is held.
    pub closed spec fn value_lock_held(&self) -> bool {
        self.value_lock.is_held()
    }

    /// Whether the wait queue's spinlock is held.
    pub closed spec fn queue_lock_held(&self) -> bool {
        self.queue_lock.is_held()
    }

    /// A free mutex around `user_data`.
    pub fn new(user_data: T) -> (r: Mutex<T>)
        ensures
            r.inv(),
            r@.free,
            r@.data == user_data,
            forall|p: int| 0 <= p < NO_PRIORITIES ==> #[trigger] r@.queue[p].len() == 0,
    {
        Mutex {
            value: true,
            value_lock: SpinlockIrqSave::new(),
            queue: PriorityTaskQueue::new(),
            queue_lock: SpinlockIrqSave::new(),
            data: user_data,
        }
    }

    /// Consumes the mutex, returning the protected data.
    pub fn into_inner(self) -> (r: T)
        ensures
            r == self@.data,
    {
        let Mutex { data, .. } = self;
        data
    }

    /// A reference to the protected data. Reading it races unless the
    /// caller holds the guard.
    pub fn get(&self) -> (r: &T)
        ensures
            *r == self@.data,
    {
        &self.data
    }

    /// Replaces the protected data; only the guard's holder may.
    pub fn set(&mut self, v: T)
        requires
            old(self).inv(),
            !old(self)@.free,
        ensures
            final(self).inv(),
            final(self)@ == (MutexView { data: v, ..old(self)@ }),
    {
        self.data = v;
        proof {
            assert(self@ =~~= (MutexView { data: v, ..old(self)@ }));
        }
    }

    /// Takes the lock if it is free, without ever blocking.
    pub fn try_lock(&mut self) -> (r: Option<MutexGuard>)
        requires
            old(self).inv(),
        ensures
            final(self).inv(),
            old(self)@.free ==> r.is_some() && final(self)@ == (MutexView {
                free: false,
                ..old(self)@
            }),
            !old(self)@.free ==> r.is_none() && final(self)@ == old(self)@,
    {
        self.value_lock.acquire();
        let r = if self.value {
            self.value = false;
            Some(MutexGuard {})
        } else {
            None
        };
        self.value_lock.release();
        proof {
            if old(self)@.free {
                assert(self@ =~~= (MutexView { free: false, ..old(self)@ }));
            } else {
                assert(self@ =~~= old(self)@);
            }
        }
        r
    }

    /// One attempt at the lock: takes it when free; otherwise parks the
    /// current task — pushed into the wait queue while the semaphore's lock
    /// is still held, which closes the lost-wakeup window — and reports that
    /// the caller must reschedule.
    fn obtain_lock(&mut self, sched: &mut Scheduler) -> (acquired: bool)
        requires
            old(self).inv(),
            old(sched).inv(),
            old(sched)@.initialized,
            old(sched)@.task_of(old(sched)@.current).status == TaskStatus::TaskRunning,
        ensures
            final(self).inv(),
            final(sched).inv(),
            old(self)@.free ==> acquired && final(self)@ == (MutexView {
                free: false,
                ..old(self)@
            }) && final(sched)@ == old(sched)@,
            !old(self)@.free ==> !acquired && final(sched)@ == block_post(old(sched)@) && final(self)@
                == (MutexView {
                queue: old(self)@.queue.update(
                    old(sched)@.task_of(old(sched)@.current).prio as int,
                    old(self)@.queue[old(sched)@.task_of(old(sched)@.current).prio as int].push(
                        old(sched)@.current,
                    ),
                ),
                ..old(self)@
            }),
    {
        self.value_lock.acquire();
        if self.value {
            self.value = false;
            self.value_lock.release();
            proof {
                assert(self@ =~~= (MutexView { free: false, ..old(self)@ }));
            }
            true
        } else {
            proof {
                let v = sched@;
                assert(v.tasks[v.idx_of(v.current)].wf());
            }
            let prio = sched.get_current_priority();
            let handle = sched.block_current_task();
            self.queue_lock.acquire();
            self.queue.push(prio, handle);
            self.queue_lock.release();
            self.value_lock.release();
            proof {
                assert(self@ =~~= (MutexView {
                    queue: old(self)@.queue.update(
                        old(sched)@.task_of(old(sched)@.current).prio as int,
                        old(self)@.queue[old(sched)@.task_of(old(sched)@.current).prio as int]
                            .push(old(sched)@.current),
                    ),
                    ..old(self)@
                }));
            }
            false
        }
    }

    /// Lock the mutex. Uncontended, the guard comes back at once and the
    /// scheduler is not involved at all. Under contention the current task
    /// is blocked and queued, and the caller gets nothing back: it must
    /// reschedule and try again when it runs anew — the kernel's lock loops
    /// around exactly this step, suspended inside the reschedule.
    pub fn lock(&mut self, sched: &mut Scheduler) -> (r: Option<MutexGuard>)
        requires
            old(self).inv(),
            old(sched).inv(),
            old(sched)@.initialized,
            old(sched)@.task_of(old(sched)@.current).status == TaskStatus::TaskRunning,
        ensures
            final(self).inv(),
            final(sched).inv(),
            old(self)@.free ==> r.is_some() && final(self)@ == (MutexView {
                free: false,
                ..old(self)@
            }) && final(sched)@ == old(sched)@,
            !old(self)@.free ==> r.is_none() && final(sched)@ == block_post(old(sched)@) && final(self)@
                == (MutexView {
                queue: old(self)@.queue.update(
                    old(sched)@.task_of(old(sched)@.current).prio as int,
                    old(self)@.queue[old(sched)@.task_of(old(sched)@.current).prio as int].push(
                        old(sched)@.current,
                    ),
                ),
                ..old(self)@
            }),
    {
        if self.obtain_lock(sched) {
            Some(MutexGuard {})
        } else {
            None
        }
    }

    /// Release the lock, consuming the guard. The semaphore is freed and the
    /// highest-priority waiter, if any, is woken to re-contend; with an
    /// empty wait queue the scheduler is not involved at all.
    pub fn unlock(&mut self, guard: MutexGuard, sched: &mut Scheduler)
        requires
            old(self).inv(),
            !old(self)@.free,
            old(sched).inv(),
            old(sched)@.initialized,
        ensures
            final(self).inv(),
            final(sched).inv(),
            final(self)@.free,
            if best_prio(old(self)@.queue) >= 0 {
                final(self)@ == (MutexView {
                    free: true,
                    queue: old(self)@.queue.update(
                        best_prio(old(self)@.queue),
                        old(self)@.queue[best_prio(old(self)@.queue)].drop_first(),
                    ),
                    ..old(self)@
                }) && final(sched)@ == wakeup_post(
                    old(sched)@,
                    old(self)@.queue[best_prio(old(self)@.queue)][0],
                )
            } else {
                final(self)@ == (MutexView { free: true, ..old(self)@ }) && final(sched)@ == old(
                    sched,
                )@
            },
    {
        let MutexGuard {  } = guard;
        self.value_lock.acquire();
        self.value = true;
        // try to wake up the next task
        self.queue_lock.acquire();
        let popped = self.queue.pop();
        self.queue_lock.release();
        self.value_lock.release();
        match popped {
            Some(task) => {
                sched.wakeup_task(task);
                proof {
                    let b = best_prio(old(self)@.queue);
                    assert(self@ =~~= (MutexView {
                        free: true,
                        queue: old(self)@.queue.update(b, old(self)@.queue[b].drop_first()),
                        ..old(self)@
                    }));
                }
            },
            None => {
                proof {
                    assert(self@ =~~= (MutexView { free: true, ..old(self)@ }));
                }
            },
        }
    }
}

} // verus!
