//! The laws the scheduler obeys, stated and proved over the same views its
//! contracts use.

use vstd::prelude::*;

use crate::queue::{best_prio, lemma_best_prio_at_least, lemma_best_prio_bounds, queue_contains};
use crate::scheduler::{
    block_post, cleanup_post, ids_unique, lemma_cleanup_wf, lemma_idx_of, lemma_idx_of_post,
    lemma_sched_wf, resched_post, sched_post, wakeup_post, SchedView,
};
use crate::task::{TaskId, TaskStatus, NO_PRIORITIES};

verus! {

/// Exactly one of four places.
pub open spec fn exactly_one(a: bool, b: bool, c: bool, d: bool) -> bool {
    (a || b || c || d) && !(a && b) && !(a && c) && !(a && d) && !(b && c) && !(b && d) && !(c
        && d)
}

/// Every task the scheduler owns, apart from the idle task, is accounted for
/// in exactly one place: on the CPU as the running current task, in the
/// ready queue, blocked in some synchronization primitive's wait queue, or
/// in the finished list awaiting reclaim. Stated of quiescent states — those
/// where the current task is running or idle, which every reschedule
/// restores.
pub proof fn lemma_task_partition(v: SchedView, i: int)
    requires
        v.wf(),
        v.initialized,
        0 <= i < v.tasks.len(),
        v.tasks[i].id != v.idle,
        v.task_of(v.current).status == TaskStatus::TaskRunning || v.task_of(v.current).status
            == TaskStatus::TaskIdle,
    ensures
        exactly_one(
            v.tasks[i].id == v.current && v.tasks[i].status == TaskStatus::TaskRunning,
            v.in_ready(v.tasks[i].id) && v.tasks[i].status == TaskStatus::TaskReady,
            v.tasks[i].status == TaskStatus::TaskBlocked,
            v.finished.contains(v.tasks[i].id) && v.tasks[i].status == TaskStatus::TaskInvalid,
        ),
{
    let t = v.tasks[i];
    lemma_idx_of(v, i);
    if t.status == TaskStatus::TaskRunning || t.status == TaskStatus::TaskFinished {
        assert(t.id == v.current);
        assert(v.task_of(v.current) == t);
    }
    if t.status == TaskStatus::TaskReady {
        assert(v.in_ready(t.id));
    }
    if t.status == TaskStatus::TaskInvalid {
        assert(v.finished.contains(t.id));
    }
    if v.in_ready(t.id) {
        let (p, k) = choose|p: int, k: int|
            0 <= p < v.ready.len() && 0 <= k < v.ready[p].len() && v.ready[p][k] == t.id;
        assert(v.task_of(v.ready[p][k]).status == TaskStatus::TaskReady);
        assert(t.status == TaskStatus::TaskReady);
    }
    if v.finished.contains(t.id) {
        let k = choose|k: int| 0 <= k < v.finished.len() && v.finished[k] == t.id;
        assert(v.task_of(v.finished[k]).status == TaskStatus::TaskInvalid);
        assert(t.status == TaskStatus::TaskInvalid);
    }
}

/// At most one task is ever running, and it is the current one; when the
/// idle task is the only task, nothing runs and the idle task holds the CPU
/// in its idle state.
pub proof fn lemma_single_running(v: SchedView, i: int, j: int)
    requires
        v.wf(),
        v.initialized,
        0 <= i < v.tasks.len(),
        0 <= j < v.tasks.len(),
        v.tasks[i].status == TaskStatus::TaskRunning,
        v.tasks[j].status == TaskStatus::TaskRunning,
    ensures
        i == j,
        v.tasks[i].id == v.current,
{
}

/// With only the idle task in the arena, no task runs and the one block is
/// the idle task's, in its idle state.
pub proof fn lemma_idle_only(v: SchedView)
    requires
        v.wf(),
        v.initialized,
        v.tasks.len() == 1,
    ensures
        v.tasks[0].id == v.idle,
        v.tasks[0].status == TaskStatus::TaskIdle,
        forall|k: int| 0 <= k < v.tasks.len() ==> (#[trigger] v.tasks[k]).status
            != TaskStatus::TaskRunning,
{
    assert(v.has(v.idle));
    let i = v.idx_of(v.idle);
    assert(0 <= i < 1 && v.tasks[i].id == v.idle);
}

/// A reschedule conserves the task count: dispatch only moves tasks between
/// the CPU, the ready queue and the finished list, and reclaim frees only
/// blocks that no longer count.
pub proof fn lemma_reschedule_preserves_count(pre: SchedView)
    requires
        pre.wf(),
        pre.initialized,
    ensures
        resched_post(pre).count == pre.count,
{
    lemma_cleanup_wf(pre);
}

/// After a reschedule the CPU is held by a task of top priority: every task
/// still waiting in the ready queue has a priority no higher than the
/// current task's.
pub proof fn lemma_dispatch_priority(pre: SchedView)
    requires
        pre.wf(),
        pre.initialized,
    ensures
        forall|k: int|
            0 <= k < resched_post(pre).tasks.len() && (#[trigger] resched_post(
                pre,
            ).tasks[k]).status == TaskStatus::TaskReady ==> resched_post(pre).tasks[k].prio as int
                <= resched_post(pre).task_of(resched_post(pre).current).prio as int,
{
    lemma_cleanup_wf(pre);
    let mid = cleanup_post(pre);
    lemma_sched_wf(mid);
    let post = sched_post(mid);
    let cur = mid.current;
    let cur_i = mid.idx_of(cur);
    assert(0 <= cur_i < mid.tasks.len() && mid.tasks[cur_i].id == cur);
    let ct = mid.task_of(cur);
    let b = best_prio(mid.ready);
    // levels of the post queue above the new current task's priority are
    // empty, so every ready task sits at or below it
    let top = post.task_of(post.current).prio as int;
    assert forall|p: int| top < p < NO_PRIORITIES as int implies #[trigger] post.ready[p].len()
        == 0 by {
        if post.ready[p].len() > 0 {
            if mid.has_ready_candidate() || mid.cur_unrunnable() {
                let next = if mid.has_ready_candidate() {
                    mid.ready[b][0]
                } else {
                    mid.idle
                };
                let ni = mid.idx_of(next);
                if mid.has_ready_candidate() {
                    lemma_best_prio_bounds(mid.ready, NO_PRIORITIES as int);
                    assert(mid.has(next) && mid.task_of(next).prio as int == b);
                    assert(0 <= ni < mid.tasks.len() && mid.tasks[ni].id == next);
                    let picked = (SchedView {
                        ready: mid.ready.update(b, mid.ready[b].drop_first()),
                        ..mid
                    }).with_status(next, TaskStatus::TaskRunning);
                    assert(forall|kk: int|
                        0 <= kk < picked.tasks.len() ==> (#[trigger] picked.tasks[kk]).id
                            == mid.tasks[kk].id);
                    assert(ids_unique(picked.tasks));
                    lemma_idx_of_post(mid, picked, next);
                    lemma_idx_of_post(mid, picked, cur);
                    let pct = picked.task_of(cur);
                    // the new current task runs at the best level b
                    assert(forall|kk: int|
                        0 <= kk < post.tasks.len() ==> (#[trigger] post.tasks[kk]).id
                            == mid.tasks[kk].id);
                    assert(ids_unique(post.tasks));
                    lemma_idx_of(mid, ni);
                    lemma_idx_of(post, ni);
                    assert(post.tasks[ni].prio == mid.tasks[ni].prio);
                    assert(top == b);
                    // the only level dispatch appends to is the outgoing
                    // task's, and that lies at or below b
                    assert(pct.status == TaskStatus::TaskRunning ==> pct.prio as int <= b) by {
                        if pct.status == TaskStatus::TaskRunning {
                            if next == cur {
                                assert(pct.prio == mid.task_of(next).prio);
                            } else {
                                assert(pct == mid.task_of(cur));
                                assert(mid.min_prio() == pct.prio as int);
                            }
                        }
                    }
                    if p != b {
                        assert(post.ready[p] == picked.ready[p] || (pct.status
                            == TaskStatus::TaskRunning && p == pct.prio as int && post.ready[p]
                            == picked.ready[p].push(cur)));
                        assert(picked.ready[p] == mid.ready[p]);
                        if post.ready[p] == picked.ready[p] {
                            lemma_best_prio_at_least(mid.ready, NO_PRIORITIES as int, p);
                        }
                        assert(false);
                    } else {
                        assert(top < b);
                        assert(false);
                    }
                } else {
                    // the idle task takes over only when nothing is ready
                    assert(best_prio(mid.ready) < mid.min_prio());
                    assert(mid.min_prio() == 0);
                    assert(post.ready[p] == mid.ready[p]);
                    lemma_best_prio_at_least(mid.ready, NO_PRIORITIES as int, p);
                    assert(false);
                }
            } else {
                // no switch: everything ready lies strictly below the
                // running current task's level
                assert(post == mid);
                lemma_best_prio_at_least(mid.ready, NO_PRIORITIES as int, p);
                assert(b >= p);
                assert(ct.status == TaskStatus::TaskRunning || ct.status == TaskStatus::TaskIdle);
                assert(b < mid.min_prio());
                assert(false);
            }
        }
    }
    assert forall|k: int| 0 <= k < post.tasks.len() && (#[trigger] post.tasks[k]).status
        == TaskStatus::TaskReady implies post.tasks[k].prio as int <= top by {
        assert(queue_contains(post.ready, post.tasks[k].id));
        let (p, kk) = choose|p: int, kk: int|
            0 <= p < post.ready.len() && 0 <= kk < post.ready[p].len() && post.ready[p][kk]
                == post.tasks[k].id;
        lemma_idx_of(post, k);
        assert(post.task_of(post.ready[p][kk]).prio as int == p);
        assert(post.ready[p].len() > 0);
        assert(p <= top);
    }
}

/// Blocking the current task and waking the returned handle leaves that
/// task ready and queued; a second wakeup of the same handle is a no-op.
pub proof fn lemma_block_wakeup_roundtrip(pre: SchedView)
    requires
        pre.wf(),
        pre.initialized,
        pre.task_of(pre.current).status == TaskStatus::TaskRunning,
    ensures
        ({
            let h = pre.current;
            let woken = wakeup_post(block_post(pre), h);
            &&& woken.task_of(h).status == TaskStatus::TaskReady
            &&& woken.in_ready(h)
            &&& wakeup_post(woken, h) == woken
        }),
{
    let h = pre.current;
    let blocked = block_post(pre);
    let i = pre.idx_of(h);
    assert(0 <= i < pre.tasks.len() && pre.tasks[i].id == h);
    assert(forall|k: int|
        0 <= k < blocked.tasks.len() ==> (#[trigger] blocked.tasks[k]).id == pre.tasks[k].id);
    assert(ids_unique(blocked.tasks));
    lemma_idx_of_post(pre, blocked, h);
    assert(blocked.task_of(h).status == TaskStatus::TaskBlocked);
    let woken = wakeup_post(blocked, h);
    assert(forall|k: int|
        0 <= k < woken.tasks.len() ==> (#[trigger] woken.tasks[k]).id == pre.tasks[k].id);
    assert(ids_unique(woken.tasks));
    lemma_idx_of_post(blocked, woken, h);
    assert(woken.task_of(h).status == TaskStatus::TaskReady);
    let p = blocked.task_of(h).prio as int;
    assert(woken.ready[p][woken.ready[p].len() - 1] == h);
    assert(pre.tasks[i].wf());
    assert(0 <= p < woken.ready.len());
    assert(woken.in_ready(h));
}

/// Tasks of equal priority rotate FIFO: when the current task is running at
/// the best ready level, a reschedule hands the CPU to that level's head
/// and parks the outgoing task at its back; no other level moves.
pub proof fn lemma_fifo_rotation(pre: SchedView)
    requires
        pre.wf(),
        pre.initialized,
        pre.finished.len() == 0,
        pre.task_of(pre.current).status == TaskStatus::TaskRunning,
        best_prio(pre.ready) == pre.task_of(pre.current).prio as int,
    ensures
        ({
            let b = best_prio(pre.ready);
            let post = resched_post(pre);
            &&& post.current == pre.ready[b][0]
            &&& post.ready[b] =~= pre.ready[b].drop_first().push(pre.current)
            &&& forall|p: int|
                0 <= p < NO_PRIORITIES as int && p != b ==> post.ready[p] == pre.ready[p]
        }),
{
    assert(cleanup_post(pre) == pre);
    let post = sched_post(pre);
    let cur = pre.current;
    let cur_i = pre.idx_of(cur);
    assert(0 <= cur_i < pre.tasks.len() && pre.tasks[cur_i].id == cur);
    let b = best_prio(pre.ready);
    assert(pre.has_ready_candidate());
    lemma_best_prio_bounds(pre.ready, NO_PRIORITIES as int);
    let next = pre.ready[b][0];
    assert(pre.task_of(next).status == TaskStatus::TaskReady);
    assert(next != cur);
    let ni = pre.idx_of(next);
    let picked = (SchedView {
        ready: pre.ready.update(b, pre.ready[b].drop_first()),
        ..pre
    }).with_status(next, TaskStatus::TaskRunning);
    assert(forall|k: int|
        0 <= k < picked.tasks.len() ==> (#[trigger] picked.tasks[k]).id == pre.tasks[k].id);
    assert(ids_unique(picked.tasks));
    lemma_idx_of_post(pre, picked, cur);
    assert(picked.task_of(cur).status == TaskStatus::TaskRunning);
    assert(picked.task_of(cur).prio as int == b);
    assert(post.current == next);
    assert(post.ready == picked.ready.update(b, picked.ready[b].push(cur)));
    assert(post.ready[b] =~= pre.ready[b].drop_first().push(cur));
}

/// Two-phase reclaim is prompt: once a finished task's id heads the
/// finished list, the very next reschedule frees its control block.
pub proof fn lemma_deferred_reclaim(pre: SchedView)
    requires
        pre.wf(),
        pre.initialized,
        pre.finished.len() > 0,
    ensures
        !resched_post(pre).has(pre.finished[0]),
        resched_post(pre).tasks.len() == pre.tasks.len() - 1,
{
    lemma_cleanup_wf(pre);
    let mid = cleanup_post(pre);
    lemma_sched_wf(mid);
    let post = sched_post(mid);
    let id = pre.finished[0];
    assert(!mid.has(id));
    if post.has(id) {
        let w = post.idx_of(id);
        assert(post.tasks[w].id == id);
        assert(mid.tasks[w].id == id);
    }
}

} // verus!
