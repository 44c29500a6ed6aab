//! A multi-level FIFO queue of task handles, keyed by priority.

use vstd::prelude::*;

use crate::task::{Priority, TaskId, NO_PRIORITIES};

verus! {

/// The highest non-empty level of `levels` strictly below `n`, or `-1` when
/// all those levels are empty.
pub open spec fn best_prio_below(levels: Seq<Seq<TaskId>>, n: int) -> int
    decreases n,
{
    if n <= 0 {
        -1
    } else if levels[n - 1].len() > 0 {
        n - 1
    } else {
        best_prio_below(levels, n - 1)
    }
}

/// The highest non-empty level, or `-1` when the whole queue is empty.
pub open spec fn best_prio(levels: Seq<Seq<TaskId>>) -> int {
    best_prio_below(levels, NO_PRIORITIES as int)
}

/// Whether `id` sits in any level of `levels`.
pub open spec fn queue_contains(levels: Seq<Seq<TaskId>>, id: TaskId) -> bool {
    exists|p: int, k: int|
        0 <= p < levels.len() && 0 <= k < levels[p].len() && levels[p][k] == id
}

/// Levels of `levels` at `from` and above are all empty.
pub open spec fn empty_from(levels: Seq<Seq<TaskId>>, from: int) -> bool {
    forall|q: int| from <= q < levels.len() ==> #[trigger] levels[q].len() == 0
}

/// The result of the best-level scan is below every empty suffix.
pub proof fn lemma_best_prio_skips_empty(levels: Seq<Seq<TaskId>>, n: int, p: int)
    requires
        0 <= p <= n <= levels.len(),
        forall|q: int| p <= q < n ==> #[trigger] levels[q].len() == 0,
    ensures
        best_prio_below(levels, n) == best_prio_below(levels, p),
    decreases n,
{
    if n > p {
        lemma_best_prio_skips_empty(levels, n - 1, p);
    }
}

/// The best level is at least every non-empty level.
pub proof fn lemma_best_prio_at_least(levels: Seq<Seq<TaskId>>, n: int, p: int)
    requires
        0 <= p < n,
        levels[p].len() > 0,
    ensures
        best_prio_below(levels, n) >= p,
    decreases n,
{
    if n - 1 > p && levels[n - 1].len() == 0 {
        lemma_best_prio_at_least(levels, n - 1, p);
    }
}

/// The best level is `-1` or a non-empty level below `n`.
pub proof fn lemma_best_prio_bounds(levels: Seq<Seq<TaskId>>, n: int)
    requires
        n <= levels.len(),
    ensures
        best_prio_below(levels, n) == -1 || (0 <= best_prio_below(levels, n) < n
            && levels[best_prio_below(levels, n)].len() > 0),
    decreases n,
{
    if n > 0 && levels[n - 1].len() == 0 {
        lemma_best_prio_bounds(levels, n - 1);
    }
}

/// An array, indexed by priority, of FIFO queues of task handles. The head
/// of a level is its front; [`PriorityTaskQueue::pop`] serves the highest
/// non-empty level first.
pub struct PriorityTaskQueue {
    queues: Vec<Vec<TaskId>>,
}

impl View for PriorityTaskQueue {
    type V = Seq<Seq<TaskId>>;

    closed spec fn view(&self) -> Seq<Seq<TaskId>> {
        self.queues@.map_values(|q: Vec<TaskId>| q@)
    }
}

impl PriorityTaskQueue {
    /// One queue per priority level.
    pub open spec fn wf(self) -> bool {
        self@.len() == NO_PRIORITIES
    }

    /// An empty queue at every level.
    pub fn new() -> (r: Self)
        ensures
            r.wf(),
            forall|p: int| 0 <= p < NO_PRIORITIES ==> #[trigger] r@[p].len() == 0,
    {
        let mut queues: Vec<Vec<TaskId>> = Vec::new();
        let mut level: usize = 0;
        while level < NO_PRIORITIES
            invariant
                level <= NO_PRIORITIES,
                queues@.len() == level,
                forall|p: int| 0 <= p < level ==> #[trigger] queues@[p]@.len() == 0,
            decreases NO_PRIORITIES - level,
        {
            queues.push(Vec::new());
            level = level + 1;
        }
        let r = PriorityTaskQueue { queues };
        assert forall|p: int| 0 <= p < NO_PRIORITIES implies #[trigger] r@[p].len() == 0 by {
            assert(r@[p] == queues@[p]@);
        }
        r
    }

    /// Appends `id` at the back of the FIFO for level `prio`.
    pub fn push(&mut self, prio: Priority, id: TaskId)
        requires
            old(self).wf(),
            (prio as int) < NO_PRIORITIES as int,
        ensures
            final(self)@ == old(self)@.update(prio as int, old(self)@[prio as int].push(id)),
            final(self).wf(),
    {
        let level = &mut self.queues[prio as usize];
        level.push(id);
        assert(self@ =~~= old(self)@.update(prio as int, old(self)@[prio as int].push(id)));
    }

    /// Removes and returns the head of the highest non-empty level whose
    /// index is at least `min_prio`; returns nothing when every such level
    /// is empty.
    pub fn pop_with_prio(&mut self, min_prio: Priority) -> (r: Option<TaskId>)
        requires
            old(self).wf(),
            (min_prio as int) < NO_PRIORITIES as int,
        ensures
            final(self).wf(),
            if best_prio(old(self)@) >= min_prio as int {
                let b = best_prio(old(self)@);
                r == Some(old(self)@[b][0]) && final(self)@ == old(self)@.update(
                    b,
                    old(self)@[b].drop_first(),
                )
            } else {
                r == None::<TaskId> && final(self)@ == old(self)@
            },
    {
        let mut p: usize = NO_PRIORITIES;
        while p > min_prio as usize
            invariant
                min_prio as int <= p as int <= NO_PRIORITIES as int,
                self.wf(),
                self@ == old(self)@,
                forall|q: int| p as int <= q < NO_PRIORITIES as int ==> #[trigger] self@[q].len()
                    == 0,
            decreases p,
        {
            p = p - 1;
            let level = &mut self.queues[p];
            if level.len() > 0 {
                let id = level.remove(0);
                proof {
                    lemma_best_prio_skips_empty(old(self)@, NO_PRIORITIES as int, p + 1);
                    assert(best_prio(old(self)@) == p as int);
                    assert(old(self)@[p as int].drop_first() =~= old(self)@[p as int].remove(0));
                    assert(self@ =~~= old(self)@.update(
                        p as int,
                        old(self)@[p as int].drop_first(),
                    ));
                }
                return Some(id);
            }
            assert(self@ =~~= old(self)@);
        }
        proof {
            lemma_best_prio_skips_empty(old(self)@, NO_PRIORITIES as int, min_prio as int);
            lemma_best_prio_bounds(old(self)@, min_prio as int);
        }
        None
    }

    /// Removes and returns the head of the highest non-empty level.
    pub fn pop(&mut self) -> (r: Option<TaskId>)
        requires
            old(self).wf(),
        ensures
            final(self).wf(),
            if best_prio(old(self)@) >= 0 {
                let b = best_prio(old(self)@);
                r == Some(old(self)@[b][0]) && final(self)@ == old(self)@.update(
                    b,
                    old(self)@[b].drop_first(),
                )
            } else {
                r == None::<TaskId> && final(self)@ == old(self)@
            },
    {
        self.pop_with_prio(0)
    }
}

} // verus!
