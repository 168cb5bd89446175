//! The scheduling state of a cooperative executor with a fixed set of tasks: one wake bit and
//! one done flag per task. A task's waker is its index: waking it raises its bit. Passes scan
//! the tasks in index order and poll those that are woken and not done.

use vstd::prelude::*;

verus! {

/// The wake bit of one task.
pub struct InternalWaker {
    ready: bool,
}

impl InternalWaker {
    pub closed spec fn spec_ready(&self) -> bool {
        self.ready
    }

    /// A raised bit, so that the first pass polls the task.
    pub fn new() -> (r: InternalWaker)
        ensures
            r.spec_ready(),
    {
        InternalWaker { ready: true }
    }

    pub fn set_ready(&mut self, val: bool)
        ensures
            final(self).spec_ready() == val,
    {
        self.ready = val;
    }

    pub fn is_ready(&self) -> (r: bool)
        ensures
            r == self.spec_ready(),
    {
        self.ready
    }
}

/// The scheduling state of a fixed list of tasks.
pub struct Runtime {
    done: Vec<bool>,
    wakers: Vec<InternalWaker>,
}

/// The first task from `from` on that is woken and not done.
pub open spec fn spec_next(done: Seq<bool>, woken: Seq<bool>, from: int) -> Option<int>
    decreases done.len() - from,
{
    if from < 0 || from >= done.len() {
        None
    } else if !done[from] && woken[from] {
        Some(from)
    } else {
        spec_next(done, woken, from + 1)
    }
}

/// Properties of `spec_next`: what it finds is woken and live, and nothing before it is.
pub proof fn lemma_spec_next(done: Seq<bool>, woken: Seq<bool>, from: int)
    requires
        0 <= from,
        done.len() == woken.len(),
    ensures
        spec_next(done, woken, from) matches Some(j) ==> from <= j < done.len() && !done[j]
            && woken[j],
        forall|k: int|
            from <= k < done.len() && (spec_next(done, woken, from) matches Some(j) ==> k < j)
                ==> !(!done[k] && woken[k]),
    decreases done.len() - from,
{
    if from < done.len() && !(!done[from] && woken[from]) {
        lemma_spec_next(done, woken, from + 1);
    }
}

impl Runtime {
    pub closed spec fn spec_done(&self) -> Seq<bool> {
        self.done@
    }

    pub closed spec fn spec_woken(&self) -> Seq<bool> {
        self.wakers@.map_values(|w: InternalWaker| w.spec_ready())
    }

    pub open spec fn wf(&self) -> bool {
        self.spec_done().len() == self.spec_woken().len()
    }

    /// The number of tasks.
    pub open spec fn len(&self) -> nat {
        self.spec_done().len()
    }

    /// A runtime for `tasks` tasks: every task woken, none done.
    pub fn new(tasks: usize) -> (r: Runtime)
        ensures
            r.wf(),
            r.len() == tasks,
            forall|i: int| 0 <= i < tasks ==> !r.spec_done()[i] && r.spec_woken()[i],
    {
        let mut done: Vec<bool> = Vec::with_capacity(tasks);
        let mut wakers: Vec<InternalWaker> = Vec::with_capacity(tasks);
        let mut i: usize = 0;
        while i < tasks
            invariant
                i <= tasks,
                done@.len() == i,
                wakers@.len() == i,
                forall|j: int| 0 <= j < i ==> !done@[j],
                forall|j: int| 0 <= j < i ==> wakers@[j].spec_ready(),
            decreases tasks - i,
        {
            done.push(false);
            wakers.push(InternalWaker::new());
            i = i + 1;
        }
        let r = Runtime { done, wakers };
        assert forall|k: int| 0 <= k < tasks implies !r.spec_done()[k] && r.spec_woken()[k] by {
            assert(!r.done@[k] && r.wakers@[k].spec_ready());
        }
        r
    }

    /// The waker of task `task`: raises its bit. An index past the tasks changes nothing.
    pub fn wake(&mut self, task: usize)
        requires
            old(self).wf(),
        ensures
            final(self).wf(),
            final(self).spec_done() == old(self).spec_done(),
            final(self).spec_woken() == if task < old(self).len() {
                old(self).spec_woken().update(task as int, true)
            } else {
                old(self).spec_woken()
            },
    {
        if task < self.wakers.len() {
            self.wakers.set(task, InternalWaker::new());
            assert(self.spec_woken() =~= old(self).spec_woken().update(task as int, true));
        }
    }

    /// Whether the task is woken.
    pub fn is_woken(&self, task: usize) -> (r: bool)
        requires
            self.wf(),
            task < self.len(),
        ensures
            r == self.spec_woken()[task as int],
    {
        self.wakers[task].is_ready()
    }

    /// Whether the task has completed.
    pub fn is_done(&self, task: usize) -> (r: bool)
        requires
            self.wf(),
            task < self.len(),
        ensures
            r == self.spec_done()[task as int],
    {
        self.done[task]
    }

    /// Picks the next task of the pass: the first from `from` on that is woken and not done.
    /// Its bit is cleared before it is polled, so a wake during the poll raises it again.
    pub fn poll_next(&mut self, from: usize) -> (r: Option<usize>)
        requires
            old(self).wf(),
        ensures
            final(self).wf(),
            final(self).spec_done() == old(self).spec_done(),
            r == match spec_next(old(self).spec_done(), old(self).spec_woken(), from as int) {
                Some(j) => Some(j as usize),
                None => None::<usize>,
            },
            final(self).spec_woken() == match r {
                Some(j) => old(self).spec_woken().update(j as int, false),
                None => old(self).spec_woken(),
            },
    {
        let mut i: usize = from;
        while i < self.done.len()
            invariant
                self.wf(),
                *self == *old(self),
                from <= i,
                spec_next(self.spec_done(), self.spec_woken(), from as int) == spec_next(
                    self.spec_done(),
                    self.spec_woken(),
                    i as int,
                ),
            decreases self.done.len() - i,
        {
            if !self.done[i] && self.wakers[i].is_ready() {
                let mut w = InternalWaker::new();
                w.set_ready(false);
                self.wakers.set(i, w);
                assert(self.spec_woken() =~= old(self).spec_woken().update(i as int, false));
                return Some(i);
            }
            i = i + 1;
        }
        None
    }

    /// Marks a polled task as completed; it is never polled again.
    pub fn complete(&mut self, task: usize)
        requires
            old(self).wf(),
        ensures
            final(self).wf(),
            final(self).spec_woken() == old(self).spec_woken(),
            final(self).spec_done() == if task < old(self).len() {
                old(self).spec_done().update(task as int, true)
            } else {
                old(self).spec_done()
            },
    {
        if task < self.done.len() {
            self.done.set(task, true);
        }
    }

    /// Whether some task has not completed.
    pub fn any_live(&self) -> (r: bool)
        ensures
            r == exists|i: int| 0 <= i < self.spec_done().len() && !self.spec_done()[i],
    {
        let mut i: usize = 0;
        while i < self.done.len()
            invariant
                i <= self.done@.len(),
                forall|j: int| 0 <= j < i ==> self.done@[j],
            decreases self.done.len() - i,
        {
            if !self.done[i] {
                assert(!self.spec_done()[i as int]);
                return true;
            }
            i = i + 1;
        }
        false
    }
}

/// A task that is woken and not done is polled in the pass that reaches it: picking from any
/// cursor at or before it gives a task no later than it, so a pass of `len` picks reaches it.
pub proof fn lemma_woken_task_is_reached(rt: &Runtime, from: int, i: int)
    requires
        rt.wf(),
        0 <= from <= i < rt.len(),
        !rt.spec_done()[i],
        rt.spec_woken()[i],
    ensures
        spec_next(rt.spec_done(), rt.spec_woken(), from) matches Some(j) && from <= j <= i,
{
    lemma_spec_next(rt.spec_done(), rt.spec_woken(), from);
}

/// Picking another task leaves a woken, live task woken and live, so it is still ahead of the
/// cursor.
pub proof fn lemma_pick_keeps_others(done: Seq<bool>, woken: Seq<bool>, j: int, i: int)
    requires
        done.len() == woken.len(),
        0 <= j < done.len(),
        0 <= i < done.len(),
        j != i,
        !done[i] && woken[i],
    ensures
        !done[i] && woken.update(j, false)[i],
{
}

/// Waking a live task makes the next pass reach it: a pass from the start picks no later than
/// it.
pub proof fn lemma_wake_then_polled(done: Seq<bool>, woken: Seq<bool>, i: int)
    requires
        done.len() == woken.len(),
        0 <= i < done.len(),
        !done[i],
    ensures
        spec_next(done, woken.update(i, true), 0) matches Some(j) && j <= i,
{
    lemma_spec_next(done, woken.update(i, true), 0);
}

/// Yields once from the current task, staying woken so that it is polled again in the next
/// pass.
pub struct YieldNow {
    polled: bool,
}

impl YieldNow {
    pub closed spec fn spec_polled(&self) -> bool {
        self.polled
    }

    pub fn new() -> (r: YieldNow)
        ensures
            !r.spec_polled(),
    {
        YieldNow { polled: false }
    }

    /// Polls on behalf of task `task`: the first poll wakes the task and is pending (`false`),
    /// later ones are ready (`true`).
    pub fn poll(&mut self, rt: &mut Runtime, task: usize) -> (r: bool)
        requires
            old(rt).wf(),
        ensures
            r == old(self).spec_polled(),
            final(self).spec_polled(),
            final(rt).wf(),
            final(rt).spec_done() == old(rt).spec_done(),
            final(rt).spec_woken() == if !r && task < old(rt).len() {
                old(rt).spec_woken().update(task as int, true)
            } else {
                old(rt).spec_woken()
            },
    {
        if self.polled {
            true
        } else {
            self.polled = true;
            rt.wake(task);
            false
        }
    }
}

/// A future that yields once.
pub fn yield_now() -> (r: YieldNow)
    ensures
        !r.spec_polled(),
{
    YieldNow::new()
}

} // verus!
