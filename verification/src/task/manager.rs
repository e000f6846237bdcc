//! The ready queue: the process with the smallest stride comes first.
use super::control::{TaskControlBlock, TaskControlBlockInner};
use vstd::prelude::*;

verus! {

/// The processes that are ready to run.
pub struct TaskManager {
    pub priority_queue: Vec<TaskControlBlock>,
}

/// Process `k` is the first of those with the smallest stride.
pub open spec fn is_next(queue: Seq<TaskControlBlock>, k: int) -> bool {
    &&& 0 <= k < queue.len()
    &&& forall|j: int|
        0 <= j < queue.len() ==> queue[k].inner.stride <= (#[trigger] queue[j]).inner.stride
    &&& forall|j: int|
        0 <= j < k ==> queue[k].inner.stride < (#[trigger] queue[j]).inner.stride
}

/// The process after a turn: its stride has grown by its pass.
pub open spec fn advanced(t: TaskControlBlock) -> TaskControlBlock {
    TaskControlBlock {
        inner: TaskControlBlockInner {
            stride: (t.inner.stride + t.inner.pass) as usize,
            ..t.inner
        },
        ..t
    }
}

impl TaskManager {
    /// An empty queue.
    pub fn new() -> (r: Self)
        ensures
            r.priority_queue@ == Seq::<TaskControlBlock>::empty(),
    {
        TaskManager { priority_queue: Vec::new() }
    }

    /// Adds a process to the queue.
    pub fn add(&mut self, task: TaskControlBlock)
        ensures
            final(self).priority_queue@ == old(self).priority_queue@.push(task),
    {
        self.priority_queue.push(task);
    }

    /// Takes the next process out of the queue; its stride grows by its pass.
    pub fn fetch(&mut self) -> (r: Option<TaskControlBlock>)
        requires
            forall|k: int| #[trigger]
                is_next(old(self).priority_queue@, k) ==> old(
                    self,
                ).priority_queue@[k].inner.stride + old(self).priority_queue@[k].inner.pass
                    <= usize::MAX,
        ensures
            match r {
                Some(task) => taken(
                    old(self).priority_queue@,
                    final(self).priority_queue@,
                    task,
                ),
                None => old(self).priority_queue@.len() == 0 && final(self).priority_queue@ == old(
                    self,
                ).priority_queue@,
            },
    {
        if self.priority_queue.len() == 0 {
            return None;
        }
        let ghost queue = self.priority_queue@;
        let mut best: usize = 0;
        let mut i: usize = 1;
        while i < self.priority_queue.len()
            invariant
                self.priority_queue@ == queue,
                best < i <= queue.len(),
                forall|j: int|
                    0 <= j < i ==> queue[best as int].inner.stride <= (#[trigger] queue[j]).inner.stride,
                forall|j: int|
                    0 <= j < best ==> queue[best as int].inner.stride < (
                    #[trigger] queue[j]).inner.stride,
            decreases queue.len() - i,
        {
            if self.priority_queue[i] > self.priority_queue[best] {
                best = i;
            }
            i += 1;
        }
        assert(is_next(queue, best as int));
        let mut task: TaskControlBlock = self.priority_queue.remove(best);
        task.inner.stride = task.inner.stride + task.inner.pass;
        assert(taken(queue, self.priority_queue@, task));
        Some(task)
    }
}

/// A process was taken out of the queue.
pub open spec fn taken(
    queue0: Seq<TaskControlBlock>,
    queue1: Seq<TaskControlBlock>,
    task: TaskControlBlock,
) -> bool {
    exists|k: int| #[trigger]
        is_next(queue0, k) && queue1 == queue0.remove(k) && task == advanced(queue0[k])
}

/// Adds a process to the ready queue.
pub fn add_task(manager: &mut TaskManager, task: TaskControlBlock)
    ensures
        final(manager).priority_queue@ == old(manager).priority_queue@.push(task),
{
    manager.add(task);
}

/// Takes the next process out of the ready queue.
pub fn fetch_task(manager: &mut TaskManager) -> (r: Option<TaskControlBlock>)
    requires
        forall|k: int| #[trigger]
            is_next(old(manager).priority_queue@, k) ==> old(
                manager,
            ).priority_queue@[k].inner.stride + old(manager).priority_queue@[k].inner.pass
                <= usize::MAX,
    ensures
        match r {
            Some(task) => taken(
                old(manager).priority_queue@,
                final(manager).priority_queue@,
                task,
            ),
            None => old(manager).priority_queue@.len() == 0 && final(manager).priority_queue@
                == old(manager).priority_queue@,
        },
{
    manager.fetch()
}

/// No process is left behind: those that stay have strides at least as large as
/// that of the process which was taken.
pub proof fn law_smallest_first(
    queue0: Seq<TaskControlBlock>,
    queue1: Seq<TaskControlBlock>,
    task: TaskControlBlock,
)
    requires
        taken(queue0, queue1, task),
        forall|k: int| #[trigger]
            is_next(queue0, k) ==> queue0[k].inner.stride + queue0[k].inner.pass <= usize::MAX,
    ensures
        forall|j: int|
            0 <= j < queue1.len() ==> task.inner.stride - task.inner.pass <= (
            #[trigger] queue1[j]).inner.stride,
        queue1.len() + 1 == queue0.len(),
{
    let k = choose|k: int| #[trigger]
        is_next(queue0, k) && queue1 == queue0.remove(k) && task == advanced(queue0[k]);
    assert forall|j: int| 0 <= j < queue1.len() implies task.inner.stride - task.inner.pass <= (
    #[trigger] queue1[j]).inner.stride by {
        let o = if j < k {
            j
        } else {
            j + 1
        };
        assert(queue1[j] == queue0[o]);
    }
}

/// No two strides are further apart than `p`, and no pass is larger.
pub open spec fn close(queue: Seq<TaskControlBlock>, p: int) -> bool {
    &&& forall|i: int, j: int|
        0 <= i < queue.len() && 0 <= j < queue.len() ==> (#[trigger] queue[i]).inner.stride <= (
        #[trigger] queue[j]).inner.stride + p
    &&& forall|i: int| 0 <= i < queue.len() ==> (#[trigger] queue[i]).inner.pass <= p
}

/// Strides stay close together: a process that has had its turn and comes back
/// leads the others by no more than the largest pass.
pub proof fn law_strides_close(
    queue0: Seq<TaskControlBlock>,
    queue1: Seq<TaskControlBlock>,
    task: TaskControlBlock,
    p: int,
)
    requires
        taken(queue0, queue1, task),
        forall|k: int| #[trigger]
            is_next(queue0, k) ==> queue0[k].inner.stride + queue0[k].inner.pass <= usize::MAX,
        close(queue0, p),
    ensures
        close(queue1.push(task), p),
{
    let k = choose|k: int| #[trigger]
        is_next(queue0, k) && queue1 == queue0.remove(k) && task == advanced(queue0[k]);
    let queue = queue1.push(task);
    assert forall|j: int| 0 <= j < queue1.len() implies exists|o: int|
        0 <= o < queue0.len() && o != k && #[trigger] queue0[o] == #[trigger] queue[j] by {
        let o = if j < k {
            j
        } else {
            j + 1
        };
        assert(queue[j] == queue0[o]);
    }
    assert(queue[queue1.len() as int] == task);
}

} // verus!
