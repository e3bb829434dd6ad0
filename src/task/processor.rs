use vstd::prelude::*;
use crate::task::context::TaskContext;

verus! {

/// The hart: the task it runs, and the context of its idle control flow, which picks
/// the next task.
pub struct Processor {
    pub current: Option<usize>,
    pub idle_task_cx: TaskContext,
}

impl Processor {
    /// A hart that runs no task.
    pub fn new() -> (r: Processor)
        ensures
            r.current.is_none(),
    {
        Processor { current: None, idle_task_cx: TaskContext::zero_init() }
    }

    /// The running task, which no longer runs.
    pub fn take_current(&mut self) -> (r: Option<usize>)
        ensures
            r == old(self).current,
            final(self).current.is_none(),
            final(self).idle_task_cx == old(self).idle_task_cx,
    {
        let r = self.current;
        self.current = None;
        r
    }

    /// The running task.
    pub fn current(&self) -> (r: Option<usize>)
        ensures
            r == self.current,
    {
        self.current
    }
}

} // verus!
