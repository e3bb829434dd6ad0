use vstd::prelude::*;

verus! {

/// Callee-saved registers of a task in the kernel, with its return address and stack
/// pointer: what a context switch saves and restores.
#[derive(Clone, Copy, Debug)]
pub struct TaskContext {
    pub ra: usize,
    pub sp: usize,
    pub s: [usize; 12],
}

impl TaskContext {
    /// All registers zero.
    pub fn zero_init() -> (r: TaskContext)
        ensures
            r.ra == 0,
            r.sp == 0,
            forall|i: int| 0 <= i < 12 ==> r.s[i] == 0,
    {
        TaskContext { ra: 0, sp: 0, s: [0; 12] }
    }

    /// A context whose first switch lands in `trap_return` on the kernel stack `kstack_ptr`.
    pub fn goto_trap_return(kstack_ptr: usize, trap_return: usize) -> (r: TaskContext)
        ensures
            r.ra == trap_return,
            r.sp == kstack_ptr,
            forall|i: int| 0 <= i < 12 ==> r.s[i] == 0,
    {
        TaskContext { ra: trap_return, sp: kstack_ptr, s: [0; 12] }
    }
}

} // verus!
