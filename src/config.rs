use vstd::prelude::*;

verus! {

/// Size of a page in bytes.
pub const PAGE_SIZE: usize = 4096;

/// Number of bits of the in-page offset.
pub const PAGE_SIZE_BITS: usize = 12;

/// Highest page of the virtual address space: the trampoline.
pub const TRAMPOLINE: usize = usize::MAX - PAGE_SIZE + 1;

/// The page just below the trampoline: the trap context of a process.
pub const TRAP_CONTEXT: usize = TRAMPOLINE - PAGE_SIZE;

/// Virtual page number of [`TRAMPOLINE`].
pub const TRAMPOLINE_VPN: usize = usize::MAX / PAGE_SIZE;

/// Virtual page number of [`TRAP_CONTEXT`].
pub const TRAP_CONTEXT_VPN: usize = TRAMPOLINE_VPN - 1;

/// Size of the user stack of a process.
pub const USER_STACK_SIZE: usize = 8192;

/// Size of the kernel stack of a process.
pub const KERNEL_STACK_SIZE: usize = 8192;

/// Number of system-call counters kept per task.
pub const MAX_SYSCALL_NUM: usize = 500;

/// Numerator of every stride: a task of priority `p` advances by `BIG_STRIDE / p`.
pub const BIG_STRIDE: usize = 1 << 20;

/// Priority of a freshly created task.
pub const DEFAULT_PRIORITY: usize = 16;

/// Upper bound on the number of physical frames the kernel manages.
pub const MAX_FRAMES: usize = 0x10000;

/// Upper bound on process identifiers, so that every kernel stack fits below the trampoline.
pub const MAX_PID: usize = 0x10000;

/// Bottom and top of the kernel stack of the process `pid`: stacks grow down from
/// the trampoline, each followed by one unmapped guard page.
pub open spec fn kernel_stack_position_spec(pid: nat) -> (int, int) {
    let top = TRAMPOLINE - pid * (KERNEL_STACK_SIZE + PAGE_SIZE);
    (top - KERNEL_STACK_SIZE, top)
}

/// Bottom and top of the kernel stack of the process `pid`.
pub fn kernel_stack_position(pid: usize) -> (r: (usize, usize))
    requires
        pid < MAX_PID,
    ensures
        (r.0 as int, r.1 as int) == kernel_stack_position_spec(pid as nat),
{
    assert(pid * (KERNEL_STACK_SIZE + PAGE_SIZE) <= MAX_PID * (KERNEL_STACK_SIZE + PAGE_SIZE))
        by (nonlinear_arith)
        requires
            pid < MAX_PID,
    ;
    let top = TRAMPOLINE - pid * (KERNEL_STACK_SIZE + PAGE_SIZE);
    (top - KERNEL_STACK_SIZE, top)
}

} // verus!
