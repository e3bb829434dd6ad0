//! The system calls: argument checks, the user/kernel copy, and the dispatcher.

pub mod process;
pub mod fs;

use vstd::prelude::*;
use crate::config::MAX_SYSCALL_NUM;
use crate::kernel::{fork_fails, mmap_fails, selects};
use crate::mm::address::{PERM_R, PERM_U, PERM_W};
use crate::mm::memory_set::{elf_loadable, remove_fails};
use crate::mm::translate::range_accessible;
use crate::syscall::fs::{FD_STDIN, FD_STDOUT};
use crate::syscall::process::{exec_ok, names_program, spawn_ok};
use crate::task::task::TaskStatus;
use crate::kernel::{Kernel, INITPROC_PID};
use crate::syscall::fs::{sys_read, sys_write};
use crate::syscall::process::{
    sys_exec, sys_exit, sys_fork, sys_get_time, sys_getpid, sys_mmap, sys_munmap, sys_set_priority,
    sys_spawn, sys_task_info, sys_update_syscall_times, sys_waitpid, sys_yield,
};

verus! {

pub const SYSCALL_READ: usize = 63;
pub const SYSCALL_WRITE: usize = 64;
pub const SYSCALL_EXIT: usize = 93;
pub const SYSCALL_YIELD: usize = 124;
pub const SYSCALL_SET_PRIORITY: usize = 140;
pub const SYSCALL_GET_TIME: usize = 169;
pub const SYSCALL_GETPID: usize = 172;
pub const SYSCALL_MUNMAP: usize = 215;
pub const SYSCALL_FORK: usize = 220;
pub const SYSCALL_EXEC: usize = 221;
pub const SYSCALL_MMAP: usize = 222;
pub const SYSCALL_WAITPID: usize = 260;
pub const SYSCALL_SPAWN: usize = 400;
pub const SYSCALL_TASK_INFO: usize = 410;

/// Whether the kernel implements system call `id`.
pub open spec fn is_supported(id: usize) -> bool {
    id == SYSCALL_READ || id == SYSCALL_WRITE || id == SYSCALL_EXIT || id == SYSCALL_YIELD
        || id == SYSCALL_SET_PRIORITY || id == SYSCALL_GET_TIME || id == SYSCALL_GETPID
        || id == SYSCALL_MUNMAP || id == SYSCALL_FORK || id == SYSCALL_EXEC || id == SYSCALL_MMAP
        || id == SYSCALL_WAITPID || id == SYSCALL_SPAWN || id == SYSCALL_TASK_INFO
}

/// Whether the kernel implements system call `id`.
pub fn supported(id: usize) -> (r: bool)
    ensures
        r == is_supported(id),
{
    id == SYSCALL_READ || id == SYSCALL_WRITE || id == SYSCALL_EXIT || id == SYSCALL_YIELD
        || id == SYSCALL_SET_PRIORITY || id == SYSCALL_GET_TIME || id == SYSCALL_GETPID
        || id == SYSCALL_MUNMAP || id == SYSCALL_FORK || id == SYSCALL_EXEC || id == SYSCALL_MMAP
        || id == SYSCALL_WAITPID || id == SYSCALL_SPAWN || id == SYSCALL_TASK_INFO
}

/// What system call `id` with arguments `args`, made by the running task of `k`,
/// returns: for each call, the result that its own function states.
pub open spec fn syscall_result(k: Kernel, id: usize, args: [usize; 3], r: isize) -> bool {
    let c = k.processor.current->0 as int;
    let pt = k.inner(c).memory_set@;
    let cs = k.inner(c).children@;
    let n = if args[2] < k.console_in@.len() { args[2] as int } else { k.console_in@.len() as int };
    let pid = args[0] as isize;
    &&& id == SYSCALL_READ ==> (r == -1 <==> (args[0] != FD_STDIN || n > isize::MAX || !range_accessible(
        pt,
        args[1] as int,
        n,
        PERM_U | PERM_W,
    ))) && (r == -1 || r == n)
    &&& id == SYSCALL_WRITE ==> r == if args[0] == FD_STDOUT && args[2] <= isize::MAX && range_accessible(
        pt,
        args[1] as int,
        args[2] as int,
        PERM_U | PERM_R,
    ) {
        args[2] as isize
    } else {
        -1isize
    }
    &&& id == SYSCALL_EXIT ==> r == 0
    &&& id == SYSCALL_YIELD ==> r == 0
    &&& id == SYSCALL_SET_PRIORITY ==> r == if (args[0] as isize) <= 1 {
        -1isize
    } else {
        args[0] as isize
    }
    &&& id == SYSCALL_GET_TIME ==> (r == 0 || r == -1) && (r == 0 <==> range_accessible(pt, args[0] as int, 16, PERM_U | PERM_W))
    &&& id == SYSCALL_GETPID ==> r == c
    &&& id == SYSCALL_MUNMAP ==> (r == 0 || r == -1) && (r == -1 <==> (args[1] > usize::MAX - args[0]
        || remove_fails(pt, args[0], (args[0] + args[1]) as usize)))
    &&& id == SYSCALL_FORK ==> r >= -1 && (r == -1 <==> fork_fails(k, c))
    &&& id == SYSCALL_EXEC ==> (r == 0 || r == -1) && (r == 0 <==> exec_ok(k, c, args[0]))
    &&& id == SYSCALL_MMAP ==> (r == 0 || r == -1) && (r == -1 <==> mmap_fails(
        pt,
        k.mem.frame_alloc().free_count(),
        args[0],
        args[1],
        args[2],
    ))
    &&& id == SYSCALL_WAITPID ==> {
        &&& r == -1 || r == -2 || r >= 0
        &&& (forall|j: int| 0 <= j < cs.len() ==> !selects(pid, #[trigger] cs[j])) ==> r == -1
        &&& r == -2 <==> ((exists|j: int| 0 <= j < cs.len() && selects(pid, #[trigger] cs[j])) && forall|j: int|
            0 <= j < cs.len() && selects(pid, #[trigger] cs[j]) ==> k.inner(cs[j] as int).task_status != TaskStatus::Zombie)
        &&& r >= 0 ==> cs.contains(r as usize) && selects(pid, r as usize) && k.inner(r as int).task_status
            == TaskStatus::Zombie
        &&& r == -1 && (exists|j: int| 0 <= j < cs.len() && selects(pid, #[trigger] cs[j])) ==> !range_accessible(
            pt,
            args[1] as int,
            4,
            PERM_U | PERM_W,
        )
    }
    &&& id == SYSCALL_SPAWN ==> r >= -1 && (r == -1 <==> !spawn_ok(k, c, args[0]))
    &&& id == SYSCALL_TASK_INFO ==> (r == 0 || r == -1) && (r == 0 <==> range_accessible(pt, args[0] as int, 2016, PERM_U | PERM_W))
}

/// `k1` differs from `k0` at most in the counters and saved user state of the running
/// task: what a system call's result depends on is the same.
pub open spec fn same_call_inputs(k0: Kernel, k1: Kernel) -> bool {
    let c = k0.processor.current->0 as int;
    &&& k1.mem == k0.mem
    &&& k1.apps == k0.apps
    &&& k1.pids == k0.pids
    &&& k1.env == k0.env
    &&& k1.console_in == k0.console_in
    &&& k1.processor == k0.processor
    &&& k1.tasks@.len() == k0.tasks@.len()
    &&& Kernel::same_tasks_but(&k0, &k1, set![c])
    &&& k1.live(c)
    &&& k1.inner(c).memory_set == k0.inner(c).memory_set
    &&& k1.inner(c).children == k0.inner(c).children
    &&& k1.inner(c).task_status == k0.inner(c).task_status
}

/// A system call's result is the same whichever of two such states it starts from.
pub proof fn lemma_same_call_result(k0: Kernel, k1: Kernel, id: usize, args: [usize; 3], r: isize)
    requires
        k0.wf(),
        k0.processor.current is Some,
        same_call_inputs(k0, k1),
    ensures
        syscall_result(k1, id, args, r) == syscall_result(k0, id, args, r),
{
    let c = k0.processor.current->0 as int;
    let cs = k0.inner(c).children@;
    assert forall|q: int| 0 <= q < k0.tasks@.len() implies #[trigger] k1.live(q) == k0.live(q)
        && (k0.live(q) ==> k1.inner(q).task_status == k0.inner(q).task_status) by {
        if q != c {
            assert(k1.tasks@[q] == k0.tasks@[q]);
        }
    }
    assert forall|j: int| 0 <= j < cs.len() implies k1.inner(#[trigger] cs[j] as int).task_status == k0.inner(
        cs[j] as int,
    ).task_status by {
        assert(k0.live(c));
        let x = k0.inner(c).children@[j] as int;
        assert(k0.live(x));
    }
    assert forall|s: Seq<u8>, i: int| #[trigger] names_program(k1, c, args[0], s, i) == names_program(
        k0,
        c,
        args[0],
        s,
        i,
    ) by {}
    assert(exec_ok(k1, c, args[0]) == exec_ok(k0, c, args[0])) by {
        if exec_ok(k0, c, args[0]) {
            let (s, i) = choose|s: Seq<u8>, i: int|
                #[trigger] names_program(k0, c, args[0], s, i) && elf_loadable(
                    k0.apps@[i].segments@,
                    k0.mem.frame_alloc().free_count(),
                );
            assert(names_program(k1, c, args[0], s, i));
        }
        if exec_ok(k1, c, args[0]) {
            let (s, i) = choose|s: Seq<u8>, i: int|
                #[trigger] names_program(k1, c, args[0], s, i) && elf_loadable(
                    k1.apps@[i].segments@,
                    k1.mem.frame_alloc().free_count(),
                );
            assert(names_program(k0, c, args[0], s, i));
        }
    }
    if id == SYSCALL_WAITPID && r >= 0 {
        if cs.contains(r as usize) {
            let j = cs.index_of(r as usize);
            assert(k1.inner(cs[j] as int).task_status == k0.inner(cs[j] as int).task_status);
        }
    }
}

/// Handles system call `syscall_id` of the running task with arguments `args`, at
/// time `now_us`: first counts the call, then runs it. The initial process cannot
/// exit. The result is the one [`syscall_result`] gives for the state before the
/// call; the caller's counter for the call is one higher afterwards, and, but for
/// `exec`, its saved user state is unchanged.
pub fn syscall(k: &mut Kernel, syscall_id: usize, args: [usize; 3], now_us: usize) -> (r: isize)
    requires
        old(k).wf(),
        old(k).processor.current is Some,
        is_supported(syscall_id),
        syscall_id == SYSCALL_EXIT ==> old(k).processor.current->0 != INITPROC_PID,
    ensures
        final(k).wf(),
        syscall_result(*old(k), syscall_id, args, r),
        ({
            let c = old(k).processor.current->0 as int;
            let t0 = old(k).inner(c).syscall_times@;
            &&& final(k).live(c)
            &&& final(k).inner(c).syscall_times@ == t0.update(
                syscall_id as int,
                ((t0[syscall_id as int] + 1) % 0x1_0000_0000) as u32,
            )
            &&& syscall_id != SYSCALL_EXEC ==> final(k).inner(c).trap_cx == old(k).inner(c).trap_cx
        }),
        final(k).processor.current is Some ==> final(k).processor.current == old(k).processor.current,
        syscall_id == SYSCALL_EXIT || syscall_id == SYSCALL_YIELD ==> final(k).processor.current is None,
{
    let ghost k0 = *k;
    sys_update_syscall_times(k, syscall_id);
    let ghost k1 = *k;
    proof {
        assert(syscall_id < MAX_SYSCALL_NUM);
        assert(same_call_inputs(k0, k1));
        assert(k0.task_wf(k0.processor.current->0 as int));
        crate::syscall::process::lemma_counters_len(k1.inner(k0.processor.current->0 as int).syscall_times@);
        assert(k1.task_wf(k0.processor.current->0 as int));
        assert forall|x: nat| #[trigger] crate::syscall::process::le_bytes(x, 8).len() == 8 by {
            crate::syscall::process::lemma_le_len(x, 8);
        }
        assert forall|x: nat| #[trigger] crate::syscall::process::le_bytes(x, 4).len() == 4 by {
            crate::syscall::process::lemma_le_len(x, 4);
        }
    }
    let r = if syscall_id == SYSCALL_READ {
        sys_read(k, args[0], args[1], args[2])
    } else if syscall_id == SYSCALL_WRITE {
        sys_write(k, args[0], args[1], args[2])
    } else if syscall_id == SYSCALL_EXIT {
        sys_exit(k, args[0] as i32);
        0
    } else if syscall_id == SYSCALL_YIELD {
        sys_yield(k)
    } else if syscall_id == SYSCALL_GETPID {
        sys_getpid(k)
    } else if syscall_id == SYSCALL_FORK {
        sys_fork(k)
    } else if syscall_id == SYSCALL_EXEC {
        sys_exec(k, args[0])
    } else if syscall_id == SYSCALL_WAITPID {
        sys_waitpid(k, args[0] as isize, args[1])
    } else if syscall_id == SYSCALL_GET_TIME {
        sys_get_time(k, args[0], args[1], now_us)
    } else if syscall_id == SYSCALL_MMAP {
        sys_mmap(k, args[0], args[1], args[2])
    } else if syscall_id == SYSCALL_MUNMAP {
        sys_munmap(k, args[0], args[1])
    } else if syscall_id == SYSCALL_SET_PRIORITY {
        sys_set_priority(k, args[0] as isize)
    } else if syscall_id == SYSCALL_TASK_INFO {
        sys_task_info(k, args[0], now_us)
    } else {
        sys_spawn(k, args[0])
    };
    proof {
        lemma_same_call_result(k0, k1, syscall_id, args, r);
    }
    r
}

} // verus!
