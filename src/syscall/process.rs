use vstd::prelude::*;
use crate::config::MAX_SYSCALL_NUM;
use crate::kernel::{Kernel, INITPROC_PID, first_named, fork_fails, mmap_fails, selects};
use crate::mm::memory_set::{elf_loadable, loaded_image};
use crate::mm::translate::{cstr_at, lemma_cstr_unique};
use crate::mm::address::PERM_R;
use crate::mm::memory_set::remove_fails;
use crate::mm::translate::range_accessible;
use crate::mm::address::{PERM_U, PERM_W};
use crate::task::task::TaskStatus;

verus! {

/// The bytes of `x` modulo 256^n, least significant first.
pub open spec fn le_bytes(x: nat, n: nat) -> Seq<u8>
    decreases n,
{
    if n == 0 {
        Seq::empty()
    } else {
        seq![(x % 256) as u8] + le_bytes(x / 256, (n - 1) as nat)
    }
}

/// `n` bytes make `le_bytes(x, n)`.
pub proof fn lemma_le_len(x: nat, n: nat)
    ensures
        le_bytes(x, n).len() == n,
    decreases n,
{
    if n > 0 {
        lemma_le_len(x / 256, (n - 1) as nat);
    }
}

/// The counters take four bytes each.
pub proof fn lemma_counters_len(s: Seq<u32>)
    ensures
        counters_bytes(s).len() == 4 * s.len(),
    decreases s.len(),
{
    if s.len() > 0 {
        lemma_counters_len(s.drop_last());
        lemma_le_len(s.last() as nat, 4);
    }
}

/// The counters `s`, four bytes each, least significant first.
pub open spec fn counters_bytes(s: Seq<u32>) -> Seq<u8>
    decreases s.len(),
{
    if s.len() == 0 {
        Seq::empty()
    } else {
        counters_bytes(s.drop_last()) + le_bytes(s.last() as nat, 4)
    }
}

/// Appends the `n` low bytes of `x`, least significant first.
pub fn push_le(out: &mut Vec<u8>, x: u64, n: usize)
    ensures
        final(out)@ == old(out)@ + le_bytes(x as nat, n as nat),
{
    let mut v = x;
    let mut i: usize = 0;
    while i < n
        invariant
            i <= n,
            out@ + le_bytes(v as nat, (n - i) as nat) == old(out)@ + le_bytes(x as nat, n as nat),
        decreases n - i,
    {
        let ghost o = out@;
        let ghost v0 = v;
        out.push((v % 256) as u8);
        v = v / 256;
        i += 1;
        proof {
            assert(le_bytes(v0 as nat, (n - i + 1) as nat) == seq![(v0 % 256) as u8] + le_bytes(v as nat, (n - i) as nat));
            assert(out@ + le_bytes(v as nat, (n - i) as nat) =~= o + le_bytes(v0 as nat, (n - i + 1) as nat));
        }
    }
    assert(le_bytes(v as nat, 0) =~= Seq::<u8>::empty());
    assert(out@ =~= out@ + le_bytes(v as nat, 0));
}

/// Readings taken later give times that are not earlier: seconds do not decrease,
/// and within the same second microseconds do not either.
pub proof fn lemma_time_monotonic(us1: usize, us2: usize)
    requires
        us1 <= us2,
    ensures
        us1 / 1_000_000 <= us2 / 1_000_000,
        us1 / 1_000_000 == us2 / 1_000_000 ==> us1 % 1_000_000 <= us2 % 1_000_000,
{
    assert(us1 / 1_000_000 <= us2 / 1_000_000) by (nonlinear_arith)
        requires
            us1 <= us2,
    ;
    assert(us1 / 1_000_000 == us2 / 1_000_000 ==> us1 % 1_000_000 <= us2 % 1_000_000) by (nonlinear_arith)
        requires
            us1 <= us2,
    ;
}

/// The task that made the call still exists, with its counters as they were.
pub open spec fn caller_counted(k0: Kernel, k1: Kernel) -> bool {
    let c = k0.processor.current->0 as int;
    &&& k1.live(c)
    &&& k1.inner(c).syscall_times == k0.inner(c).syscall_times
}

/// The task that made the call still exists, with its counters and saved user state
/// as they were.
pub open spec fn caller_kept(k0: Kernel, k1: Kernel) -> bool {
    &&& caller_counted(k0, k1)
    &&& k1.inner(k0.processor.current->0 as int).trap_cx == k0.inner(k0.processor.current->0 as int).trap_cx
}

/// Whether the string at user address `path` of task `t` is `s`, and program `i` is
/// the first of that name.
pub open spec fn names_program(k: Kernel, t: int, path: usize, s: Seq<u8>, i: int) -> bool {
    &&& cstr_at(k.mem@, k.inner(t).memory_set@, path as int, PERM_U | PERM_R, s)
    &&& 0 <= i < k.apps@.len()
    &&& first_named(k.apps@, s, i)
}

/// Whether `exec` of the program named at `path` by task `t` succeeds: the name can
/// be read, a program has it, and that program can be loaded with the free frames.
pub open spec fn exec_ok(k: Kernel, t: int, path: usize) -> bool {
    exists|s: Seq<u8>, i: int|
        #[trigger] names_program(k, t, path, s, i) && elf_loadable(k.apps@[i].segments@, k.mem.frame_alloc().free_count())
}

/// Whether `spawn` of the program named at `path` by task `t` succeeds: as for `exec`,
/// and an identifier is free.
pub open spec fn spawn_ok(k: Kernel, t: int, path: usize) -> bool {
    &&& !(k.pids.recycled().len() == 0 && k.pids.current() == crate::config::MAX_PID)
    &&& exec_ok(k, t, path)
}

proof fn lemma_names_program_unique(k: Kernel, t: int, path: usize, s: Seq<u8>, i: int)
    requires
        names_program(k, t, path, s, i),
    ensures
        forall|s2: Seq<u8>, i2: int| #[trigger] names_program(k, t, path, s2, i2) ==> s2 == s && i2 == i,
{
    assert forall|s2: Seq<u8>, i2: int| #[trigger] names_program(k, t, path, s2, i2) implies s2 == s && i2 == i by {
        lemma_cstr_unique(k.mem@, k.inner(t).memory_set@, path as int, PERM_U | PERM_R, s, s2);
        if i2 < i {
            assert(k.apps@[i2].name@ != s);
        } else if i < i2 {
            assert(k.apps@[i].name@ != s2);
        }
    }
}

proof fn lemma_no_program(k: Kernel, t: int, path: usize, s: Seq<u8>)
    requires
        cstr_at(k.mem@, k.inner(t).memory_set@, path as int, PERM_U | PERM_R, s),
        forall|j: int| 0 <= j < k.apps@.len() ==> #[trigger] k.apps@[j].name@ != s,
    ensures
        !exec_ok(k, t, path),
        forall|s2: Seq<u8>, i2: int| !#[trigger] names_program(k, t, path, s2, i2),
{
    assert forall|s2: Seq<u8>, i2: int| !#[trigger] names_program(k, t, path, s2, i2) by {
        if names_program(k, t, path, s2, i2) {
            lemma_cstr_unique(k.mem@, k.inner(t).memory_set@, path as int, PERM_U | PERM_R, s, s2);
            assert(k.apps@[i2].name@ == s);
        }
    }
}

/// A time: whole seconds and the microseconds past them.
#[derive(Clone, Copy, PartialEq, Eq, Structural, Debug)]
pub struct TimeVal {
    pub sec: usize,
    pub usec: usize,
}

impl TimeVal {
    /// The time `us` microseconds after the clock's start.
    pub fn from_us(us: usize) -> (r: TimeVal)
        ensures
            r.sec == us / 1_000_000,
            r.usec == us % 1_000_000,
    {
        TimeVal { sec: us / 1_000_000, usec: us % 1_000_000 }
    }

    /// The record as user memory holds it: two eight-byte little-endian words.
    pub fn to_bytes(&self) -> (r: Vec<u8>)
        ensures
            r@ == le_bytes(self.sec as nat, 8) + le_bytes(self.usec as nat, 8),
    {
        let mut out: Vec<u8> = Vec::new();
        push_le(&mut out, self.sec as u64, 8);
        push_le(&mut out, self.usec as u64, 8);
        assert(out@ =~= le_bytes(self.sec as nat, 8) + le_bytes(self.usec as nat, 8));
        out
    }
}

/// The numeric code of a status as user programs see it.
pub open spec fn status_code(s: TaskStatus) -> nat {
    match s {
        TaskStatus::UnInit => 0,
        TaskStatus::Ready => 1,
        TaskStatus::Running => 2,
        TaskStatus::Zombie => 3,
    }
}

/// What a task learns of itself: its status, how often it made each system call,
/// and the milliseconds since its first dispatch.
pub struct TaskInfo {
    pub status: TaskStatus,
    pub syscall_times: Vec<u32>,
    pub time: usize,
}

impl TaskInfo {
    /// The record as user memory holds it: the status in four bytes, each counter in
    /// four bytes, four bytes of padding, and the time in eight bytes, little endian.
    pub fn to_bytes(&self) -> (r: Vec<u8>)
        ensures
            r@ == le_bytes(status_code(self.status), 4) + counters_bytes(self.syscall_times@) + seq![0u8, 0u8, 0u8, 0u8]
                + le_bytes(self.time as nat, 8),
    {
        let mut out: Vec<u8> = Vec::new();
        let code: u64 = match self.status {
            TaskStatus::UnInit => 0,
            TaskStatus::Ready => 1,
            TaskStatus::Running => 2,
            TaskStatus::Zombie => 3,
        };
        push_le(&mut out, code, 4);
        let ghost head = out@;
        let mut i: usize = 0;
        while i < self.syscall_times.len()
            invariant
                i <= self.syscall_times@.len(),
                out@ == head + counters_bytes(self.syscall_times@.take(i as int)),
            decreases self.syscall_times@.len() - i,
        {
            push_le(&mut out, self.syscall_times[i] as u64, 4);
            proof {
                let t = self.syscall_times@.take(i + 1);
                assert(t.drop_last() =~= self.syscall_times@.take(i as int));
                assert(t.last() == self.syscall_times@[i as int]);
            }
            i += 1;
        }
        assert(self.syscall_times@.take(self.syscall_times@.len() as int) =~= self.syscall_times@);
        let ghost mid = out@;
        out.push(0);
        out.push(0);
        out.push(0);
        out.push(0);
        assert(out@ =~= mid + seq![0u8, 0u8, 0u8, 0u8]);
        push_le(&mut out, self.time as u64, 8);
        assert(out@ =~= le_bytes(status_code(self.status), 4) + counters_bytes(self.syscall_times@) + seq![0u8, 0u8, 0u8, 0u8]
            + le_bytes(self.time as nat, 8));
        out
    }
}

/// Counts one more call of system call `syscall_id` for the running task.
pub fn sys_update_syscall_times(k: &mut Kernel, syscall_id: usize)
    requires
        old(k).wf(),
        old(k).processor.current is Some,
    ensures
        final(k).wf(),
        ({
            let c = old(k).processor.current->0 as int;
            let t0 = old(k).inner(c).syscall_times@;
            &&& final(k).inner(c).syscall_times@ == if syscall_id < MAX_SYSCALL_NUM {
                t0.update(syscall_id as int, ((t0[syscall_id as int] + 1) % 0x1_0000_0000) as u32)
            } else {
                t0
            }
            &&& final(k).inner(c).memory_set == old(k).inner(c).memory_set
            &&& final(k).inner(c).task_status == old(k).inner(c).task_status
            &&& final(k).inner(c).children == old(k).inner(c).children
            &&& final(k).inner(c).trap_cx == old(k).inner(c).trap_cx
            &&& final(k).live(c)
            &&& Kernel::same_tasks_but(old(k), final(k), set![c])
        }),
        final(k).console_in == old(k).console_in,
        final(k).tasks@.len() == old(k).tasks@.len(),
        final(k).mem == old(k).mem,
        final(k).manager == old(k).manager,
        final(k).processor == old(k).processor,
        final(k).pids == old(k).pids,
        final(k).apps == old(k).apps,
        final(k).env == old(k).env,
{
    k.update_current_task_syscall_times(syscall_id);
}

/// Ends the running task with `exit_code`; the hart then runs no task.
pub fn sys_exit(k: &mut Kernel, exit_code: i32)
    requires
        old(k).wf(),
        old(k).processor.current is Some,
        old(k).processor.current->0 != INITPROC_PID,
    ensures
        caller_kept(*old(k), *final(k)),
        final(k).wf(),
        final(k).processor.current.is_none(),
        final(k).inner(old(k).processor.current->0 as int).task_status == TaskStatus::Zombie,
        final(k).inner(old(k).processor.current->0 as int).exit_code == exit_code,
        ({
            let c = old(k).processor.current->0 as int;
            let cs = old(k).inner(c).children@;
            let init = INITPROC_PID as int;
            &&& final(k).inner(c).children@.len() == 0
            &&& final(k).inner(c).memory_set@ == Map::<usize, (usize, u8)>::empty().insert(
                crate::config::TRAMPOLINE_VPN as usize,
                old(k).inner(c).memory_set@[crate::config::TRAMPOLINE_VPN as usize],
            )
            &&& final(k).inner(init).children@ == old(k).inner(init).children@ + cs
            &&& forall|j: int| 0 <= j < cs.len() ==> final(k).inner(#[trigger] cs[j] as int).parent == Some(INITPROC_PID)
        }),
        final(k).manager == old(k).manager,
{
    k.exit_current_and_run_next(exit_code);
}

/// Gives the hart up: the running task goes to the back of the ready queue. Returns 0.
pub fn sys_yield(k: &mut Kernel) -> (r: isize)
    requires
        old(k).wf(),
        old(k).processor.current is Some,
    ensures
        caller_kept(*old(k), *final(k)),
        final(k).wf(),
        r == 0,
        final(k).processor.current.is_none(),
        final(k).manager.ready_queue@ == old(k).manager.ready_queue@.push(old(k).processor.current->0),
        ({
            let c = old(k).processor.current->0 as int;
            &&& final(k).inner(c).task_status == TaskStatus::Ready
            &&& final(k).inner(c).memory_set == old(k).inner(c).memory_set
            &&& final(k).inner(c).children == old(k).inner(c).children
            &&& final(k).inner(c).trap_cx == old(k).inner(c).trap_cx
            &&& Kernel::same_tasks_but(old(k), final(k), set![c])
        }),
        final(k).mem == old(k).mem,
{
    k.suspend_current_and_run_next();
    0
}

/// Identifier of the running task.
pub fn sys_getpid(k: &Kernel) -> (r: isize)
    requires
        k.wf(),
        k.processor.current is Some,
    ensures
        r == k.processor.current->0 as isize,
        r == k.tcb(k.processor.current->0 as int).pid as isize,
{
    let c = k.processor.current.unwrap();
    proof {
        assert(k.task_wf(c as int));
    }
    k.task_ref(c).getpid() as isize
}

/// Forks the running task. The child sees 0 returned and is queued; the parent sees
/// the child's identifier. -1 when no identifier or too few frames are free.
pub fn sys_fork(k: &mut Kernel) -> (r: isize)
    requires
        old(k).wf(),
        old(k).processor.current is Some,
    ensures
        caller_kept(*old(k), *final(k)),
        final(k).wf(),
        final(k).processor == old(k).processor,
        r >= -1,
        r == -1 <==> fork_fails(*old(k), old(k).processor.current->0 as int),
        r == -1 ==> final(k).tasks@.len() == old(k).tasks@.len() && Kernel::same_tasks_but(old(k), final(k), Set::empty()),
        r >= 0 ==> {
            let p = old(k).processor.current->0 as int;
            let c = r as int;
            let ci = final(k).inner(c);
            let pi = old(k).inner(p);
            &&& !old(k).live(c)
            &&& final(k).live(c)
            &&& final(k).tcb(c).pid == c
            &&& ci.task_status == TaskStatus::Ready
            &&& ci.children@.len() == 0
            &&& ci.exit_code == 0
            &&& ci.pass == 0
            &&& ci.stride == crate::config::BIG_STRIDE / crate::config::DEFAULT_PRIORITY
            &&& ci.syscall_times@ == crate::task::task::zero_times()
            &&& ci.base_size == pi.base_size
            &&& ci.trap_cx.kernel_sp == crate::config::kernel_stack_position_spec(c as nat).1
            &&& ci.trap_cx.sstatus == pi.trap_cx.sstatus
            &&& ci.trap_cx.kernel_satp == pi.trap_cx.kernel_satp
            &&& ci.trap_cx.trap_handler == pi.trap_cx.trap_handler
            &&& forall|v: usize|
                #[trigger] ci.memory_set@.contains_key(v) && v != crate::config::TRAMPOLINE_VPN ==> {
                    &&& ci.memory_set@[v].1 == pi.memory_set@[v].1 | crate::mm::address::PTE_V
                    &&& old(k).mem.frame_alloc().is_free(ci.memory_set@[v].0)
                }
            &&& (crate::mm::memory_set::owns_frames(pi.memory_set@, old(k).mem) ==> forall|v: usize, j: int|
                #[trigger] ci.memory_set@.contains_key(v) && v != crate::config::TRAMPOLINE_VPN && 0 <= j
                    < crate::config::PAGE_SIZE ==> #[trigger] final(k).mem@[crate::mm::frame_allocator::pa_of(
                    ci.memory_set@[v].0 as int,
                    j,
                )] == old(k).mem@[crate::mm::frame_allocator::pa_of(pi.memory_set@[v].0 as int, j)])
            &&& final(k).inner(c).parent == Some(p as usize)
            &&& final(k).inner(p).children@ == old(k).inner(p).children@.push(c as usize)
            &&& final(k).inner(c).trap_cx.x@ == old(k).inner(p).trap_cx.x@.update(10, 0)
            &&& final(k).inner(c).trap_cx.sepc == old(k).inner(p).trap_cx.sepc
            &&& final(k).inner(c).memory_set@.dom() == old(k).inner(p).memory_set@.dom()
            &&& final(k).manager.ready_queue@ == old(k).manager.ready_queue@.push(c as usize)
        },
{
    let p = k.processor.current.unwrap();
    proof {
        assert(k.inner(p as int).task_status == TaskStatus::Running);
    }
    match k.fork(p) {
        Some(c) => {
            k.set_return_value(c, 0);
            proof {
                assert(!old(k).manager.ready_queue@.contains(c)) by {
                    if old(k).manager.ready_queue@.contains(c) {
                        let i = old(k).manager.ready_queue@.index_of(c);
                        assert(old(k).live(old(k).manager.ready_queue@[i] as int));
                    }
                }
            }
            k.add_task(c);
            c as isize
        },
        None => -1,
    }
}

/// Replaces the program of the running task by the one named by the string at user
/// address `path`. Returns 0, or -1 when the string cannot be read, no program has
/// that name, or it cannot be loaded; the identifier stays either way.
pub fn sys_exec(k: &mut Kernel, path: usize) -> (r: isize)
    requires
        old(k).wf(),
        old(k).processor.current is Some,
    ensures
        caller_counted(*old(k), *final(k)),
        final(k).wf(),
        r == 0 || r == -1,
        final(k).processor == old(k).processor,
        final(k).manager == old(k).manager,
        final(k).tasks@.len() == old(k).tasks@.len(),
        final(k).live(old(k).processor.current->0 as int),
        final(k).tcb(old(k).processor.current->0 as int).pid == old(k).processor.current->0,
        r == 0 <==> exec_ok(*old(k), old(k).processor.current->0 as int, path),
        r == -1 ==> final(k).tasks@ == old(k).tasks@,
        r == 0 ==> exists|s: Seq<u8>, i: int|
            #[trigger] names_program(*old(k), old(k).processor.current->0 as int, path, s, i) && {
                let ci = final(k).inner(old(k).processor.current->0 as int);
                &&& loaded_image(ci.memory_set@, old(k).apps@[i].segments@, ci.base_size, old(k).env.tramp_ppn)
                &&& ci.trap_cx.sepc == old(k).apps@[i].entry
                &&& ci.trap_cx_ppn == ci.memory_set@[crate::config::TRAP_CONTEXT_VPN as usize].0
                &&& ci.trap_cx.x@ == Seq::new(32, |j: int| if j == 2 { ci.base_size } else { 0usize })
                &&& final(k).tcb(old(k).processor.current->0 as int).kernel_stack == old(k).tcb(
                    old(k).processor.current->0 as int,
                ).kernel_stack
            },
{
    let c = k.processor.current.unwrap();
    let name = match k.read_user_str(c, path) {
        Some(s) => s,
        None => {
            return -1;
        },
    };
    match k.get_app_data_by_name(&name) {
        Some(app) => {
            proof {
                lemma_names_program_unique(*k, c as int, path, name@, app as int);
            }
            if k.exec(c, app) {
                proof {
                    assert(names_program(*old(k), c as int, path, name@, app as int));
                }
                0
            } else {
                -1
            }
        },
        None => {
            proof {
                lemma_no_program(*k, c as int, path, name@);
            }
            -1
        },
    }
}

/// Waits for a child: reaps the first exited child that `pid` selects (-1 selects
/// any), stores its exit code at user address `exit_code_ptr` (four bytes, little
/// endian) and returns its identifier. -1 when `pid` selects no child or the address
/// cannot be written; -2 when none of the selected children has exited.
pub fn sys_waitpid(k: &mut Kernel, pid: isize, exit_code_ptr: usize) -> (r: isize)
    requires
        old(k).wf(),
        old(k).processor.current is Some,
    ensures
        caller_kept(*old(k), *final(k)),
        final(k).wf(),
        final(k).processor == old(k).processor,
        final(k).manager == old(k).manager,
        ({
            let p = old(k).processor.current->0 as int;
            let cs = old(k).inner(p).children@;
            &&& (forall|j: int| 0 <= j < cs.len() ==> !selects(pid, #[trigger] cs[j])) ==> r == -1
            &&& r == -1 && (exists|j: int| 0 <= j < cs.len() && selects(pid, #[trigger] cs[j])) ==> !range_accessible(
                old(k).inner(p).memory_set@,
                exit_code_ptr as int,
                4,
                PERM_U | PERM_W,
            )
            &&& r == -2 <==> ((exists|j: int| 0 <= j < cs.len() && selects(pid, #[trigger] cs[j]))
                && forall|j: int| 0 <= j < cs.len() && selects(pid, #[trigger] cs[j]) ==> old(k).inner(cs[j] as int).task_status
                    != TaskStatus::Zombie)
            &&& r >= 0 ==> {
                &&& cs.contains(r as usize)
                &&& selects(pid, r as usize)
                &&& old(k).inner(r as int).task_status == TaskStatus::Zombie
                &&& !final(k).live(r as int)
                &&& final(k).inner(p).children@ == cs.remove(cs.index_of(r as usize))
                &&& range_accessible(old(k).inner(p).memory_set@, exit_code_ptr as int, 4, PERM_U | PERM_W)
                &&& final(k).mem@ == crate::mm::translate::apply_writes(
                    old(k).mem@,
                    old(k).inner(p).memory_set@,
                    exit_code_ptr as int,
                    le_bytes(old(k).inner(r as int).exit_code as u32 as nat, 4),
                )
            }
            &&& r < 0 ==> final(k).tasks == old(k).tasks && final(k).mem == old(k).mem
            &&& r == -1 || r == -2 || r >= 0
            &&& r >= 0 ==> final(k).pids.recycled() == old(k).pids.recycled().push(r as usize)
                && !final(k).pids.in_use(r as usize) && final(k).live(p)
        }),
{
    let p = k.processor.current.unwrap();
    let idx = match k.waitpid_target(p, pid) {
        Ok(i) => i,
        Err(e) => {
            return e;
        },
    };
    let ghost cs = k.inner(p as int).children@;
    proof {
        assert(k.task_wf(p as int));
    }
    let z = k.inner_ref(p).children[idx];
    proof {
        assert(k.live(z as int));
    }
    let code = k.inner_ref(z).exit_code;
    let mut bytes: Vec<u8> = Vec::new();
    push_le(&mut bytes, code as u32 as u64, 4);
    proof {
        assert(bytes@ =~= le_bytes(code as u32 as nat, 4));
    }
    if !k.user_range_ok(p, exit_code_ptr, 4, PERM_U | PERM_W) {
        return -1;
    }
    let (zp, _) = k.reap_child(p, idx);
    let ghost kr = *k;
    let written = k.write_user(p, exit_code_ptr, &bytes);
    proof {
        lemma_le_len(code as u32 as nat, 4);
        assert(kr.inner(p as int).memory_set == old(k).inner(p as int).memory_set);
        assert(written);
        assert(kr.mem@ == old(k).mem@);
        assert(cs.index_of(z) == idx) by {
            assert(cs[idx as int] == z);
            assert(cs.no_duplicates());
        }
    }
    zp as isize
}

/// Stores the current time, `now_us` microseconds, at user address `ts` as a
/// [`TimeVal`]. Returns 0, or -1 when the address cannot be written.
pub fn sys_get_time(k: &mut Kernel, ts: usize, _tz: usize, now_us: usize) -> (r: isize)
    requires
        old(k).wf(),
        old(k).processor.current is Some,
    ensures
        caller_kept(*old(k), *final(k)),
        final(k).wf(),
        final(k).tasks == old(k).tasks,
        final(k).processor == old(k).processor,
        final(k).manager == old(k).manager,
        ({
            let pt = old(k).inner(old(k).processor.current->0 as int).memory_set@;
            let bytes = le_bytes((now_us / 1_000_000) as nat, 8) + le_bytes((now_us % 1_000_000) as nat, 8);
            &&& r == 0 <==> range_accessible(pt, ts as int, 16, PERM_U | PERM_W)
            &&& r == 0 || r == -1
            &&& r == 0 ==> final(k).mem@ == crate::mm::translate::apply_writes(old(k).mem@, pt, ts as int, bytes)
            &&& r == -1 ==> final(k).mem == old(k).mem
        }),
{
    let c = k.processor.current.unwrap();
    let bytes = TimeVal::from_us(now_us).to_bytes();
    proof {
        lemma_le_len((now_us / 1_000_000) as nat, 8);
        lemma_le_len((now_us % 1_000_000) as nat, 8);
    }
    if k.write_user(c, ts, &bytes) {
        0
    } else {
        -1
    }
}

/// Sets the priority of the running task: its stride becomes `BIG_STRIDE / prio`.
/// Returns `prio`, or -1 when `prio` is at most 1.
pub fn sys_set_priority(k: &mut Kernel, prio: isize) -> (r: isize)
    requires
        old(k).wf(),
        old(k).processor.current is Some,
    ensures
        caller_kept(*old(k), *final(k)),
        final(k).wf(),
        r == if prio <= 1 { -1isize } else { prio },
        prio <= 1 ==> *final(k) == *old(k),
        prio > 1 ==> final(k).inner(old(k).processor.current->0 as int).stride == crate::config::BIG_STRIDE / (prio as usize),
        prio > 1 ==> {
            let c = old(k).processor.current->0 as int;
            &&& final(k).inner(c).pass == old(k).inner(c).pass
            &&& final(k).inner(c).syscall_times == old(k).inner(c).syscall_times
            &&& final(k).inner(c).memory_set == old(k).inner(c).memory_set
            &&& final(k).inner(c).task_status == old(k).inner(c).task_status
            &&& Kernel::same_tasks_but(old(k), final(k), set![c])
        },
        final(k).processor == old(k).processor,
        final(k).manager == old(k).manager,
{
    if prio <= 1 {
        -1
    } else {
        k.set_priority(prio as usize);
        prio
    }
}

/// Anonymous mapping of `[start, start + len)` with the permissions of `port`; see
/// [`Kernel::mmap`].
pub fn sys_mmap(k: &mut Kernel, start: usize, len: usize, port: usize) -> (r: isize)
    requires
        old(k).wf(),
        old(k).processor.current is Some,
    ensures
        caller_kept(*old(k), *final(k)),
        final(k).wf(),
        r == 0 || r == -1,
        r == -1 <==> mmap_fails(
            old(k).inner(old(k).processor.current->0 as int).memory_set@,
            old(k).mem.frame_alloc().free_count(),
            start,
            len,
            port,
        ),
        final(k).processor == old(k).processor,
        final(k).manager == old(k).manager,
{
    k.mmap(start, len, port)
}

/// Removes the mapping of `[start, start + len)`; see [`Kernel::munmap`].
pub fn sys_munmap(k: &mut Kernel, start: usize, len: usize) -> (r: isize)
    requires
        old(k).wf(),
        old(k).processor.current is Some,
    ensures
        caller_kept(*old(k), *final(k)),
        final(k).wf(),
        r == 0 || r == -1,
        r == -1 <==> (len > usize::MAX - start || remove_fails(
            old(k).inner(old(k).processor.current->0 as int).memory_set@,
            start,
            (start + len) as usize,
        )),
        final(k).processor == old(k).processor,
        final(k).manager == old(k).manager,
{
    let ret = k.munmap(start, len);
    ret
}

/// What the running task learns of itself at time `now_us`: status Running, its
/// counters, and the milliseconds between its first dispatch and now (0 if the clock
/// reads earlier).
pub fn task_info_now(k: &Kernel, now_us: usize) -> (r: TaskInfo)
    requires
        k.wf(),
        k.processor.current is Some,
    ensures
        r.status == TaskStatus::Running,
        r.syscall_times@ == k.inner(k.processor.current->0 as int).syscall_times@,
        r.time == if now_us / 1000 >= k.inner(k.processor.current->0 as int).task_first_time / 1000 {
            now_us / 1000 - k.inner(k.processor.current->0 as int).task_first_time / 1000
        } else {
            0
        },
{
    let curr_time = now_us / 1000;
    let first_time = k.get_current_task_first_time() / 1000;
    TaskInfo {
        status: TaskStatus::Running,
        syscall_times: k.get_current_task_syscall_times(),
        time: curr_time.saturating_sub(first_time),
    }
}

/// Stores the running task's [`TaskInfo`] at user address `ti`. Returns 0, or -1
/// when the address cannot be written.
pub fn sys_task_info(k: &mut Kernel, ti: usize, now_us: usize) -> (r: isize)
    requires
        old(k).wf(),
        old(k).processor.current is Some,
    ensures
        caller_kept(*old(k), *final(k)),
        final(k).wf(),
        r == 0 || r == -1,
        final(k).tasks == old(k).tasks,
        final(k).processor == old(k).processor,
        final(k).manager == old(k).manager,
        ({
            let c = old(k).processor.current->0 as int;
            let first = old(k).inner(c).task_first_time / 1000;
            let time = if now_us / 1000 >= first { now_us / 1000 - first } else { 0 };
            let bytes = le_bytes(status_code(TaskStatus::Running), 4) + counters_bytes(old(k).inner(c).syscall_times@)
                + seq![0u8, 0u8, 0u8, 0u8] + le_bytes(time as nat, 8);
            &&& r == 0 <==> range_accessible(old(k).inner(c).memory_set@, ti as int, bytes.len() as int, PERM_U | PERM_W)
            &&& r == 0 ==> final(k).mem@ == crate::mm::translate::apply_writes(old(k).mem@, old(k).inner(c).memory_set@, ti as int, bytes)
            &&& r == -1 ==> final(k).mem == old(k).mem
        }),
{
    let c = k.processor.current.unwrap();
    let info = task_info_now(k, now_us);
    let bytes = info.to_bytes();
    if k.write_user(c, ti, &bytes) {
        0
    } else {
        -1
    }
}

/// Creates a child of the running task that runs the program named by the string
/// at user address `path`, queues it, and gives the hart up. Returns the child's
/// identifier, or -1 when the string cannot be read, no program has that name, or
/// the child cannot be made.
pub fn sys_spawn(k: &mut Kernel, path: usize) -> (r: isize)
    requires
        old(k).wf(),
        old(k).processor.current is Some,
    ensures
        caller_kept(*old(k), *final(k)),
        final(k).wf(),
        r >= -1,
        r == -1 <==> !spawn_ok(*old(k), old(k).processor.current->0 as int, path),
        r == -1 ==> final(k).processor == old(k).processor && final(k).manager == old(k).manager
            && final(k).tasks@.len() == old(k).tasks@.len() && Kernel::same_tasks_but(old(k), final(k), Set::empty()),
        r >= 0 ==> {
            let p = old(k).processor.current->0;
            let ci = final(k).inner(r as int);
            &&& !old(k).live(r as int)
            &&& final(k).live(r as int)
            &&& final(k).tcb(r as int).pid == r
            &&& final(k).inner(r as int).parent == Some(p)
            &&& ci.task_status == TaskStatus::Ready
            &&& ci.children@.len() == 0
            &&& ci.pass == 0
            &&& ci.stride == crate::config::BIG_STRIDE / crate::config::DEFAULT_PRIORITY
            &&& ci.syscall_times@ == crate::task::task::zero_times()
            &&& final(k).inner(p as int).children@ == old(k).inner(p as int).children@.push(r as usize)
            &&& final(k).inner(p as int).memory_set == old(k).inner(p as int).memory_set
            &&& exists|s: Seq<u8>, i: int|
                #[trigger] names_program(*old(k), p as int, path, s, i) && loaded_image(
                    ci.memory_set@,
                    old(k).apps@[i].segments@,
                    ci.base_size,
                    old(k).env.tramp_ppn,
                ) && ci.trap_cx.sepc == old(k).apps@[i].entry
            &&& final(k).processor.current.is_none()
            &&& final(k).manager.ready_queue@ == old(k).manager.ready_queue@.push(r as usize).push(p)
        },
{
    let p = k.processor.current.unwrap();
    let name = match k.read_user_str(p, path) {
        Some(s) => s,
        None => {
            return -1;
        },
    };
    let app = match k.get_app_data_by_name(&name) {
        Some(a) => a,
        None => {
            proof {
                lemma_no_program(*k, p as int, path, name@);
            }
            return -1;
        },
    };
    proof {
        lemma_names_program_unique(*k, p as int, path, name@, app as int);
    }
    proof {
        assert(k.inner(p as int).task_status == TaskStatus::Running);
    }
    match k.spawn(p, app) {
        Some(c) => {
            proof {
                assert(!k.manager.ready_queue@.contains(c)) by {
                    if old(k).manager.ready_queue@.contains(c) {
                        let i = old(k).manager.ready_queue@.index_of(c);
                        assert(old(k).live(old(k).manager.ready_queue@[i] as int));
                    }
                }
            }
            let ghost k1 = *k;
            k.add_task(c);
            k.suspend_current_and_run_next();
            proof {
                assert(names_program(*old(k), p as int, path, name@, app as int));
                assert(k.tasks@[c as int] == k1.tasks@[c as int]);
                assert(c < crate::config::MAX_PID);
            }
            c as isize
        },
        None => -1,
    }
}

} // verus!
