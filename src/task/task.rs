use vstd::prelude::*;
use crate::config::{kernel_stack_position_spec, BIG_STRIDE, DEFAULT_PRIORITY, MAX_PID, MAX_SYSCALL_NUM, TRAMPOLINE_VPN, TRAP_CONTEXT_VPN};
use crate::mm::frame_allocator::PhysMemory;
use crate::mm::translate::segment_loaded;
use crate::mm::memory_set::{elf_loadable, loaded_image, AppImage, MemorySet};
use crate::mm::page_table::token_of;
use crate::sync::UPSafeCell;
use crate::task::context::TaskContext;
use crate::task::pid::KernelStack;
use crate::trap::context::{user_sstatus, TrapContext};

verus! {

/// Where a task is in its life.
#[derive(Clone, Copy, PartialEq, Eq, Structural, Debug)]
pub enum TaskStatus {
    UnInit,
    Ready,
    Running,
    Zombie,
}

/// The part of a task control block that changes while the task lives.
pub struct TaskControlBlockInner {
    /// Frame of the trap-context page.
    pub trap_cx_ppn: usize,
    /// Initial top of the user stack.
    pub base_size: usize,
    /// Kernel registers saved when the task was switched out.
    pub task_cx: TaskContext,
    /// The user state saved in the trap-context page.
    pub trap_cx: TrapContext,
    pub task_status: TaskStatus,
    /// The task's address space.
    pub memory_set: MemorySet,
    /// Identifier of the parent; it does not keep the parent alive.
    pub parent: Option<usize>,
    /// Identifiers of the children, which the task owns.
    pub children: Vec<usize>,
    pub exit_code: i32,
    /// Time of the first dispatch, in microseconds; 0 before it.
    pub task_first_time: usize,
    /// How often the task made each system call.
    pub syscall_times: Vec<u32>,
    /// Added to `pass` at each dispatch.
    pub stride: usize,
    /// Virtual time of the task: the sum of its strides so far.
    pub pass: u64,
}

impl TaskControlBlockInner {
    /// Appends one zero counter per system call.
    pub fn init_syscall_times(&mut self)
        ensures
            final(self).syscall_times@ == old(self).syscall_times@ + Seq::new(
                MAX_SYSCALL_NUM as nat,
                |i: int| 0u32,
            ),
            final(self).trap_cx_ppn == old(self).trap_cx_ppn,
            final(self).base_size == old(self).base_size,
            final(self).task_cx == old(self).task_cx,
            final(self).trap_cx == old(self).trap_cx,
            final(self).task_status == old(self).task_status,
            final(self).memory_set == old(self).memory_set,
            final(self).parent == old(self).parent,
            final(self).children == old(self).children,
            final(self).exit_code == old(self).exit_code,
            final(self).task_first_time == old(self).task_first_time,
            final(self).stride == old(self).stride,
            final(self).pass == old(self).pass,
    {
        let mut i: usize = 0;
        while i < MAX_SYSCALL_NUM
            invariant
                i <= MAX_SYSCALL_NUM,
                self.syscall_times@ == old(self).syscall_times@ + Seq::new(i as nat, |k: int| 0u32),
                self.trap_cx_ppn == old(self).trap_cx_ppn,
                self.base_size == old(self).base_size,
                self.task_cx == old(self).task_cx,
                self.trap_cx == old(self).trap_cx,
                self.task_status == old(self).task_status,
                self.memory_set == old(self).memory_set,
                self.parent == old(self).parent,
                self.children == old(self).children,
                self.exit_code == old(self).exit_code,
                self.task_first_time == old(self).task_first_time,
                self.stride == old(self).stride,
                self.pass == old(self).pass,
            decreases MAX_SYSCALL_NUM - i,
        {
            self.syscall_times.push(0);
            i += 1;
            assert(self.syscall_times@ =~= old(self).syscall_times@ + Seq::new(i as nat, |k: int| 0u32));
        }
    }

    /// The user state saved in the trap-context page.
    pub fn get_trap_cx(&mut self) -> (r: &mut TrapContext)
        ensures
            *r == old(self).trap_cx,
            final(self).trap_cx == *final(r),
            final(self).memory_set == old(self).memory_set,
            final(self).task_status == old(self).task_status,
            final(self).children == old(self).children,
            final(self).parent == old(self).parent,
    {
        &mut self.trap_cx
    }

    /// Token of the task's address space.
    pub fn get_user_token(&self) -> (r: usize)
        ensures
            r == token_of(self.memory_set.root()),
    {
        self.memory_set.token()
    }

    fn get_status(&self) -> (r: TaskStatus)
        ensures
            r == self.task_status,
    {
        self.task_status
    }

    /// Whether the task has exited and waits to be reaped.
    pub fn is_zombie(&self) -> (r: bool)
        ensures
            r == (self.task_status == TaskStatus::Zombie),
    {
        self.get_status() == TaskStatus::Zombie
    }
}

/// A task: its identifier and kernel stack, which never change, and the rest.
pub struct TaskControlBlock {
    pub pid: usize,
    pub kernel_stack: KernelStack,
    pub inner: UPSafeCell<TaskControlBlockInner>,
}

/// What every task is built with: the shared trampoline frame, the kernel's token,
/// the status register as the kernel reads it, and the addresses of the trap handler
/// and of the return path to user mode.
#[derive(Clone, Copy, Debug)]
pub struct KernelEnv {
    pub tramp_ppn: usize,
    pub kernel_satp: usize,
    pub sstatus_bits: usize,
    pub trap_handler_va: usize,
    pub trap_return_va: usize,
}

/// Counters of a task that has made no system call yet.
pub open spec fn zero_times() -> Seq<u32> {
    Seq::new(MAX_SYSCALL_NUM as nat, |i: int| 0u32)
}

/// Whether `t` is a task `pid` that has just been loaded from a program with entry
/// point `entry`, starting with the user stack pointer `t`'s `base_size`.
pub open spec fn freshly_loaded(t: TaskControlBlock, pid: usize, entry: usize, env: KernelEnv, end: usize) -> bool {
    let i = t.inner@;
    let top = kernel_stack_position_spec(pid as nat).1;
    &&& t.pid == pid
    &&& t.kernel_stack.pid == pid
    &&& i.memory_set.wf(end, env.tramp_ppn)
    &&& i.memory_set@.contains_key(TRAP_CONTEXT_VPN as usize)
    &&& i.trap_cx_ppn == i.memory_set@[TRAP_CONTEXT_VPN as usize].0
    &&& i.task_status == TaskStatus::Ready
    &&& i.parent.is_none()
    &&& i.children@.len() == 0
    &&& i.exit_code == 0
    &&& i.task_first_time == 0
    &&& i.syscall_times@ == zero_times()
    &&& i.stride == BIG_STRIDE / DEFAULT_PRIORITY
    &&& i.pass == 0
    &&& i.task_cx.ra == env.trap_return_va
    &&& i.task_cx.sp == top
    &&& i.trap_cx.sepc == entry
    &&& i.trap_cx.x@ == Seq::new(32, |k: int| if k == 2 { i.base_size } else { 0usize })
    &&& i.trap_cx.kernel_satp == env.kernel_satp
    &&& i.trap_cx.kernel_sp == top
    &&& i.trap_cx.trap_handler == env.trap_handler_va
}

impl TaskControlBlock {
    /// Task `pid`, loaded from `app`: a new address space, a kernel stack, and a trap
    /// context that starts the program at its entry point in user mode. `None` when
    /// the program cannot be loaded.
    pub fn new(mem: &mut PhysMemory, pid: usize, app: &AppImage, env: &KernelEnv) -> (r: Option<TaskControlBlock>)
        requires
            old(mem).wf(),
            env.tramp_ppn < old(mem).frame_alloc().end(),
            pid < MAX_PID,
        ensures
            final(mem).wf(),
            final(mem).frame_alloc().end() == old(mem).frame_alloc().end(),
            final(mem).frame_alloc().start() == old(mem).frame_alloc().start(),
            r.is_some() <==> elf_loadable(app.segments@, old(mem).frame_alloc().free_count()),
            match r {
                Some(t) => {
                    &&& freshly_loaded(t, pid, app.entry, *env, final(mem).frame_alloc().end())
                    &&& loaded_image(t.inner@.memory_set@, app.segments@, t.inner@.base_size, env.tramp_ppn)
                    &&& forall|k: int|
                        0 <= k < app.segments@.len() ==> #[trigger] segment_loaded(
                            final(mem)@,
                            t.inner@.memory_set@,
                            app.segments@[k].start_va,
                            app.segments@[k].mem_size,
                            app.segments@[k].data@,
                        )
                    &&& user_sstatus(env.sstatus_bits, t.inner@.trap_cx.sstatus)
                },
                None => true,
            },
    {
        let (memory_set, user_sp, entry_point) = match MemorySet::from_elf(mem, app, env.tramp_ppn) {
            Some(x) => x,
            None => {
                return None;
            },
        };
        let trap_cx_ppn = match memory_set.translate(TRAP_CONTEXT_VPN) {
            Some(pte) => pte.ppn(),
            None => {
                return None;
            },
        };
        let kernel_stack = KernelStack::new(pid);
        let kernel_stack_top = kernel_stack.get_top();
        let trap_cx = TrapContext::app_init_context(
            entry_point,
            user_sp,
            env.sstatus_bits,
            env.kernel_satp,
            kernel_stack_top,
            env.trap_handler_va,
        );
        let mut inner = TaskControlBlockInner {
            trap_cx_ppn,
            base_size: user_sp,
            task_cx: TaskContext::goto_trap_return(kernel_stack_top, env.trap_return_va),
            trap_cx,
            task_status: TaskStatus::Ready,
            memory_set,
            parent: None,
            children: Vec::new(),
            exit_code: 0,
            task_first_time: 0,
            syscall_times: Vec::new(),
            stride: BIG_STRIDE / DEFAULT_PRIORITY,
            pass: 0,
        };
        inner.init_syscall_times();
        assert(inner.syscall_times@ =~= zero_times());
        Some(TaskControlBlock { pid, kernel_stack, inner: UPSafeCell::new(inner) })
    }

    /// Token of the task's address space.
    pub fn get_user_token(&self) -> (r: usize)
        ensures
            r == token_of(self.inner@.memory_set.root()),
    {
        self.inner.get().get_user_token()
    }

    /// Replaces the task's program by `app`: a new address space, and a trap context
    /// that starts it at its entry point; the old address space's frames are given
    /// back. The identifier, kernel stack, links and status stay. `false`, with the
    /// task unchanged, when `app` cannot be loaded.
    pub fn exec(&mut self, mem: &mut PhysMemory, app: &AppImage, env: &KernelEnv) -> (r: bool)
        requires
            old(mem).wf(),
            env.tramp_ppn < old(mem).frame_alloc().end(),
            old(self).kernel_stack.pid < MAX_PID,
            old(self).inner@.memory_set.wf(old(mem).frame_alloc().end(), env.tramp_ppn),
        ensures
            final(mem).wf(),
            final(mem).frame_alloc().end() == old(mem).frame_alloc().end(),
            final(mem).frame_alloc().start() == old(mem).frame_alloc().start(),
            final(self).pid == old(self).pid,
            final(self).kernel_stack == old(self).kernel_stack,
            final(self).inner@.memory_set.wf(final(mem).frame_alloc().end(), env.tramp_ppn),
            final(self).inner@.parent == old(self).inner@.parent,
            final(self).inner@.children == old(self).inner@.children,
            final(self).inner@.task_status == old(self).inner@.task_status,
            final(self).inner@.syscall_times == old(self).inner@.syscall_times,
            final(self).inner@.exit_code == old(self).inner@.exit_code,
            r <==> elf_loadable(app.segments@, old(mem).frame_alloc().free_count()),
            r ==> {
                let i = final(self).inner@;
                &&& loaded_image(i.memory_set@, app.segments@, i.base_size, env.tramp_ppn)
                &&& forall|k: int|
                        0 <= k < app.segments@.len() ==> #[trigger] segment_loaded(
                            final(mem)@,
                            i.memory_set@,
                            app.segments@[k].start_va,
                            app.segments@[k].mem_size,
                            app.segments@[k].data@,
                        )
                &&& user_sstatus(env.sstatus_bits, i.trap_cx.sstatus)
                &&& i.memory_set@.contains_key(TRAP_CONTEXT_VPN as usize)
                &&& i.trap_cx_ppn == i.memory_set@[TRAP_CONTEXT_VPN as usize].0
                &&& i.trap_cx.sepc == app.entry
                &&& i.trap_cx.x@ == Seq::new(32, |k: int| if k == 2 { i.base_size } else { 0usize })
                &&& i.trap_cx.kernel_sp == kernel_stack_position_spec(old(self).kernel_stack.pid as nat).1
                &&& i.trap_cx.kernel_satp == env.kernel_satp
                &&& i.trap_cx.trap_handler == env.trap_handler_va
            },
            !r ==> *final(self) == *old(self),
    {
        let (memory_set, user_sp, entry_point) = match MemorySet::from_elf(mem, app, env.tramp_ppn) {
            Some(x) => x,
            None => {
                return false;
            },
        };
        let mut memory_set = memory_set;
        let trap_cx_ppn = match memory_set.translate(TRAP_CONTEXT_VPN) {
            Some(pte) => pte.ppn(),
            None => {
                memory_set.recycle_data_pages(mem);
                let _ = mem.dealloc_frame(memory_set.root_ppn());
                return false;
            },
        };
        let kernel_stack_top = self.kernel_stack.get_top();
        let trap_cx = TrapContext::app_init_context(
            entry_point,
            user_sp,
            env.sstatus_bits,
            env.kernel_satp,
            kernel_stack_top,
            env.trap_handler_va,
        );
        let inner = self.inner_exclusive_access();
        let mut old_set = memory_set;
        std::mem::swap(&mut inner.memory_set, &mut old_set);
        inner.trap_cx_ppn = trap_cx_ppn;
        inner.trap_cx = trap_cx;
        inner.base_size = user_sp;
        old_set.recycle_data_pages(mem);
        let _ = mem.dealloc_frame(old_set.root_ppn());
        true
    }

    /// Mutable access to the changing part.
    pub fn inner_exclusive_access(&mut self) -> (r: &mut TaskControlBlockInner)
        ensures
            *r == old(self).inner@,
            final(self).inner@ == *final(r),
            final(self).pid == old(self).pid,
            final(self).kernel_stack == old(self).kernel_stack,
    {
        self.inner.exclusive_access()
    }

    /// The process identifier.
    pub fn getpid(&self) -> (r: usize)
        ensures
            r == self.pid,
    {
        self.pid
    }
}

} // verus!
