//! The kernel's global state as one value, and the life of its processes.

use vstd::prelude::*;
use crate::config::{BIG_STRIDE, MAX_PID, MAX_SYSCALL_NUM, TRAMPOLINE_VPN};
use crate::mm::address::{vpn_ceil, vpn_of, PERM_U};
use crate::mm::memory_set::{area_inserted, area_removed, elf_loadable, insert_fails, loaded_image, owns_frames, remove_fails};
use crate::mm::address::PTE_V;
use crate::mm::frame_allocator::pa_of;
use crate::config::PAGE_SIZE;
use crate::trap::context::user_sstatus;
use crate::mm::page_table::token_of;
use crate::mm::address::{PERM_R, PERM_W};
use crate::mm::translate::{segment_loaded, accessible, apply_writes, cstr_at, range_accessible, translated_pa, translated_read, translated_str, translated_write};
use crate::mm::frame_allocator::PhysMemory;
use crate::mm::memory_set::{AppImage, MemorySet};
use crate::task::manager::{TaskManager, stride_pick};
use crate::task::pid::{KernelStack, PidAllocator};
use crate::task::processor::Processor;
use crate::task::task::{KernelEnv, TaskControlBlock, TaskControlBlockInner, TaskStatus, freshly_loaded};
use crate::sync::UPSafeCell;

verus! {

/// Permissions that `mmap` gives for `port`: bits 0, 1, 2 of `port` become read,
/// write and execute, and the user bit is set.
pub open spec fn port_perm(port: usize) -> u8 {
    (((port & 7) * 2) as u8) | PERM_U
}

/// When `mmap(start, len, port)` fails on a task whose pages are `pt`, with `free`
/// frames free.
pub open spec fn mmap_fails(pt: Map<usize, (usize, u8)>, free: nat, start: usize, len: usize, port: usize) -> bool {
    ||| port & !7usize != 0
    ||| port & 7 == 0
    ||| len > usize::MAX - start
    ||| insert_fails(pt, free, start, (start + len) as usize)
}

/// Permissions that `mmap` gives for `port`.
pub fn port_to_perm(port: usize) -> (r: u8)
    ensures
        r == port_perm(port),
{
    assert(port & 7 <= 7) by (bit_vector);
    (((port & 7) * 2) as u8) | PERM_U
}

/// Whether the `pid` argument of `waitpid` selects child `c`: -1 selects every child.
pub open spec fn selects(pid: isize, c: usize) -> bool {
    pid == -1 || pid == c as int
}

/// When `fork` of task `parent` fails: fewer frames are free than the parent has
/// mappings, the parent has no trap-context page, or every identifier is in use.
pub open spec fn fork_fails(k: Kernel, parent: int) -> bool {
    let pm = k.inner(parent).memory_set@;
    ||| k.mem.frame_alloc().free_count() < pm.dom().len()
    ||| !pm.contains_key(crate::config::TRAP_CONTEXT_VPN as usize)
    ||| (k.pids.recycled().len() == 0 && k.pids.current() == MAX_PID)
}

/// Whether program `i` is the first of `apps` named `name`.
pub open spec fn first_named(apps: Seq<AppImage>, name: Seq<u8>, i: int) -> bool {
    &&& apps[i].name@ == name
    &&& forall|j: int| 0 <= j < i ==> #[trigger] apps[j].name@ != name
}

/// Whether `a` and `b` hold the same bytes.
pub fn bytes_eq(a: &Vec<u8>, b: &Vec<u8>) -> (r: bool)
    ensures
        r == (a@ == b@),
{
    if a.len() != b.len() {
        return false;
    }
    let mut i: usize = 0;
    while i < a.len()
        invariant
            a@.len() == b@.len(),
            i <= a@.len(),
            forall|j: int| 0 <= j < i ==> a@[j] == b@[j],
        decreases a@.len() - i,
    {
        if a[i] != b[i] {
            return false;
        }
        i += 1;
    }
    assert(a@ =~= b@);
    true
}

/// Identifier of the initial process, which adopts every orphan.
pub const INITPROC_PID: usize = 0;

/// Everything the kernel keeps: physical memory and its frames, the identifiers in
/// use, the task table (indexed by identifier), the ready queue, the hart, the
/// programs that can be loaded, and what every task is built with.
pub struct Kernel {
    pub mem: PhysMemory,
    pub pids: PidAllocator,
    pub tasks: Vec<Option<TaskControlBlock>>,
    pub manager: TaskManager,
    pub processor: Processor,
    pub apps: Vec<AppImage>,
    pub env: KernelEnv,
    /// Bytes written to the console and not yet shown.
    pub console_out: Vec<u8>,
    /// Bytes typed on the console and not yet read.
    pub console_in: Vec<u8>,
}

impl Kernel {
    /// Whether task `p` exists.
    pub open spec fn live(&self, p: int) -> bool {
        0 <= p < self.tasks@.len() && self.tasks@[p] is Some
    }

    /// Task `p`.
    pub open spec fn tcb(&self, p: int) -> TaskControlBlock {
        self.tasks@[p]->0
    }

    /// The changing part of task `p`.
    pub open spec fn inner(&self, p: int) -> TaskControlBlockInner {
        self.tcb(p).inner@
    }

    /// The frame count of memory.
    pub open spec fn end(&self) -> usize {
        self.mem.frame_alloc().end()
    }

    /// What holds of each task alone.
    pub open spec fn task_wf(&self, p: int) -> bool {
        &&& self.tcb(p).pid == p
        &&& self.tcb(p).kernel_stack.pid == p
        &&& self.inner(p).memory_set.wf(self.end(), self.env.tramp_ppn)
        &&& self.inner(p).syscall_times@.len() == MAX_SYSCALL_NUM
        &&& self.inner(p).children@.no_duplicates()
        &&& self.inner(p).task_status == TaskStatus::Zombie ==> self.inner(p).children@.len() == 0
    }

    /// Parent and child links agree: a child lists its parent, the parent lists the child.
    pub open spec fn tree_wf(&self) -> bool {
        &&& forall|p: int|
            #[trigger] self.live(p) && self.inner(p).parent is Some ==> {
                let q = self.inner(p).parent->0 as int;
                self.live(q) && self.inner(q).children@.contains(p as usize) && q != p
            }
        &&& forall|p: int, i: int|
            #[trigger] self.live(p) && 0 <= i < self.inner(p).children@.len() ==> {
                let c = #[trigger] self.inner(p).children@[i] as int;
                self.live(c) && self.inner(c).parent == Some(p as usize)
            }
    }

    /// The ready queue holds distinct ready tasks, and the running task is not among them.
    pub open spec fn sched_wf(&self) -> bool {
        let rq = self.manager.ready_queue@;
        &&& rq.no_duplicates()
        &&& forall|i: int|
            0 <= i < rq.len() ==> self.live(#[trigger] rq[i] as int) && self.inner(rq[i] as int).task_status
                == TaskStatus::Ready
        &&& match self.processor.current {
            Some(c) => self.live(c as int) && self.inner(c as int).task_status == TaskStatus::Running,
            None => true,
        }
    }

    pub open spec fn wf(&self) -> bool {
        &&& self.mem.wf()
        &&& self.env.tramp_ppn < self.end()
        &&& self.pids.wf()
        &&& self.pids.current() == self.tasks@.len()
        &&& self.tasks@.len() <= MAX_PID
        &&& forall|p: usize| p < self.tasks@.len() ==> (#[trigger] self.live(p as int) <==> self.pids.in_use(p))
        &&& forall|p: int| #[trigger] self.live(p) ==> self.task_wf(p)
        &&& self.tree_wf()
        &&& self.sched_wf()
        &&& self.live(INITPROC_PID as int)
        &&& self.inner(INITPROC_PID as int).parent is None
        &&& self.inner(INITPROC_PID as int).task_status != TaskStatus::Zombie
    }

    /// Task `p`, read only.
    pub fn task_ref(&self, p: usize) -> (r: &TaskControlBlock)
        requires
            self.live(p as int),
        ensures
            *r == self.tcb(p as int),
    {
        self.tasks[p].as_ref().unwrap()
    }

    /// The changing part of task `p`, read only.
    pub fn inner_ref(&self, p: usize) -> (r: &TaskControlBlockInner)
        requires
            self.live(p as int),
        ensures
            *r == self.inner(p as int),
    {
        self.tasks[p].as_ref().unwrap().inner.get()
    }

    /// Mutable access to the changing part of task `p`; nothing else changes.
    pub fn inner_mut(&mut self, p: usize) -> (r: &mut TaskControlBlockInner)
        requires
            old(self).live(p as int),
        ensures
            *r == old(self).inner(p as int),
            final(self).tasks@.len() == old(self).tasks@.len(),
            final(self).live(p as int),
            final(self).inner(p as int) == *final(r),
            final(self).tcb(p as int).pid == old(self).tcb(p as int).pid,
            final(self).tcb(p as int).kernel_stack == old(self).tcb(p as int).kernel_stack,
            forall|q: int|
                0 <= q < old(self).tasks@.len() && q != p ==> #[trigger] final(self).tasks@[q] == old(
                    self,
                ).tasks@[q],
            final(self).mem == old(self).mem,
            final(self).pids == old(self).pids,
            final(self).manager == old(self).manager,
            final(self).processor == old(self).processor,
            final(self).apps == old(self).apps,
            final(self).env == old(self).env,
            final(self).console_in == old(self).console_in,
            final(self).console_out == old(self).console_out,
    {
        self.tasks[p].as_mut().unwrap().inner_exclusive_access()
    }

    /// Takes physical memory out, leaving an empty one in its place.
    fn take_mem(&mut self) -> (r: PhysMemory)
        ensures
            r == old(self).mem,
            final(self).tasks == old(self).tasks,
            final(self).pids == old(self).pids,
            final(self).manager == old(self).manager,
            final(self).processor == old(self).processor,
            final(self).apps == old(self).apps,
            final(self).env == old(self).env,
            final(self).console_in == old(self).console_in,
            final(self).console_out == old(self).console_out,
    {
        let mut m = PhysMemory::new(0, 0);
        std::mem::swap(&mut self.mem, &mut m);
        m
    }

    /// Mutable access to task `p`; nothing else changes.
    fn task_mut(&mut self, p: usize) -> (r: &mut TaskControlBlock)
        requires
            old(self).live(p as int),
        ensures
            *r == old(self).tcb(p as int),
            final(self).tasks@.len() == old(self).tasks@.len(),
            final(self).live(p as int),
            final(self).tcb(p as int) == *final(r),
            forall|q: int|
                0 <= q < old(self).tasks@.len() && q != p ==> #[trigger] final(self).tasks@[q] == old(
                    self,
                ).tasks@[q],
            final(self).mem == old(self).mem,
            final(self).pids == old(self).pids,
            final(self).manager == old(self).manager,
            final(self).processor == old(self).processor,
            final(self).apps == old(self).apps,
            final(self).env == old(self).env,
            final(self).console_in == old(self).console_in,
            final(self).console_out == old(self).console_out,
    {
        self.tasks[p].as_mut().unwrap()
    }

    /// Puts task `p` in the slot of its identifier.
    fn install(&mut self, p: usize, t: TaskControlBlock)
        requires
            p <= old(self).tasks@.len(),
            p < old(self).tasks@.len() ==> old(self).tasks@[p as int] is None,
        ensures
            final(self).tasks@ == if p == old(self).tasks@.len() {
                old(self).tasks@.push(Some(t))
            } else {
                old(self).tasks@.update(p as int, Some(t))
            },
            final(self).mem == old(self).mem,
            final(self).pids == old(self).pids,
            final(self).manager == old(self).manager,
            final(self).processor == old(self).processor,
            final(self).apps == old(self).apps,
            final(self).env == old(self).env,
            final(self).console_in == old(self).console_in,
            final(self).console_out == old(self).console_out,
    {
        if p == self.tasks.len() {
            self.tasks.push(Some(t));
        } else {
            self.tasks.set(p, Some(t));
        }
    }

    /// Whether `new` has the same tasks as `old` but for those in `except`.
    pub open spec fn same_tasks_but(old: &Kernel, new: &Kernel, except: Set<int>) -> bool {
        forall|q: int|
            0 <= q < old.tasks@.len() && !except.contains(q) ==> #[trigger] new.tasks@[q] == old.tasks@[q]
    }

    /// Creates task `parent`'s child: a copy of its address space on fresh frames, and
    /// of its trap context but for the kernel stack; the child is ready to run but not
    /// yet queued. `None`, with every task as it was, when no identifier or too few
    /// frames are free.
    pub fn fork(&mut self, parent: usize) -> (r: Option<usize>)
        requires
            old(self).wf(),
            old(self).live(parent as int),
            old(self).inner(parent as int).task_status != TaskStatus::Zombie,
        ensures
            final(self).wf(),
            final(self).manager == old(self).manager,
            final(self).processor == old(self).processor,
            final(self).apps == old(self).apps,
            final(self).env == old(self).env,
            match r {
                Some(c) => {
                    let pi = old(self).inner(parent as int);
                    let ci = final(self).inner(c as int);
                    &&& !old(self).live(c as int)
                    &&& final(self).live(c as int)
                    &&& c != parent
                    &&& Kernel::same_tasks_but(old(self), final(self), set![parent as int, c as int])
                    &&& final(self).inner(parent as int).children@ == pi.children@.push(c)
                    &&& final(self).inner(parent as int).memory_set == pi.memory_set
                    &&& final(self).inner(parent as int).trap_cx == pi.trap_cx
                    &&& final(self).inner(parent as int).task_status == pi.task_status
                    &&& final(self).inner(parent as int).exit_code == pi.exit_code
                    &&& final(self).inner(parent as int).parent == pi.parent
                    &&& ci.parent == Some(parent)
                    &&& ci.children@.len() == 0
                    &&& ci.task_status == TaskStatus::Ready
                    &&& ci.memory_set@.dom() == pi.memory_set@.dom()
                    &&& ci.trap_cx.x == pi.trap_cx.x
                    &&& ci.trap_cx.sepc == pi.trap_cx.sepc
                    &&& ci.trap_cx.kernel_sp == crate::config::kernel_stack_position_spec(c as nat).1
                    &&& ci.trap_cx.sstatus == pi.trap_cx.sstatus
                    &&& ci.trap_cx.kernel_satp == pi.trap_cx.kernel_satp
                    &&& ci.trap_cx.trap_handler == pi.trap_cx.trap_handler
                    &&& ci.base_size == pi.base_size
                    &&& ci.stride == BIG_STRIDE / crate::config::DEFAULT_PRIORITY
                    &&& ci.exit_code == 0
                    &&& ci.pass == 0
                    &&& ci.syscall_times@ == crate::task::task::zero_times()
                    &&& final(self).tcb(c as int).pid == c
                    &&& final(self).inner(parent as int).syscall_times == pi.syscall_times
                    &&& forall|v: usize|
                        #[trigger] ci.memory_set@.contains_key(v) && v != TRAMPOLINE_VPN ==> {
                            &&& ci.memory_set@[v].1 == pi.memory_set@[v].1 | PTE_V
                            &&& old(self).mem.frame_alloc().is_free(ci.memory_set@[v].0)
                        }
                    &&& (owns_frames(pi.memory_set@, old(self).mem) ==> forall|v: usize, k: int|
                        #[trigger] ci.memory_set@.contains_key(v) && v != TRAMPOLINE_VPN && 0 <= k < PAGE_SIZE
                            ==> #[trigger] final(self).mem@[pa_of(ci.memory_set@[v].0 as int, k)] == old(self).mem@[pa_of(
                            pi.memory_set@[v].0 as int,
                            k,
                        )])
                },
                None => Kernel::same_tasks_but(old(self), final(self), Set::empty())
                    && final(self).tasks@.len() == old(self).tasks@.len(),
            },
            r.is_none() <==> fork_fails(*old(self), parent as int),
    {
        let ms = match MemorySet::from_existed_user(
            &mut self.mem,
            &self.tasks[parent].as_ref().unwrap().inner.get().memory_set,
        ) {
            Some(ms) => ms,
            None => {
                return None;
            },
        };
        let mut ms = ms;
        proof {
            assert(ms@.dom() == old(self).inner(parent as int).memory_set@.dom());
            assert(ms@.contains_key(crate::config::TRAP_CONTEXT_VPN as usize) == old(self).inner(parent as int).memory_set@.contains_key(crate::config::TRAP_CONTEXT_VPN as usize));
        }
        let trap_cx_ppn = match ms.translate(crate::config::TRAP_CONTEXT_VPN) {
            Some(pte) => pte.ppn(),
            None => {
                ms.recycle_data_pages(&mut self.mem);
                let _ = self.mem.dealloc_frame(ms.root_ppn());
                proof {
                    self.lemma_wf_mem_only(*old(self));
                }
                return None;
            },
        };
        let pid = match self.pids.allocate() {
            Some(p) => p,
            None => {
                ms.recycle_data_pages(&mut self.mem);
                let _ = self.mem.dealloc_frame(ms.root_ppn());
                proof {
                    self.lemma_wf_mem_only(*old(self));
                }
                return None;
            },
        };
        proof {
            assert(pid < self.tasks@.len() ==> !old(self).live(pid as int));
        }
        let kernel_stack = KernelStack::new(pid);
        let kernel_stack_top = kernel_stack.get_top();
        let pinner = self.inner_ref(parent);
        let mut trap_cx = pinner.trap_cx;
        trap_cx.kernel_sp = kernel_stack_top;
        let mut inner = TaskControlBlockInner {
            trap_cx_ppn,
            base_size: pinner.base_size,
            task_cx: crate::task::context::TaskContext::goto_trap_return(kernel_stack_top, self.env.trap_return_va),
            trap_cx,
            task_status: TaskStatus::Ready,
            memory_set: ms,
            parent: Some(parent),
            children: Vec::new(),
            exit_code: 0,
            task_first_time: 0,
            syscall_times: Vec::new(),
            stride: crate::config::BIG_STRIDE / crate::config::DEFAULT_PRIORITY,
            pass: 0,
        };
        inner.init_syscall_times();
        assert(inner.syscall_times@ =~= crate::task::task::zero_times());
        let ghost k0 = *self;
        self.install(pid, TaskControlBlock { pid, kernel_stack, inner: UPSafeCell::new(inner) });
        let ghost k1 = *self;
        self.inner_mut(parent).children.push(pid);
        proof {
            self.lemma_fork_wf(k0, k1, *old(self), parent, pid);
        }
        Some(pid)
    }

    /// Replaces the program of task `p` by `app`: a new address space, and a trap
    /// context that starts it at its entry point. The identifier, kernel stack, links
    /// and status stay. `false`, with the task unchanged, when `app` cannot be loaded.
    pub fn exec(&mut self, p: usize, app: usize) -> (r: bool)
        requires
            old(self).wf(),
            old(self).live(p as int),
            app < old(self).apps@.len(),
        ensures
            final(self).wf(),
            final(self).manager == old(self).manager,
            final(self).processor == old(self).processor,
            final(self).apps == old(self).apps,
            final(self).env == old(self).env,
            final(self).pids == old(self).pids,
            final(self).tasks@.len() == old(self).tasks@.len(),
            Kernel::same_tasks_but(old(self), final(self), set![p as int]),
            final(self).live(p as int),
            final(self).tcb(p as int).pid == p,
            final(self).inner(p as int).parent == old(self).inner(p as int).parent,
            final(self).inner(p as int).children == old(self).inner(p as int).children,
            final(self).inner(p as int).task_status == old(self).inner(p as int).task_status,
            final(self).inner(p as int).syscall_times == old(self).inner(p as int).syscall_times,
            final(self).inner(p as int).exit_code == old(self).inner(p as int).exit_code,
            final(self).tcb(p as int).kernel_stack == old(self).tcb(p as int).kernel_stack,
            r <==> elf_loadable(old(self).apps@[app as int].segments@, old(self).mem.frame_alloc().free_count()),
            r ==> {
                let i = final(self).inner(p as int);
                &&& loaded_image(i.memory_set@, old(self).apps@[app as int].segments@, i.base_size, old(self).env.tramp_ppn)
                &&& forall|k: int|
                    0 <= k < old(self).apps@[app as int].segments@.len() ==> #[trigger] segment_loaded(
                        final(self).mem@,
                        i.memory_set@,
                        old(self).apps@[app as int].segments@[k].start_va,
                        old(self).apps@[app as int].segments@[k].mem_size,
                        old(self).apps@[app as int].segments@[k].data@,
                    )
                &&& i.trap_cx.x@ == Seq::new(32, |k: int| if k == 2 { i.base_size } else { 0usize })
                &&& i.trap_cx_ppn == i.memory_set@[crate::config::TRAP_CONTEXT_VPN as usize].0
                &&& user_sstatus(old(self).env.sstatus_bits, i.trap_cx.sstatus)
                &&& i.trap_cx.sepc == old(self).apps@[app as int].entry
                &&& i.trap_cx.kernel_sp == crate::config::kernel_stack_position_spec(p as nat).1
                &&& i.trap_cx.kernel_satp == old(self).env.kernel_satp
                &&& i.trap_cx.trap_handler == old(self).env.trap_handler_va
            },
            !r ==> final(self).tasks@ == old(self).tasks@,
    {
        let env = self.env;
        let mut mem = self.take_mem();
        let mut apps: Vec<AppImage> = Vec::new();
        std::mem::swap(&mut self.apps, &mut apps);
        proof {
            assert(old(self).task_wf(p as int));
        }
        let ok = self.task_mut(p).exec(&mut mem, &apps[app], &env);
        std::mem::swap(&mut self.apps, &mut apps);
        self.mem = mem;
        proof {
            self.lemma_inner_update(*old(self), p as int);
        }
        ok
    }

    /// Puts the running task back at the end of the ready queue; the hart then runs
    /// no task until the next dispatch.
    pub fn suspend_current_and_run_next(&mut self)
        requires
            old(self).wf(),
            old(self).processor.current is Some,
        ensures
            final(self).wf(),
            final(self).processor.current.is_none(),
            final(self).manager.ready_queue@ == old(self).manager.ready_queue@.push(
                old(self).processor.current->0,
            ),
            final(self).inner(old(self).processor.current->0 as int).task_status == TaskStatus::Ready,
            ({
                let c = old(self).processor.current->0 as int;
                &&& final(self).live(c)
                &&& final(self).inner(c).memory_set == old(self).inner(c).memory_set
                &&& final(self).inner(c).children == old(self).inner(c).children
                &&& final(self).inner(c).parent == old(self).inner(c).parent
                &&& final(self).inner(c).syscall_times == old(self).inner(c).syscall_times
                &&& final(self).inner(c).trap_cx == old(self).inner(c).trap_cx
                &&& final(self).inner(c).pass == old(self).inner(c).pass
                &&& final(self).inner(c).exit_code == old(self).inner(c).exit_code
            }),
            final(self).mem == old(self).mem,
            final(self).console_in == old(self).console_in,
            final(self).console_out == old(self).console_out,
            final(self).tasks@.len() == old(self).tasks@.len(),
            Kernel::same_tasks_but(old(self), final(self), set![old(self).processor.current->0 as int]),
            final(self).pids == old(self).pids,
            final(self).apps == old(self).apps,
            final(self).env == old(self).env,
    {
        let c = self.processor.take_current().unwrap();
        let ghost k0 = *self;
        proof {
            assert(!old(self).manager.ready_queue@.contains(c)) by {
                if old(self).manager.ready_queue@.contains(c) {
                    let i = old(self).manager.ready_queue@.index_of(c);
                    assert(old(self).inner(old(self).manager.ready_queue@[i] as int).task_status == TaskStatus::Ready);
                }
            }
            assert(old(self).task_wf(c as int));
        }
        self.inner_mut(c).task_status = TaskStatus::Ready;
        self.manager.add(c);
        proof {
            let rq = self.manager.ready_queue@;
            assert forall|i: int| 0 <= i < rq.len() implies self.live(#[trigger] rq[i] as int)
                && self.inner(rq[i] as int).task_status == TaskStatus::Ready by {
                if i < rq.len() - 1 {
                    assert(old(self).live(rq[i] as int));
                    assert(rq[i] != c);
                    assert(self.tasks@[rq[i] as int] == old(self).tasks@[rq[i] as int]);
                }
            }
            assert(rq.no_duplicates()) by {
                let r0 = old(self).manager.ready_queue@;
                assert forall|i: int, j: int| 0 <= i < rq.len() && 0 <= j < rq.len() && i != j implies rq[i] != rq[j] by {
                    if i < r0.len() && j < r0.len() {
                    } else if i < r0.len() {
                        assert(r0.contains(r0[i]));
                    } else {
                        assert(r0.contains(r0[j]));
                    }
                }
            }
            self.lemma_sched_update(*old(self), c as int);
        }
    }

    /// The passes of the ready tasks, in queue order.
    pub fn ready_passes(&self) -> (r: Vec<u64>)
        requires
            self.wf(),
        ensures
            r@ == self.manager.ready_queue@.map_values(|q: usize| self.inner(q as int).pass),
    {
        let n = self.manager.ready_queue.len();
        let mut passes: Vec<u64> = Vec::new();
        let mut i: usize = 0;
        while i < n
            invariant
                self.wf(),
                n == self.manager.ready_queue@.len(),
                i <= n,
                passes@ == self.manager.ready_queue@.take(i as int).map_values(|q: usize| self.inner(q as int).pass),
            decreases n - i,
        {
            let q = self.manager.ready_queue[i];
            proof {
                assert(self.live(self.manager.ready_queue@[i as int] as int));
            }
            passes.push(self.inner_ref(q).pass);
            proof {
                assert(passes@ =~= self.manager.ready_queue@.take(i + 1).map_values(|q: usize| self.inner(q as int).pass));
            }
            i += 1;
        }
        proof {
            assert(self.manager.ready_queue@.take(n as int) =~= self.manager.ready_queue@);
        }
        passes
    }

    /// Takes the ready task with the smallest pass, by the wrap-safe comparison, out
    /// of the ready queue; `None` when the queue is empty.
    pub fn fetch_task(&mut self) -> (r: Option<usize>)
        requires
            old(self).wf(),
        ensures
            final(self).wf(),
            final(self).tasks == old(self).tasks,
            final(self).processor == old(self).processor,
            final(self).pids == old(self).pids,
            final(self).mem == old(self).mem,
            final(self).apps == old(self).apps,
            final(self).env == old(self).env,
            final(self).console_in == old(self).console_in,
            final(self).console_out == old(self).console_out,
            match r {
                Some(t) => {
                    let rq = old(self).manager.ready_queue@;
                    let idx = stride_pick(rq.map_values(|q: usize| old(self).inner(q as int).pass));
                    &&& rq.len() > 0
                    &&& 0 <= idx < rq.len()
                    &&& t == rq[idx]
                    &&& final(self).manager.ready_queue@ == rq.remove(idx)
                },
                None => old(self).manager.ready_queue@.len() == 0 && final(self).manager == old(self).manager,
            },
    {
        let passes = self.ready_passes();
        let t = match self.manager.fetch(&passes) {
            Some(t) => t,
            None => {
                return None;
            },
        };
        proof {
            self.lemma_queue_removal(*old(self), stride_pick(passes@));
        }
        Some(t)
    }

    /// One round of the idle loop: the next task by the stride policy becomes the
    /// running one; its first dispatch time is recorded if it had none, and its pass
    /// advances by its stride (modulo 2^64). `None` when no task is ready.
    pub fn run_tasks_once(&mut self, now_us: usize) -> (r: Option<usize>)
        requires
            old(self).wf(),
            old(self).processor.current is None,
        ensures
            final(self).wf(),
            final(self).pids == old(self).pids,
            final(self).apps == old(self).apps,
            final(self).env == old(self).env,
            final(self).tasks@.len() == old(self).tasks@.len(),
            match r {
                Some(t) => {
                    let rq = old(self).manager.ready_queue@;
                    let idx = stride_pick(rq.map_values(|q: usize| old(self).inner(q as int).pass));
                    let i0 = old(self).inner(t as int);
                    let i1 = final(self).inner(t as int);
                    &&& 0 <= idx < rq.len()
                    &&& t == rq[idx]
                    &&& final(self).manager.ready_queue@ == rq.remove(idx)
                    &&& final(self).processor.current == Some(t)
                    &&& i1.task_status == TaskStatus::Running
                    &&& i1.pass == (i0.pass + i0.stride) % 0x1_0000_0000_0000_0000
                    &&& i1.task_first_time == if i0.task_first_time == 0 { now_us } else { i0.task_first_time }
                    &&& i1.stride == i0.stride
                    &&& i1.syscall_times == i0.syscall_times
                    &&& i1.memory_set == i0.memory_set
                    &&& Kernel::same_tasks_but(old(self), final(self), set![t as int])
                },
                None => old(self).manager.ready_queue@.len() == 0 && *final(self) == *old(self),
            },
    {
        let t = match self.fetch_task() {
            Some(t) => t,
            None => {
                return None;
            },
        };
        let ghost k1 = *self;
        proof {
            assert(k1.live(t as int));
            assert(k1.task_wf(t as int));
            assert(!k1.manager.ready_queue@.contains(t)) by {
                let r0 = old(self).manager.ready_queue@;
                let idx = stride_pick(r0.map_values(|q: usize| old(self).inner(q as int).pass));
                if k1.manager.ready_queue@.contains(t) {
                    let i = k1.manager.ready_queue@.index_of(t);
                    let j = if i < idx { i } else { i + 1 };
                    assert(k1.manager.ready_queue@[i] == r0[j]);
                }
            }
        }
        let inner = self.inner_mut(t);
        inner.task_status = TaskStatus::Running;
        if inner.task_first_time == 0 {
            inner.task_first_time = now_us;
        }
        inner.pass = inner.pass.wrapping_add(inner.stride as u64);
        self.processor.current = Some(t);
        proof {
            let rq = self.manager.ready_queue@;
            assert forall|i: int| 0 <= i < rq.len() implies self.live(#[trigger] rq[i] as int)
                && self.inner(rq[i] as int).task_status == TaskStatus::Ready by {
                assert(k1.live(rq[i] as int));
                assert(rq[i] != t);
                assert(self.tasks@[rq[i] as int] == k1.tasks@[rq[i] as int]);
            }
            self.lemma_sched_update(k1, t as int);
        }
        Some(t)
    }

    /// Appends task `t` to the ready queue.
    pub fn add_task(&mut self, t: usize)
        requires
            old(self).wf(),
            old(self).live(t as int),
            old(self).inner(t as int).task_status == TaskStatus::Ready,
            !old(self).manager.ready_queue@.contains(t),
        ensures
            final(self).wf(),
            final(self).manager.ready_queue@ == old(self).manager.ready_queue@.push(t),
            final(self).tasks == old(self).tasks,
            final(self).processor == old(self).processor,
            final(self).pids == old(self).pids,
            final(self).mem == old(self).mem,
            final(self).apps == old(self).apps,
            final(self).env == old(self).env,
    {
        self.manager.add(t);
        proof {
            let rq = self.manager.ready_queue@;
            let r0 = old(self).manager.ready_queue@;
            assert forall|i: int| 0 <= i < rq.len() implies self.live(#[trigger] rq[i] as int)
                && self.inner(rq[i] as int).task_status == TaskStatus::Ready by {
                if i < r0.len() {
                    assert(rq[i] == r0[i]);
                }
            }
            assert(rq.no_duplicates()) by {
                assert forall|i: int, j: int| 0 <= i < rq.len() && 0 <= j < rq.len() && i != j implies rq[i] != rq[j] by {
                    if i < r0.len() && j < r0.len() {
                    } else if i < r0.len() {
                        assert(r0.contains(r0[i]));
                    } else {
                        assert(r0.contains(r0[j]));
                    }
                }
            }
            assert(old(self).task_wf(t as int));
            self.lemma_sched_update(*old(self), t as int);
        }
    }

    /// Maps `[start, start + len)` in the running task to fresh zeroed frames, with the
    /// permissions of the low three bits of `port` (read, write, execute) and the user
    /// bit, all pages or none. Returns 0 on success and -1 when `port` has a bit above
    /// the third or none of the three, when the range overflows, or when inserting the
    /// area fails (see [`insert_fails`]).
    pub fn mmap(&mut self, start: usize, len: usize, port: usize) -> (r: isize)
        requires
            old(self).wf(),
            old(self).processor.current is Some,
        ensures
            final(self).wf(),
            r == 0 || r == -1,
            ({
                let c = old(self).processor.current->0 as int;
                let pt0 = old(self).inner(c).memory_set@;
                &&& r == -1 <==> mmap_fails(pt0, old(self).mem.frame_alloc().free_count(), start, len, port)
                &&& r == -1 ==> final(self).inner(c).memory_set@ == pt0 && final(self).mem == old(self).mem
                &&& r == 0 ==> area_inserted(
                    pt0,
                    final(self).inner(c).memory_set@,
                    old(self).mem,
                    final(self).mem,
                    vpn_of(start as int) as usize,
                    vpn_ceil(start + len) as usize,
                    port_perm(port),
                )
                &&& final(self).inner(c).memory_set.root() == old(self).inner(c).memory_set.root()
                &&& final(self).inner(c).syscall_times == old(self).inner(c).syscall_times
                &&& final(self).inner(c).trap_cx == old(self).inner(c).trap_cx
                &&& final(self).inner(c).children == old(self).inner(c).children
                &&& final(self).inner(c).parent == old(self).inner(c).parent
                &&& final(self).inner(c).task_status == old(self).inner(c).task_status
                &&& final(self).inner(c).exit_code == old(self).inner(c).exit_code
                &&& final(self).live(c)
                &&& Kernel::same_tasks_but(old(self), final(self), set![c])
            }),
            final(self).tasks@.len() == old(self).tasks@.len(),
            final(self).manager == old(self).manager,
            final(self).processor == old(self).processor,
            final(self).pids == old(self).pids,
            final(self).apps == old(self).apps,
            final(self).env == old(self).env,
            final(self).console_in == old(self).console_in,
            final(self).console_out == old(self).console_out,
    {
        let c = self.processor.current.unwrap();
        if (port & !0x7 != 0) || (port & 0x7 == 0) || len > usize::MAX - start {
            return -1;
        }
        let perm = port_to_perm(port);
        proof {
            assert(old(self).task_wf(c as int));
        }
        let mut mem = self.take_mem();
        let r = self.inner_mut(c).memory_set.insert_framed_area(&mut mem, start, start + len, perm);
        self.mem = mem;
        proof {
            self.lemma_inner_update(*old(self), c as int);
        }
        r
    }

    /// Unmaps `[start, start + len)` in the running task and gives its frames back,
    /// all pages or none. Returns 0 on success and -1 when the range overflows or
    /// removing the area fails (see [`remove_fails`]).
    pub fn munmap(&mut self, start: usize, len: usize) -> (r: isize)
        requires
            old(self).wf(),
            old(self).processor.current is Some,
        ensures
            final(self).wf(),
            r == 0 || r == -1,
            ({
                let c = old(self).processor.current->0 as int;
                let pt0 = old(self).inner(c).memory_set@;
                &&& r == -1 <==> (len > usize::MAX - start || remove_fails(pt0, start, (start + len) as usize))
                &&& r == -1 ==> final(self).inner(c).memory_set@ == pt0 && final(self).mem == old(self).mem
                &&& r == 0 ==> area_removed(
                    pt0,
                    final(self).inner(c).memory_set@,
                    old(self).mem,
                    final(self).mem,
                    vpn_of(start as int) as usize,
                    vpn_ceil(start + len) as usize,
                )
                &&& final(self).inner(c).memory_set.root() == old(self).inner(c).memory_set.root()
                &&& final(self).inner(c).syscall_times == old(self).inner(c).syscall_times
                &&& final(self).inner(c).trap_cx == old(self).inner(c).trap_cx
                &&& final(self).inner(c).children == old(self).inner(c).children
                &&& final(self).inner(c).parent == old(self).inner(c).parent
                &&& final(self).inner(c).task_status == old(self).inner(c).task_status
                &&& final(self).inner(c).exit_code == old(self).inner(c).exit_code
                &&& final(self).live(c)
                &&& Kernel::same_tasks_but(old(self), final(self), set![c])
            }),
            final(self).tasks@.len() == old(self).tasks@.len(),
            final(self).manager == old(self).manager,
            final(self).processor == old(self).processor,
            final(self).pids == old(self).pids,
            final(self).apps == old(self).apps,
            final(self).env == old(self).env,
            final(self).console_in == old(self).console_in,
            final(self).console_out == old(self).console_out,
    {
        let c = self.processor.current.unwrap();
        if len > usize::MAX - start {
            return -1;
        }
        proof {
            assert(old(self).task_wf(c as int));
        }
        let mut mem = self.take_mem();
        let r = self.inner_mut(c).memory_set.remove_frame_area(&mut mem, start, start + len);
        self.mem = mem;
        proof {
            self.lemma_inner_update(*old(self), c as int);
        }
        r
    }

    /// Counts one more call of system call `syscall_id` for the running task; ids
    /// without a counter are ignored. Counters wrap around.
    pub fn update_current_task_syscall_times(&mut self, syscall_id: usize)
        requires
            old(self).wf(),
            old(self).processor.current is Some,
        ensures
            final(self).wf(),
            ({
                let c = old(self).processor.current->0 as int;
                let t0 = old(self).inner(c).syscall_times@;
                &&& final(self).inner(c).syscall_times@ == if syscall_id < MAX_SYSCALL_NUM {
                    t0.update(syscall_id as int, ((t0[syscall_id as int] + 1) % 0x1_0000_0000) as u32)
                } else {
                    t0
                }
                &&& final(self).inner(c).memory_set == old(self).inner(c).memory_set
                &&& final(self).inner(c).task_status == old(self).inner(c).task_status
                &&& final(self).inner(c).pass == old(self).inner(c).pass
                &&& final(self).inner(c).stride == old(self).inner(c).stride
                &&& final(self).inner(c).task_first_time == old(self).inner(c).task_first_time
                &&& Kernel::same_tasks_but(old(self), final(self), set![c])
                &&& final(self).inner(c).children == old(self).inner(c).children
                &&& final(self).inner(c).parent == old(self).inner(c).parent
                &&& final(self).inner(c).exit_code == old(self).inner(c).exit_code
                &&& final(self).inner(c).trap_cx == old(self).inner(c).trap_cx
                &&& final(self).live(c)
            }),
            final(self).tasks@.len() == old(self).tasks@.len(),
            final(self).mem == old(self).mem,
            final(self).manager == old(self).manager,
            final(self).processor == old(self).processor,
            final(self).pids == old(self).pids,
            final(self).apps == old(self).apps,
            final(self).env == old(self).env,
            final(self).console_in == old(self).console_in,
            final(self).console_out == old(self).console_out,
    {
        let c = self.processor.current.unwrap();
        proof {
            assert(old(self).task_wf(c as int));
        }
        if syscall_id < MAX_SYSCALL_NUM {
            let inner = self.inner_mut(c);
            let v = inner.syscall_times[syscall_id];
            inner.syscall_times.set(syscall_id, v.wrapping_add(1));
            proof {
                self.lemma_inner_update(*old(self), c as int);
            }
        }
    }

    /// The system-call counters of the running task.
    pub fn get_current_task_syscall_times(&self) -> (r: Vec<u32>)
        requires
            self.wf(),
            self.processor.current is Some,
        ensures
            r@ == self.inner(self.processor.current->0 as int).syscall_times@,
    {
        let c = self.processor.current.unwrap();
        let times = &self.inner_ref(c).syscall_times;
        let mut out: Vec<u32> = Vec::new();
        let mut i: usize = 0;
        while i < times.len()
            invariant
                i <= times@.len(),
                out@ == times@.take(i as int),
            decreases times@.len() - i,
        {
            out.push(times[i]);
            i += 1;
            assert(out@ =~= times@.take(i as int));
        }
        assert(times@.take(times@.len() as int) =~= times@);
        out
    }

    /// When the running task was first dispatched, in microseconds.
    pub fn get_current_task_first_time(&self) -> (r: usize)
        requires
            self.wf(),
            self.processor.current is Some,
        ensures
            r == self.inner(self.processor.current->0 as int).task_first_time,
    {
        self.inner_ref(self.processor.current.unwrap()).task_first_time
    }

    /// Sets the stride of the running task for priority `prio`: `BIG_STRIDE / prio`.
    pub fn set_priority(&mut self, prio: usize)
        requires
            old(self).wf(),
            old(self).processor.current is Some,
            prio > 0,
        ensures
            final(self).wf(),
            ({
                let c = old(self).processor.current->0 as int;
                &&& final(self).inner(c).stride == BIG_STRIDE / prio
                &&& final(self).inner(c).pass == old(self).inner(c).pass
                &&& final(self).inner(c).trap_cx == old(self).inner(c).trap_cx
                &&& final(self).inner(c).children == old(self).inner(c).children
                &&& final(self).inner(c).parent == old(self).inner(c).parent
                &&& final(self).inner(c).exit_code == old(self).inner(c).exit_code
                &&& final(self).live(c)
                &&& final(self).inner(c).syscall_times == old(self).inner(c).syscall_times
                &&& final(self).inner(c).memory_set == old(self).inner(c).memory_set
                &&& final(self).inner(c).task_status == old(self).inner(c).task_status
                &&& Kernel::same_tasks_but(old(self), final(self), set![c])
            }),
            final(self).tasks@.len() == old(self).tasks@.len(),
            final(self).mem == old(self).mem,
            final(self).manager == old(self).manager,
            final(self).processor == old(self).processor,
            final(self).pids == old(self).pids,
            final(self).apps == old(self).apps,
            final(self).env == old(self).env,
            final(self).console_in == old(self).console_in,
            final(self).console_out == old(self).console_out,
    {
        let c = self.processor.current.unwrap();
        proof {
            assert(old(self).task_wf(c as int));
        }
        self.inner_mut(c).stride = BIG_STRIDE / prio;
        proof {
            self.lemma_inner_update(*old(self), c as int);
        }
    }

    /// Token of the running task's address space.
    pub fn current_user_token(&self) -> (r: usize)
        requires
            self.wf(),
            self.processor.current is Some,
        ensures
            r == token_of(self.inner(self.processor.current->0 as int).memory_set.root()),
    {
        self.inner_ref(self.processor.current.unwrap()).get_user_token()
    }

    /// Ends the running task with `exit_code`: it becomes a zombie that keeps its exit
    /// code, its children are handed to the initial process, and its user pages are
    /// given back. The hart then runs no task until the next dispatch.
    pub fn exit_current_and_run_next(&mut self, exit_code: i32)
        requires
            old(self).wf(),
            old(self).processor.current is Some,
            old(self).processor.current->0 != INITPROC_PID,
        ensures
            final(self).wf(),
            final(self).processor.current.is_none(),
            final(self).manager == old(self).manager,
            final(self).pids == old(self).pids,
            final(self).apps == old(self).apps,
            final(self).env == old(self).env,
            final(self).tasks@.len() == old(self).tasks@.len(),
            ({
                let c = old(self).processor.current->0 as int;
                let cs = old(self).inner(c).children@;
                let init = INITPROC_PID as int;
                &&& final(self).live(c)
                &&& final(self).inner(c).task_status == TaskStatus::Zombie
                &&& final(self).inner(c).exit_code == exit_code
                &&& final(self).inner(c).syscall_times == old(self).inner(c).syscall_times
                &&& final(self).inner(c).trap_cx == old(self).inner(c).trap_cx
                &&& final(self).inner(c).children@.len() == 0
                &&& final(self).inner(c).parent == old(self).inner(c).parent
                &&& final(self).inner(c).memory_set@ == Map::<usize, (usize, u8)>::empty().insert(
                    TRAMPOLINE_VPN as usize,
                    old(self).inner(c).memory_set@[TRAMPOLINE_VPN as usize],
                )
                &&& final(self).inner(init).children@ == old(self).inner(init).children@ + cs
                &&& forall|j: int| 0 <= j < cs.len() ==> final(self).inner(#[trigger] cs[j] as int).parent == Some(INITPROC_PID)
                &&& forall|q: int|
                    0 <= q < old(self).tasks@.len() && q != c && q != init && !cs.contains(q as usize)
                        ==> #[trigger] final(self).tasks@[q] == old(self).tasks@[q]
            }),
            final(self).mem.frame_alloc().end() == old(self).mem.frame_alloc().end(),
            final(self).console_in == old(self).console_in,
            final(self).console_out == old(self).console_out,
    {
        let c = self.processor.take_current().unwrap();
        proof {
            assert(old(self).task_wf(c as int));
            assert(!old(self).manager.ready_queue@.contains(c)) by {
                if old(self).manager.ready_queue@.contains(c) {
                    let i = old(self).manager.ready_queue@.index_of(c);
                    assert(old(self).inner(old(self).manager.ready_queue@[i] as int).task_status == TaskStatus::Ready);
                }
            }
        }
        {
            let inner = self.inner_mut(c);
            inner.task_status = TaskStatus::Zombie;
            inner.exit_code = exit_code;
        }
        let ghost k1 = *self;
        let ghost cs = k1.inner(c as int).children@;
        let ghost init = INITPROC_PID as int;
        proof {
            assert forall|j: int| 0 <= j < cs.len() implies old(self).live(#[trigger] cs[j] as int)
                && old(self).inner(cs[j] as int).parent == Some(c) && cs[j] != c && cs[j] != INITPROC_PID by {
                assert(old(self).live(c as int) && 0 <= j < old(self).inner(c as int).children@.len());
                let x = old(self).inner(c as int).children@[j] as int;
                assert(old(self).live(x) && old(self).inner(x).parent == Some(c));
            }
        }
        let n = self.inner_ref(c).children.len();
        let mut i: usize = 0;
        while i < n
            invariant
                n == cs.len(),
                i <= n,
                cs.no_duplicates(),
                forall|j: int| 0 <= j < cs.len() ==> old(self).live(#[trigger] cs[j] as int)
                    && old(self).inner(cs[j] as int).parent == Some(c) && cs[j] != c && cs[j] != INITPROC_PID,
                k1.tasks@.len() == old(self).tasks@.len(),
                forall|q: int| 0 <= q < old(self).tasks@.len() && q != c ==> #[trigger] k1.tasks@[q] == old(self).tasks@[q],
                k1.live(c as int),
                c != INITPROC_PID,
                init == INITPROC_PID as int,
                k1.inner(c as int).children@ == cs,
                self.tasks@.len() == k1.tasks@.len(),
                self.mem == k1.mem,
                self.console_in == k1.console_in,
                self.console_out == k1.console_out,
                k1.console_in == old(self).console_in,
                k1.console_out == old(self).console_out,
                self.pids == k1.pids,
                self.manager == k1.manager,
                self.processor == k1.processor,
                self.apps == k1.apps,
                self.env == k1.env,
                self.live(c as int),
                self.live(init),
                self.tasks@[c as int] == k1.tasks@[c as int],
                forall|q: int| 0 <= q < k1.tasks@.len() && q != init && !cs.take(i as int).contains(q as usize)
                    ==> #[trigger] self.tasks@[q] == k1.tasks@[q],
                forall|j: int| 0 <= j < i ==> {
                    let q = #[trigger] cs[j] as int;
                    &&& self.live(q)
                    &&& self.tcb(q).pid == k1.tcb(q).pid
                    &&& self.tcb(q).kernel_stack == k1.tcb(q).kernel_stack
                    &&& self.inner(q).parent == Some(INITPROC_PID)
                    &&& self.inner(q).children == k1.inner(q).children
                    &&& self.inner(q).task_status == k1.inner(q).task_status
                    &&& self.inner(q).memory_set == k1.inner(q).memory_set
                    &&& self.inner(q).syscall_times == k1.inner(q).syscall_times
                },
                self.tcb(init).pid == k1.tcb(init).pid,
                self.tcb(init).kernel_stack == k1.tcb(init).kernel_stack,
                self.inner(init).children@ == k1.inner(init).children@ + cs.take(i as int),
                self.inner(init).parent == k1.inner(init).parent,
                self.inner(init).task_status == k1.inner(init).task_status,
                self.inner(init).memory_set == k1.inner(init).memory_set,
                self.inner(init).syscall_times == k1.inner(init).syscall_times,
            decreases n - i,
        {
            let ch = self.inner_ref(c).children[i];
            let ghost s0 = *self;
            proof {
                assert(ch == cs[i as int]);
                assert(ch != INITPROC_PID && ch != c);
                assert(old(self).live(ch as int));
                assert(0 <= ch < k1.tasks@.len());
                assert(!cs.take(i as int).contains(ch)) by {
                    if cs.take(i as int).contains(ch) {
                        let j = cs.take(i as int).index_of(ch);
                        assert(cs[j] == cs[i as int]);
                    }
                }
                assert(k1.live(ch as int)) by {
                    assert(k1.tasks@[ch as int] == old(self).tasks@[ch as int]);
                }
                assert(self.tasks@[ch as int] == k1.tasks@[ch as int]);
                assert(self.live(ch as int));
            }
            self.inner_mut(ch).parent = Some(INITPROC_PID);
            proof {
                assert(self.tasks@[init] == s0.tasks@[init]);
            }
            let ghost s1 = *self;
            self.inner_mut(INITPROC_PID).children.push(ch);
            proof {
                assert(cs.take(i + 1) =~= cs.take(i as int).push(ch));
                assert(self.inner(init).children@ =~= k1.inner(init).children@ + cs.take(i + 1));
                assert forall|q: int| 0 <= q < k1.tasks@.len() && q != init && !cs.take(i + 1).contains(q as usize)
                    implies #[trigger] self.tasks@[q] == k1.tasks@[q] by {
                    assert(!cs.take(i as int).contains(q as usize)) by {
                        if cs.take(i as int).contains(q as usize) {
                            let j = cs.take(i as int).index_of(q as usize);
                            assert(cs.take(i + 1)[j] == q as usize);
                        }
                    }
                    assert(q != ch) by {
                        assert(cs.take(i + 1)[i as int] == ch);
                    }
                    assert(s0.tasks@[q] == k1.tasks@[q]);
                }
                assert forall|j: int| 0 <= j < i + 1 implies {
                    let q = #[trigger] cs[j] as int;
                    &&& self.live(q)
                    &&& self.tcb(q).pid == k1.tcb(q).pid
                    &&& self.tcb(q).kernel_stack == k1.tcb(q).kernel_stack
                    &&& self.inner(q).parent == Some(INITPROC_PID)
                    &&& self.inner(q).children == k1.inner(q).children
                    &&& self.inner(q).task_status == k1.inner(q).task_status
                    &&& self.inner(q).memory_set == k1.inner(q).memory_set
                    &&& self.inner(q).syscall_times == k1.inner(q).syscall_times
                } by {
                    let q = cs[j] as int;
                    assert(q != init);
                    if j < i {
                        assert(q != ch as int) by {
                            assert(cs[j] != cs[i as int]);
                        }
                    }
                }
                assert(self.tasks@[c as int] == k1.tasks@[c as int]) by {
                    assert(ch != c);
                }
            }
            i += 1;
        }
        proof {
            assert(cs.take(n as int) =~= cs);
        }
        let ghost k2 = *self;
        self.inner_mut(c).children.clear();
        let mut mem = self.take_mem();
        self.inner_mut(c).memory_set.recycle_data_pages(&mut mem);
        self.mem = mem;
        proof {
            self.lemma_exit_wf(*old(self), k1, k2, c as int);
        }
    }

    /// Where the first zombie child of `p` that `pid` selects stands in `p`'s children
    /// (-1 selects any child); `Err(-1)` when `pid` selects no child, `Err(-2)` when
    /// none of those it selects has exited.
    pub fn waitpid_target(&self, p: usize, pid: isize) -> (r: Result<usize, isize>)
        requires
            self.wf(),
            self.live(p as int),
        ensures
            ({
                let cs = self.inner(p as int).children@;
                match r {
                    Ok(i) => {
                        &&& i < cs.len()
                        &&& selects(pid, cs[i as int])
                        &&& self.inner(cs[i as int] as int).task_status == TaskStatus::Zombie
                        &&& forall|j: int|
                            0 <= j < i && selects(pid, #[trigger] cs[j]) ==> self.inner(cs[j] as int).task_status
                                != TaskStatus::Zombie
                    },
                    Err(e) => {
                        &&& e == -1 <==> forall|j: int| 0 <= j < cs.len() ==> !selects(pid, #[trigger] cs[j])
                        &&& e == -1 || e == -2
                        &&& forall|j: int|
                            0 <= j < cs.len() && selects(pid, #[trigger] cs[j]) ==> self.inner(cs[j] as int).task_status
                                != TaskStatus::Zombie
                    },
                }
            }),
    {
        let children = &self.inner_ref(p).children;
        proof {
            assert(self.task_wf(p as int));
        }
        let n = children.len();
        let mut any = false;
        let mut i: usize = 0;
        while i < n
            invariant
                self.wf(),
                self.live(p as int),
                *children == self.inner(p as int).children,
                n == children@.len(),
                i <= n,
                any == exists|j: int| 0 <= j < i && selects(pid, #[trigger] children@[j]),
                forall|j: int|
                    0 <= j < i && selects(pid, #[trigger] children@[j]) ==> self.inner(children@[j] as int).task_status
                        != TaskStatus::Zombie,
            decreases n - i,
        {
            let c = children[i];
            proof {
                assert(self.live(c as int));
            }
            if pid == -1 || (pid >= 0 && pid as usize == c) {
                any = true;
                if self.inner_ref(c).is_zombie() {
                    return Ok(i);
                }
            } else {
                proof {
                    assert(!selects(pid, children@[i as int]));
                }
            }
            i += 1;
        }
        if any {
            Err(-2)
        } else {
            Err(-1)
        }
    }

    /// Reaps the exited child at `idx` of `p`'s children: it leaves the list and the
    /// task table, its identifier becomes free, and the frame of its page table is
    /// given back. Returns its identifier and exit code.
    pub fn reap_child(&mut self, p: usize, idx: usize) -> (r: (usize, i32))
        requires
            old(self).wf(),
            old(self).live(p as int),
            idx < old(self).inner(p as int).children@.len(),
            old(self).inner(old(self).inner(p as int).children@[idx as int] as int).task_status
                == TaskStatus::Zombie,
        ensures
            final(self).wf(),
            ({
                let z = old(self).inner(p as int).children@[idx as int];
                &&& r.0 == z
                &&& r.1 == old(self).inner(z as int).exit_code
                &&& !final(self).live(z as int)
                &&& !final(self).pids.in_use(z)
                &&& final(self).live(p as int)
                &&& final(self).inner(p as int).children@ == old(self).inner(p as int).children@.remove(idx as int)
                &&& final(self).inner(p as int).memory_set == old(self).inner(p as int).memory_set
                &&& final(self).inner(p as int).task_status == old(self).inner(p as int).task_status
                &&& Kernel::same_tasks_but(old(self), final(self), set![p as int, z as int])
                &&& final(self).inner(p as int).trap_cx == old(self).inner(p as int).trap_cx
                &&& final(self).inner(p as int).syscall_times == old(self).inner(p as int).syscall_times
                &&& final(self).inner(p as int).parent == old(self).inner(p as int).parent
                &&& final(self).inner(p as int).exit_code == old(self).inner(p as int).exit_code
            }),
            final(self).mem@ == old(self).mem@,
            final(self).pids.recycled() == old(self).pids.recycled().push(
                old(self).inner(p as int).children@[idx as int],
            ),
            final(self).tasks@.len() == old(self).tasks@.len(),
            final(self).manager == old(self).manager,
            final(self).processor == old(self).processor,
            final(self).apps == old(self).apps,
            final(self).env == old(self).env,
            final(self).apps == old(self).apps,
            final(self).console_in == old(self).console_in,
            final(self).console_out == old(self).console_out,
    {
        let z = self.inner_ref(p).children[idx];
        proof {
            assert(self.live(z as int));
            assert(self.task_wf(z as int));
            assert(self.task_wf(p as int));
        }
        let exit_code = self.inner_ref(z).exit_code;
        let root = self.inner_ref(z).memory_set.root_ppn();
        let ghost k0 = *self;
        self.inner_mut(p).children.remove(idx);
        let ghost k1 = *self;
        self.tasks.set(z, None);
        proof {
            assert(old(self).live(z as int));
            assert(old(self).pids.in_use(z));
        }
        let freed = self.pids.dealloc(z);
        proof {
            assert(freed);
            assert(self.pids.recycled()[self.pids.recycled().len() - 1] == z);
            assert(self.pids.recycled().contains(z));
            assert forall|q: usize| q != z implies self.pids.in_use(q) == k0.pids.in_use(q) by {
                let r0 = k0.pids.recycled();
                if r0.contains(q) {
                    let j = r0.index_of(q);
                    assert(self.pids.recycled()[j] == q);
                }
                if self.pids.recycled().contains(q) {
                    let j = self.pids.recycled().index_of(q);
                    assert(j < r0.len());
                    assert(r0[j] == q);
                }
            }
        }
        let _ = self.mem.dealloc_frame(root);
        proof {
            self.lemma_reap_wf(k0, k1, p as int, idx as int, z as int);
        }
        (z, exit_code)
    }

    /// Creates a child of task `parent` that runs program `app` from its start: a
    /// fresh address space, not a copy. The child is ready but not yet queued. `None`,
    /// with every task as it was, when no identifier is free or `app` cannot be loaded.
    pub fn spawn(&mut self, parent: usize, app: usize) -> (r: Option<usize>)
        requires
            old(self).wf(),
            old(self).live(parent as int),
            old(self).inner(parent as int).task_status != TaskStatus::Zombie,
            app < old(self).apps@.len(),
        ensures
            final(self).wf(),
            final(self).manager == old(self).manager,
            final(self).processor == old(self).processor,
            final(self).apps == old(self).apps,
            final(self).env == old(self).env,
            match r {
                Some(c) => {
                    let pi = old(self).inner(parent as int);
                    let ci = final(self).inner(c as int);
                    &&& !old(self).live(c as int)
                    &&& final(self).live(c as int)
                    &&& c != parent
                    &&& Kernel::same_tasks_but(old(self), final(self), set![parent as int, c as int])
                    &&& final(self).inner(parent as int).children@ == pi.children@.push(c)
                    &&& final(self).inner(parent as int).memory_set == pi.memory_set
                    &&& final(self).inner(parent as int).task_status == pi.task_status
                    &&& final(self).inner(parent as int).trap_cx == pi.trap_cx
                    &&& final(self).inner(parent as int).syscall_times == pi.syscall_times
                    &&& final(self).inner(parent as int).parent == pi.parent
                    &&& final(self).inner(parent as int).exit_code == pi.exit_code
                    &&& ci.parent == Some(parent)
                    &&& ci.children@.len() == 0
                    &&& ci.task_status == TaskStatus::Ready
                    &&& ci.trap_cx.sepc == old(self).apps@[app as int].entry
                    &&& ci.trap_cx.kernel_sp == crate::config::kernel_stack_position_spec(c as nat).1
                    &&& ci.trap_cx.x@ == Seq::new(32, |k: int| if k == 2 { ci.base_size } else { 0usize })
                    &&& user_sstatus(old(self).env.sstatus_bits, ci.trap_cx.sstatus)
                    &&& ci.trap_cx.kernel_satp == old(self).env.kernel_satp
                    &&& ci.trap_cx.trap_handler == old(self).env.trap_handler_va
                    &&& loaded_image(ci.memory_set@, old(self).apps@[app as int].segments@, ci.base_size, old(self).env.tramp_ppn)
                    &&& forall|k: int|
                        0 <= k < old(self).apps@[app as int].segments@.len() ==> #[trigger] segment_loaded(
                            final(self).mem@,
                            ci.memory_set@,
                            old(self).apps@[app as int].segments@[k].start_va,
                            old(self).apps@[app as int].segments@[k].mem_size,
                            old(self).apps@[app as int].segments@[k].data@,
                        )
                    &&& ci.exit_code == 0
                    &&& ci.pass == 0
                    &&& ci.stride == BIG_STRIDE / crate::config::DEFAULT_PRIORITY
                    &&& ci.syscall_times@ == crate::task::task::zero_times()
                    &&& final(self).tcb(c as int).pid == c
                },
                None => Kernel::same_tasks_but(old(self), final(self), Set::empty())
                    && final(self).tasks@.len() == old(self).tasks@.len(),
            },
            r.is_none() <==> ((old(self).pids.recycled().len() == 0 && old(self).pids.current() == MAX_PID)
                || !elf_loadable(old(self).apps@[app as int].segments@, old(self).mem.frame_alloc().free_count())),
    {
        let pid = match self.pids.peek() {
            Some(p) => p,
            None => {
                return None;
            },
        };
        let env = self.env;
        let mut tcb = match TaskControlBlock::new(&mut self.mem, pid, &self.apps[app], &env) {
            Some(t) => t,
            None => {
                proof {
                    self.lemma_wf_mem_only(*old(self));
                }
                return None;
            },
        };
        tcb.inner_exclusive_access().parent = Some(parent);
        let ghost kp = *self;
        let pid2 = self.pids.allocate();
        proof {
            assert(pid2 == Some(pid));
            assert(pid < self.tasks@.len() ==> !old(self).live(pid as int));
        }
        let ghost k0 = *self;
        self.install(pid, tcb);
        let ghost k1 = *self;
        proof {
            assert(k1.tasks@[pid as int] is Some);
            assert(k1.tcb(pid as int) == tcb);
            assert(k1.live(parent as int) && k1.inner(parent as int) == old(self).inner(parent as int)) by {
                assert(k1.tasks@[parent as int] == old(self).tasks@[parent as int]);
            }
        }
        self.inner_mut(parent).children.push(pid);
        proof {
            self.lemma_fork_wf(k0, k1, *old(self), parent, pid);
        }
        Some(pid)
    }

    /// Boots the kernel: physical memory of `frame_end` frames, of which
    /// `[frame_start, frame_end)` are managed; one of them becomes the shared
    /// trampoline; the initial process is loaded from the program named `initproc`
    /// and queued. `None` when there is no such program or it cannot be loaded.
    pub fn new(
        frame_start: usize,
        frame_end: usize,
        apps: Vec<AppImage>,
        initproc: &Vec<u8>,
        kernel_satp: usize,
        sstatus_bits: usize,
        trap_handler_va: usize,
        trap_return_va: usize,
    ) -> (r: Option<Kernel>)
        requires
            frame_start <= frame_end <= crate::config::MAX_FRAMES,
        ensures
            match r {
                Some(k) => {
                    &&& k.wf()
                    &&& k.apps@ == apps@
                    &&& k.tasks@.len() == 1
                    &&& k.manager.ready_queue@ == seq![INITPROC_PID]
                    &&& k.processor.current.is_none()
                    &&& k.inner(INITPROC_PID as int).task_status == TaskStatus::Ready
                    &&& exists|i: int| 0 <= i < apps@.len() && apps@[i].name@ == initproc@
                        && k.inner(INITPROC_PID as int).trap_cx.sepc == #[trigger] apps@[i].entry
                    &&& k.env.kernel_satp == kernel_satp
                    &&& k.env.trap_handler_va == trap_handler_va
                    &&& k.env.trap_return_va == trap_return_va
                },
                None => true,
            },
            r.is_none() <==> (frame_start == frame_end || !exists|i: int|
                0 <= i < apps@.len() && first_named(apps@, initproc@, i) && elf_loadable(
                    apps@[i].segments@,
                    (frame_end - frame_start - 1) as nat,
                )),
    {
        let mut mem = PhysMemory::new(frame_start, frame_end);
        let ghost named = exists|i: int|
            0 <= i < apps@.len() && first_named(apps@, initproc@, i) && elf_loadable(
                apps@[i].segments@,
                (frame_end - frame_start - 1) as nat,
            );
        let tramp_ppn = match mem.alloc_frame() {
            Some(p) => p,
            None => {
                return None;
            },
        };
        let env = KernelEnv { tramp_ppn, kernel_satp, sstatus_bits, trap_handler_va, trap_return_va };
        let mut k = Kernel {
            mem,
            pids: PidAllocator::new(),
            tasks: Vec::new(),
            manager: TaskManager::new(),
            processor: Processor::new(),
            apps,
            env,
            console_out: Vec::new(),
            console_in: Vec::new(),
        };
        let idx = match k.get_app_data_by_name(initproc) {
            Some(i) => i,
            None => {
                proof {
                    if named {
                        let i = choose|i: int|
                            0 <= i < apps@.len() && first_named(apps@, initproc@, i) && elf_loadable(
                                apps@[i].segments@,
                                (frame_end - frame_start - 1) as nat,
                            );
                        assert(k.apps@[i].name@ != initproc@);
                    }
                }
                return None;
            },
        };
        proof {
            assert(first_named(apps@, initproc@, idx as int));
            assert forall|i: int| 0 <= i < apps@.len() && first_named(apps@, initproc@, i) implies i == idx by {
                if i < idx {
                    assert(k.apps@[i].name@ != initproc@);
                } else if i > idx {
                    assert(apps@[idx as int].name@ != initproc@);
                }
            }
        }
        let tcb = match TaskControlBlock::new(&mut k.mem, INITPROC_PID, &k.apps[idx], &env) {
            Some(t) => t,
            None => {
                return None;
            },
        };
        let pid = k.pids.allocate();
        k.tasks.push(Some(tcb));
        k.manager.add(INITPROC_PID);
        proof {
            assert(pid == Some(INITPROC_PID));
            assert(k.live(0));
            assert(k.task_wf(0));
            assert forall|p: usize| p < k.tasks@.len() implies (#[trigger] k.live(p as int) <==> k.pids.in_use(p)) by {
                assert(p == 0);
            }
            assert forall|p: int| #[trigger] k.live(p) implies k.task_wf(p) by {
                assert(p == 0);
            }
            assert(k.tree_wf()) by {
                assert forall|p: int, i: int|
                    #[trigger] k.live(p) && 0 <= i < k.inner(p).children@.len() implies {
                        let c = #[trigger] k.inner(p).children@[i] as int;
                        k.live(c) && k.inner(c).parent == Some(p as usize)
                    } by {
                    assert(p == 0);
                }
            }
            assert(k.manager.ready_queue@.no_duplicates());
            assert(k.apps@[idx as int].name@ == initproc@);
        }
        Some(k)
    }

    /// Index of the first program named `name`.
    pub fn get_app_data_by_name(&self, name: &Vec<u8>) -> (r: Option<usize>)
        ensures
            match r {
                Some(i) => i < self.apps@.len() && self.apps@[i as int].name@ == name@ && forall|j: int|
                    0 <= j < i ==> #[trigger] self.apps@[j].name@ != name@,
                None => forall|j: int| 0 <= j < self.apps@.len() ==> #[trigger] self.apps@[j].name@ != name@,
            },
    {
        let mut i: usize = 0;
        while i < self.apps.len()
            invariant
                i <= self.apps@.len(),
                forall|j: int| 0 <= j < i ==> #[trigger] self.apps@[j].name@ != name@,
            decreases self.apps@.len() - i,
        {
            if bytes_eq(&self.apps[i].name, name) {
                return Some(i);
            }
            i += 1;
        }
        None
    }

    /// Stores `bytes` at the user address `va` of task `t`, through its page table;
    /// every byte or none. `false`, with memory unchanged, when a byte falls on a page
    /// that is not mapped writable for user mode.
    pub fn write_user(&mut self, t: usize, va: usize, bytes: &Vec<u8>) -> (r: bool)
        requires
            old(self).wf(),
            old(self).live(t as int),
        ensures
            final(self).wf(),
            r == range_accessible(old(self).inner(t as int).memory_set@, va as int, bytes@.len() as int, PERM_U | PERM_W),
            r ==> final(self).mem@ == apply_writes(old(self).mem@, old(self).inner(t as int).memory_set@, va as int, bytes@),
            !r ==> final(self).mem == old(self).mem,
            final(self).mem.frame_alloc() == old(self).mem.frame_alloc(),
            final(self).console_in == old(self).console_in,
            final(self).console_out == old(self).console_out,
            final(self).tasks == old(self).tasks,
            final(self).pids == old(self).pids,
            final(self).manager == old(self).manager,
            final(self).processor == old(self).processor,
            final(self).apps == old(self).apps,
            final(self).env == old(self).env,
    {
        proof {
            assert(self.task_wf(t as int));
        }
        let r = translated_write(&mut self.mem, &self.tasks[t].as_ref().unwrap().inner.get().memory_set, va, bytes, PERM_U | PERM_W);
        proof {
            self.lemma_wf_mem_only(*old(self));
        }
        r
    }

    /// Whether each of the `len` bytes at the user address `va` of task `t` lies on a
    /// page mapped with every bit of `mask`.
    pub fn user_range_ok(&self, t: usize, va: usize, len: usize, mask: u8) -> (r: bool)
        requires
            self.wf(),
            self.live(t as int),
        ensures
            r == range_accessible(self.inner(t as int).memory_set@, va as int, len as int, mask),
    {
        proof {
            assert(self.task_wf(t as int));
        }
        accessible(&self.mem, &self.inner_ref(t).memory_set, va, len, mask)
    }

    /// The `len` bytes at the user address `va` of task `t`; `None` when one of them
    /// falls on a page that is not mapped readable for user mode.
    pub fn read_user(&self, t: usize, va: usize, len: usize) -> (r: Option<Vec<u8>>)
        requires
            self.wf(),
            self.live(t as int),
        ensures
            r.is_some() == range_accessible(self.inner(t as int).memory_set@, va as int, len as int, PERM_U | PERM_R),
            match r {
                Some(v) => v@.len() == len && forall|i: int|
                    0 <= i < len ==> #[trigger] v@[i] == self.mem@[translated_pa(self.inner(t as int).memory_set@, va + i)],
                None => true,
            },
    {
        proof {
            assert(self.task_wf(t as int));
        }
        translated_read(&self.mem, &self.inner_ref(t).memory_set, va, len, PERM_U | PERM_R)
    }

    /// The zero-terminated string at the user address `va` of task `t`, without its
    /// terminator; `None` when a page that is not readable for user mode comes first.
    pub fn read_user_str(&self, t: usize, va: usize) -> (r: Option<Vec<u8>>)
        requires
            self.wf(),
            self.live(t as int),
        ensures
            match r {
                Some(s) => cstr_at(self.mem@, self.inner(t as int).memory_set@, va as int, PERM_U | PERM_R, s@),
                None => forall|s: Seq<u8>| !cstr_at(self.mem@, self.inner(t as int).memory_set@, va as int, PERM_U | PERM_R, s),
            },
    {
        proof {
            assert(self.task_wf(t as int));
        }
        translated_str(&self.mem, &self.inner_ref(t).memory_set, va, PERM_U | PERM_R)
    }

    /// Sets the value that task `t` sees returned from its system call (register x10).
    pub fn set_return_value(&mut self, t: usize, v: usize)
        requires
            old(self).wf(),
            old(self).live(t as int),
        ensures
            final(self).wf(),
            final(self).inner(t as int).trap_cx.x@ == old(self).inner(t as int).trap_cx.x@.update(10, v),
            final(self).inner(t as int).trap_cx.sepc == old(self).inner(t as int).trap_cx.sepc,
            final(self).inner(t as int).trap_cx.sstatus == old(self).inner(t as int).trap_cx.sstatus,
            final(self).inner(t as int).trap_cx.kernel_satp == old(self).inner(t as int).trap_cx.kernel_satp,
            final(self).inner(t as int).trap_cx.kernel_sp == old(self).inner(t as int).trap_cx.kernel_sp,
            final(self).inner(t as int).trap_cx.trap_handler == old(self).inner(t as int).trap_cx.trap_handler,
            final(self).inner(t as int).stride == old(self).inner(t as int).stride,
            final(self).inner(t as int).base_size == old(self).inner(t as int).base_size,
            final(self).tcb(t as int).pid == old(self).tcb(t as int).pid,
            final(self).console_in == old(self).console_in,
            final(self).console_out == old(self).console_out,
            final(self).inner(t as int).memory_set == old(self).inner(t as int).memory_set,
            final(self).inner(t as int).task_status == old(self).inner(t as int).task_status,
            final(self).inner(t as int).parent == old(self).inner(t as int).parent,
            final(self).inner(t as int).children == old(self).inner(t as int).children,
            final(self).inner(t as int).exit_code == old(self).inner(t as int).exit_code,
            final(self).inner(t as int).pass == old(self).inner(t as int).pass,
            final(self).inner(t as int).syscall_times == old(self).inner(t as int).syscall_times,
            final(self).inner(t as int).trap_cx.sstatus == old(self).inner(t as int).trap_cx.sstatus,
            final(self).inner(t as int).trap_cx.kernel_satp == old(self).inner(t as int).trap_cx.kernel_satp,
            final(self).inner(t as int).trap_cx.kernel_sp == old(self).inner(t as int).trap_cx.kernel_sp,
            final(self).inner(t as int).trap_cx.trap_handler == old(self).inner(t as int).trap_cx.trap_handler,
            final(self).inner(t as int).children == old(self).inner(t as int).children,
            final(self).inner(t as int).parent == old(self).inner(t as int).parent,
            final(self).inner(t as int).exit_code == old(self).inner(t as int).exit_code,
            final(self).inner(t as int).pass == old(self).inner(t as int).pass,
            final(self).inner(t as int).stride == old(self).inner(t as int).stride,
            final(self).tcb(t as int).pid == old(self).tcb(t as int).pid,
            final(self).console_in == old(self).console_in,
            final(self).console_out == old(self).console_out,
            Kernel::same_tasks_but(old(self), final(self), set![t as int]),
            final(self).tasks@.len() == old(self).tasks@.len(),
            final(self).mem == old(self).mem,
            final(self).pids == old(self).pids,
            final(self).manager == old(self).manager,
            final(self).processor == old(self).processor,
            final(self).apps == old(self).apps,
            final(self).env == old(self).env,
    {
        proof {
            assert(self.task_wf(t as int));
        }
        self.inner_mut(t).trap_cx.x[10] = v;
        proof {
            self.lemma_inner_update(*old(self), t as int);
        }
    }

    /// Advances the saved program counter of task `t` by `n` bytes (modulo 2^64 on
    /// this word size), past the instruction that trapped.
    pub fn advance_sepc(&mut self, t: usize, n: usize)
        requires
            old(self).wf(),
            old(self).live(t as int),
        ensures
            final(self).wf(),
            final(self).inner(t as int).trap_cx.sepc == old(self).inner(t as int).trap_cx.sepc.wrapping_add(n),
            final(self).inner(t as int).trap_cx.x == old(self).inner(t as int).trap_cx.x,
            final(self).inner(t as int).memory_set == old(self).inner(t as int).memory_set,
            final(self).inner(t as int).task_status == old(self).inner(t as int).task_status,
            final(self).inner(t as int).syscall_times == old(self).inner(t as int).syscall_times,
            final(self).inner(t as int).children == old(self).inner(t as int).children,
            final(self).inner(t as int).parent == old(self).inner(t as int).parent,
            final(self).inner(t as int).exit_code == old(self).inner(t as int).exit_code,
            final(self).console_in == old(self).console_in,
            final(self).console_out == old(self).console_out,
            Kernel::same_tasks_but(old(self), final(self), set![t as int]),
            final(self).tasks@.len() == old(self).tasks@.len(),
            final(self).mem == old(self).mem,
            final(self).pids == old(self).pids,
            final(self).manager == old(self).manager,
            final(self).processor == old(self).processor,
            final(self).apps == old(self).apps,
            final(self).env == old(self).env,
    {
        proof {
            assert(self.task_wf(t as int));
        }
        let inner = self.inner_mut(t);
        inner.trap_cx.sepc = inner.trap_cx.sepc.wrapping_add(n);
        proof {
            self.lemma_inner_update(*old(self), t as int);
        }
    }

    /// The running task.
    pub fn current_task(&self) -> (r: Option<usize>)
        ensures
            r == self.processor.current,
    {
        self.processor.current()
    }
}

impl Kernel {
    /// Every address space maps the trampoline page to the same frame.
    pub proof fn lemma_trampoline_shared(self, p: int, q: int)
        requires
            self.wf(),
            self.live(p),
            self.live(q),
        ensures
            self.inner(p).memory_set@.contains_key(TRAMPOLINE_VPN as usize),
            self.inner(p).memory_set@[TRAMPOLINE_VPN as usize] == self.inner(q).memory_set@[TRAMPOLINE_VPN as usize],
    {
        assert(self.task_wf(p));
        assert(self.task_wf(q));
    }

    /// A task is in at most one children list, and at most once in it; the parent a
    /// task names exists and lists it.
    pub proof fn lemma_one_parent(self, c: usize, pa: int, pb: int)
        requires
            self.wf(),
            self.live(pa),
            self.live(pb),
            self.inner(pa).children@.contains(c),
            self.inner(pb).children@.contains(c),
        ensures
            pa == pb,
            self.live(c as int),
            self.inner(c as int).parent == Some(pa as usize),
            self.inner(pa).children@.no_duplicates(),
    {
        let i1 = self.inner(pa).children@.index_of(c);
        let i2 = self.inner(pb).children@.index_of(c);
        assert(self.inner(pa).children@[i1] == c);
        assert(self.inner(pb).children@[i2] == c);
        assert(self.task_wf(pa));
    }

    /// Waiting for an exited child by its own identifier selects that child and no
    /// other, so the wait reaps it and reports its exit code.
    pub proof fn lemma_wait_selects_only(self, p: int, c: usize)
        requires
            self.wf(),
            self.live(p),
            self.inner(p).children@.contains(c),
            self.inner(c as int).task_status == TaskStatus::Zombie,
        ensures
            forall|j: int|
                0 <= j < self.inner(p).children@.len() ==> (selects(c as isize, #[trigger] self.inner(p).children@[j])
                    <==> self.inner(p).children@[j] == c),
            selects(c as isize, c),
            self.inner(p).children@.index_of(c) < self.inner(p).children@.len(),
            self.inner(self.inner(p).children@[self.inner(p).children@.index_of(c)] as int).task_status
                == TaskStatus::Zombie,
    {
        assert(self.task_wf(p));
        let cs = self.inner(p).children@;
        let i = cs.index_of(c);
        assert(self.live(c as int)) by {
            assert(cs[i] == c);
        }
        assert(c < MAX_PID) by {
            assert(self.tasks@.len() <= MAX_PID);
        }
        assert forall|j: int| 0 <= j < cs.len() implies (selects(c as isize, #[trigger] cs[j]) <==> cs[j] == c) by {
            assert(self.live(cs[j] as int));
            assert(cs[j] < MAX_PID);
        }
    }

    /// The parent that a task names exists and lists it.
    pub proof fn lemma_parent_lives(self, c: int)
        requires
            self.wf(),
            self.live(c),
            self.inner(c).parent is Some,
        ensures
            self.live(self.inner(c).parent->0 as int),
            self.inner(self.inner(c).parent->0 as int).children@.contains(c as usize),
    {
    }

    /// No two tasks share an identifier, and a task exists exactly while its
    /// identifier is in use.
    pub proof fn lemma_unique_pids(self, p: int, q: int)
        requires
            self.wf(),
            self.live(p),
            self.live(q),
            p != q,
        ensures
            self.tcb(p).pid != self.tcb(q).pid,
            self.pids.in_use(p as usize),
    {
        assert(self.task_wf(p));
        assert(self.task_wf(q));
        assert(self.live(p as usize as int));
    }

    /// A kernel that differs from a well-formed one only in the bytes of memory, its
    /// console buffers and the programs is well formed.
    pub proof fn lemma_wf_mem_only(self, k: Kernel)
        requires
            k.wf(),
            self.tasks == k.tasks,
            self.pids == k.pids,
            self.manager == k.manager,
            self.processor == k.processor,
            self.env == k.env,
            self.mem.wf(),
            self.end() == k.end(),
        ensures
            self.wf(),
    {
        assert forall|p: int| #[trigger] self.live(p) implies self.task_wf(p) by {
            assert(k.live(p));
            assert(k.task_wf(p));
        }
        assert forall|p: usize| p < self.tasks@.len() implies (#[trigger] self.live(p as int) <==> self.pids.in_use(p)) by {
            assert(k.live(p as int) <==> k.pids.in_use(p));
        }
        assert forall|p: int|
            #[trigger] self.live(p) && self.inner(p).parent is Some implies {
                let q = self.inner(p).parent->0 as int;
                self.live(q) && self.inner(q).children@.contains(p as usize) && q != p
            } by {
            assert(k.live(p));
        }
        assert forall|p: int, i: int|
            #[trigger] self.live(p) && 0 <= i < self.inner(p).children@.len() implies {
                let c = #[trigger] self.inner(p).children@[i] as int;
                self.live(c) && self.inner(c).parent == Some(p as usize)
            } by {
            assert(k.live(p));
            assert(k.inner(p).children@[i] == self.inner(p).children@[i]);
        }
        let rq = self.manager.ready_queue@;
        assert forall|i: int| 0 <= i < rq.len() implies self.live(#[trigger] rq[i] as int)
            && self.inner(rq[i] as int).task_status == TaskStatus::Ready by {
            assert(k.live(rq[i] as int));
        }
    }

    /// Changing task `p` in what neither links nor scheduling read keeps the kernel well formed.
    proof fn lemma_inner_update(self, k: Kernel, p: int)
        requires
            k.wf(),
            k.live(p),
            self.tasks@.len() == k.tasks@.len(),
            self.live(p),
            forall|q: int| 0 <= q < k.tasks@.len() && q != p ==> #[trigger] self.tasks@[q] == k.tasks@[q],
            self.tcb(p).pid == k.tcb(p).pid,
            self.tcb(p).kernel_stack == k.tcb(p).kernel_stack,
            self.inner(p).parent == k.inner(p).parent,
            self.inner(p).children == k.inner(p).children,
            self.inner(p).task_status == k.inner(p).task_status,
            self.inner(p).syscall_times@.len() == MAX_SYSCALL_NUM,
            self.inner(p).memory_set.wf(self.end(), self.env.tramp_ppn),
            self.pids == k.pids,
            self.manager == k.manager,
            self.processor == k.processor,
            self.env == k.env,
            self.mem.wf(),
            self.end() == k.end(),
        ensures
            self.wf(),
    {
        assert forall|q: int| #[trigger] self.live(q) <==> k.live(q) by {
            if q != p && 0 <= q < self.tasks@.len() {
                assert(self.tasks@[q] == k.tasks@[q]);
            }
        }
        assert forall|q: int| q != p && #[trigger] self.live(q) implies self.tcb(q) == k.tcb(q) by {
            assert(self.tasks@[q] == k.tasks@[q]);
        }
        assert forall|q: int| #[trigger] self.live(q) implies self.task_wf(q) by {
            assert(k.task_wf(q));
        }
        assert forall|q: usize| q < self.tasks@.len() implies (#[trigger] self.live(q as int) <==> self.pids.in_use(q)) by {
            assert(k.live(q as int) <==> k.pids.in_use(q));
        }
        assert forall|q: int|
            #[trigger] self.live(q) && self.inner(q).parent is Some implies {
                let r = self.inner(q).parent->0 as int;
                self.live(r) && self.inner(r).children@.contains(q as usize) && r != q
            } by {
            assert(k.live(q));
            let r = k.inner(q).parent->0 as int;
            assert(k.live(r));
        }
        assert forall|q: int, i: int|
            #[trigger] self.live(q) && 0 <= i < self.inner(q).children@.len() implies {
                let c = #[trigger] self.inner(q).children@[i] as int;
                self.live(c) && self.inner(c).parent == Some(q as usize)
            } by {
            assert(k.live(q));
            assert(k.inner(q).children@[i] == self.inner(q).children@[i]);
            let c = k.inner(q).children@[i] as int;
            assert(k.live(c));
        }
        let rq = self.manager.ready_queue@;
        assert forall|i: int| 0 <= i < rq.len() implies self.live(#[trigger] rq[i] as int)
            && self.inner(rq[i] as int).task_status == TaskStatus::Ready by {
            assert(k.live(rq[i] as int));
        }
        match self.processor.current {
            Some(c) => {
                assert(k.live(c as int));
            },
            None => {},
        }
    }

    proof fn lemma_queue_removal(self, k: Kernel, idx: int)
        requires
            k.wf(),
            0 <= idx < k.manager.ready_queue@.len(),
            self.manager.ready_queue@ == k.manager.ready_queue@.remove(idx),
            self.tasks == k.tasks,
            self.pids == k.pids,
            self.processor == k.processor,
            self.env == k.env,
            self.mem == k.mem,
        ensures
            self.wf(),
    {
        let r0 = k.manager.ready_queue@;
        let rq = self.manager.ready_queue@;
        assert forall|i: int| 0 <= i < rq.len() implies self.live(#[trigger] rq[i] as int)
            && self.inner(rq[i] as int).task_status == TaskStatus::Ready by {
            let j = if i < idx { i } else { i + 1 };
            assert(rq[i] == r0[j]);
        }
        assert(rq.no_duplicates()) by {
            assert forall|a: int, b: int| 0 <= a < rq.len() && 0 <= b < rq.len() && a != b implies rq[a] != rq[b] by {
                let ja = if a < idx { a } else { a + 1 };
                let jb = if b < idx { b } else { b + 1 };
                assert(rq[a] == r0[ja] && rq[b] == r0[jb]);
            }
        }
        assert(self.sched_wf());
        self.lemma_sched_update(k, INITPROC_PID as int);
    }

    /// Changing task `p` in what the links do not read, and the queue and the hart,
    /// keeps the kernel well formed when scheduling is still consistent.
    proof fn lemma_sched_update(self, k: Kernel, p: int)
        requires
            k.wf(),
            k.live(p),
            self.tasks@.len() == k.tasks@.len(),
            self.live(p),
            forall|q: int| 0 <= q < k.tasks@.len() && q != p ==> #[trigger] self.tasks@[q] == k.tasks@[q],
            self.tcb(p).pid == k.tcb(p).pid,
            self.tcb(p).kernel_stack == k.tcb(p).kernel_stack,
            self.inner(p).parent == k.inner(p).parent,
            self.inner(p).children == k.inner(p).children,
            self.inner(p).task_status == TaskStatus::Zombie ==> self.inner(p).children@.len() == 0,
            p == INITPROC_PID ==> self.inner(p).task_status != TaskStatus::Zombie,
            self.inner(p).syscall_times@.len() == MAX_SYSCALL_NUM,
            self.inner(p).memory_set.wf(self.end(), self.env.tramp_ppn),
            self.pids == k.pids,
            self.env == k.env,
            self.mem.wf(),
            self.end() == k.end(),
            self.sched_wf(),
        ensures
            self.wf(),
    {
        assert forall|q: int| #[trigger] self.live(q) <==> k.live(q) by {
            if q != p && 0 <= q < self.tasks@.len() {
                assert(self.tasks@[q] == k.tasks@[q]);
            }
        }
        assert forall|q: int| q != p && #[trigger] self.live(q) implies self.tcb(q) == k.tcb(q) by {
            assert(self.tasks@[q] == k.tasks@[q]);
        }
        assert forall|q: int| #[trigger] self.live(q) implies self.task_wf(q) by {
            assert(k.task_wf(q));
        }
        assert forall|q: usize| q < self.tasks@.len() implies (#[trigger] self.live(q as int) <==> self.pids.in_use(q)) by {
            assert(k.live(q as int) <==> k.pids.in_use(q));
        }
        assert forall|q: int|
            #[trigger] self.live(q) && self.inner(q).parent is Some implies {
                let r = self.inner(q).parent->0 as int;
                self.live(r) && self.inner(r).children@.contains(q as usize) && r != q
            } by {
            assert(k.live(q));
            let r = k.inner(q).parent->0 as int;
            assert(k.live(r));
        }
        assert forall|q: int, i: int|
            #[trigger] self.live(q) && 0 <= i < self.inner(q).children@.len() implies {
                let c = #[trigger] self.inner(q).children@[i] as int;
                self.live(c) && self.inner(c).parent == Some(q as usize)
            } by {
            assert(k.live(q));
            assert(k.inner(q).children@[i] == self.inner(q).children@[i]);
            let c = k.inner(q).children@[i] as int;
            assert(k.live(c));
        }
    }

    proof fn lemma_exit_wf(self, k: Kernel, k1: Kernel, k2: Kernel, c: int)
        requires
            k.wf(),
            k.processor.current == Some(c as usize),
            c != INITPROC_PID,
            !k.manager.ready_queue@.contains(c as usize),
            k1.tasks@.len() == k.tasks@.len(),
            forall|q: int| 0 <= q < k.tasks@.len() && q != c ==> #[trigger] k1.tasks@[q] == k.tasks@[q],
            k1.live(c),
            k1.inner(c).children == k.inner(c).children,
            k1.tcb(c).pid == k.tcb(c).pid,
            k1.tcb(c).kernel_stack == k.tcb(c).kernel_stack,
            k1.inner(c).parent == k.inner(c).parent,
            k1.inner(c).task_status == TaskStatus::Zombie,
            k2.tasks@.len() == k.tasks@.len(),
            k2.tasks@[c] == k1.tasks@[c],
            ({
                let cs = k.inner(c).children@;
                let init = INITPROC_PID as int;
                &&& forall|q: int| 0 <= q < k1.tasks@.len() && q != init && !cs.contains(q as usize)
                    ==> #[trigger] k2.tasks@[q] == k1.tasks@[q]
                &&& forall|j: int| 0 <= j < cs.len() ==> {
                    let q = #[trigger] cs[j] as int;
                    &&& k2.live(q)
                    &&& k2.tcb(q).pid == k1.tcb(q).pid
                    &&& k2.tcb(q).kernel_stack == k1.tcb(q).kernel_stack
                    &&& k2.inner(q).parent == Some(INITPROC_PID)
                    &&& k2.inner(q).children == k1.inner(q).children
                    &&& k2.inner(q).task_status == k1.inner(q).task_status
                    &&& k2.inner(q).memory_set == k1.inner(q).memory_set
                    &&& k2.inner(q).syscall_times == k1.inner(q).syscall_times
                }
                &&& k2.live(init)
                &&& k2.tcb(init).pid == k1.tcb(init).pid
                &&& k2.tcb(init).kernel_stack == k1.tcb(init).kernel_stack
                &&& k2.inner(init).children@ == k1.inner(init).children@ + cs
                &&& k2.inner(init).parent == k1.inner(init).parent
                &&& k2.inner(init).task_status == k1.inner(init).task_status
                &&& k2.inner(init).memory_set == k1.inner(init).memory_set
                &&& k2.inner(init).syscall_times == k1.inner(init).syscall_times
            }),
            self.tasks@.len() == k.tasks@.len(),
            forall|q: int| 0 <= q < k.tasks@.len() && q != c ==> #[trigger] self.tasks@[q] == k2.tasks@[q],
            self.live(c),
            self.tcb(c).pid == k.tcb(c).pid,
            self.tcb(c).kernel_stack == k.tcb(c).kernel_stack,
            self.inner(c).parent == k.inner(c).parent,
            self.inner(c).task_status == TaskStatus::Zombie,
            self.inner(c).children@.len() == 0,
            self.inner(c).syscall_times == k.inner(c).syscall_times,
            self.inner(c).memory_set.wf(self.end(), self.env.tramp_ppn),
            self.mem.wf(),
            self.end() == k.end(),
            self.pids == k.pids,
            self.manager == k.manager,
            self.processor.current is None,
            self.env == k.env,
        ensures
            self.wf(),
    {
        let cs = k.inner(c).children@;
        let init = INITPROC_PID as int;
        assert(k.task_wf(c));
        assert forall|j: int| 0 <= j < cs.len() implies k.live(#[trigger] cs[j] as int)
            && k.inner(cs[j] as int).parent == Some(c as usize) by {
            let x = k.inner(c).children@[j] as int;
            assert(k.live(x));
        }
        // how each task of `self` relates to `k`
        assert forall|q: int| 0 <= q < k.tasks@.len() && q != c && q != init && !cs.contains(q as usize)
            implies #[trigger] self.tasks@[q] == k.tasks@[q] by {
            assert(k2.tasks@[q] == k1.tasks@[q]);
        }
        assert forall|q: int| #[trigger] self.live(q) <==> k.live(q) by {
            if 0 <= q < k.tasks@.len() && q != c {
                if q == init {
                } else if cs.contains(q as usize) {
                    let j = cs.index_of(q as usize);
                    assert(k2.live(cs[j] as int));
                    assert(k.live(cs[j] as int));
                } else {
                    assert(self.tasks@[q] == k.tasks@[q]);
                }
            }
        }
        assert forall|j: int| 0 <= j < cs.len() implies {
            let q = #[trigger] cs[j] as int;
            &&& self.inner(q).parent == Some(INITPROC_PID)
            &&& self.inner(q).children == k.inner(q).children
            &&& self.inner(q).task_status == k.inner(q).task_status
            &&& self.inner(q).memory_set == k.inner(q).memory_set
            &&& self.inner(q).syscall_times == k.inner(q).syscall_times
            &&& self.tcb(q).pid == k.tcb(q).pid
            &&& self.tcb(q).kernel_stack == k.tcb(q).kernel_stack
            &&& q != c
            &&& q != init
        } by {
            let q = cs[j] as int;
            assert(k.inner(q).parent == Some(c as usize));
            assert(q != c) by {
                assert(k.live(q));
            }
            assert(q != init);
            assert(self.tasks@[q] == k2.tasks@[q]);
            assert(k1.tasks@[q] == k.tasks@[q]);
        }
        assert(self.inner(init).children@ == k.inner(init).children@ + cs) by {
            assert(self.tasks@[init] == k2.tasks@[init]);
            assert(k1.tasks@[init] == k.tasks@[init]);
        }
        assert(self.inner(init).parent == k.inner(init).parent && self.inner(init).task_status
            == k.inner(init).task_status && self.inner(init).memory_set == k.inner(init).memory_set
            && self.inner(init).syscall_times == k.inner(init).syscall_times && self.tcb(init).pid
            == k.tcb(init).pid && self.tcb(init).kernel_stack == k.tcb(init).kernel_stack) by {
            assert(self.tasks@[init] == k2.tasks@[init]);
            assert(k1.tasks@[init] == k.tasks@[init]);
        }
        let ic = k.inner(init).children@;
        assert forall|j: int| 0 <= j < ic.len() implies k.live(#[trigger] ic[j] as int)
            && k.inner(ic[j] as int).parent == Some(INITPROC_PID) by {
            assert(k.live(init));
        }
        assert(!ic.contains(c as usize) || k.inner(c).parent == Some(INITPROC_PID)) by {
            if ic.contains(c as usize) {
                let j = ic.index_of(c as usize);
                assert(k.inner(ic[j] as int).parent == Some(INITPROC_PID));
            }
        }
        // task_wf
        assert forall|p: int| #[trigger] self.live(p) implies self.task_wf(p) by {
            assert(k.task_wf(p));
            if p == init {
                assert((ic + cs).no_duplicates()) by {
                    assert forall|a: int, b: int| 0 <= a < (ic + cs).len() && 0 <= b < (ic + cs).len() && a != b
                        implies (ic + cs)[a] != (ic + cs)[b] by {
                        if a < ic.len() && b >= ic.len() {
                            assert(k.inner(ic[a] as int).parent == Some(INITPROC_PID));
                            assert(k.inner(cs[b - ic.len()] as int).parent == Some(c as usize));
                        } else if b < ic.len() && a >= ic.len() {
                            assert(k.inner(ic[b] as int).parent == Some(INITPROC_PID));
                            assert(k.inner(cs[a - ic.len()] as int).parent == Some(c as usize));
                        }
                    }
                }
            }
        }
        assert forall|p: usize| p < self.tasks@.len() implies (#[trigger] self.live(p as int) <==> self.pids.in_use(p)) by {
            assert(k.live(p as int) <==> k.pids.in_use(p));
        }
        // parent links
        assert forall|p: int|
            #[trigger] self.live(p) && self.inner(p).parent is Some implies {
                let q = self.inner(p).parent->0 as int;
                self.live(q) && self.inner(q).children@.contains(p as usize) && q != p
            } by {
            if cs.contains(p as usize) {
                let j = cs.index_of(p as usize);
                assert((ic + cs)[ic.len() + j] == p as usize);
            } else if p == c {
                let q = k.inner(c).parent->0 as int;
                assert(k.live(q) && k.inner(q).children@.contains(c as usize));
                if q == init {
                    let j = ic.index_of(c as usize);
                    assert((ic + cs)[j] == c as usize);
                } else if cs.contains(q as usize) {
                } else {
                    assert(self.tasks@[q] == k.tasks@[q]);
                }
            } else if p != init {
                let q = k.inner(p).parent->0 as int;
                assert(self.tasks@[p] == k.tasks@[p]);
                assert(k.live(q) && k.inner(q).children@.contains(p as usize));
                if q == c {
                    let j = k.inner(c).children@.index_of(p as usize);
                    assert(cs.contains(p as usize));
                } else if q == init {
                    let j = ic.index_of(p as usize);
                    assert((ic + cs)[j] == p as usize);
                } else if cs.contains(q as usize) {
                } else {
                    assert(self.tasks@[q] == k.tasks@[q]);
                }
            }
        }
        // child links
        assert forall|p: int, i: int|
            #[trigger] self.live(p) && 0 <= i < self.inner(p).children@.len() implies {
                let ch = #[trigger] self.inner(p).children@[i] as int;
                self.live(ch) && self.inner(ch).parent == Some(p as usize)
            } by {
            if p == init {
                let ch = (ic + cs)[i] as int;
                if i < ic.len() {
                    assert(k.inner(ic[i] as int).parent == Some(INITPROC_PID));
                    assert(!cs.contains(ch as usize)) by {
                        if cs.contains(ch as usize) {
                            let j = cs.index_of(ch as usize);
                            assert(k.inner(cs[j] as int).parent == Some(c as usize));
                        }
                    }
                    if ch != c {
                        assert(self.tasks@[ch] == k.tasks@[ch]);
                    }
                } else {
                    assert(cs[i - ic.len()] == ch as usize);
                }
            } else if p != c {
                let kc = k.inner(p).children@;
                assert(self.inner(p).children == k.inner(p).children) by {
                    if !cs.contains(p as usize) {
                        assert(self.tasks@[p] == k.tasks@[p]);
                    }
                }
                let ch = kc[i] as int;
                assert(k.live(p));
                assert(k.live(ch) && k.inner(ch).parent == Some(p as usize));
                assert(!cs.contains(ch as usize)) by {
                    if cs.contains(ch as usize) {
                        let j = cs.index_of(ch as usize);
                        assert(k.inner(cs[j] as int).parent == Some(c as usize));
                    }
                }
                if ch != c && ch != init {
                    assert(self.tasks@[ch] == k.tasks@[ch]);
                }
            }
        }
        // scheduling
        let rq = self.manager.ready_queue@;
        assert forall|i: int| 0 <= i < rq.len() implies self.live(#[trigger] rq[i] as int)
            && self.inner(rq[i] as int).task_status == TaskStatus::Ready by {
            let q = rq[i] as int;
            assert(k.live(q) && k.inner(q).task_status == TaskStatus::Ready);
            assert(q != c);
            if q != init && !cs.contains(q as usize) {
                assert(self.tasks@[q] == k.tasks@[q]);
            }
            if cs.contains(q as usize) {
                let j = cs.index_of(q as usize);
                assert(cs[j] as int == q);
            }
        }
    }

    proof fn lemma_reap_wf(self, k0: Kernel, k1: Kernel, p: int, idx: int, z: int)
        requires
            k0.wf(),
            k0.live(p),
            0 <= idx < k0.inner(p).children@.len(),
            z == k0.inner(p).children@[idx],
            k0.inner(z).task_status == TaskStatus::Zombie,
            k1.tasks@.len() == k0.tasks@.len(),
            forall|q: int| 0 <= q < k0.tasks@.len() && q != p ==> #[trigger] k1.tasks@[q] == k0.tasks@[q],
            k1.live(p),
            k1.tcb(p).pid == k0.tcb(p).pid,
            k1.tcb(p).kernel_stack == k0.tcb(p).kernel_stack,
            k1.inner(p).children@ == k0.inner(p).children@.remove(idx),
            k1.inner(p).parent == k0.inner(p).parent,
            k1.inner(p).task_status == k0.inner(p).task_status,
            k1.inner(p).memory_set == k0.inner(p).memory_set,
            k1.inner(p).syscall_times == k0.inner(p).syscall_times,
            k1.manager == k0.manager,
            k1.processor == k0.processor,
            k1.pids == k0.pids,
            k1.env == k0.env,
            self.tasks@ == k1.tasks@.update(z, None),
            self.pids.wf(),
            self.pids.current() == k0.pids.current(),
            !self.pids.in_use(z as usize),
            forall|q: usize| q != z ==> self.pids.in_use(q) == k0.pids.in_use(q),
            self.manager == k0.manager,
            self.processor == k0.processor,
            self.env == k0.env,
            self.mem.wf(),
            self.end() == k0.end(),
        ensures
            self.wf(),
    {
        let cs = k0.inner(p).children@;
        assert(k0.live(z) && k0.inner(z).parent == Some(p as usize));
        assert(z != p);
        assert(k0.task_wf(z));
        assert(k0.task_wf(p));
        assert(z != INITPROC_PID);
        assert forall|q: int| #[trigger] self.live(q) <==> (k0.live(q) && q != z) by {
            if 0 <= q < k0.tasks@.len() && q != p && q != z {
                assert(self.tasks@[q] == k0.tasks@[q]);
            }
        }
        assert forall|q: int| q != p && q != z && #[trigger] self.live(q) implies self.tcb(q) == k0.tcb(q) by {
            assert(self.tasks@[q] == k0.tasks@[q]);
        }
        assert(self.tcb(p) == k1.tcb(p));
        assert(!cs.remove(idx).contains(z as usize)) by {
            if cs.remove(idx).contains(z as usize) {
                let j = cs.remove(idx).index_of(z as usize);
                let jj = if j < idx { j } else { j + 1 };
                assert(cs[jj] == cs[idx]);
            }
        }
        assert forall|q: int| #[trigger] self.live(q) implies self.task_wf(q) by {
            assert(k0.task_wf(q));
            if q == p {
                let t = cs.remove(idx);
                assert(t.no_duplicates()) by {
                    assert forall|a: int, b: int| 0 <= a < t.len() && 0 <= b < t.len() && a != b implies t[a] != t[b] by {
                        let ja = if a < idx { a } else { a + 1 };
                        let jb = if b < idx { b } else { b + 1 };
                        assert(t[a] == cs[ja] && t[b] == cs[jb]);
                    }
                }
            }
        }
        assert forall|q: usize| q < self.tasks@.len() implies (#[trigger] self.live(q as int) <==> self.pids.in_use(q)) by {
            assert(k0.live(q as int) <==> k0.pids.in_use(q));
        }
        assert forall|q: int|
            #[trigger] self.live(q) && self.inner(q).parent is Some implies {
                let r = self.inner(q).parent->0 as int;
                self.live(r) && self.inner(r).children@.contains(q as usize) && r != q
            } by {
            assert(k0.live(q));
            let r = k0.inner(q).parent->0 as int;
            assert(k0.live(r) && k0.inner(r).children@.contains(q as usize));
            assert(r != z) by {
                if r == z {
                    assert(k0.inner(z).children@.len() == 0);
                }
            }
            if r == p {
                let j = cs.index_of(q as usize);
                assert(j != idx);
                let jj = if j < idx { j } else { j - 1 };
                assert(cs.remove(idx)[jj] == q as usize);
            }
        }
        assert forall|q: int, i: int|
            #[trigger] self.live(q) && 0 <= i < self.inner(q).children@.len() implies {
                let ch = #[trigger] self.inner(q).children@[i] as int;
                self.live(ch) && self.inner(ch).parent == Some(q as usize)
            } by {
            assert(k0.live(q));
            if q == p {
                let ii = if i < idx { i } else { i + 1 };
                assert(self.inner(q).children@[i] == cs[ii]);
                let ch = cs[ii] as int;
                assert(k0.live(ch) && k0.inner(ch).parent == Some(p as usize));
                assert(ch != z) by {
                    assert(cs[ii] != cs[idx]);
                }
            } else {
                let ch = k0.inner(q).children@[i] as int;
                assert(k0.live(ch) && k0.inner(ch).parent == Some(q as usize));
                assert(ch != z);
            }
        }
        let rq = self.manager.ready_queue@;
        assert forall|i: int| 0 <= i < rq.len() implies self.live(#[trigger] rq[i] as int)
            && self.inner(rq[i] as int).task_status == TaskStatus::Ready by {
            assert(k0.live(rq[i] as int));
        }
        match self.processor.current {
            Some(c) => {
                assert(k0.live(c as int));
            },
            None => {},
        }
    }

    proof fn lemma_fork_wf(self, k0: Kernel, k1: Kernel, k: Kernel, parent: usize, pid: usize)
        requires
            k.wf(),
            k.live(parent as int),
            k.inner(parent as int).task_status != TaskStatus::Zombie,
            !k.live(pid as int),
            pid <= k.tasks@.len(),
            pid < MAX_PID,
            pid == k.tasks@.len() ==> k0.pids.current() == k.pids.current() + 1,
            pid < k.tasks@.len() ==> k0.pids.current() == k.pids.current(),
            k0.pids.wf(),
            k0.pids.in_use(pid),
            forall|q: usize| q != pid ==> k0.pids.in_use(q) == k.pids.in_use(q),
            k0.tasks == k.tasks,
            k0.mem.wf(),
            k0.mem.frame_alloc().end() == k.mem.frame_alloc().end(),
            k0.manager == k.manager,
            k0.processor == k.processor,
            k0.env == k.env,
            k1.tasks@ == if pid == k0.tasks@.len() {
                k0.tasks@.push(k1.tasks@[pid as int])
            } else {
                k0.tasks@.update(pid as int, k1.tasks@[pid as int])
            },
            k1.tasks@[pid as int] is Some,
            k1.mem == k0.mem,
            k1.pids == k0.pids,
            k1.manager == k0.manager,
            k1.processor == k0.processor,
            k1.env == k0.env,
            k1.tcb(pid as int).pid == pid,
            k1.tcb(pid as int).kernel_stack.pid == pid,
            k1.inner(pid as int).memory_set.wf(k0.mem.frame_alloc().end(), k.env.tramp_ppn),
            k1.inner(pid as int).syscall_times@.len() == MAX_SYSCALL_NUM,
            k1.inner(pid as int).children@.len() == 0,
            k1.inner(pid as int).parent == Some(parent),
            k1.inner(pid as int).task_status == TaskStatus::Ready,
            self.tasks@.len() == k1.tasks@.len(),
            self.live(parent as int),
            self.inner(parent as int).children@ == k1.inner(parent as int).children@.push(pid),
            self.inner(parent as int).memory_set == k1.inner(parent as int).memory_set,
            self.inner(parent as int).syscall_times == k1.inner(parent as int).syscall_times,
            self.inner(parent as int).parent == k1.inner(parent as int).parent,
            self.inner(parent as int).task_status == k1.inner(parent as int).task_status,
            self.tcb(parent as int).pid == k1.tcb(parent as int).pid,
            self.tcb(parent as int).kernel_stack == k1.tcb(parent as int).kernel_stack,
            forall|q: int|
                0 <= q < k1.tasks@.len() && q != parent ==> #[trigger] self.tasks@[q] == k1.tasks@[q],
            self.mem == k1.mem,
            self.pids == k1.pids,
            self.manager == k1.manager,
            self.processor == k1.processor,
            self.env == k1.env,
        ensures
            self.wf(),
    {
        assert forall|q: int| #[trigger] self.live(q) <==> (k.live(q) || q == pid) by {
            if q != parent && 0 <= q < self.tasks@.len() {
                assert(self.tasks@[q] == k1.tasks@[q]);
            }
        }
        assert forall|q: int| q != pid && q != parent && #[trigger] self.live(q) implies self.tcb(q) == k.tcb(q) by {
            assert(self.tasks@[q] == k1.tasks@[q]);
        }
        assert(self.tcb(pid as int) == k1.tcb(pid as int));
        assert forall|p: usize| p < self.tasks@.len() implies (#[trigger] self.live(p as int) <==> self.pids.in_use(p)) by {
            if p != pid {
                assert(p < k.tasks@.len());
                assert(k.live(p as int) <==> k.pids.in_use(p));
            }
        }
        assert(!k.inner(parent as int).children@.contains(pid)) by {
            if k.inner(parent as int).children@.contains(pid) {
                let i = k.inner(parent as int).children@.index_of(pid);
                assert(k.live(k.inner(parent as int).children@[i] as int));
            }
        }
        assert(k1.inner(parent as int) == k.inner(parent as int)) by {
            assert(k1.tasks@[parent as int] == k.tasks@[parent as int]);
        }
        assert forall|p: int| #[trigger] self.live(p) implies self.task_wf(p) by {
            if p != pid && p != parent {
                assert(k.task_wf(p));
            } else if p == parent {
                assert(k.task_wf(p));
                let s0 = k.inner(parent as int).children@;
                assert(s0.push(pid).no_duplicates()) by {
                    assert forall|i: int, j: int|
                        0 <= i < s0.len() + 1 && 0 <= j < s0.len() + 1 && i != j implies s0.push(pid)[i]
                        != s0.push(pid)[j] by {
                        if i < s0.len() && j < s0.len() {
                        } else if i < s0.len() {
                            assert(s0.contains(s0[i]));
                        } else {
                            assert(s0.contains(s0[j]));
                        }
                    }
                }
            }
        }
        assert forall|p: int|
            #[trigger] self.live(p) && self.inner(p).parent is Some implies {
                let q = self.inner(p).parent->0 as int;
                self.live(q) && self.inner(q).children@.contains(p as usize) && q != p
            } by {
            if p != pid {
                let q = k.inner(p).parent->0 as int;
                if p != parent {
                    assert(k.live(q) && k.inner(q).children@.contains(p as usize));
                    if q == parent {
                        let i = k.inner(q).children@.index_of(p as usize);
                        assert(self.inner(q).children@[i] == p as usize);
                    }
                } else {
                    assert(k.live(q) && k.inner(q).children@.contains(p as usize));
                    if q == parent {
                        let i = k.inner(q).children@.index_of(p as usize);
                        assert(self.inner(q).children@[i] == p as usize);
                    }
                }
            } else {
                assert(self.inner(parent as int).children@[self.inner(parent as int).children@.len() - 1] == pid);
            }
        }
        assert forall|p: int, i: int|
            #[trigger] self.live(p) && 0 <= i < self.inner(p).children@.len() implies {
                let c = #[trigger] self.inner(p).children@[i] as int;
                self.live(c) && self.inner(c).parent == Some(p as usize)
            } by {
            if p == parent {
                if i < k.inner(p).children@.len() {
                    let c = k.inner(p).children@[i] as int;
                    assert(k.live(c) && k.inner(c).parent == Some(p as usize));
                    assert(c != pid);
                }
            } else if p != pid {
                let c = k.inner(p).children@[i] as int;
                assert(k.live(c) && k.inner(c).parent == Some(p as usize));
                assert(c != pid);
            }
        }
        let rq = self.manager.ready_queue@;
        assert forall|i: int| 0 <= i < rq.len() implies self.live(#[trigger] rq[i] as int)
            && self.inner(rq[i] as int).task_status == TaskStatus::Ready by {
            assert(k.live(rq[i] as int));
        }
    }
}

} // verus!
