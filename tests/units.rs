use rvkernel::config::{kernel_stack_position, KERNEL_STACK_SIZE, PAGE_SIZE, TRAMPOLINE, TRAMPOLINE_VPN};
use rvkernel::kernel::{bytes_eq, port_to_perm, Kernel, INITPROC_PID};
use rvkernel::mm::address::{aligned, ceil, floor, PERM_R, PERM_U, PERM_W, PERM_X};
use rvkernel::mm::frame_allocator::{FrameAllocator, PhysMemory};
use rvkernel::mm::memory_set::{AppImage, MapSegment, MemorySet};
use rvkernel::mm::page_table::PageTable;
use rvkernel::mm::translate::{translated_read, translated_str, translated_write};
use rvkernel::sync::UPSafeCell;
use rvkernel::syscall::process::{sys_fork, TaskInfo, TimeVal};
use rvkernel::task::context::TaskContext;
use rvkernel::task::manager::{less_pass, pick_min_pass, TaskManager};
use rvkernel::task::pid::{KernelStack, PidAllocator};
use rvkernel::task::task::TaskStatus;
use rvkernel::trap::context::TrapContext;
use rvkernel::trap::{restore_va, trap_cause, trap_handler, TrapAction, TrapCause, EXIT_FAULT};

#[test]
fn scause_decoding() {
    let irq = 1usize << (usize::BITS - 1);
    assert_eq!(trap_cause(8), TrapCause::UserEnvCall);
    assert_eq!(trap_cause(7), TrapCause::StoreFault);
    assert_eq!(trap_cause(15), TrapCause::StorePageFault);
    assert_eq!(trap_cause(5), TrapCause::LoadFault);
    assert_eq!(trap_cause(13), TrapCause::LoadPageFault);
    assert_eq!(trap_cause(2), TrapCause::IllegalInstruction);
    assert_eq!(trap_cause(3), TrapCause::Other);
    assert_eq!(trap_cause(irq | 5), TrapCause::SupervisorTimer);
    assert_eq!(trap_cause(irq | 9), TrapCause::Other);
}

#[test]
fn init_context_enters_user_mode() {
    let cx = TrapContext::app_init_context(0x1000, 0x5000, 0x122, 7, 0x9000, 0x8020_0000);
    assert_eq!(cx.sstatus & 0x100, 0);
    assert_eq!(cx.sstatus, 0x22);
    assert_eq!(cx.sepc, 0x1000);
    assert_eq!(cx.x[2], 0x5000);
    assert!(cx.x.iter().enumerate().all(|(i, v)| i == 2 || *v == 0));
    assert_eq!((cx.kernel_satp, cx.kernel_sp, cx.trap_handler), (7, 0x9000, 0x8020_0000));
    let mut c2 = cx;
    c2.set_sp(0x42);
    assert_eq!(c2.x[2], 0x42);
}

#[test]
fn task_context_starts_in_trap_return() {
    let c = TaskContext::goto_trap_return(0x7000, 0x8020_2000);
    assert_eq!((c.ra, c.sp), (0x8020_2000, 0x7000));
    assert_eq!(TaskContext::zero_init().ra, 0);
}

#[test]
fn stride_comparison_wraps() {
    assert!(less_pass(3, 5));
    assert!(!less_pass(5, 3));
    assert!(!less_pass(4, 4));
    assert!(less_pass(u64::MAX - 10, 5));
    assert!(!less_pass(5, u64::MAX - 10));
    assert_eq!(pick_min_pass(&vec![5, 3, 9]), 1);
    assert_eq!(pick_min_pass(&vec![7, 7]), 0);
    assert_eq!(pick_min_pass(&vec![5, u64::MAX - 10]), 1);
}

#[test]
fn manager_fetch_takes_min_pass() {
    let mut m = TaskManager::new();
    m.add(4);
    m.add(2);
    m.add(9);
    assert_eq!(m.fetch(&vec![30, 10, 20]), Some(2));
    assert_eq!(m.ready_queue, vec![4, 9]);
    let mut e = TaskManager::new();
    assert_eq!(e.fetch(&vec![]), None);
}

#[test]
fn frame_allocator_recycles_last_freed_first() {
    let mut f = FrameAllocator::new(2, 5);
    assert_eq!(f.free_frames(), 3);
    assert_eq!(f.allocate(), Some(2));
    assert_eq!(f.allocate(), Some(3));
    assert!(f.dealloc(2));
    assert!(!f.dealloc(2));
    assert!(!f.dealloc(7));
    assert!(!f.dealloc(4));
    assert_eq!(f.allocate(), Some(2));
    assert_eq!(f.allocate(), Some(4));
    assert_eq!(f.allocate(), None);
    assert_eq!(f.free_frames(), 0);
}

#[test]
fn pid_allocator_reuses_freed() {
    let mut p = PidAllocator::new();
    assert_eq!(p.allocate(), Some(0));
    assert_eq!(p.allocate(), Some(1));
    assert_eq!(p.allocate(), Some(2));
    assert!(p.dealloc(1));
    assert!(!p.dealloc(1));
    assert!(!p.dealloc(5));
    assert_eq!(p.peek(), Some(1));
    assert_eq!(p.allocate(), Some(1));
    assert_eq!(p.allocate(), Some(3));
}

#[test]
fn kernel_stacks_are_separated_by_guard_pages() {
    let (b0, t0) = kernel_stack_position(0);
    let (b1, t1) = kernel_stack_position(1);
    assert_eq!(t0, TRAMPOLINE);
    assert_eq!(t0 - b0, KERNEL_STACK_SIZE);
    assert_eq!(b0 - t1, PAGE_SIZE);
    assert_eq!(t1 - b1, KERNEL_STACK_SIZE);
    assert_eq!(KernelStack::new(1).get_top(), t1);
}

#[test]
fn page_table_maps_and_unmaps() {
    let mut pt = PageTable::new(3);
    pt.map(10, 20, PERM_R);
    pt.map(11, 21, PERM_R | PERM_W);
    assert_eq!(pt.len(), 2);
    let e = pt.translate(11).unwrap();
    assert_eq!((e.ppn, e.flags), (21, PERM_R | PERM_W | 1));
    assert!(pt.is_mapped(10));
    pt.unmap(10);
    assert!(pt.translate(10).is_none());
    assert_eq!(pt.len(), 1);
    assert_eq!(pt.token(), (8usize << 60) | 3);
}

#[test]
fn addresses_round_to_pages() {
    assert!(aligned(0x3000));
    assert!(!aligned(0x3001));
    assert_eq!(floor(0x3fff), 3);
    assert_eq!(ceil(0x3001), 4);
    assert_eq!(ceil(0x3000), 3);
    assert_eq!(ceil(0), 0);
    assert_eq!(port_to_perm(0b111), PERM_R | PERM_W | PERM_X | PERM_U);
    assert_eq!(port_to_perm(0b001), PERM_R | PERM_U);
}

#[test]
fn user_memory_round_trip() {
    let mut mem = PhysMemory::new(0, 16);
    let tramp = mem.alloc_frame().unwrap();
    let root = mem.alloc_frame().unwrap();
    let mut ms = MemorySet::new_bare(root, tramp, 16);
    assert_eq!(ms.insert_framed_area(&mut mem, 0x4000, 0x6000, PERM_R | PERM_W | PERM_U), 0);
    assert!(translated_write(&mut mem, &ms, 0x4ffe, &b"ab\0".to_vec(), PERM_U | PERM_W));
    assert_eq!(translated_str(&mem, &ms, 0x4ffe, PERM_U | PERM_R), Some(b"ab".to_vec()));
    assert_eq!(translated_read(&mem, &ms, 0x4ffe, 3, PERM_U | PERM_R), Some(b"ab\0".to_vec()));
    assert!(!translated_write(&mut mem, &ms, 0x5fff, &b"xy".to_vec(), PERM_U | PERM_W));
    assert_eq!(translated_read(&mem, &ms, 0x5fff, 2, PERM_U | PERM_R), None);
    assert_eq!(translated_str(&mem, &ms, 0x7000, PERM_U | PERM_R), None);
    let copy = MemorySet::from_existed_user(&mut mem, &ms).unwrap();
    assert_eq!(translated_str(&mem, &copy, 0x4ffe, PERM_U | PERM_R), Some(b"ab".to_vec()));
    assert_eq!(copy.translate(TRAMPOLINE_VPN).unwrap().ppn, tramp);
    assert_ne!(copy.token(), ms.token());
}

#[test]
fn program_loading_places_stack_above_segments() {
    let mut mem = PhysMemory::new(0, 32);
    let tramp = mem.alloc_frame().unwrap();
    let app = AppImage {
        name: b"p".to_vec(),
        segments: vec![
            MapSegment { start_va: 0x1000, mem_size: 0x10, perm: PERM_R | PERM_X, data: vec![1, 2, 3] },
            MapSegment { start_va: 0x3000, mem_size: 0x1800, perm: PERM_R | PERM_W, data: vec![] },
        ],
        entry: 0x1000,
    };
    let (ms, sp, entry) = MemorySet::from_elf(&mut mem, &app, tramp).unwrap();
    assert_eq!(entry, 0x1000);
    assert_eq!(sp, 0x6000 + 0x2000);
    assert!(ms.translate(5).is_none());
    assert_eq!(ms.translate(1).unwrap().flags, PERM_R | PERM_X | PERM_U | 1);
    assert_eq!(ms.translate(4).unwrap().flags, PERM_R | PERM_W | PERM_U | 1);
    assert_eq!(translated_read(&mem, &ms, 0x1000, 4, PERM_R), Some(vec![1, 2, 3, 0]));
    let bad = AppImage {
        name: b"q".to_vec(),
        segments: vec![MapSegment { start_va: 0x1001, mem_size: 0x10, perm: PERM_R, data: vec![] }],
        entry: 0,
    };
    let free = mem.free_frames();
    assert!(MemorySet::from_elf(&mut mem, &bad, tramp).is_none());
    assert_eq!(mem.free_frames(), free);
}

#[test]
fn timeval_and_taskinfo_layouts() {
    let t = TimeVal::from_us(1_500_000);
    assert_eq!((t.sec, t.usec), (1, 500_000));
    let b = t.to_bytes();
    assert_eq!(b.len(), 16);
    assert_eq!(b[0], 1);
    assert_eq!(u64::from_le_bytes(b[8..16].try_into().unwrap()), 500_000);
    let info = TaskInfo { status: TaskStatus::Running, syscall_times: vec![0; 500], time: 9 };
    let ib = info.to_bytes();
    assert_eq!(ib.len(), 2016);
    assert_eq!(ib[0], 2);
    assert_eq!(ib[2008], 9);
}

#[test]
fn cell_gives_exclusive_access() {
    let mut c = UPSafeCell::new(5u32);
    *c.exclusive_access() += 1;
    assert_eq!(*c.get(), 6);
}

#[test]
fn names_compare_bytewise() {
    assert!(bytes_eq(&b"abc".to_vec(), &b"abc".to_vec()));
    assert!(!bytes_eq(&b"abc".to_vec(), &b"abd".to_vec()));
    assert!(!bytes_eq(&b"ab".to_vec(), &b"abc".to_vec()));
}

#[test]
fn restore_address_in_trampoline() {
    assert_eq!(restore_va(0x8020_0000, 0x8020_0060), TRAMPOLINE + 0x60);
}

fn boot() -> Kernel {
    let seg = MapSegment { start_va: 0x1000, mem_size: 0x1000, perm: PERM_R | PERM_X, data: vec![] };
    let apps = vec![AppImage { name: b"ch5b_initproc".to_vec(), segments: vec![seg], entry: 0x1000 }];
    let mut k = Kernel::new(1, 128, apps, &b"ch5b_initproc".to_vec(), 1, 0x122, 2, 3).unwrap();
    k.run_tasks_once(0);
    k
}

#[test]
fn trap_runs_system_call() {
    let mut k = boot();
    k.inner_mut(INITPROC_PID).trap_cx.x[17] = 172;
    let sepc = k.inner_ref(INITPROC_PID).trap_cx.sepc;
    assert_eq!(trap_handler(&mut k, 8, 5), TrapAction::ReturnToUser);
    assert_eq!(k.inner_ref(INITPROC_PID).trap_cx.x[10], INITPROC_PID);
    assert_eq!(k.inner_ref(INITPROC_PID).trap_cx.sepc, sepc + 4);
    assert_eq!(k.inner_ref(INITPROC_PID).syscall_times[172], 1);
}

#[test]
fn trap_yield_and_timer_reschedule() {
    let mut k = boot();
    k.inner_mut(INITPROC_PID).trap_cx.x[17] = 124;
    assert_eq!(trap_handler(&mut k, 8, 5), TrapAction::Schedule);
    assert_eq!(k.inner_ref(INITPROC_PID).trap_cx.x[10], 0);
    k.run_tasks_once(6);
    let irq = 1usize << (usize::BITS - 1);
    assert_eq!(trap_handler(&mut k, irq | 5, 7), TrapAction::Schedule);
    assert_eq!(k.current_task(), None);
    assert_eq!(k.manager.ready_queue, vec![INITPROC_PID]);
}

#[test]
fn trap_fault_ends_task() {
    let mut k = boot();
    let child = sys_fork(&mut k) as usize;
    k.suspend_current_and_run_next();
    assert_eq!(k.run_tasks_once(9), Some(child));
    assert_eq!(trap_handler(&mut k, 15, 10), TrapAction::Schedule);
    assert_eq!(k.inner_ref(child).task_status, TaskStatus::Zombie);
    assert_eq!(k.inner_ref(child).exit_code, EXIT_FAULT);
}

#[test]
fn trap_unsupported_leaves_kernel() {
    let mut k = boot();
    assert_eq!(trap_handler(&mut k, 3, 1), TrapAction::Unsupported);
    k.inner_mut(INITPROC_PID).trap_cx.x[17] = 9999;
    assert_eq!(trap_handler(&mut k, 8, 1), TrapAction::Unsupported);
    k.inner_mut(INITPROC_PID).trap_cx.x[17] = 93;
    assert_eq!(trap_handler(&mut k, 8, 1), TrapAction::Unsupported);
    assert_eq!(trap_handler(&mut k, 2, 1), TrapAction::Unsupported);
    assert_eq!(k.current_task(), Some(INITPROC_PID));
}

fn image(segments: Vec<MapSegment>) -> AppImage {
    AppImage { name: b"p".to_vec(), segments, entry: 0x1000 }
}

fn seg(start_va: usize, mem_size: usize) -> MapSegment {
    MapSegment { start_va, mem_size, perm: PERM_R, data: vec![] }
}

#[test]
fn loading_refuses_bad_images() {
    let mut mem = PhysMemory::new(0, 64);
    let tramp = mem.alloc_frame().unwrap();
    let free = mem.free_frames();
    assert!(MemorySet::from_elf(&mut mem, &image(vec![seg(0x1000, 0x2000), seg(0x2000, 0x1000)]), tramp).is_none());
    assert!(MemorySet::from_elf(&mut mem, &image(vec![seg(0x1000, 0)]), tramp).is_none());
    let mut big = seg(0x1000, 2);
    big.data = vec![1, 2, 3];
    assert!(MemorySet::from_elf(&mut mem, &image(vec![big]), tramp).is_none());
    assert!(MemorySet::from_elf(&mut mem, &image(vec![seg(0x1000, (free - 3) * PAGE_SIZE)]), tramp).is_none());
    assert_eq!(mem.free_frames(), free);
    assert!(MemorySet::from_elf(&mut mem, &image(vec![seg(0x1000, (free - 4) * PAGE_SIZE)]), tramp).is_some());
    assert_eq!(mem.free_frames(), 0);
}

#[test]
fn boot_fails_without_frames() {
    let apps = vec![AppImage { name: b"ch5b_initproc".to_vec(), segments: vec![seg(0x1000, 0x1000)], entry: 0x1000 }];
    assert!(Kernel::new(3, 3, apps, &b"ch5b_initproc".to_vec(), 1, 0x122, 2, 3).is_none());
    let apps = vec![AppImage { name: b"ch5b_initproc".to_vec(), segments: vec![seg(0x1000, 0x1000)], entry: 0x1000 }];
    assert!(Kernel::new(0, 5, apps, &b"ch5b_initproc".to_vec(), 1, 0x122, 2, 3).is_none());
    let apps = vec![AppImage { name: b"ch5b_initproc".to_vec(), segments: vec![seg(0x1000, 0x1000)], entry: 0x1000 }];
    assert!(Kernel::new(0, 6, apps, &b"ch5b_initproc".to_vec(), 1, 0x122, 2, 3).is_some());
}

#[test]
fn fork_fails_without_frames() {
    let apps = vec![AppImage { name: b"ch5b_initproc".to_vec(), segments: vec![seg(0x1000, 0x1000)], entry: 0x1000 }];
    let mut k = Kernel::new(0, 8, apps, &b"ch5b_initproc".to_vec(), 1, 0x122, 2, 3).unwrap();
    k.run_tasks_once(0);
    assert_eq!(sys_fork(&mut k), -1);
    assert_eq!(k.tasks.len(), 1);
}

#[test]
fn trap_syscall_advances_sepc_and_sets_result() {
    let mut k = boot();
    k.inner_mut(INITPROC_PID).trap_cx.x[17] = 222;
    k.inner_mut(INITPROC_PID).trap_cx.x[10] = 0x1000_0001;
    k.inner_mut(INITPROC_PID).trap_cx.x[11] = 0x1000;
    k.inner_mut(INITPROC_PID).trap_cx.x[12] = 1;
    let sepc = k.inner_ref(INITPROC_PID).trap_cx.sepc;
    assert_eq!(trap_handler(&mut k, 8, 5), TrapAction::ReturnToUser);
    assert_eq!(k.inner_ref(INITPROC_PID).trap_cx.x[10], usize::MAX);
    assert_eq!(k.inner_ref(INITPROC_PID).trap_cx.sepc, sepc + 4);
    assert_eq!(k.inner_ref(INITPROC_PID).syscall_times[222], 1);
}

#[test]
fn init_context_keeps_high_status_bits() {
    let bits = (1usize << 63) | (3usize << 32) | 0x122;
    let cx = TrapContext::app_init_context(0, 0, bits, 0, 0, 0);
    assert_eq!(cx.sstatus, (1usize << 63) | (3usize << 32) | 0x22);
}

#[test]
fn loaded_segment_bytes_follow_data_then_zero() {
    let mut mem = PhysMemory::new(0, 32);
    let tramp = mem.alloc_frame().unwrap();
    let app = AppImage {
        name: b"p".to_vec(),
        segments: vec![MapSegment { start_va: 0x2000, mem_size: 0x1800, perm: PERM_R | PERM_W, data: vec![7; 0x1001] }],
        entry: 0x2000,
    };
    let (ms, _, _) = MemorySet::from_elf(&mut mem, &app, tramp).unwrap();
    let b = translated_read(&mem, &ms, 0x2000, 0x1800, PERM_R).unwrap();
    assert!(b[..0x1001].iter().all(|x| *x == 7));
    assert!(b[0x1001..].iter().all(|x| *x == 0));
}
