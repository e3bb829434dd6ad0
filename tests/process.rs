use rvkernel::config::{BIG_STRIDE, PAGE_SIZE, TRAMPOLINE_VPN, TRAP_CONTEXT_VPN};
use rvkernel::kernel::{Kernel, INITPROC_PID};
use rvkernel::mm::address::{PERM_R, PERM_W, PERM_X};
use rvkernel::mm::memory_set::{AppImage, MapSegment};
use rvkernel::syscall::fs::{sys_read, sys_write};
use rvkernel::syscall::process::{
    sys_exec, sys_exit, sys_fork, sys_get_time, sys_getpid, sys_mmap, sys_munmap, sys_set_priority,
    sys_spawn, sys_task_info, sys_waitpid, sys_yield,
};
use rvkernel::syscall::{syscall, SYSCALL_GETPID, SYSCALL_MMAP, SYSCALL_YIELD};
use rvkernel::task::task::TaskStatus;

fn app(name: &str, entry: usize) -> AppImage {
    AppImage {
        name: name.as_bytes().to_vec(),
        segments: vec![MapSegment {
            start_va: 0x1000,
            mem_size: 0x1000,
            perm: PERM_R | PERM_X,
            data: vec![0x13, 0x00, 0x00, 0x00],
        }],
        entry,
    }
}

fn boot() -> Kernel {
    let apps = vec![app("ch5b_initproc", 0x1000), app("hello", 0x1004)];
    let mut k = Kernel::new(1, 512, apps, &b"ch5b_initproc".to_vec(), 0x8000_0000_0000_0001, 0x122, 0x8020_1000, 0x8020_2000)
        .unwrap();
    assert_eq!(k.run_tasks_once(10), Some(INITPROC_PID));
    k
}

/// Makes `t` the running task: others are put back until `t` comes up.
fn run_until(k: &mut Kernel, t: usize, now: usize) {
    for _ in 0..64 {
        if k.current_task() == Some(t) {
            return;
        }
        if k.current_task().is_some() {
            k.suspend_current_and_run_next();
        }
        k.run_tasks_once(now);
    }
    panic!("task {} never ran", t);
}

/// Maps one writable page at 0x10000000 in the running task and returns its address.
fn scratch_page(k: &mut Kernel) -> usize {
    assert_eq!(sys_mmap(k, 0x1000_0000, PAGE_SIZE, 0b011), 0);
    0x1000_0000
}

fn read_i32(k: &Kernel, t: usize, va: usize) -> i32 {
    let b = k.read_user(t, va, 4).unwrap();
    i32::from_le_bytes([b[0], b[1], b[2], b[3]])
}

#[test]
fn boot_queues_initproc() {
    let apps = vec![app("ch5b_initproc", 0x1000)];
    let k = Kernel::new(1, 64, apps, &b"ch5b_initproc".to_vec(), 1, 0x122, 2, 3).unwrap();
    assert_eq!(k.manager.ready_queue, vec![INITPROC_PID]);
    assert_eq!(k.current_task(), None);
    let init = k.inner_ref(INITPROC_PID);
    assert_eq!(init.trap_cx.sepc, 0x1000);
    assert_eq!(init.task_status, TaskStatus::Ready);
    assert_eq!(init.stride, BIG_STRIDE / 16);
    assert_eq!(init.syscall_times.len(), 500);
}

#[test]
fn boot_without_initproc_fails() {
    let apps = vec![app("other", 0x1000)];
    assert!(Kernel::new(1, 64, apps, &b"ch5b_initproc".to_vec(), 1, 0x122, 2, 3).is_none());
}

#[test]
fn mmap_munmap_scenario() {
    let mut k = boot();
    assert_eq!(sys_mmap(&mut k, 0x10000000, 0x4000, 0b011), 0);
    assert_eq!(sys_mmap(&mut k, 0x10000000, 0x4000, 0b011), -1);
    assert_eq!(sys_munmap(&mut k, 0x10000000, 0x4000), 0);
    assert_eq!(sys_munmap(&mut k, 0x10000000, 0x4000), -1);
}

#[test]
fn mmap_misaligned_fails() {
    let mut k = boot();
    assert_eq!(sys_mmap(&mut k, 0x10000001, 0x1000, 0b001), -1);
}

#[test]
fn mmap_reserved_bit_fails() {
    let mut k = boot();
    assert_eq!(sys_mmap(&mut k, 0x10000000, 0x1000, 0x8), -1);
    assert_eq!(sys_mmap(&mut k, 0x10000000, 0x1000, 0), -1);
    assert_eq!(sys_mmap(&mut k, 0x10000000, 0, 0b001), -1);
}

#[test]
fn mmap_sets_user_permissions() {
    let mut k = boot();
    assert_eq!(sys_mmap(&mut k, 0x2000_0000, 0x2000, 0b101), 0);
    let ms = &k.inner_ref(INITPROC_PID).memory_set;
    let e = ms.translate(0x2000_0000 / PAGE_SIZE).unwrap();
    assert_eq!(e.flags, 0b1_1011);
    assert!(ms.translate(0x2000_0000 / PAGE_SIZE + 1).is_some());
    assert!(ms.translate(0x2000_0000 / PAGE_SIZE + 2).is_none());
}

#[test]
fn mmap_then_munmap_restores_space() {
    let mut k = boot();
    let before: Vec<usize> = (0..0x20000usize).filter(|v| k.inner_ref(INITPROC_PID).memory_set.translate(*v).is_some()).collect();
    let free = k.mem.free_frames();
    assert_eq!(sys_mmap(&mut k, 0x1000_0000, 0x3000, 0b011), 0);
    assert_eq!(k.mem.free_frames(), free - 3);
    assert_eq!(sys_munmap(&mut k, 0x1000_0000, 0x3000), 0);
    let after: Vec<usize> = (0..0x20000usize).filter(|v| k.inner_ref(INITPROC_PID).memory_set.translate(*v).is_some()).collect();
    assert_eq!(before, after);
    assert_eq!(k.mem.free_frames(), free);
}

#[test]
fn munmap_partial_range_unmapped_fails_atomically() {
    let mut k = boot();
    assert_eq!(sys_mmap(&mut k, 0x1000_0000, 0x1000, 0b011), 0);
    assert_eq!(sys_munmap(&mut k, 0x1000_0000, 0x2000), -1);
    assert!(k.inner_ref(INITPROC_PID).memory_set.translate(0x10000).is_some());
    assert_eq!(sys_munmap(&mut k, 0x1000_0001, 0x1000), -1);
}

#[test]
fn mmap_areas_do_not_overlap() {
    let mut k = boot();
    assert_eq!(sys_mmap(&mut k, 0x1000_0000, 0x2000, 0b011), 0);
    assert_eq!(sys_mmap(&mut k, 0x1000_1000, 0x2000, 0b011), -1);
    assert_eq!(sys_mmap(&mut k, 0x1000_2000, 0x2000, 0b011), 0);
    let ms = &k.inner_ref(INITPROC_PID).memory_set;
    let frames: Vec<usize> = (0x10000..0x10004).map(|v| ms.translate(v).unwrap().ppn).collect();
    for i in 0..frames.len() {
        for j in 0..i {
            assert_ne!(frames[i], frames[j]);
        }
    }
}

#[test]
fn mmap_without_frames_fails() {
    let apps = vec![app("ch5b_initproc", 0x1000)];
    let mut k = Kernel::new(1, 12, apps, &b"ch5b_initproc".to_vec(), 1, 0x122, 2, 3).unwrap();
    k.run_tasks_once(0);
    let free = k.mem.free_frames();
    assert_eq!(sys_mmap(&mut k, 0x1000_0000, (free + 1) * PAGE_SIZE, 0b011), -1);
    assert_eq!(k.mem.free_frames(), free);
    assert_eq!(sys_mmap(&mut k, 0x1000_0000, free * PAGE_SIZE, 0b011), 0);
    assert_eq!(k.mem.free_frames(), 0);
}

#[test]
fn fork_wait_scenario() {
    let mut k = boot();
    let ec = scratch_page(&mut k);
    let child = sys_fork(&mut k);
    assert!(child > 0);
    let child = child as usize;
    assert_eq!(k.inner_ref(child).trap_cx.x[10], 0);
    assert_eq!(sys_waitpid(&mut k, -1, ec), -2);
    run_until(&mut k, child, 20);
    sys_exit(&mut k, 7);
    assert_eq!(k.inner_ref(child).task_status, TaskStatus::Zombie);
    run_until(&mut k, INITPROC_PID, 30);
    assert_eq!(sys_waitpid(&mut k, -1, ec), child as isize);
    assert_eq!(read_i32(&k, INITPROC_PID, ec), 7);
    assert!(k.tasks[child].is_none());
    assert!(k.inner_ref(INITPROC_PID).children.is_empty());
}

#[test]
fn fork_then_wait_for_that_child() {
    let mut k = boot();
    let ec = scratch_page(&mut k);
    let child = sys_fork(&mut k) as usize;
    run_until(&mut k, child, 20);
    assert_eq!(sys_getpid(&k), child as isize);
    sys_exit(&mut k, 0);
    run_until(&mut k, INITPROC_PID, 30);
    assert_eq!(sys_waitpid(&mut k, child as isize, ec), child as isize);
    assert_eq!(read_i32(&k, INITPROC_PID, ec), 0);
}

#[test]
fn waitpid_errors() {
    let mut k = boot();
    let ec = scratch_page(&mut k);
    assert_eq!(sys_waitpid(&mut k, -1, ec), -1);
    let child = sys_fork(&mut k);
    assert_eq!(sys_waitpid(&mut k, child + 100, ec), -1);
    assert_eq!(sys_waitpid(&mut k, child, ec), -2);
    run_until(&mut k, child as usize, 20);
    sys_exit(&mut k, 3);
    run_until(&mut k, INITPROC_PID, 30);
    assert_eq!(sys_waitpid(&mut k, child, 0x5000_0000), -1);
    assert!(k.tasks[child as usize].is_some());
    assert_eq!(sys_waitpid(&mut k, child, ec), child);
}

#[test]
fn fork_copies_memory() {
    let mut k = boot();
    let page = scratch_page(&mut k);
    assert!(k.write_user(INITPROC_PID, page + 8, &vec![1, 2, 3]));
    let child = sys_fork(&mut k) as usize;
    assert_eq!(k.read_user(child, page + 8, 3).unwrap(), vec![1, 2, 3]);
    assert!(k.write_user(child, page + 8, &vec![9]));
    assert_eq!(k.read_user(INITPROC_PID, page + 8, 1).unwrap(), vec![1]);
    let pf = k.inner_ref(INITPROC_PID).memory_set.translate(page / PAGE_SIZE).unwrap().ppn;
    let cf = k.inner_ref(child).memory_set.translate(page / PAGE_SIZE).unwrap().ppn;
    assert_ne!(pf, cf);
}

#[test]
fn exec_keeps_pid() {
    let mut k = boot();
    let page = scratch_page(&mut k);
    assert!(k.write_user(INITPROC_PID, page, &b"hello\0".to_vec()));
    let child = sys_fork(&mut k) as usize;
    run_until(&mut k, child, 20);
    let before = sys_getpid(&k);
    assert_eq!(sys_exec(&mut k, page), 0);
    assert_eq!(sys_getpid(&k), before);
    assert_eq!(k.inner_ref(child).trap_cx.sepc, 0x1004);
    assert!(k.inner_ref(child).memory_set.translate(0x10000).is_none());
}

#[test]
fn exec_initproc_by_name() {
    let mut k = boot();
    let page = scratch_page(&mut k);
    assert!(k.write_user(INITPROC_PID, page, &b"ch5b_initproc\0".to_vec()));
    let before = sys_getpid(&k);
    assert_eq!(sys_exec(&mut k, page), 0);
    assert_eq!(sys_getpid(&k), before);
    assert_eq!(k.inner_ref(INITPROC_PID).trap_cx.sepc, 0x1000);
}

#[test]
fn exec_unknown_program_fails() {
    let mut k = boot();
    let page = scratch_page(&mut k);
    assert!(k.write_user(INITPROC_PID, page, &b"nope\0".to_vec()));
    assert_eq!(sys_exec(&mut k, page), -1);
    assert_eq!(sys_exec(&mut k, 0x7000_0000), -1);
}

#[test]
fn spawn_creates_child_and_yields() {
    let mut k = boot();
    let page = scratch_page(&mut k);
    assert!(k.write_user(INITPROC_PID, page, &b"hello\0".to_vec()));
    let child = sys_spawn(&mut k, page);
    assert!(child > 0);
    assert_eq!(k.current_task(), None);
    assert_eq!(k.manager.ready_queue, vec![child as usize, INITPROC_PID]);
    assert_eq!(k.inner_ref(child as usize).parent, Some(INITPROC_PID));
    assert_eq!(k.inner_ref(child as usize).trap_cx.sepc, 0x1004);
}

#[test]
fn exit_hands_children_to_initproc() {
    let mut k = boot();
    let a = sys_fork(&mut k) as usize;
    run_until(&mut k, a, 20);
    let b = sys_fork(&mut k) as usize;
    assert_eq!(k.inner_ref(b).parent, Some(a));
    sys_exit(&mut k, 1);
    assert_eq!(k.inner_ref(b).parent, Some(INITPROC_PID));
    assert!(k.inner_ref(INITPROC_PID).children.contains(&b));
    assert!(k.inner_ref(a).children.is_empty());
    let listed = k.tasks.iter().flatten().filter(|t| t.inner.get().children.contains(&b)).count();
    assert_eq!(listed, 1);
    let m = &k.inner_ref(a).memory_set;
    assert!(m.translate(TRAMPOLINE_VPN).is_some());
    assert!(m.translate(TRAP_CONTEXT_VPN).is_none());
}

#[test]
fn reaped_pid_is_reused() {
    let mut k = boot();
    let ec = scratch_page(&mut k);
    let a = sys_fork(&mut k);
    let b = sys_fork(&mut k);
    assert_ne!(a, b);
    run_until(&mut k, a as usize, 20);
    sys_exit(&mut k, 0);
    run_until(&mut k, INITPROC_PID, 30);
    assert_eq!(sys_waitpid(&mut k, a, ec), a);
    let c = sys_fork(&mut k);
    assert_eq!(c, a);
    assert_ne!(c, b);
}

#[test]
fn trampoline_is_shared() {
    let mut k = boot();
    let child = sys_fork(&mut k) as usize;
    let t0 = k.inner_ref(INITPROC_PID).memory_set.translate(TRAMPOLINE_VPN).unwrap();
    let t1 = k.inner_ref(child).memory_set.translate(TRAMPOLINE_VPN).unwrap();
    assert_eq!(t0.ppn, t1.ppn);
    assert_eq!(t0.ppn, k.env.tramp_ppn);
    assert_eq!(t0.flags, PERM_R | PERM_X | 1);
}

#[test]
fn get_time_writes_timeval() {
    let mut k = boot();
    let page = scratch_page(&mut k);
    assert_eq!(sys_get_time(&mut k, page, 0, 3_250_000), 0);
    let b = k.read_user(INITPROC_PID, page, 16).unwrap();
    let sec = u64::from_le_bytes(b[0..8].try_into().unwrap());
    let usec = u64::from_le_bytes(b[8..16].try_into().unwrap());
    assert_eq!((sec, usec), (3, 250_000));
    assert_eq!(sys_get_time(&mut k, 0x7000_0000, 0, 1), -1);
}

#[test]
fn get_time_is_monotonic() {
    let mut k = boot();
    let page = scratch_page(&mut k);
    let mut last = (0u64, 0u64);
    for now in [5usize, 999_999, 1_000_000, 1_000_001, 7_654_321] {
        assert_eq!(sys_get_time(&mut k, page, 0, now), 0);
        let b = k.read_user(INITPROC_PID, page, 16).unwrap();
        let t = (u64::from_le_bytes(b[0..8].try_into().unwrap()), u64::from_le_bytes(b[8..16].try_into().unwrap()));
        assert!(t >= last);
        last = t;
    }
}

#[test]
fn task_info_reports_counts_and_time() {
    let mut k = boot();
    let page = scratch_page(&mut k);
    assert_eq!(sys_mmap(&mut k, 0x1100_0000, 0x1000, 0b011), 0);
    let r = syscall(&mut k, SYSCALL_GETPID, [0, 0, 0], 20);
    assert_eq!(r, 0);
    syscall(&mut k, SYSCALL_GETPID, [0, 0, 0], 20);
    syscall(&mut k, SYSCALL_MMAP, [0x1200_0000, 0x1000, 0b011], 20);
    assert_eq!(sys_task_info(&mut k, page, 2_000_010), 0);
    let b = k.read_user(INITPROC_PID, page, 2016).unwrap();
    assert_eq!(u32::from_le_bytes(b[0..4].try_into().unwrap()), 2);
    let count = |id: usize| u32::from_le_bytes(b[4 + 4 * id..8 + 4 * id].try_into().unwrap());
    assert_eq!(count(SYSCALL_GETPID), 2);
    assert_eq!(count(SYSCALL_MMAP), 1);
    assert_eq!(count(SYSCALL_YIELD), 0);
    let time = u64::from_le_bytes(b[2008..2016].try_into().unwrap());
    assert_eq!(time, 2000);
}

#[test]
fn set_priority_rules() {
    let mut k = boot();
    assert_eq!(sys_set_priority(&mut k, 1), -1);
    assert_eq!(sys_set_priority(&mut k, 0), -1);
    assert_eq!(sys_set_priority(&mut k, -5), -1);
    assert_eq!(sys_set_priority(&mut k, 4), 4);
    assert_eq!(k.inner_ref(INITPROC_PID).stride, BIG_STRIDE / 4);
}

#[test]
fn yield_requeues() {
    let mut k = boot();
    assert_eq!(sys_yield(&mut k), 0);
    assert_eq!(k.current_task(), None);
    assert_eq!(k.manager.ready_queue, vec![INITPROC_PID]);
    assert_eq!(k.inner_ref(INITPROC_PID).task_status, TaskStatus::Ready);
}

#[test]
fn stride_priorities_two_and_eight() {
    let mut k = boot();
    let a = sys_fork(&mut k) as usize;
    let b = sys_fork(&mut k) as usize;
    run_until(&mut k, a, 1);
    assert_eq!(sys_set_priority(&mut k, 2), 2);
    run_until(&mut k, b, 1);
    assert_eq!(sys_set_priority(&mut k, 8), 8);
    k.suspend_current_and_run_next();
    let (mut na, mut nb) = (0usize, 0usize);
    for t in 0..1000usize {
        let cur = k.run_tasks_once(t + 100).unwrap();
        if cur == a {
            na += 1;
        } else if cur == b {
            nb += 1;
        }
        k.suspend_current_and_run_next();
    }
    let ratio = nb as f64 / na as f64;
    assert!((ratio - 4.0).abs() <= 0.4, "a={} b={}", na, nb);
}

#[test]
fn stride_passes_stay_together() {
    let mut k = boot();
    let a = sys_fork(&mut k) as usize;
    let b = sys_fork(&mut k) as usize;
    run_until(&mut k, a, 1);
    sys_set_priority(&mut k, 3);
    run_until(&mut k, b, 1);
    sys_set_priority(&mut k, 5);
    k.suspend_current_and_run_next();
    for t in 0..500usize {
        k.run_tasks_once(t).unwrap();
        k.suspend_current_and_run_next();
        let passes: Vec<u64> = [INITPROC_PID, a, b].iter().map(|p| k.inner_ref(*p).pass).collect();
        let max = *passes.iter().max().unwrap();
        let min = *passes.iter().min().unwrap();
        assert!(max - min <= (BIG_STRIDE / 3) as u64);
    }
}

#[test]
fn write_to_console() {
    let mut k = boot();
    let page = scratch_page(&mut k);
    assert!(k.write_user(INITPROC_PID, page, &b"hi!".to_vec()));
    assert_eq!(sys_write(&mut k, 1, page, 3), 3);
    assert_eq!(k.console_out, b"hi!".to_vec());
    assert_eq!(sys_write(&mut k, 2, page, 3), -1);
    assert_eq!(sys_write(&mut k, 1, 0x7000_0000, 3), -1);
}

#[test]
fn read_from_console() {
    let mut k = boot();
    let page = scratch_page(&mut k);
    k.console_in = b"abc".to_vec();
    assert_eq!(sys_read(&mut k, 0, page, 2), 2);
    assert_eq!(k.read_user(INITPROC_PID, page, 2).unwrap(), b"ab".to_vec());
    assert_eq!(k.console_in, b"c".to_vec());
    assert_eq!(sys_read(&mut k, 1, page, 2), -1);
}

#[test]
fn user_pointer_into_kernel_only_page_is_refused() {
    let mut k = boot();
    let trap_cx = TRAP_CONTEXT_VPN * PAGE_SIZE;
    assert_eq!(sys_get_time(&mut k, trap_cx, 0, 1), -1);
    assert_eq!(sys_munmap(&mut k, trap_cx, PAGE_SIZE), -1);
}

#[test]
fn read_into_unmapped_buffer_fails() {
    let mut k = boot();
    k.console_in = b"xyz".to_vec();
    assert_eq!(sys_read(&mut k, 0, 0x7000_0000, 2), -1);
    assert_eq!(k.console_in, b"xyz".to_vec());
}

#[test]
fn spawn_unknown_program_fails() {
    let mut k = boot();
    let page = scratch_page(&mut k);
    assert!(k.write_user(INITPROC_PID, page, &b"nope\0".to_vec()));
    assert_eq!(sys_spawn(&mut k, page), -1);
    assert_eq!(k.current_task(), Some(INITPROC_PID));
    assert_eq!(k.tasks.len(), 1);
}

#[test]
fn fork_child_state() {
    let mut k = boot();
    let c = sys_fork(&mut k) as usize;
    let p = k.inner_ref(INITPROC_PID).trap_cx;
    let ci = k.inner_ref(c);
    assert_eq!(ci.stride, BIG_STRIDE / 16);
    assert_eq!(ci.pass, 0);
    assert_eq!(ci.trap_cx.sepc, p.sepc);
    assert_eq!(ci.trap_cx.sstatus, p.sstatus);
    assert_eq!(ci.trap_cx.kernel_sp, rvkernel::config::kernel_stack_position(c).1);
    assert_eq!(ci.base_size, k.inner_ref(INITPROC_PID).base_size);
}
