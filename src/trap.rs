//! The trap path: the saved user state, and what a trap's cause makes the kernel do.

pub mod context;

use vstd::prelude::*;
use riscv::interrupt::supervisor::{Exception, Interrupt};
use riscv::interrupt::Trap;
use riscv::register::scause::Scause;
use crate::config::{PAGE_SIZE, TRAMPOLINE};
use crate::kernel::{Kernel, INITPROC_PID};
use crate::syscall::{
    is_supported, lemma_same_call_result, same_call_inputs, supported, syscall, syscall_result, SYSCALL_EXEC,
    SYSCALL_EXIT,
};
use crate::task::task::TaskStatus;

verus! {

/// The causes of a trap the kernel tells apart.
#[derive(Clone, Copy, PartialEq, Eq, Structural, Debug)]
pub enum TrapCause {
    UserEnvCall,
    StoreFault,
    StorePageFault,
    LoadFault,
    LoadPageFault,
    IllegalInstruction,
    SupervisorTimer,
    Other,
}

/// The cause that the supervisor cause register `bits` records: its top bit tells an
/// interrupt from an exception, the other bits hold the code.
pub open spec fn cause_of(bits: usize) -> TrapCause {
    if bits > usize::MAX / 2 {
        if bits - (usize::MAX / 2 + 1) == 5 {
            TrapCause::SupervisorTimer
        } else {
            TrapCause::Other
        }
    } else if bits == 8 {
        TrapCause::UserEnvCall
    } else if bits == 7 {
        TrapCause::StoreFault
    } else if bits == 15 {
        TrapCause::StorePageFault
    } else if bits == 5 {
        TrapCause::LoadFault
    } else if bits == 13 {
        TrapCause::LoadPageFault
    } else if bits == 2 {
        TrapCause::IllegalInstruction
    } else {
        TrapCause::Other
    }
}

/// Relies on riscv's `Scause::from_bits`, `Scause::cause` and `Trap::try_into` with the
/// supervisor `Interrupt` and `Exception` enums: interrupt bit and code, and the
/// numbers of the standard causes.
#[verifier::external_body]
fn decode_scause(bits: usize) -> (r: TrapCause)
    ensures
        r == cause_of(bits),
{
    match Scause::from_bits(bits).cause().try_into::<Interrupt, Exception>() {
        Ok(Trap::Interrupt(Interrupt::SupervisorTimer)) => TrapCause::SupervisorTimer,
        Ok(Trap::Exception(Exception::UserEnvCall)) => TrapCause::UserEnvCall,
        Ok(Trap::Exception(Exception::StoreFault)) => TrapCause::StoreFault,
        Ok(Trap::Exception(Exception::StorePageFault)) => TrapCause::StorePageFault,
        Ok(Trap::Exception(Exception::LoadFault)) => TrapCause::LoadFault,
        Ok(Trap::Exception(Exception::LoadPageFault)) => TrapCause::LoadPageFault,
        Ok(Trap::Exception(Exception::IllegalInstruction)) => TrapCause::IllegalInstruction,
        _ => TrapCause::Other,
    }
}

/// The cause of a trap, from the supervisor cause register.
pub fn trap_cause(scause_bits: usize) -> (r: TrapCause)
    ensures
        r == cause_of(scause_bits),
{
    decode_scause(scause_bits)
}

/// What follows a trap: back to the same task in user mode, back to the idle loop to
/// pick a task, or a halt on a trap the kernel does not handle.
#[derive(Clone, Copy, PartialEq, Eq, Structural, Debug)]
pub enum TrapAction {
    ReturnToUser,
    Schedule,
    Unsupported,
}

/// Exit code of a task ended by a memory fault.
pub const EXIT_FAULT: i32 = -2;

/// Exit code of a task ended by an illegal instruction.
pub const EXIT_ILLEGAL: i32 = -3;

/// Handles a trap of the running task whose cause register reads `scause_bits`, at
/// time `now_us`. A system call advances the saved program counter past the call,
/// runs, and leaves its result in register x10 of the caller when the caller still
/// lives; a memory fault or an illegal instruction ends the task; the timer
/// suspends it. A cause the kernel does not handle, an unknown system call, or the
/// end of the initial process leaves the kernel unchanged and asks for a halt.
pub fn trap_handler(k: &mut Kernel, scause_bits: usize, now_us: usize) -> (r: TrapAction)
    requires
        old(k).wf(),
        old(k).processor.current is Some,
    ensures
        final(k).wf(),
        r == TrapAction::Unsupported ==> *final(k) == *old(k),
        r == TrapAction::ReturnToUser ==> final(k).processor.current == old(k).processor.current,
        r == TrapAction::Schedule ==> final(k).processor.current.is_none(),
        ({
            let c = old(k).processor.current->0 as int;
            let cx = old(k).inner(c).trap_cx;
            match cause_of(scause_bits) {
                TrapCause::UserEnvCall => {
                    let id = cx.x[17];
                    let args = [cx.x[10], cx.x[11], cx.x[12]];
                    &&& r == TrapAction::Unsupported <==> (!is_supported(id) || (id == SYSCALL_EXIT && c
                        == INITPROC_PID))
                    &&& r != TrapAction::Unsupported ==> exists|ret: isize|
                        #[trigger] syscall_result(*old(k), id, args, ret) && {
                            let ci = final(k).inner(c);
                            let t0 = old(k).inner(c).syscall_times@;
                            &&& final(k).live(c)
                            &&& ci.syscall_times@ == t0.update(id as int, ((t0[id as int] + 1) % 0x1_0000_0000) as u32)
                            &&& ci.task_status != TaskStatus::Zombie && id != SYSCALL_EXEC ==> {
                                &&& ci.trap_cx.x@ == cx.x@.update(10, ret as usize)
                                &&& ci.trap_cx.sepc == cx.sepc.wrapping_add(4)
                            }
                        }
                },
                TrapCause::StoreFault | TrapCause::StorePageFault | TrapCause::LoadFault
                | TrapCause::LoadPageFault => {
                    &&& r == TrapAction::Unsupported <==> c == INITPROC_PID
                    &&& c != INITPROC_PID ==> r == TrapAction::Schedule
                    &&& r == TrapAction::Schedule ==> final(k).inner(c).task_status == TaskStatus::Zombie
                        && final(k).inner(c).exit_code == EXIT_FAULT
                },
                TrapCause::IllegalInstruction => {
                    &&& r == TrapAction::Unsupported <==> c == INITPROC_PID
                    &&& c != INITPROC_PID ==> r == TrapAction::Schedule
                    &&& r == TrapAction::Schedule ==> final(k).inner(c).task_status == TaskStatus::Zombie
                        && final(k).inner(c).exit_code == EXIT_ILLEGAL
                },
                TrapCause::SupervisorTimer => {
                    &&& r == TrapAction::Schedule
                    &&& final(k).inner(c).task_status == TaskStatus::Ready
                    &&& final(k).manager.ready_queue@ == old(k).manager.ready_queue@.push(c as usize)
                },
                TrapCause::Other => r == TrapAction::Unsupported,
            }
        }),
{
    let c = k.processor.current.unwrap();
    match trap_cause(scause_bits) {
        TrapCause::UserEnvCall => {
            let cx = k.inner_ref(c).trap_cx;
            let id = cx.x[17];
            if !supported(id) || (id == SYSCALL_EXIT && c == INITPROC_PID) {
                return TrapAction::Unsupported;
            }
            k.advance_sepc(c, 4);
            let ghost ka = *k;
            proof {
                assert(same_call_inputs(*old(k), ka));
            }
            let ret = syscall(k, id, [cx.x[10], cx.x[11], cx.x[12]], now_us);
            proof {
                lemma_same_call_result(*old(k), ka, id, [cx.x[10], cx.x[11], cx.x[12]], ret);
            }
            if c < k.tasks.len() && k.tasks[c].is_some() && !k.inner_ref(c).is_zombie() {
                k.set_return_value(c, ret as usize);
            }
            proof {
                assert(syscall_result(*old(k), id, [cx.x[10], cx.x[11], cx.x[12]], ret));
            }
            if k.processor.current.is_some() {
                TrapAction::ReturnToUser
            } else {
                TrapAction::Schedule
            }
        },
        TrapCause::StoreFault | TrapCause::StorePageFault | TrapCause::LoadFault | TrapCause::LoadPageFault => {
            if c == INITPROC_PID {
                return TrapAction::Unsupported;
            }
            k.exit_current_and_run_next(EXIT_FAULT);
            TrapAction::Schedule
        },
        TrapCause::IllegalInstruction => {
            if c == INITPROC_PID {
                return TrapAction::Unsupported;
            }
            k.exit_current_and_run_next(EXIT_ILLEGAL);
            TrapAction::Schedule
        },
        TrapCause::SupervisorTimer => {
            k.suspend_current_and_run_next();
            TrapAction::Schedule
        },
        TrapCause::Other => TrapAction::Unsupported,
    }
}

/// Where the restore routine is mapped: the trampoline page holds the trap entry
/// `alltraps` at its start, so `restore` lies at the same offset from `TRAMPOLINE`.
pub fn restore_va(alltraps: usize, restore: usize) -> (r: usize)
    requires
        alltraps <= restore < alltraps + PAGE_SIZE,
    ensures
        r == restore - alltraps + TRAMPOLINE,
{
    restore - alltraps + TRAMPOLINE
}

} // verus!
