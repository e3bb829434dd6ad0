use vstd::prelude::*;
use riscv::register::sstatus::{Sstatus, SPP};

verus! {

/// The user state that the trampoline saves on a trap and restores on the way back:
/// the integer registers, the status and program counter of the trap, and what the
/// trampoline needs to reach the kernel (its token, the task's kernel stack, and the
/// address of the trap handler).
#[derive(Clone, Copy, Debug)]
pub struct TrapContext {
    pub x: [usize; 32],
    pub sstatus: usize,
    pub sepc: usize,
    pub kernel_satp: usize,
    pub kernel_sp: usize,
    pub trap_handler: usize,
}

/// Supervisor status bits for a return to user mode, made from `bits`: the
/// previous-privilege bit is clear, the interrupt, state and user-width bits the
/// register keeps are those of `bits`, and no bit is set that `bits` does not set.
pub open spec fn user_sstatus(bits: usize, r: usize) -> bool {
    &&& r & 0x100 == 0
    &&& r & 0x000d_e662 == bits & 0x000d_e662
    &&& r & !bits == 0
    &&& (r as u64) & 0x8000_0003_0000_0000u64 == (bits as u64) & 0x8000_0003_0000_0000u64
}

/// Relies on riscv's `Sstatus::from_bits`, `Sstatus::set_spp` and `Sstatus::bits`: the
/// value keeps the bits of the register's mask, and `set_spp(User)` clears bit 8.
#[verifier::external_body]
fn sstatus_for_user(bits: usize) -> (r: usize)
    ensures
        user_sstatus(bits, r),
{
    let mut s = Sstatus::from_bits(bits);
    s.set_spp(SPP::User);
    s.bits()
}

impl TrapContext {
    /// Sets the user stack pointer (register x2).
    pub fn set_sp(&mut self, sp: usize)
        ensures
            final(self).x@ == old(self).x@.update(2, sp),
            final(self).sstatus == old(self).sstatus,
            final(self).sepc == old(self).sepc,
            final(self).kernel_satp == old(self).kernel_satp,
            final(self).kernel_sp == old(self).kernel_sp,
            final(self).trap_handler == old(self).trap_handler,
    {
        self.x[2] = sp;
    }

    /// The context in which a program starts: at `entry` in user mode, with stack
    /// pointer `sp` and every other register zero. `sstatus_bits` is the status
    /// register as the kernel reads it.
    pub fn app_init_context(
        entry: usize,
        sp: usize,
        sstatus_bits: usize,
        kernel_satp: usize,
        kernel_sp: usize,
        trap_handler: usize,
    ) -> (r: TrapContext)
        ensures
            r.x@ == Seq::new(32, |i: int| if i == 2 { sp } else { 0usize }),
            user_sstatus(sstatus_bits, r.sstatus),
            r.sepc == entry,
            r.kernel_satp == kernel_satp,
            r.kernel_sp == kernel_sp,
            r.trap_handler == trap_handler,
    {
        let sstatus = sstatus_for_user(sstatus_bits);
        let mut cx = TrapContext { x: [0; 32], sstatus, sepc: entry, kernel_satp, kernel_sp, trap_handler };
        cx.set_sp(sp);
        assert(cx.x@ =~= Seq::new(32, |i: int| if i == 2 { sp } else { 0usize }));
        cx
    }
}

} // verus!
