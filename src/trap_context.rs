//! The CPU state saved on a trap from user mode, laid out as the trap-entry
//! code expects it.
use vstd::prelude::*;

verus! {

/// Bit of `sstatus` that holds the previous privilege (1 = supervisor).
pub const SSTATUS_SPP: u64 = 0x100;

/// Saved registers and the kernel fields the trap handler needs.
#[derive(Clone, Copy, Debug)]
pub struct TrapContext {
    /// General registers `x0` to `x31`.
    pub x: [u64; 32],
    /// Supervisor status.
    pub sstatus: u64,
    /// Where user mode resumes.
    pub sepc: u64,
    /// SATP value of the kernel address space.
    pub kernel_satp: u64,
    /// Top of the task's kernel stack.
    pub kernel_sp: u64,
    /// Virtual address of the trap handler.
    pub trap_handler: u64,
}

impl TrapContext {
    /// Whether this is the context in which a task first enters user mode
    /// at `entry` with stack `sp`: registers zero but `x2 = sp`, `sstatus`
    /// with the previous privilege set to user, and the three kernel fields.
    pub open spec fn is_init_context(
        &self,
        entry: u64,
        sp: u64,
        kernel_satp: u64,
        kernel_sp: u64,
        trap_handler: u64,
        sstatus: u64,
    ) -> bool {
        &&& self.x@ == Seq::new(32, |i: int| if i == 2 { sp } else { 0u64 })
        &&& self.sstatus == sstatus & !SSTATUS_SPP
        &&& self.sepc == entry
        &&& self.kernel_satp == kernel_satp
        &&& self.kernel_sp == kernel_sp
        &&& self.trap_handler == trap_handler
    }

    /// Sets the stack pointer `x2`.
    pub fn set_sp(&mut self, sp: u64)
        ensures
            final(self).x@ == old(self).x@.update(2, sp),
            final(self).sstatus == old(self).sstatus,
            final(self).sepc == old(self).sepc,
            final(self).kernel_satp == old(self).kernel_satp,
            final(self).kernel_sp == old(self).kernel_sp,
            final(self).trap_handler == old(self).trap_handler,
    {
        self.x[2] = sp;
    }

    /// The context in which a task first enters user mode at `entry` with
    /// stack `sp`: registers zero but `x2 = sp`, `sstatus` as given with the
    /// previous privilege set to user, and the three kernel fields.
    pub fn app_init_context(
        entry: u64,
        sp: u64,
        kernel_satp: u64,
        kernel_sp: u64,
        trap_handler: u64,
        sstatus: u64,
    ) -> (r: TrapContext)
        ensures
            r.is_init_context(entry, sp, kernel_satp, kernel_sp, trap_handler, sstatus),
    {
        let mut cx = TrapContext {
            x: [0u64; 32],
            sstatus: sstatus & !SSTATUS_SPP,
            sepc: entry,
            kernel_satp,
            kernel_sp,
            trap_handler,
        };
        cx.set_sp(sp);
        assert(cx.x@ =~= Seq::new(32, |i: int| if i == 2 { sp } else { 0u64 }));
        cx
    }
}

} // verus!
