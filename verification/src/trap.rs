//! User trap contexts and the decisions taken on a trap and a system call.
//!
//! The trap cause is read from the CSRs by the caller and handed over as a
//! `TrapCause`; the handler updates the saved context and says what must
//! happen next.
use vstd::prelude::*;

verus! {

/// The `sstatus` bit that records the privilege level before the trap
/// (set: supervisor, clear: user).
pub const SSTATUS_SPP: usize = 256;

/// The user context saved on a trap.
#[derive(Copy, Clone)]
pub struct TrapContext {
    /// General registers x0..x31.
    pub x: [usize; 32],
    /// Supervisor status register.
    pub sstatus: usize,
    /// Supervisor exception program counter.
    pub sepc: usize,
    /// Token of the kernel address space.
    pub kernel_satp: usize,
    /// Top of the task's kernel stack.
    pub kernel_sp: usize,
    /// Address of the trap handler.
    pub trap_handler: usize,
}

/// `cx` is the context in which an application first enters user mode: all
/// registers zero but the stack pointer `sp`, the previous privilege set to
/// user in `current_sstatus`, and execution starting at `entry`.
pub open spec fn app_entry_context(
    cx: TrapContext,
    entry: usize,
    sp: usize,
    current_sstatus: usize,
    kernel_satp: usize,
    kernel_sp: usize,
    trap_handler: usize,
) -> bool {
    &&& cx.x@ == Seq::new(32, |i: int| 0usize).update(2, sp)
    &&& cx.sstatus == current_sstatus & !SSTATUS_SPP
    &&& cx.sepc == entry
    &&& cx.kernel_satp == kernel_satp
    &&& cx.kernel_sp == kernel_sp
    &&& cx.trap_handler == trap_handler
}

impl TrapContext {
    /// Set the stack pointer register x2.
    pub fn set_sp(&mut self, sp: usize)
        ensures
            final(self).x@ == old(self).x@.update(2, sp),
            final(self).sstatus == old(self).sstatus,
            final(self).sepc == old(self).sepc,
            final(self).kernel_satp == old(self).kernel_satp,
            final(self).kernel_sp == old(self).kernel_sp,
            final(self).trap_handler == old(self).trap_handler,
    {
        self.x[2] = sp;
    }

    /// The context in which an application first enters user mode: all
    /// registers zero but the stack pointer, the previous privilege set to
    /// user in the current `sstatus`, and execution starting at `entry`.
    pub fn app_init_context(
        entry: usize,
        sp: usize,
        current_sstatus: usize,
        kernel_satp: usize,
        kernel_sp: usize,
        trap_handler: usize,
    ) -> (r: Self)
        ensures
            app_entry_context(r, entry, sp, current_sstatus, kernel_satp, kernel_sp, trap_handler),
    {
        let mut cx = Self {
            x: [0usize; 32],
            sstatus: current_sstatus & !SSTATUS_SPP,
            sepc: entry,
            kernel_satp,
            kernel_sp,
            trap_handler,
        };
        cx.set_sp(sp);
        assert(cx.x@ =~= Seq::new(32, |i: int| 0usize).update(2, sp));
        cx
    }

    /// Store a system call's result in a0, as the register's bit pattern.
    pub fn set_syscall_result(&mut self, ret: isize)
        ensures
            final(self).x@ == old(self).x@.update(10, ret as usize),
            final(self).sepc == old(self).sepc,
            final(self).sstatus == old(self).sstatus,
            final(self).kernel_satp == old(self).kernel_satp,
            final(self).kernel_sp == old(self).kernel_sp,
            final(self).trap_handler == old(self).trap_handler,
    {
        self.x[10] = ret as usize;
    }
}

/// The causes of a trap that the handler tells apart.
#[derive(Copy, Clone, PartialEq, Eq, Structural)]
pub enum TrapCause {
    /// An `ecall` from user mode.
    UserEnvCall,
    /// A store access fault.
    StoreFault,
    /// A store page fault.
    StorePageFault,
    /// An illegal instruction.
    IllegalInstruction,
    /// Any other cause, with the raw `scause` bits.
    Other(usize),
}

/// Exception code of an environment call from user mode.
pub const EXC_USER_ENV_CALL: usize = 8;
/// Exception code of a store access fault.
pub const EXC_STORE_FAULT: usize = 7;
/// Exception code of a store page fault.
pub const EXC_STORE_PAGE_FAULT: usize = 15;
/// Exception code of an illegal instruction.
pub const EXC_ILLEGAL_INSTRUCTION: usize = 2;

/// The cause that a raw `scause` value names. Interrupts, whose top bit is
/// set, and other exceptions are causes that the handler does not support.
pub fn decode_cause(scause: usize) -> (r: TrapCause)
    ensures
        r == if scause > isize::MAX {
            TrapCause::Other(scause)
        } else if scause == EXC_USER_ENV_CALL {
            TrapCause::UserEnvCall
        } else if scause == EXC_STORE_FAULT {
            TrapCause::StoreFault
        } else if scause == EXC_STORE_PAGE_FAULT {
            TrapCause::StorePageFault
        } else if scause == EXC_ILLEGAL_INSTRUCTION {
            TrapCause::IllegalInstruction
        } else {
            TrapCause::Other(scause)
        },
{
    if scause > isize::MAX as usize {
        TrapCause::Other(scause)
    } else if scause == EXC_USER_ENV_CALL {
        TrapCause::UserEnvCall
    } else if scause == EXC_STORE_FAULT {
        TrapCause::StoreFault
    } else if scause == EXC_STORE_PAGE_FAULT {
        TrapCause::StorePageFault
    } else if scause == EXC_ILLEGAL_INSTRUCTION {
        TrapCause::IllegalInstruction
    } else {
        TrapCause::Other(scause)
    }
}

/// What must happen after a trap.
#[derive(Copy, Clone, PartialEq, Eq, Structural)]
pub enum TrapAction {
    /// Run the system call with arguments a0..a2, store its result in a0 and return to the same
    /// context.
    Syscall { id: usize, a0: usize, a1: usize, a2: usize },
    /// Report a page fault and run the next application.
    KillPageFault,
    /// Report an illegal instruction and run the next application.
    KillIllegalInstruction,
    /// An unsupported trap: stop the kernel, reporting the cause and `stval`.
    Unsupported { scause: usize, stval: usize },
}

/// Handle a trap with the given cause on the saved user context `cx`. A
/// system call advances `sepc` past the `ecall` and takes its number from a7
/// and its arguments from a0..a2; faults kill the application without
/// touching the context; any other cause is unsupported.
pub fn trap_handler(cx: &mut TrapContext, cause: TrapCause, stval: usize) -> (r: TrapAction)
    requires
        cause == TrapCause::UserEnvCall ==> old(cx).sepc + 4 <= usize::MAX,
    ensures
        match cause {
            TrapCause::UserEnvCall => {
                &&& final(cx).sepc == old(cx).sepc + 4
                &&& final(cx).x == old(cx).x
                &&& r == (TrapAction::Syscall {
                    id: old(cx).x@[17],
                    a0: old(cx).x@[10],
                    a1: old(cx).x@[11],
                    a2: old(cx).x@[12],
                })
            },
            TrapCause::StoreFault | TrapCause::StorePageFault => {
                &&& *final(cx) == *old(cx)
                &&& r == TrapAction::KillPageFault
            },
            TrapCause::IllegalInstruction => {
                &&& *final(cx) == *old(cx)
                &&& r == TrapAction::KillIllegalInstruction
            },
            TrapCause::Other(scause) => {
                &&& *final(cx) == *old(cx)
                &&& r == (TrapAction::Unsupported { scause, stval })
            },
        },
        final(cx).sstatus == old(cx).sstatus,
        final(cx).kernel_satp == old(cx).kernel_satp,
        final(cx).kernel_sp == old(cx).kernel_sp,
        final(cx).trap_handler == old(cx).trap_handler,
{
    match cause {
        TrapCause::UserEnvCall => {
            cx.sepc = cx.sepc + 4;
            TrapAction::Syscall { id: cx.x[17], a0: cx.x[10], a1: cx.x[11], a2: cx.x[12] }
        },
        TrapCause::StoreFault | TrapCause::StorePageFault => TrapAction::KillPageFault,
        TrapCause::IllegalInstruction => TrapAction::KillIllegalInstruction,
        TrapCause::Other(scause) => TrapAction::Unsupported { scause, stval },
    }
}

} // verus!
