//! What the kernel decides when an application traps: which system call a trap asks
//! for, whether a write may touch the buffer it names, and what to do for each cause.
//!
//! Reading the trap registers, printing and switching applications are the caller's
//! work; these functions take what was read and say what to do.

use vstd::prelude::*;

use crate::kernel::GeneralRegs;

verus! {

/// System-call number of `write`.
pub const SYSCALL_WRITE: usize = 64;

/// System-call number of `exit`.
pub const SYSCALL_EXIT: usize = 93;

/// The one file descriptor `write` serves: the console.
pub const FD_STDOUT: usize = 1;

/// Where an application image is loaded.
pub const APP_BASE_ADDRESS: usize = 0x8040_0000;

/// Bytes an application image may occupy.
pub const APP_SIZE_LIMIT: usize = 0x2_0000;

/// Bytes of the user stack.
pub const USER_STACK_SIZE: usize = 4096;

/// The `stval` that marks a load fault the application raises on purpose, to be
/// stepped over.
pub const SKIPPED_LOAD_FAULT: usize = 0x95_1231;

/// `loc` lies in the application window or in the user stack at `user_stack`.
pub open spec fn spec_valid_location(loc: int, user_stack: int) -> bool {
    ||| APP_BASE_ADDRESS <= loc < APP_BASE_ADDRESS + APP_SIZE_LIMIT
    ||| user_stack <= loc < user_stack + USER_STACK_SIZE
}

/// Whether an application may name address `loc`: inside its image window, or inside
/// the user stack that begins at `user_stack`.
pub fn is_valid_location(loc: usize, user_stack: usize) -> (r: bool)
    ensures
        r == spec_valid_location(loc as int, user_stack as int),
{
    (loc >= APP_BASE_ADDRESS && loc - APP_BASE_ADDRESS < APP_SIZE_LIMIT) || (loc >= user_stack && loc
        - user_stack < USER_STACK_SIZE)
}

/// A system call, as its number and three arguments ask for it.
#[derive(Clone, Copy, Debug, PartialEq, Eq, Structural)]
pub enum SyscallRequest {
    /// Write `len` bytes at `buf` to file descriptor `fd`.
    Write { fd: usize, buf: usize, len: usize },
    /// End the application with `code`.
    Exit { code: i32 },
    /// A number no system call has.
    Unsupported { id: usize },
}

/// The system call that number `id` with arguments `args` asks for.
pub fn decode_syscall(id: usize, args: [usize; 3]) -> (r: SyscallRequest)
    ensures
        id == SYSCALL_WRITE ==> r == (SyscallRequest::Write { fd: args[0], buf: args[1], len: args[2] }),
        id == SYSCALL_EXIT ==> r == (SyscallRequest::Exit { code: args[0] as i32 }),
        id != SYSCALL_WRITE && id != SYSCALL_EXIT ==> r == (SyscallRequest::Unsupported { id }),
{
    if id == SYSCALL_WRITE {
        SyscallRequest::Write { fd: args[0], buf: args[1], len: args[2] }
    } else if id == SYSCALL_EXIT {
        SyscallRequest::Exit { code: args[0] as i32 }
    } else {
        SyscallRequest::Unsupported { id }
    }
}

/// What a `write` request comes to.
#[derive(Clone, Copy, Debug, PartialEq, Eq, Structural)]
pub enum WriteCheck {
    /// Print the buffer; the call returns its length.
    Print,
    /// The descriptor is not the console; the call returns -1.
    UnsupportedFd,
    /// The buffer starts or ends outside what the application may name; the call
    /// returns -1.
    OutOfRange,
}

/// Whether a `write` of `len` bytes at `buf` to `fd` may go ahead, with the user
/// stack at `user_stack`: only the console is served, and both ends of the buffer
/// must lie where the application may name.
pub fn check_write(fd: usize, buf: usize, len: usize, user_stack: usize) -> (r: WriteCheck)
    requires
        buf + len <= usize::MAX,
    ensures
        fd != FD_STDOUT ==> r == WriteCheck::UnsupportedFd,
        fd == FD_STDOUT && !(spec_valid_location(buf as int, user_stack as int) && spec_valid_location(
            buf + len,
            user_stack as int,
        )) ==> r == WriteCheck::OutOfRange,
        fd == FD_STDOUT && spec_valid_location(buf as int, user_stack as int) && spec_valid_location(
            buf + len,
            user_stack as int,
        ) ==> r == WriteCheck::Print,
{
    if fd != FD_STDOUT {
        WriteCheck::UnsupportedFd
    } else if !is_valid_location(buf, user_stack) || !is_valid_location(buf + len, user_stack) {
        WriteCheck::OutOfRange
    } else {
        WriteCheck::Print
    }
}

/// What `write` returns for the check it came to: the length written, or -1.
pub fn write_result(check: WriteCheck, len: usize) -> (r: isize)
    requires
        len <= isize::MAX,
    ensures
        check == WriteCheck::Print ==> r == len,
        check != WriteCheck::Print ==> r == -1,
{
    match check {
        WriteCheck::Print => len as isize,
        _ => -1,
    }
}

/// Why the processor trapped, as far as the kernel tells causes apart.
#[derive(Clone, Copy, Debug, PartialEq, Eq, Structural)]
pub enum TrapCause {
    UserEnvCall,
    StoreFault,
    StorePageFault,
    LoadFault,
    LoadPageFault,
    IllegalInstruction,
    /// Any other interrupt or exception.
    Other,
}

/// What the kernel does about a trap.
#[derive(Clone, Copy, Debug, PartialEq, Eq, Structural)]
pub enum TrapAction {
    /// Step past the `ecall` and put the system call's result in `a0`.
    Syscall,
    /// Report a store fault.
    StoreFault,
    /// Report a load fault, stepping past the faulting instruction when `skip`.
    LoadFault { skip: bool },
    /// Report an illegal instruction.
    IllegalInstruction,
    /// A trap the kernel does not handle: it stops.
    Unsupported,
}

/// The action for a trap of `cause` with trap value `stval`.
pub fn trap_action(cause: TrapCause, stval: usize) -> (r: TrapAction)
    ensures
        cause == TrapCause::UserEnvCall ==> r == TrapAction::Syscall,
        cause == TrapCause::StoreFault || cause == TrapCause::StorePageFault ==> r == TrapAction::StoreFault,
        cause == TrapCause::LoadFault || cause == TrapCause::LoadPageFault ==> r == (TrapAction::LoadFault {
            skip: stval == SKIPPED_LOAD_FAULT,
        }),
        cause == TrapCause::IllegalInstruction ==> r == TrapAction::IllegalInstruction,
        cause == TrapCause::Other ==> r == TrapAction::Unsupported,
{
    match cause {
        TrapCause::UserEnvCall => TrapAction::Syscall,
        TrapCause::StoreFault | TrapCause::StorePageFault => TrapAction::StoreFault,
        TrapCause::LoadFault | TrapCause::LoadPageFault => TrapAction::LoadFault { skip: stval == SKIPPED_LOAD_FAULT },
        TrapCause::IllegalInstruction => TrapAction::IllegalInstruction,
        TrapCause::Other => TrapAction::Unsupported,
    }
}

/// Where execution resumes after a trap at `sepc` handled by `action`: four bytes on,
/// past the trapping instruction, for a system call or a skipped load fault; at
/// `sepc` again otherwise.
pub fn resume_at(action: TrapAction, sepc: usize) -> (r: usize)
    requires
        sepc + 4 <= usize::MAX,
    ensures
        r == if action == TrapAction::Syscall || action == (TrapAction::LoadFault { skip: true }) {
            sepc + 4
        } else {
            sepc as int
        },
{
    match action {
        TrapAction::Syscall => sepc + 4,
        TrapAction::LoadFault { skip: true } => sepc + 4,
        _ => sepc,
    }
}

/// The `SPP` bit of `sstatus`: the privilege a trap came from, clear for user mode.
pub const SSTATUS_SPP: usize = 0x100;

/// Every integer register zero.
pub open spec fn zero_regs() -> GeneralRegs {
    GeneralRegs { zero: 0, ra: 0, sp: 0, gp: 0, tp: 0, t0: 0, t1: 0, t2: 0, s0: 0, s1: 0, a0: 0, a1: 0, a2: 0, a3: 0, a4: 0, a5: 0, a6: 0, a7: 0, s2: 0, s3: 0, s4: 0, s5: 0, s6: 0, s7: 0, s8: 0, s9: 0, s10: 0, s11: 0, t3: 0, t4: 0, t5: 0, t6: 0 }
}

/// What a trap saves: the integer registers, `sstatus`, and the address to return to.
pub struct TrapContext {
    pub general: GeneralRegs,
    pub sstatus: usize,
    pub sepc: usize,
}

impl TrapContext {
    /// Set the stack pointer the context returns with.
    pub fn set_sp(&mut self, sp: usize)
        ensures
            final(self).general == (GeneralRegs { sp, ..old(self).general }),
            final(self).sstatus == old(self).sstatus,
            final(self).sepc == old(self).sepc,
    {
        self.general.sp = sp;
    }

    /// The context an application starts from: every register zero but the stack
    /// pointer `sp`, returning to `entry` in user mode, with the rest of `sstatus`
    /// as read.
    pub fn app_init_context(entry: usize, sp: usize, sstatus: usize) -> (r: Self)
        ensures
            r.general == (GeneralRegs { sp, ..zero_regs() }),
            r.sstatus == sstatus & !SSTATUS_SPP,
            r.sepc == entry,
    {
        let general = GeneralRegs { zero: 0, ra: 0, sp: 0, gp: 0, tp: 0, t0: 0, t1: 0, t2: 0, s0: 0, s1: 0, a0: 0, a1: 0, a2: 0, a3: 0, a4: 0, a5: 0, a6: 0, a7: 0, s2: 0, s3: 0, s4: 0, s5: 0, s6: 0, s7: 0, s8: 0, s9: 0, s10: 0, s11: 0, t3: 0, t4: 0, t5: 0, t6: 0 };
        let mut cx = TrapContext { general, sstatus: sstatus & !SSTATUS_SPP, sepc: entry };
        cx.set_sp(sp);
        cx
    }
}

} // verus!
