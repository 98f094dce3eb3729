use lib::trap::{
    check_write, decode_syscall, is_valid_location, resume_at, trap_action, write_result, SyscallRequest,
    TrapAction, TrapCause, TrapContext, WriteCheck, APP_BASE_ADDRESS, APP_SIZE_LIMIT, SSTATUS_SPP, USER_STACK_SIZE,
};

const STACK: usize = 0x8100_0000;

#[test]
fn valid_locations_are_the_app_window_and_the_user_stack() {
    assert!(is_valid_location(APP_BASE_ADDRESS, STACK));
    assert!(is_valid_location(APP_BASE_ADDRESS + APP_SIZE_LIMIT - 1, STACK));
    assert!(!is_valid_location(APP_BASE_ADDRESS + APP_SIZE_LIMIT, STACK), "the window is half open");
    assert!(!is_valid_location(APP_BASE_ADDRESS - 1, STACK));
    assert!(is_valid_location(STACK, STACK));
    assert!(is_valid_location(STACK + USER_STACK_SIZE - 1, STACK));
    assert!(!is_valid_location(STACK + USER_STACK_SIZE, STACK));
    assert!(is_valid_location(usize::MAX, usize::MAX - 1), "the stack bound is checked without overflow");
    assert!(!is_valid_location(0, usize::MAX - 1));
}

#[test]
fn syscall_numbers_decode() {
    assert_eq!(decode_syscall(64, [1, 0x8040_0000, 5]), SyscallRequest::Write { fd: 1, buf: 0x8040_0000, len: 5 });
    assert_eq!(decode_syscall(93, [3, 0, 0]), SyscallRequest::Exit { code: 3 });
    assert_eq!(decode_syscall(93, [usize::MAX, 0, 0]), SyscallRequest::Exit { code: -1 }, "the code is the low 32 bits");
    assert_eq!(decode_syscall(7, [0, 0, 0]), SyscallRequest::Unsupported { id: 7 });
}

#[test]
fn write_serves_only_the_console_within_bounds() {
    assert_eq!(check_write(1, APP_BASE_ADDRESS, 16, STACK), WriteCheck::Print);
    assert_eq!(check_write(2, APP_BASE_ADDRESS, 16, STACK), WriteCheck::UnsupportedFd);
    assert_eq!(check_write(1, 0x1000, 16, STACK), WriteCheck::OutOfRange, "buffer outside both regions");
    assert_eq!(
        check_write(1, APP_BASE_ADDRESS + APP_SIZE_LIMIT - 4, 8, STACK),
        WriteCheck::OutOfRange,
        "the end of the buffer must be inside too"
    );
    assert_eq!(check_write(1, STACK, 100, STACK), WriteCheck::Print);
    assert_eq!(write_result(WriteCheck::Print, 16), 16);
    assert_eq!(write_result(WriteCheck::OutOfRange, 16), -1);
    assert_eq!(write_result(WriteCheck::UnsupportedFd, 16), -1);
}

#[test]
fn trap_causes_map_to_actions() {
    assert_eq!(trap_action(TrapCause::UserEnvCall, 0), TrapAction::Syscall);
    assert_eq!(trap_action(TrapCause::StorePageFault, 0), TrapAction::StoreFault);
    assert_eq!(trap_action(TrapCause::StoreFault, 0), TrapAction::StoreFault);
    assert_eq!(trap_action(TrapCause::LoadFault, 0x95_1231), TrapAction::LoadFault { skip: true });
    assert_eq!(trap_action(TrapCause::LoadPageFault, 0x10), TrapAction::LoadFault { skip: false });
    assert_eq!(trap_action(TrapCause::IllegalInstruction, 0), TrapAction::IllegalInstruction);
    assert_eq!(trap_action(TrapCause::Other, 0), TrapAction::Unsupported);
}

#[test]
fn execution_resumes_past_an_ecall() {
    assert_eq!(resume_at(TrapAction::Syscall, 0x8040_0010), 0x8040_0014);
    assert_eq!(resume_at(TrapAction::LoadFault { skip: true }, 0x100), 0x104);
    assert_eq!(resume_at(TrapAction::LoadFault { skip: false }, 0x100), 0x100);
    assert_eq!(resume_at(TrapAction::StoreFault, 0x100), 0x100);
}

#[test]
fn an_application_starts_in_user_mode_at_its_entry() {
    let cx = TrapContext::app_init_context(0x8040_0000, 0x8100_1000, 0x8000_0122);
    assert_eq!(cx.sepc, 0x8040_0000);
    assert_eq!(cx.general.sp, 0x8100_1000);
    assert_eq!(cx.general.ra, 0);
    assert_eq!(cx.general.a0, 0);
    assert_eq!(cx.sstatus & SSTATUS_SPP, 0, "SPP clear: the trap returns to user mode");
    assert_eq!(cx.sstatus, 0x8000_0022, "the other sstatus bits stay as read");
}
