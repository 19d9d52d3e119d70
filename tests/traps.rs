use axfs_ramfs::trap::{console_byte, page_fault_action, syscall_action, FaultAction, SyscallAction};

#[test]
fn console_carriage_return_reads_as_line_feed() {
    assert_eq!(console_byte(Some(b'\r')), Some(b'\n'));
    assert_eq!(console_byte(Some(b'a')), Some(b'a'));
    assert_eq!(console_byte(None), None);
}

#[test]
fn syscall_exit_and_unknown() {
    assert_eq!(syscall_action(93, 7), SyscallAction::Exit(7));
    assert_eq!(syscall_action(64, 7), SyscallAction::Return(-38));
}

#[test]
fn page_fault_outcomes() {
    assert_eq!(page_fault_action(true), FaultAction::Resume);
    assert_eq!(page_fault_action(false), FaultAction::Exit(-1));
}
