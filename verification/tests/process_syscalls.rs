use rcore_os::syscall::process::{
    check_user_va, sys_get_time, sys_mmap, sys_munmap, sys_sbrk, sys_sleep, sys_trace,
    ProcessStep, PteFlags, PAGE_SIZE, PTE_R, PTE_U, PTE_V, PTE_W,
};

fn flags(bits: u8) -> Option<PteFlags> {
    Some(PteFlags { bits })
}

#[test]
fn get_time_splits_microseconds() {
    let tv = sys_get_time(3_000_042);
    assert_eq!(tv.sec, 3);
    assert_eq!(tv.usec, 42);
    let tv = sys_get_time(999_999);
    assert_eq!((tv.sec, tv.usec), (0, 999_999));
}

#[test]
fn user_va_needs_valid_user_entry_with_permission() {
    assert!(!check_user_va(None, false));
    assert!(check_user_va(flags(PTE_V | PTE_U | PTE_R), false));
    assert!(!check_user_va(flags(PTE_V | PTE_U | PTE_R), true));
    assert!(check_user_va(flags(PTE_V | PTE_U | PTE_W), true));
    assert!(!check_user_va(flags(PTE_V | PTE_U | PTE_W), false));
    assert!(!check_user_va(flags(PTE_U | PTE_R | PTE_W), false));
    assert!(!check_user_va(flags(PTE_V | PTE_R | PTE_W), true));
}

#[test]
fn trace_reads_writes_and_counts() {
    let rw = flags(PTE_V | PTE_U | PTE_R | PTE_W);
    assert_eq!(sys_trace(0, 0x1000, 0, rw), ProcessStep::ReadUserByte(0x1000));
    assert_eq!(sys_trace(1, 0x1000, 0x1ff, rw), ProcessStep::WriteUserByte(0x1000, 0xff));
    assert_eq!(sys_trace(2, 64, 0, None), ProcessStep::SyscallCount(64));
    assert_eq!(sys_trace(3, 0, 0, rw), ProcessStep::Return(-1));
}

#[test]
fn trace_refuses_inaccessible_addresses() {
    assert_eq!(sys_trace(0, 0x2000, 0, None), ProcessStep::Return(-1));
    let read_only = flags(PTE_V | PTE_U | PTE_R);
    assert_eq!(sys_trace(1, 0x2000, 7, read_only), ProcessStep::Return(-1));
    let kernel = flags(PTE_V | PTE_R | PTE_W);
    assert_eq!(sys_trace(0, 0x2000, 0, kernel), ProcessStep::Return(-1));
}

#[test]
fn mmap_checks_alignment_and_port() {
    assert_eq!(
        sys_mmap(0x10000000, 0x3000, 3),
        ProcessStep::Mmap { start: 0x10000000, len: 0x3000, port: 3 }
    );
    assert_eq!(sys_mmap(0x10000001, 0x3000, 3), ProcessStep::Return(-1));
    assert_eq!(sys_mmap(0x10000000, 0x3000, 0), ProcessStep::Return(-1));
    assert_eq!(sys_mmap(0x10000000, 0x3000, 8), ProcessStep::Return(-1));
    assert_eq!(sys_mmap(0x10000000, 0x3000, 7), ProcessStep::Mmap { start: 0x10000000, len: 0x3000, port: 7 });
}

#[test]
fn munmap_checks_both_ends() {
    assert_eq!(sys_munmap(0x10000000, 2 * PAGE_SIZE), ProcessStep::Munmap { start: 0x10000000, len: 0x2000 });
    assert_eq!(sys_munmap(0x10000000, 100), ProcessStep::Return(-1));
    assert_eq!(sys_munmap(0x10000010, PAGE_SIZE), ProcessStep::Return(-1));
}

#[test]
fn sbrk_reports_old_break() {
    assert_eq!(sys_sbrk(Some(0x8000)), 0x8000);
    assert_eq!(sys_sbrk(None), -1);
}

#[test]
fn sleep_ends_later() {
    assert_eq!(sys_sleep(1000, 250), 1250);
    assert_eq!(sys_sleep(0, 0), 0);
}
