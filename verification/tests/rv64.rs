use kernel::rv64::{supervisor_status, CpuMode};

#[test]
fn mode_codes_and_shifts() {
    assert_eq!(CpuMode::User.code(), 0);
    assert_eq!(CpuMode::Supervisor.code(), 1);
    assert_eq!(CpuMode::Machine.code(), 3);
    assert_eq!(CpuMode::Machine.active(), 6);
    assert_eq!(CpuMode::Supervisor.active(), 2);
    assert_eq!(CpuMode::User.active(), 0);
    assert_eq!(CpuMode::Machine.higher(), 0xc00);
    assert_eq!(CpuMode::Supervisor.higher(), 0x400);
    assert_eq!(CpuMode::Machine.middle(), 0x180);
    assert_eq!(CpuMode::Supervisor.middle(), 0x80);
    assert_eq!(CpuMode::Machine.lower(), 0x30);
    assert_eq!(CpuMode::Supervisor.lower(), 0x10);
    assert_eq!(CpuMode::User.lower(), 0);
}

#[test]
fn status_for_supervisor_entry() {
    assert_eq!(supervisor_status(0xc00), 0x400);
    assert_eq!(supervisor_status(0), 0xc00);
    assert_eq!(supervisor_status(0xa0_0000_0c08), 0xa0_0000_0408);
}
