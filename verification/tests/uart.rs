use kernel::uart::{RegisterWrite, Uart};

fn w(address: usize, value: u8) -> RegisterWrite {
    RegisterWrite { address, value }
}

#[test]
fn init_programs_the_line_and_divisor() {
    let u = Uart::new(0x1000_0000);
    assert_eq!(u.base_addr(), 0x1000_0000);
    assert_eq!(
        u.init(),
        vec![
            w(0x1000_0003, 0x03),
            w(0x1000_0002, 0x01),
            w(0x1000_0001, 0x01),
            w(0x1000_0003, 0x83),
            w(0x1000_0000, 0x50),
            w(0x1000_0001, 0x02),
            w(0x1000_0003, 0x03),
        ]
    );
}

#[test]
fn put_and_write_bytes() {
    let u = Uart::new(0x1000_0000);
    assert_eq!(u.put(b'H'), w(0x1000_0000, b'H'));
    let ws = u.write_bytes(b"Hi\r\n");
    assert_eq!(ws, vec![w(0x1000_0000, b'H'), w(0x1000_0000, b'i'), w(0x1000_0000, 13), w(0x1000_0000, 10)]);
    assert!(u.write_bytes(b"").is_empty());
}
