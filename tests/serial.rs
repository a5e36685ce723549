use kernel_heap::serial::SerialPort;

#[test]
fn com1_is_at_its_standard_port() {
    assert_eq!(SerialPort::new_for_com1().base(), 0x3f8);
    assert_eq!(SerialPort::default().base(), 0x3f8);
    assert_eq!(SerialPort::new(0x2f8).base(), 0x2f8);
}

#[test]
fn init_programs_the_uart_in_order() {
    let w = SerialPort::new_for_com1().init();
    assert_eq!(
        w,
        vec![
            (0x3f9, 0x00),
            (0x3fb, 0x80),
            (0x3f8, 0x01),
            (0x3f9, 0x00),
            (0x3fb, 0x03),
            (0x3fa, 0xC7),
            (0x3fc, 0x0B),
        ]
    );
}

#[test]
fn send_char_waits_for_the_transmitter() {
    let port = SerialPort::new_for_com1();
    assert_eq!(port.line_status_port(), 0x3fd);
    assert_eq!(port.send_char('A', 0x00), None);
    assert_eq!(port.send_char('A', 0xdf), None);
    assert_eq!(port.send_char('A', 0x20), Some((0x3f8, b'A')));
    assert_eq!(port.send_char('\u{20ac}', 0x60), Some((0x3f8, 0xac)));
}

#[test]
fn send_str_gives_one_byte_per_character() {
    let port = SerialPort::new_for_com1();
    assert_eq!(port.send_str("hi\n"), vec![b'h', b'i', b'\n']);
    assert_eq!(port.send_str(""), Vec::<u8>::new());
    assert_eq!(port.send_str("\u{e9}\u{20ac}"), vec![0xe9, 0xac]);
}
