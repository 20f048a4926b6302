use lib::serial::{format_hex64, hex_digit, level_digit, serial_bytes, to_serial};

#[test]
fn line_feeds_get_carriage_returns() {
    assert_eq!(to_serial(b"boot: ok\n"), b"boot: ok\r\n".to_vec());
    assert_eq!(to_serial(b"\n\nx"), b"\r\n\r\nx".to_vec());
    assert_eq!(to_serial(b""), Vec::<u8>::new());
    assert_eq!(to_serial(b"no newline"), b"no newline".to_vec());
}

#[test]
fn hex64_is_prefixed_and_zero_padded() {
    assert_eq!(&format_hex64(0), b"0x0000000000000000");
    assert_eq!(&format_hex64(0xdead), b"0x000000000000dead");
    assert_eq!(&format_hex64(0xffff_0000_dead_0000), b"0xffff0000dead0000");
    assert_eq!(&format_hex64(u64::MAX), b"0xffffffffffffffff");
    assert_eq!(&format_hex64(0x4010_0000), b"0x0000000040100000");
}

#[test]
fn hex_digits_are_lower_case() {
    assert_eq!(hex_digit(0), b'0');
    assert_eq!(hex_digit(9), b'9');
    assert_eq!(hex_digit(10), b'a');
    assert_eq!(hex_digit(15), b'f');
}

#[test]
fn level_digits() {
    assert_eq!(level_digit(0), b'0');
    assert_eq!(level_digit(1), b'1');
    assert_eq!(level_digit(3), b'3');
}

#[test]
fn single_bytes_for_the_serial_line() {
    assert_eq!(serial_bytes(b'\n'), ([b'\r', b'\n'], 2));
    let (b, n) = serial_bytes(b'a');
    assert_eq!((b[0], n), (b'a', 1));
    let (b, n) = serial_bytes(b'\r');
    assert_eq!((b[0], n), (b'\r', 1));
}
