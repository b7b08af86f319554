use vortex::dec::{format_u32, parse_u32};

#[test]
fn formats_exact_digit_strings() {
    assert_eq!(format_u32(0), b"0".to_vec());
    assert_eq!(format_u32(7), b"7".to_vec());
    assert_eq!(format_u32(10), b"10".to_vec());
    assert_eq!(format_u32(409), b"409".to_vec());
    assert_eq!(format_u32(u32::MAX), b"4294967295".to_vec());
}

#[test]
fn parses_digit_ranges() {
    assert_eq!(parse_u32(&b"409".to_vec(), 0, 3), Some(409));
    assert_eq!(parse_u32(&b"n409".to_vec(), 1, 4), Some(409));
    assert_eq!(parse_u32(&b"409 tail".to_vec(), 0, 3), Some(409));
    assert_eq!(parse_u32(&b"0007".to_vec(), 0, 4), Some(7));
}

#[test]
fn parse_rejects_empty_nondigit_and_overflow() {
    assert_eq!(parse_u32(&b"".to_vec(), 0, 0), None);
    assert_eq!(parse_u32(&b"4x2".to_vec(), 0, 3), None);
    assert_eq!(parse_u32(&b"4294967295".to_vec(), 0, 10), Some(u32::MAX));
    assert_eq!(parse_u32(&b"4294967296".to_vec(), 0, 10), None);
    assert_eq!(parse_u32(&b"99999999999999".to_vec(), 0, 14), None);
}

#[test]
fn format_and_parse_are_inverse_on_samples() {
    for n in [0u32, 1, 9, 10, 99, 100, 12345, 4095, u32::MAX - 1, u32::MAX] {
        let text = format_u32(n);
        let len = text.len();
        assert_eq!(parse_u32(&text, 0, len), Some(n));
    }
}
