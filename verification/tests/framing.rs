use lib::framing::{find_dollar, parse_field, parse_length};
use lib::text::format_decimal;

#[test]
fn find_dollar_first_position() {
    assert_eq!(find_dollar(b"12$3$"), Some(2));
    assert_eq!(find_dollar(b"$"), Some(0));
    assert_eq!(find_dollar(b"123"), None);
    assert_eq!(find_dollar(b""), None);
}

#[test]
fn parse_length_reads_number_and_drops_prefix() {
    let mut buffer = b"3$GET$".to_vec();
    assert_eq!(parse_length(&mut buffer), Ok(Some(3)));
    assert_eq!(buffer, b"GET$".to_vec());
}

#[test]
fn parse_length_keeps_leading_zeros_value() {
    let mut buffer = b"007$x".to_vec();
    assert_eq!(parse_length(&mut buffer), Ok(Some(7)));
    assert_eq!(buffer, b"x".to_vec());
}

#[test]
fn parse_length_waits_for_dollar() {
    let mut buffer = b"12".to_vec();
    assert_eq!(parse_length(&mut buffer), Ok(None));
    assert_eq!(buffer, b"12".to_vec());
}

#[test]
fn parse_length_rejects_letters_and_drops_them() {
    let mut buffer = b"a1$rest".to_vec();
    assert_eq!(
        parse_length(&mut buffer),
        Err("the length must be numbers only. ".to_string())
    );
    assert_eq!(buffer, b"rest".to_vec());
}

#[test]
fn parse_length_rejects_empty_number_and_keeps_bytes() {
    let mut buffer = b"$x".to_vec();
    assert_eq!(
        parse_length(&mut buffer),
        Err("unable to convert to number".to_string())
    );
    assert_eq!(buffer, b"$x".to_vec());
}

#[test]
fn parse_length_rejects_overflow_and_keeps_bytes() {
    let mut buffer = b"18446744073709551616$".to_vec();
    assert_eq!(
        parse_length(&mut buffer),
        Err("unable to convert to number".to_string())
    );
    assert_eq!(buffer, b"18446744073709551616$".to_vec());
}

#[test]
fn parse_length_accepts_usize_max() {
    let mut buffer = b"18446744073709551615$".to_vec();
    assert_eq!(parse_length(&mut buffer), Ok(Some(usize::MAX)));
    assert!(buffer.is_empty());
}

#[test]
fn parse_length_rejects_invalid_utf8_and_keeps_bytes() {
    let mut buffer = vec![0xffu8, b'1', b'$', b'x'];
    assert_eq!(
        parse_length(&mut buffer),
        Err("contains invalid characters".to_string())
    );
    assert_eq!(buffer, vec![0xffu8, b'1', b'$', b'x']);
}

#[test]
fn parse_length_non_ascii_utf8_is_not_a_number() {
    let mut buffer = "é$x".as_bytes().to_vec();
    assert_eq!(
        parse_length(&mut buffer),
        Err("the length must be numbers only. ".to_string())
    );
    assert_eq!(buffer, b"x".to_vec());
}

#[test]
fn parse_field_reads_field_and_drops_it() {
    let mut buffer = b"GET$4$NAME$".to_vec();
    assert_eq!(parse_field(&mut buffer, 3), Ok(Some("GET".to_string())));
    assert_eq!(buffer, b"4$NAME$".to_vec());
}

#[test]
fn parse_field_waits_for_enough_bytes() {
    let mut buffer = b"GET".to_vec();
    assert_eq!(parse_field(&mut buffer, 3), Ok(None));
    assert_eq!(buffer, b"GET".to_vec());
}

#[test]
fn parse_field_empty_field() {
    let mut buffer = b"$next".to_vec();
    assert_eq!(parse_field(&mut buffer, 0), Ok(Some(String::new())));
    assert_eq!(buffer, b"next".to_vec());
}

#[test]
fn parse_field_rejects_missing_delimiter_and_drops_bytes() {
    let mut buffer = b"GETX$".to_vec();
    assert_eq!(
        parse_field(&mut buffer, 3),
        Err("invalid command!".to_string())
    );
    assert_eq!(buffer, b"$".to_vec());
}

#[test]
fn parse_field_replaces_invalid_utf8() {
    let mut buffer = vec![b'a', 0xffu8, b'$'];
    assert_eq!(parse_field(&mut buffer, 2), Ok(Some("a\u{FFFD}".to_string())));
    assert!(buffer.is_empty());
}

#[test]
fn parse_field_decodes_utf8() {
    let mut buffer = "héllo$".as_bytes().to_vec();
    assert_eq!(parse_field(&mut buffer, 6), Ok(Some("héllo".to_string())));
    assert!(buffer.is_empty());
}

#[test]
fn format_decimal_values() {
    assert_eq!(format_decimal(0), "0");
    assert_eq!(format_decimal(7), "7");
    assert_eq!(format_decimal(10), "10");
    assert_eq!(format_decimal(2024), "2024");
    assert_eq!(format_decimal(usize::MAX), usize::MAX.to_string());
}

#[test]
fn length_round_trip_on_values() {
    for n in [0usize, 1, 9, 10, 512, 123456789, usize::MAX] {
        let mut buffer = format_decimal(n).into_bytes();
        buffer.extend_from_slice(b"$tail");
        assert_eq!(parse_length(&mut buffer), Ok(Some(n)));
        assert_eq!(buffer, b"tail".to_vec());
    }
}

#[test]
fn field_round_trip_on_values() {
    for text in ["", "NAME", "héllo wörld", "a$b"] {
        let mut buffer = text.as_bytes().to_vec();
        buffer.extend_from_slice(b"$tail");
        assert_eq!(parse_field(&mut buffer, text.len()), Ok(Some(text.to_string())));
        assert_eq!(buffer, b"tail".to_vec());
    }
}

#[test]
fn later_bytes_do_not_change_a_length_reading() {
    let mut short = b"12$".to_vec();
    let mut long = b"12$34$".to_vec();
    assert_eq!(parse_length(&mut short), parse_length(&mut long));
    assert!(short.is_empty());
    assert_eq!(long, b"34$".to_vec());
}

#[test]
fn parse_length_rejects_encoded_surrogate() {
    let mut buffer = vec![0xedu8, 0xa0, 0x80, b'$'];
    assert_eq!(
        parse_length(&mut buffer),
        Err("contains invalid characters".to_string())
    );
    assert_eq!(buffer.len(), 4);
}
