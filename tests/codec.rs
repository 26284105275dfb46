use resp_kv::decode::{parse_decimal, parse_resp, read_line, DecodeError};
use resp_kv::value::RespValue;

fn bulk(v: &RespValue) -> Vec<u8> {
    match v {
        RespValue::BulkString(b) => b.clone(),
        other => panic!("not a bulk string: {:?}", other),
    }
}

fn items(v: &RespValue) -> &Vec<RespValue> {
    match v {
        RespValue::Array(a) => a,
        other => panic!("not an array: {:?}", other),
    }
}

#[test]
fn decodes_bulk_string_with_remainder() {
    let input = b"$5\r\nhello\r\nXYZ";
    let (v, rest) = parse_resp(input).unwrap();
    assert_eq!(bulk(&v), b"hello".to_vec());
    assert_eq!(rest, b"XYZ");
}

#[test]
fn decodes_empty_bulk_string() {
    let (v, rest) = parse_resp(b"$0\r\n\r\n").unwrap();
    assert_eq!(bulk(&v), Vec::<u8>::new());
    assert!(rest.is_empty());
}

#[test]
fn bulk_payload_may_hold_crlf() {
    let (v, rest) = parse_resp(b"$4\r\na\r\nb\r\n").unwrap();
    assert_eq!(bulk(&v), b"a\r\nb".to_vec());
    assert!(rest.is_empty());
}

#[test]
fn decodes_command_array() {
    let input = b"*2\r\n$4\r\nECHO\r\n$3\r\nhey\r\n";
    let (v, rest) = parse_resp(input).unwrap();
    let a = items(&v);
    assert_eq!(a.len(), 2);
    assert_eq!(bulk(&a[0]), b"ECHO".to_vec());
    assert_eq!(bulk(&a[1]), b"hey".to_vec());
    assert!(rest.is_empty());
}

#[test]
fn decodes_nested_arrays() {
    let input = b"*2\r\n*1\r\n$1\r\na\r\n*0\r\n";
    let (v, rest) = parse_resp(input).unwrap();
    let a = items(&v);
    assert_eq!(a.len(), 2);
    let inner = items(&a[0]);
    assert_eq!(inner.len(), 1);
    assert_eq!(bulk(&inner[0]), b"a".to_vec());
    assert_eq!(items(&a[1]).len(), 0);
    assert!(rest.is_empty());
}

#[test]
fn two_frames_in_one_buffer() {
    let input = b"$1\r\na\r\n$1\r\nb\r\n";
    let (first, rest) = parse_resp(input).unwrap();
    assert_eq!(bulk(&first), b"a".to_vec());
    let (second, rest) = parse_resp(rest).unwrap();
    assert_eq!(bulk(&second), b"b".to_vec());
    assert!(rest.is_empty());
}

#[test]
fn empty_buffer_is_refused() {
    assert!(matches!(parse_resp(b""), Err(DecodeError::UnsupportedOrEmpty)));
}

#[test]
fn unknown_tag_is_refused() {
    assert!(matches!(parse_resp(b"+OK\r\n"), Err(DecodeError::UnsupportedOrEmpty)));
    assert!(matches!(parse_resp(b"*1\r\n:5\r\n"), Err(DecodeError::UnsupportedOrEmpty)));
}

#[test]
fn bad_length_is_malformed() {
    assert!(matches!(parse_resp(b"$x\r\nab\r\n"), Err(DecodeError::MalformedLength)));
    assert!(matches!(parse_resp(b"$-1\r\n"), Err(DecodeError::MalformedLength)));
    assert!(matches!(parse_resp(b"$\r\n\r\n"), Err(DecodeError::MalformedLength)));
    assert!(matches!(parse_resp(b"*99999999999999999999999\r\n"), Err(DecodeError::MalformedLength)));
}

#[test]
fn missing_terminator_is_malformed() {
    assert!(matches!(parse_resp(b"$2\r\nabcd"), Err(DecodeError::MalformedLength)));
}

#[test]
fn cr_without_lf_is_incomplete() {
    assert!(matches!(parse_resp(b"$2\r"), Err(DecodeError::Incomplete)));
}

#[test]
fn short_payload_is_incomplete() {
    assert!(matches!(parse_resp(b"$5\r\nhel"), Err(DecodeError::Incomplete)));
    assert!(matches!(parse_resp(b"*2\r\n$1\r\na\r\n"), Err(DecodeError::Incomplete)));
}

#[test]
fn feeding_one_byte_at_a_time() {
    let frame: &[u8] = b"*3\r\n$3\r\nSET\r\n$1\r\nk\r\n$2\r\nvv\r\n";
    for p in 1..frame.len() {
        assert!(matches!(parse_resp(&frame[..p]), Err(DecodeError::Incomplete)), "prefix {}", p);
    }
    let (v, rest) = parse_resp(frame).unwrap();
    let a = items(&v);
    assert_eq!(a.len(), 3);
    assert_eq!(bulk(&a[0]), b"SET".to_vec());
    assert_eq!(bulk(&a[1]), b"k".to_vec());
    assert_eq!(bulk(&a[2]), b"vv".to_vec());
    assert!(rest.is_empty());
}

#[test]
fn round_trip_of_hand_built_frame() {
    let payload: Vec<u8> = (0u8..=255).collect();
    let mut frame: Vec<u8> = b"*2\r\n$256\r\n".to_vec();
    frame.extend_from_slice(&payload);
    frame.extend_from_slice(b"\r\n*1\r\n$0\r\n\r\n");
    frame.extend_from_slice(b"tail");
    let (v, rest) = parse_resp(&frame).unwrap();
    let a = items(&v);
    assert_eq!(bulk(&a[0]), payload);
    let inner = items(&a[1]);
    assert_eq!(bulk(&inner[0]), Vec::<u8>::new());
    assert_eq!(rest, b"tail");
}

#[test]
fn read_line_gives_number_and_next_index() {
    let input = b"$12\r\nrest";
    assert!(matches!(read_line(input, 1), Ok((12, 5))));
    assert!(matches!(read_line(b"$12", 1), Err(DecodeError::Incomplete)));
}

#[test]
fn parse_decimal_respects_bound() {
    assert_eq!(parse_decimal(b"0042", 0, 4, 100), Some(42));
    assert_eq!(parse_decimal(b"101", 0, 3, 100), None);
    assert_eq!(parse_decimal(b"1a", 0, 2, 100), None);
    assert_eq!(parse_decimal(b"", 0, 0, 100), None);
    assert_eq!(parse_decimal(b"18446744073709551615", 0, 20, u64::MAX), Some(u64::MAX));
    assert_eq!(parse_decimal(b"18446744073709551616", 0, 20, u64::MAX), None);
}

#[test]
fn encodes_null_and_status() {
    assert_eq!(RespValue::Null.encode(), b"$-1\r\n".to_vec());
    assert_eq!(RespValue::SimpleString(b"OK".to_vec()).encode(), b"+OK\r\n".to_vec());
    assert_eq!(RespValue::SimpleString(Vec::new()).encode(), b"+\r\n".to_vec());
}
