use resp_kv::command::{dispatch, echo, get, get_at, handle_command, is_word, parse_duration, pong};
use resp_kv::session::process_buffer;
use resp_kv::store::Store;
use resp_kv::value::RespValue;

fn b(s: &str) -> RespValue {
    RespValue::BulkString(s.as_bytes().to_vec())
}

fn run(store: &mut Store, now: u128, words: &[&str]) -> Vec<u8> {
    let cmd = b(words[0]);
    let args: Vec<RespValue> = words[1..].iter().map(|w| b(w)).collect();
    handle_command(&cmd, &args, store, now)
}

#[test]
fn ping_replies_pong() {
    let mut s = Store::new();
    assert_eq!(run(&mut s, 0, &["PING"]), b"+PONG\r\n".to_vec());
    assert_eq!(pong().encode(), b"+PONG\r\n".to_vec());
}

#[test]
fn unknown_command_replies_pong() {
    let mut s = Store::new();
    assert_eq!(run(&mut s, 0, &["FLUSHALL", "x"]), b"+PONG\r\n".to_vec());
    let arr = RespValue::Array(vec![]);
    assert_eq!(handle_command(&arr, &[], &mut s, 0), b"+PONG\r\n".to_vec());
}

#[test]
fn echo_in_any_case() {
    let mut s = Store::new();
    for name in ["echo", "Echo", "ECHO", "eCHo"] {
        assert_eq!(run(&mut s, 0, &[name, "hey"]), b"+hey\r\n".to_vec());
    }
    assert_eq!(echo(&b"x".to_vec()).encode(), b"+x\r\n".to_vec());
}

#[test]
fn echo_wrong_arity_sends_nothing() {
    let mut s = Store::new();
    assert_eq!(run(&mut s, 0, &["ECHO"]), Vec::<u8>::new());
    assert_eq!(run(&mut s, 0, &["ECHO", "a", "b"]), Vec::<u8>::new());
    let nested = RespValue::Array(vec![]);
    assert!(dispatch(&b("ECHO"), &[nested], &mut s, 0).is_none());
}

#[test]
fn set_then_get() {
    let mut s = Store::new();
    assert_eq!(run(&mut s, 100, &["SET", "k", "v"]), b"+OK\r\n".to_vec());
    assert_eq!(run(&mut s, 1_000_000, &["GET", "k"]), b"+v\r\n".to_vec());
    assert_eq!(run(&mut s, 100, &["get", "missing"]), b"$-1\r\n".to_vec());
}

#[test]
fn set_overwrites() {
    let mut s = Store::new();
    run(&mut s, 0, &["SET", "k", "one"]);
    run(&mut s, 0, &["SET", "k", "two"]);
    assert_eq!(run(&mut s, 0, &["GET", "k"]), b"+two\r\n".to_vec());
}

#[test]
fn set_twice_same_as_once() {
    let mut once = Store::new();
    let mut twice = Store::new();
    run(&mut once, 7, &["SET", "k", "v", "PX", "50"]);
    run(&mut twice, 7, &["SET", "k", "v", "PX", "50"]);
    run(&mut twice, 7, &["SET", "k", "v", "PX", "50"]);
    let a = get(&b"k".to_vec(), &once).unwrap();
    let c = get(&b"k".to_vec(), &twice).unwrap();
    assert_eq!(a.value, c.value);
    assert_eq!(a.expires_at, c.expires_at);
    assert_eq!(a.expires_at, Some(57));
}

#[test]
fn expiry_boundary() {
    let mut s = Store::new();
    let now = 1_000;
    run(&mut s, now, &["SET", "k", "v", "PX", "10"]);
    assert_eq!(run(&mut s, now + 5, &["GET", "k"]), b"+v\r\n".to_vec());
    assert_eq!(run(&mut s, now + 9, &["GET", "k"]), b"+v\r\n".to_vec());
    assert_eq!(run(&mut s, now + 10, &["GET", "k"]), b"$-1\r\n".to_vec());
    assert_eq!(run(&mut s, now + 15, &["GET", "k"]), b"$-1\r\n".to_vec());
}

#[test]
fn zero_or_negative_px_never_expires() {
    let mut s = Store::new();
    run(&mut s, 5, &["SET", "a", "1", "PX", "0"]);
    run(&mut s, 5, &["SET", "b", "2", "px", "-30"]);
    assert_eq!(run(&mut s, u128::MAX, &["GET", "a"]), b"+1\r\n".to_vec());
    assert_eq!(run(&mut s, u128::MAX, &["GET", "b"]), b"+2\r\n".to_vec());
}

#[test]
fn expiry_saturates_at_largest_time() {
    let mut s = Store::new();
    let reply = resp_kv::command::set(&b"k".to_vec(), &b"v".to_vec(), 10, u128::MAX - 3, &mut s);
    assert_eq!(reply.encode(), b"+OK\r\n".to_vec());
    assert_eq!(get(&b"k".to_vec(), &s).unwrap().expires_at, Some(u128::MAX));
}

#[test]
fn malformed_set_replies_null() {
    let mut s = Store::new();
    assert_eq!(run(&mut s, 0, &["SET", "k"]), b"$-1\r\n".to_vec());
    assert_eq!(run(&mut s, 0, &["SET", "k", "v", "EX", "10"]), b"$-1\r\n".to_vec());
    assert_eq!(run(&mut s, 0, &["SET", "k", "v", "PX", "ten"]), b"$-1\r\n".to_vec());
    assert_eq!(run(&mut s, 0, &["SET", "k", "v", "PX"]), b"$-1\r\n".to_vec());
    assert_eq!(run(&mut s, 0, &["GET", "k"]), b"$-1\r\n".to_vec());
}

#[test]
fn get_arity_sends_nothing_and_leaves_store() {
    let mut s = Store::new();
    run(&mut s, 0, &["SET", "k", "v"]);
    assert_eq!(run(&mut s, 0, &["GET"]), Vec::<u8>::new());
    assert_eq!(run(&mut s, 0, &["GET", "k", "k"]), Vec::<u8>::new());
    assert_eq!(get(&b"k".to_vec(), &s).unwrap().value, b"v".to_vec());
}

#[test]
fn interleaved_writes_leave_last_value() {
    let mut s = Store::new();
    for v in ["v1", "v2", "v3", "v4"] {
        run(&mut s, 0, &["SET", "k", v]);
    }
    assert_eq!(run(&mut s, 0, &["GET", "k"]), b"+v4\r\n".to_vec());
}

#[test]
fn get_at_reads_value() {
    let mut s = Store::new();
    resp_kv::command::set(&b"k".to_vec(), &b"val".to_vec(), 0, 0, &mut s);
    assert_eq!(get_at(&b"k".to_vec(), &s, 9).encode(), b"+val\r\n".to_vec());
    assert!(get(&b"nope".to_vec(), &s).is_none());
}

#[test]
fn word_matching_ignores_ascii_case() {
    assert!(is_word(&b"sEt".to_vec(), &b"SET".to_vec()));
    assert!(!is_word(&b"SETX".to_vec(), &b"SET".to_vec()));
    assert!(!is_word(&b"S3T".to_vec(), &b"SET".to_vec()));
}

#[test]
fn durations() {
    assert_eq!(parse_duration(&b"10".to_vec()), Some(10));
    assert_eq!(parse_duration(&b"-7".to_vec()), Some(-7));
    assert_eq!(parse_duration(&b"-9223372036854775808".to_vec()), Some(i64::MIN));
    assert_eq!(parse_duration(&b"9223372036854775808".to_vec()), None);
    assert_eq!(parse_duration(&b"+1".to_vec()), None);
    assert_eq!(parse_duration(&b"-".to_vec()), None);
}

#[test]
fn buffer_with_two_commands_and_a_partial_one() {
    let mut s = Store::new();
    let input = b"*3\r\n$3\r\nSET\r\n$1\r\nk\r\n$1\r\nv\r\n*2\r\n$3\r\nGET\r\n$1\r\nk\r\n*1\r\n$4\r\nPI";
    let (out, used, close) = process_buffer(input, &mut s, 0);
    assert_eq!(out, b"+OK\r\n+v\r\n".to_vec());
    assert_eq!(used, input.len() - 10);
    assert!(!close);
}

#[test]
fn buffer_with_malformed_frame_asks_to_close() {
    let mut s = Store::new();
    let input = b"*1\r\n$4\r\nPING\r\n!junk";
    let (out, used, close) = process_buffer(input, &mut s, 0);
    assert_eq!(out, b"+PONG\r\n".to_vec());
    assert_eq!(used, 14);
    assert!(close);
}
