//! Dispatcher tests: one decoded frame in, reply bytes out.

use resp_kv::command::{handle_command, Step};
use resp_kv::storage::Storage;
use resp_kv::waiters::WaiterQueue;
use resp_kv::RespValue;

fn bulk(b: &[u8]) -> RespValue {
    RespValue::BulkString(Some(b.to_vec()))
}

fn cmd(parts: &[&[u8]]) -> RespValue {
    RespValue::Array(Some(parts.iter().map(|p| bulk(p)).collect()))
}

fn run(v: &RespValue, storage: &mut Storage, now: u64) -> Vec<u8> {
    let mut waiters = WaiterQueue::new();
    match handle_command(v, storage, &mut waiters, now) {
        (Step::Reply(b), _) => b,
        _ => panic!("expected a reply"),
    }
}

#[test]
fn test_ping_command_returns_pong() {
    let mut storage = Storage::new();
    let c = cmd(&[b"PING"]);
    assert_eq!(run(&c, &mut storage, 0), b"+PONG\r\n".to_vec());
}

#[test]
fn test_ping_command_handles_case_insensibly() {
    let mut storage = Storage::new();
    let c = cmd(&[b"Ping"]);
    assert_eq!(run(&c, &mut storage, 0), b"+PONG\r\n".to_vec());
}

#[test]
fn test_echo_command_works_with_bulk_string() {
    let mut storage = Storage::new();
    let c = cmd(&[b"ECHO", b"Hello"]);
    assert_eq!(run(&c, &mut storage, 0), b"$5\r\nHello\r\n".to_vec());
}

#[test]
fn test_echo_command_works_with_simple_string() {
    let mut storage = Storage::new();
    let c = RespValue::Array(Some(vec![
        bulk(b"ECHO"),
        RespValue::SimpleString(b"Simple_hello".to_vec()),
    ]));
    assert_eq!(run(&c, &mut storage, 0), b"$12\r\nSimple_hello\r\n".to_vec());
}

#[test]
fn test_echo_command_returns_error_for_invalid_number_of_arguments() {
    let mut storage = Storage::new();
    let c = cmd(&[b"ECHO"]);
    assert_eq!(
        run(&c, &mut storage, 0),
        b"-ERR wrong number of arguments for 'echo' command\r\n".to_vec()
    );
}

#[test]
fn test_set_command_works() {
    let mut storage = Storage::new();
    let c = cmd(&[b"SET", b"key", b"value"]);
    assert_eq!(run(&c, &mut storage, 0), b"+OK\r\n".to_vec());
}

#[test]
fn test_set_command_is_idempotent() {
    let mut storage = Storage::new();
    let c = cmd(&[b"SET", b"key", b"value"]);
    run(&c, &mut storage, 0);
    assert_eq!(run(&c, &mut storage, 0), b"+OK\r\n".to_vec());
}

#[test]
fn test_set_command_changes_value_if_called_twice_with_different_values() {
    let mut storage = Storage::new();
    let c1 = cmd(&[b"SET", b"key", b"value"]);
    let c2 = cmd(&[b"SET", b"key", b"value-new"]);
    assert_eq!(run(&c1, &mut storage, 0), b"+OK\r\n".to_vec());
    assert_eq!(run(&c2, &mut storage, 0), b"+OK\r\n".to_vec());
    let g = cmd(&[b"GET", b"key"]);
    assert_eq!(run(&g, &mut storage, 0), b"$9\r\nvalue-new\r\n".to_vec());
}

#[test]
fn test_get_command_works_for_existing_key() {
    let mut storage = Storage::new();
    let s = cmd(&[b"SET", b"key", b"value"]);
    run(&s, &mut storage, 0);
    let g = cmd(&[b"GET", b"key"]);
    assert_eq!(run(&g, &mut storage, 0), b"$5\r\nvalue\r\n".to_vec());
}

#[test]
fn test_get_command_returns_null_bulk_string_if_key_doesnt_exist() {
    let mut storage = Storage::new();
    let g = cmd(&[b"GET", b"key"]);
    assert_eq!(run(&g, &mut storage, 0), b"$-1\r\n".to_vec());
}

#[test]
fn test_set_command_with_expiration_in_seconds() {
    let mut storage = Storage::new();
    let s = cmd(&[b"SET", b"key", b"value", b"EX", b"1"]);
    assert_eq!(run(&s, &mut storage, 0), b"+OK\r\n".to_vec());
    let g = cmd(&[b"GET", b"key"]);
    assert_eq!(run(&g, &mut storage, 500), b"$5\r\nvalue\r\n".to_vec());
    assert_eq!(run(&g, &mut storage, 1100), b"$-1\r\n".to_vec());
}

#[test]
fn test_rpush_command_works() {
    let mut storage = Storage::new();
    let c = cmd(&[b"RPUSH", b"list", b"\"element_one\"", b"\"element_two\""]);
    assert_eq!(run(&c, &mut storage, 0), b":2\r\n".to_vec());
}

#[test]
fn test_rpush_command_appends_to_existing_list() {
    let mut storage = Storage::new();
    let c1 = cmd(&[b"RPUSH", b"list", b"\"element_one\"", b"\"element_two\""]);
    assert_eq!(run(&c1, &mut storage, 0), b":2\r\n".to_vec());
    let c2 = cmd(&[b"RPUSH", b"list", b"\"element_three\"", b"\"element_four\""]);
    assert_eq!(run(&c2, &mut storage, 0), b":4\r\n".to_vec());
}

#[test]
fn test_rpush_command_returns_error_on_wrong_number_of_arguments() {
    let mut storage = Storage::new();
    let c = cmd(&[b"RPUSH", b"list"]);
    assert_eq!(
        run(&c, &mut storage, 0),
        b"-ERR wrong number of arguments for 'RPUSH' command\r\n".to_vec()
    );
}

#[test]
fn test_rpush_command_doesnt_work_on_keys() {
    let mut storage = Storage::new();
    let s = cmd(&[b"SET", b"key", b"value"]);
    assert_eq!(run(&s, &mut storage, 0), b"+OK\r\n".to_vec());
    let c = cmd(&[b"RPUSH", b"key", b"\"element_one\"", b"\"element_two\""]);
    assert_eq!(
        run(&c, &mut storage, 0),
        b"-WRONGTYPE Operation against a key holding the wrong kind of value\r\n".to_vec()
    );
}

#[test]
fn test_lrange_command_doesnt_work_on_keys() {
    let mut storage = Storage::new();
    let s = cmd(&[b"SET", b"key", b"value"]);
    assert_eq!(run(&s, &mut storage, 0), b"+OK\r\n".to_vec());
    let c = RespValue::Array(Some(vec![
        bulk(b"LRANGE"),
        bulk(b"key"),
        RespValue::Integer(0),
        RespValue::Integer(1),
    ]));
    assert_eq!(
        run(&c, &mut storage, 0),
        b"-WRONGTYPE Operation against a key holding the wrong kind of value\r\n".to_vec()
    );
}

#[test]
fn test_lrange_command_returns_range() {
    let mut storage = Storage::new();
    run(&cmd(&[b"RPUSH", b"l", b"a", b"b", b"c"]), &mut storage, 0);
    let c = cmd(&[b"LRANGE", b"l", b"0", b"-1"]);
    assert_eq!(
        run(&c, &mut storage, 0),
        b"*3\r\n$1\r\na\r\n$1\r\nb\r\n$1\r\nc\r\n".to_vec()
    );
}

#[test]
fn test_llen_command_counts_lrange_elements() {
    let mut storage = Storage::new();
    run(&cmd(&[b"RPUSH", b"l", b"a", b"b", b"c"]), &mut storage, 0);
    assert_eq!(run(&cmd(&[b"LLEN", b"l"]), &mut storage, 0), b":3\r\n".to_vec());
    let range = run(&cmd(&[b"LRANGE", b"l", b"0", b"-1"]), &mut storage, 0);
    assert!(range.starts_with(b"*3\r\n"));
    assert_eq!(run(&cmd(&[b"LLEN", b"missing"]), &mut storage, 0), b":0\r\n".to_vec());
}

#[test]
fn test_lpop_command_pops_head() {
    let mut storage = Storage::new();
    run(&cmd(&[b"RPUSH", b"l", b"a", b"b"]), &mut storage, 0);
    assert_eq!(run(&cmd(&[b"LPOP", b"l"]), &mut storage, 0), b"$1\r\na\r\n".to_vec());
    assert_eq!(run(&cmd(&[b"LPOP", b"l"]), &mut storage, 0), b"$1\r\nb\r\n".to_vec());
    assert_eq!(run(&cmd(&[b"LPOP", b"l"]), &mut storage, 0), b"$-1\r\n".to_vec());
    assert_eq!(run(&cmd(&[b"TYPE", b"l"]), &mut storage, 0), b"+none\r\n".to_vec());
}

#[test]
fn test_lpop_command_with_count() {
    let mut storage = Storage::new();
    run(&cmd(&[b"RPUSH", b"l", b"a", b"b", b"c"]), &mut storage, 0);
    assert_eq!(
        run(&cmd(&[b"LPOP", b"l", b"2"]), &mut storage, 0),
        b"*2\r\n$1\r\na\r\n$1\r\nb\r\n".to_vec()
    );
    assert_eq!(
        run(&cmd(&[b"LPOP", b"l", b"0"]), &mut storage, 0),
        b"*0\r\n".to_vec()
    );
    assert_eq!(run(&cmd(&[b"LLEN", b"l"]), &mut storage, 0), b":1\r\n".to_vec());
    assert_eq!(
        run(&cmd(&[b"LPOP", b"l", b"5"]), &mut storage, 0),
        b"*1\r\n$1\r\nc\r\n".to_vec()
    );
    assert_eq!(run(&cmd(&[b"TYPE", b"l"]), &mut storage, 0), b"+none\r\n".to_vec());
    assert_eq!(
        run(&cmd(&[b"LPOP", b"l", b"-1"]), &mut storage, 0),
        b"-ERR value is not an integer or out of range\r\n".to_vec()
    );
}

#[test]
fn test_type_command_names_each_kind() {
    let mut storage = Storage::new();
    run(&cmd(&[b"SET", b"s", b"v"]), &mut storage, 0);
    run(&cmd(&[b"RPUSH", b"l", b"a"]), &mut storage, 0);
    run(&cmd(&[b"XADD", b"x", b"1-1", b"f", b"v"]), &mut storage, 0);
    assert_eq!(run(&cmd(&[b"TYPE", b"s"]), &mut storage, 0), b"+string\r\n".to_vec());
    assert_eq!(run(&cmd(&[b"TYPE", b"l"]), &mut storage, 0), b"+list\r\n".to_vec());
    assert_eq!(run(&cmd(&[b"TYPE", b"x"]), &mut storage, 0), b"+stream\r\n".to_vec());
    assert_eq!(run(&cmd(&[b"TYPE", b"missing"]), &mut storage, 0), b"+none\r\n".to_vec());
}

#[test]
fn test_set_command_rejects_zero_expire() {
    let mut storage = Storage::new();
    let c = cmd(&[b"SET", b"k", b"v", b"EX", b"0"]);
    assert_eq!(
        run(&c, &mut storage, 0),
        b"-ERR invalid expire time in 'SET' command\r\n".to_vec()
    );
}

#[test]
fn test_set_command_rejects_non_numeric_expire() {
    let mut storage = Storage::new();
    let c = cmd(&[b"SET", b"k", b"v", b"EX", b"abc"]);
    assert_eq!(
        run(&c, &mut storage, 0),
        b"-ERR invalid expire time in 'SET' command\r\n".to_vec()
    );
}

#[test]
fn test_set_command_rejects_unknown_option() {
    let mut storage = Storage::new();
    let c = cmd(&[b"SET", b"k", b"v", b"NX", b"1"]);
    assert_eq!(run(&c, &mut storage, 0), b"-ERR syntax error\r\n".to_vec());
}

#[test]
fn test_unknown_command_is_reported_by_name() {
    let mut storage = Storage::new();
    let c = cmd(&[b"NOPE"]);
    assert_eq!(
        run(&c, &mut storage, 0),
        b"-ERR unknown command: 'NOPE'\r\n".to_vec()
    );
}

#[test]
fn test_non_array_frame_is_invalid() {
    let mut storage = Storage::new();
    let c = RespValue::SimpleString(b"PING".to_vec());
    assert_eq!(run(&c, &mut storage, 0), b"-ERR Invalid command format\r\n".to_vec());
}
