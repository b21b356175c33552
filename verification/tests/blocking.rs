//! Blocking-pop coordination tests, driven as the embedding program would
//! drive them: one step per command, deliveries performed by hand.

use resp_kv::command::{blpop_delivery_reply, handle_command, Step};
use resp_kv::storage::Storage;
use resp_kv::waiters::WaiterQueue;
use resp_kv::RespValue;

fn bulk(b: &[u8]) -> RespValue {
    RespValue::BulkString(Some(b.to_vec()))
}

fn cmd(parts: &[&[u8]]) -> RespValue {
    RespValue::Array(Some(parts.iter().map(|p| bulk(p)).collect()))
}

#[test]
fn test_blpop_pops_immediately_when_an_element_is_ready() {
    let mut storage = Storage::new();
    let mut waiters = WaiterQueue::new();
    handle_command(&cmd(&[b"RPUSH", b"L", b"x"]), &mut storage, &mut waiters, 0);
    let (step, dels) = handle_command(
        &cmd(&[b"BLPOP", b"L", b"0"]),
        &mut storage,
        &mut waiters,
        0,
    );
    assert_eq!(step, Step::Reply(b"*2\r\n$1\r\nL\r\n$1\r\nx\r\n".to_vec()));
    assert!(dels.is_empty());
}

#[test]
fn test_blpop_then_rpush_delivers_to_the_waiter() {
    let mut storage = Storage::new();
    let mut waiters = WaiterQueue::new();
    let (step, _) = handle_command(
        &cmd(&[b"BLPOP", b"L", b"0"]),
        &mut storage,
        &mut waiters,
        0,
    );
    let id = match step {
        Step::Block(id, deadline) => {
            assert_eq!(deadline, None);
            id
        }
        other => panic!("expected to block, got {:?}", other),
    };
    let (step, dels) = handle_command(
        &cmd(&[b"RPUSH", b"L", b"hello"]),
        &mut storage,
        &mut waiters,
        100,
    );
    assert_eq!(step, Step::Reply(b":1\r\n".to_vec()));
    assert_eq!(dels.len(), 1);
    assert_eq!(dels[0].waiter_id, id);
    assert_eq!(dels[0].key, b"L".to_vec());
    assert_eq!(dels[0].value, b"hello".to_vec());
    assert_eq!(
        blpop_delivery_reply(&dels[0]),
        b"*2\r\n$1\r\nL\r\n$5\r\nhello\r\n".to_vec()
    );
    // the delivered element never becomes visible to a later range read
    let (step, _) = handle_command(
        &cmd(&[b"LRANGE", b"L", b"0", b"-1"]),
        &mut storage,
        &mut waiters,
        200,
    );
    assert_eq!(step, Step::Reply(b"*0\r\n".to_vec()));
}

#[test]
fn test_fifo_two_waiters_get_elements_in_order() {
    let mut storage = Storage::new();
    let mut waiters = WaiterQueue::new();
    let (s1, _) = handle_command(&cmd(&[b"BLPOP", b"k", b"0"]), &mut storage, &mut waiters, 0);
    let (s2, _) = handle_command(&cmd(&[b"BLPOP", b"k", b"0"]), &mut storage, &mut waiters, 0);
    let id1 = match s1 {
        Step::Block(id, _) => id,
        other => panic!("unexpected: {:?}", other),
    };
    let id2 = match s2 {
        Step::Block(id, _) => id,
        other => panic!("unexpected: {:?}", other),
    };
    let (step, dels) = handle_command(
        &cmd(&[b"RPUSH", b"k", b"a", b"b"]),
        &mut storage,
        &mut waiters,
        10,
    );
    assert_eq!(step, Step::Reply(b":2\r\n".to_vec()));
    assert_eq!(dels.len(), 2);
    assert_eq!(dels[0].waiter_id, id1);
    assert_eq!(dels[0].value, b"a".to_vec());
    assert_eq!(dels[1].waiter_id, id2);
    assert_eq!(dels[1].value, b"b".to_vec());
}

#[test]
fn test_blpop_timeout_sets_a_deadline_and_removal_is_idempotent() {
    let mut storage = Storage::new();
    let mut waiters = WaiterQueue::new();
    let (step, _) = handle_command(
        &cmd(&[b"BLPOP", b"k", b"1.5"]),
        &mut storage,
        &mut waiters,
        1000,
    );
    let id = match step {
        Step::Block(id, deadline) => {
            assert_eq!(deadline, Some(2500));
            id
        }
        other => panic!("expected to block, got {:?}", other),
    };
    // the deadline passes: the waiter removes itself, exactly once
    assert!(waiters.remove_by_id(id));
    assert!(!waiters.remove_by_id(id));
}

#[test]
fn test_push_after_timeout_keeps_the_element() {
    let mut storage = Storage::new();
    let mut waiters = WaiterQueue::new();
    let (step, _) = handle_command(
        &cmd(&[b"BLPOP", b"k", b"0.1"]),
        &mut storage,
        &mut waiters,
        0,
    );
    let id = match step {
        Step::Block(id, _) => id,
        other => panic!("unexpected: {:?}", other),
    };
    assert!(waiters.remove_by_id(id));
    let (step, dels) = handle_command(
        &cmd(&[b"RPUSH", b"k", b"late"]),
        &mut storage,
        &mut waiters,
        200,
    );
    assert_eq!(step, Step::Reply(b":1\r\n".to_vec()));
    assert!(dels.is_empty());
    let (step, _) = handle_command(
        &cmd(&[b"LRANGE", b"k", b"0", b"-1"]),
        &mut storage,
        &mut waiters,
        300,
    );
    assert_eq!(step, Step::Reply(b"*1\r\n$4\r\nlate\r\n".to_vec()));
}

#[test]
fn test_blpop_wrong_kind_refuses_without_waiting() {
    let mut storage = Storage::new();
    let mut waiters = WaiterQueue::new();
    handle_command(&cmd(&[b"SET", b"s", b"v"]), &mut storage, &mut waiters, 0);
    let (step, _) = handle_command(
        &cmd(&[b"BLPOP", b"empty", b"s", b"0"]),
        &mut storage,
        &mut waiters,
        0,
    );
    assert_eq!(
        step,
        Step::Reply(
            b"-WRONGTYPE Operation against a key holding the wrong kind of value\r\n".to_vec()
        )
    );
}

#[test]
fn test_blpop_rejects_a_bad_timeout() {
    let mut storage = Storage::new();
    let mut waiters = WaiterQueue::new();
    let (step, _) = handle_command(
        &cmd(&[b"BLPOP", b"k", b"soon"]),
        &mut storage,
        &mut waiters,
        0,
    );
    assert_eq!(
        step,
        Step::Reply(b"-ERR timeout is not a float or out of range\r\n".to_vec())
    );
    let (step, _) = handle_command(
        &cmd(&[b"BLPOP", b"k", b"-1"]),
        &mut storage,
        &mut waiters,
        0,
    );
    assert_eq!(
        step,
        Step::Reply(b"-ERR timeout is not a float or out of range\r\n".to_vec())
    );
}
