//! Stream command tests: appends, ranges, and reads after an id.

use resp_kv::command::{handle_command, Step};
use resp_kv::storage::{IdSpec, Storage, StoreError};
use resp_kv::waiters::WaiterQueue;
use resp_kv::RespValue;

fn bulk(b: &[u8]) -> RespValue {
    RespValue::BulkString(Some(b.to_vec()))
}

fn cmd(parts: &[&[u8]]) -> RespValue {
    RespValue::Array(Some(parts.iter().map(|p| bulk(p)).collect()))
}

fn run(v: &RespValue, storage: &mut Storage, now: u64) -> Vec<u8> {
    let mut waiters = WaiterQueue::new();
    match handle_command(v, storage, &mut waiters, now) {
        (Step::Reply(b), _) => b,
        _ => panic!("expected a reply"),
    }
}

#[test]
fn test_xadd_returns_the_explicit_id() {
    let mut storage = Storage::new();
    let c = cmd(&[b"XADD", b"S", b"0-1", b"f", b"v"]);
    assert_eq!(run(&c, &mut storage, 0), b"$3\r\n0-1\r\n".to_vec());
}

#[test]
fn test_xadd_rejects_the_zero_id() {
    let mut storage = Storage::new();
    run(&cmd(&[b"XADD", b"S", b"0-1", b"f", b"v"]), &mut storage, 0);
    let c = cmd(&[b"XADD", b"S", b"0-0", b"f", b"v"]);
    assert_eq!(
        run(&c, &mut storage, 0),
        b"-ERR The ID specified in XADD must be greater than 0-0\r\n".to_vec()
    );
}

#[test]
fn test_xadd_rejects_an_id_at_or_below_the_top() {
    let mut storage = Storage::new();
    run(&cmd(&[b"XADD", b"S", b"5-5", b"f", b"v"]), &mut storage, 0);
    for id in [&b"5-5"[..], &b"5-4"[..], &b"4-9"[..]] {
        let c = cmd(&[b"XADD", b"S", id, b"f", b"v"]);
        assert_eq!(
            run(&c, &mut storage, 0),
            b"-ERR The ID specified in XADD is equal or smaller than the target stream top item\r\n"
                .to_vec()
        );
    }
}

#[test]
fn test_xadd_auto_id_exceeds_all_stored_ids() {
    let mut storage = Storage::new();
    run(&cmd(&[b"XADD", b"S", b"*", b"f", b"v"]), &mut storage, 7);
    // same clock millisecond: the sequence number advances
    assert_eq!(
        run(&cmd(&[b"XADD", b"S", b"*", b"f", b"v"]), &mut storage, 7),
        b"$3\r\n7-1\r\n".to_vec()
    );
    // a later millisecond starts at sequence zero
    assert_eq!(
        run(&cmd(&[b"XADD", b"S", b"*", b"f", b"v"]), &mut storage, 9),
        b"$3\r\n9-0\r\n".to_vec()
    );
}

#[test]
fn test_xadd_rejects_odd_field_arguments() {
    let mut storage = Storage::new();
    let c = cmd(&[b"XADD", b"S", b"1-1", b"f", b"v", b"orphan"]);
    assert_eq!(
        run(&c, &mut storage, 0),
        b"-ERR wrong number of arguments for 'XADD' command\r\n".to_vec()
    );
}

#[test]
fn test_xadd_rejects_a_malformed_id() {
    let mut storage = Storage::new();
    let c = cmd(&[b"XADD", b"S", b"abc", b"f", b"v"]);
    assert_eq!(
        run(&c, &mut storage, 0),
        b"-ERR Invalid stream ID specified as stream command argument\r\n".to_vec()
    );
}

#[test]
fn test_xrange_returns_the_inclusive_range_in_order() {
    let mut storage = Storage::new();
    run(&cmd(&[b"XADD", b"S", b"1-1", b"a", b"1"]), &mut storage, 0);
    run(&cmd(&[b"XADD", b"S", b"2-1", b"b", b"2"]), &mut storage, 0);
    run(&cmd(&[b"XADD", b"S", b"3-1", b"c", b"3"]), &mut storage, 0);
    let c = cmd(&[b"XRANGE", b"S", b"1-1", b"2-9"]);
    assert_eq!(
        run(&c, &mut storage, 0),
        b"*2\r\n\
          *2\r\n$3\r\n1-1\r\n*2\r\n$1\r\na\r\n$1\r\n1\r\n\
          *2\r\n$3\r\n2-1\r\n*2\r\n$1\r\nb\r\n$1\r\n2\r\n"
            .to_vec()
    );
}

#[test]
fn test_xrange_on_an_absent_key_is_empty() {
    let mut storage = Storage::new();
    let c = cmd(&[b"XRANGE", b"S", b"0-1", b"9-9"]);
    assert_eq!(run(&c, &mut storage, 0), b"*0\r\n".to_vec());
}

#[test]
fn test_xread_returns_only_entries_above_the_id() {
    let mut storage = Storage::new();
    run(&cmd(&[b"XADD", b"S", b"1-1", b"a", b"1"]), &mut storage, 0);
    run(&cmd(&[b"XADD", b"S", b"2-1", b"b", b"2"]), &mut storage, 0);
    let c = cmd(&[b"XREAD", b"STREAMS", b"S", b"1-1"]);
    assert_eq!(
        run(&c, &mut storage, 0),
        b"*1\r\n*2\r\n$1\r\nS\r\n*1\r\n*2\r\n$3\r\n2-1\r\n*2\r\n$1\r\nb\r\n$1\r\n2\r\n".to_vec()
    );
}

#[test]
fn test_xread_omits_streams_with_nothing_new() {
    let mut storage = Storage::new();
    run(&cmd(&[b"XADD", b"S", b"1-1", b"a", b"1"]), &mut storage, 0);
    run(&cmd(&[b"XADD", b"T", b"5-1", b"b", b"2"]), &mut storage, 0);
    let c = cmd(&[b"XREAD", b"STREAMS", b"S", b"T", b"1-1", b"4-0"]);
    assert_eq!(
        run(&c, &mut storage, 0),
        b"*1\r\n*2\r\n$1\r\nT\r\n*1\r\n*2\r\n$3\r\n5-1\r\n*2\r\n$1\r\nb\r\n$1\r\n2\r\n".to_vec()
    );
    let none = cmd(&[b"XREAD", b"STREAMS", b"S", b"9-9"]);
    assert_eq!(run(&none, &mut storage, 0), b"*0\r\n".to_vec());
}

#[test]
fn test_xread_requires_the_streams_token() {
    let mut storage = Storage::new();
    let c = cmd(&[b"XREAD", b"COUNT", b"S", b"0-0"]);
    assert_eq!(run(&c, &mut storage, 0), b"-ERR syntax error\r\n".to_vec());
}

#[test]
fn test_stream_commands_refuse_other_kinds() {
    let mut storage = Storage::new();
    run(&cmd(&[b"SET", b"k", b"v"]), &mut storage, 0);
    let wrongtype =
        b"-WRONGTYPE Operation against a key holding the wrong kind of value\r\n".to_vec();
    assert_eq!(
        run(&cmd(&[b"XADD", b"k", b"1-1", b"f", b"v"]), &mut storage, 0),
        wrongtype
    );
    assert_eq!(
        run(&cmd(&[b"XRANGE", b"k", b"0-0", b"9-9"]), &mut storage, 0),
        wrongtype
    );
    assert_eq!(
        run(&cmd(&[b"XREAD", b"STREAMS", b"k", b"0-0"]), &mut storage, 0),
        wrongtype
    );
}

#[test]
fn test_storage_xadd_and_xrange_directly() {
    let mut storage = Storage::new();
    assert_eq!(
        storage.xadd(b"S".to_vec(), IdSpec::Explicit(1, 1), vec![(b"f".to_vec(), b"v".to_vec())], 0),
        Ok((1, 1))
    );
    assert_eq!(
        storage.xadd(b"S".to_vec(), IdSpec::Explicit(1, 1), vec![(b"f".to_vec(), b"v".to_vec())], 0),
        Err(StoreError::IdNotGreater)
    );
    assert_eq!(
        storage.xadd(b"S".to_vec(), IdSpec::Explicit(0, 0), vec![(b"f".to_vec(), b"v".to_vec())], 0),
        Err(StoreError::IdZero)
    );
    assert_eq!(
        storage.xadd(b"S".to_vec(), IdSpec::Auto, vec![(b"g".to_vec(), b"w".to_vec())], 1),
        Ok((1, 2))
    );
    let entries = storage.xrange(b"S", (1, 1), (1, 2), 0).unwrap();
    assert_eq!(entries.len(), 2);
    assert_eq!((entries[0].ms, entries[0].seq), (1, 1));
    assert_eq!((entries[1].ms, entries[1].seq), (1, 2));
    assert_eq!(entries[1].fields, vec![(b"g".to_vec(), b"w".to_vec())]);
}

#[test]
fn test_storage_xread_ascending_and_filtered() {
    let mut storage = Storage::new();
    for seq in 1..=4u64 {
        storage
            .xadd(b"S".to_vec(), IdSpec::Explicit(1, seq), vec![(b"f".to_vec(), vec![seq as u8])], 0)
            .unwrap();
    }
    let out = storage.xread(&vec![b"S".to_vec()], &vec![(1, 2)], 0).unwrap();
    assert_eq!(out.len(), 1);
    let (name, entries) = &out[0];
    assert_eq!(name, &b"S".to_vec());
    let ids: Vec<(u64, u64)> = entries.iter().map(|e| (e.ms, e.seq)).collect();
    assert_eq!(ids, vec![(1, 3), (1, 4)]);
}
