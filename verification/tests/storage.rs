//! Keyspace tests against the storage engine directly.

use resp_kv::storage::{StoreError, ValueKind};
use resp_kv::Storage;

#[test]
fn set_and_get_success() {
    let mut storage = Storage::new();
    storage.set(b"key".to_vec(), b"value".to_vec());
    assert_eq!(storage.get(b"key", 0), Ok(Some(b"value".to_vec())));
}

#[test]
fn test_get_non_exist() {
    let mut storage = Storage::new();
    assert_eq!(storage.get(b"key-nonexistent", 0), Ok(None));
}

#[test]
fn test_delete() {
    let mut storage = Storage::new();
    storage.set(b"key".to_vec(), b"value".to_vec());
    assert!(storage.delete(b"key", 0));
    assert_eq!(storage.get(b"key", 0), Ok(None));
}

#[test]
fn test_get_expired_returns_none() {
    let mut storage = Storage::new();
    storage.set_ex(b"key".to_vec(), b"value".to_vec(), 1, 0);
    assert_eq!(storage.get(b"key", 1100), Ok(None));
}

#[test]
fn test_get_non_expired() {
    let mut storage = Storage::new();
    storage.set_ex(b"key".to_vec(), b"value".to_vec(), 100, 0);
    assert_eq!(storage.get(b"key", 0), Ok(Some(b"value".to_vec())));
}

#[test]
fn test_get_at_deadline_returns_none() {
    let mut storage = Storage::new();
    storage.set_ex(b"key".to_vec(), b"value".to_vec(), 1, 0);
    assert_eq!(storage.get(b"key", 999), Ok(Some(b"value".to_vec())));
    assert_eq!(storage.get(b"key", 1000), Ok(None));
}

#[test]
fn test_rpush_list_not_exist() {
    let mut storage = Storage::new();
    let result = storage.rpush(
        b"my_list".to_vec(),
        vec![b"first".to_vec(), b"second".to_vec()],
        0,
    );
    assert_eq!(result, Ok(2))
}

#[test]
fn test_rpush_list_exist() {
    let mut storage = Storage::new();
    storage.rpush(b"my_list".to_vec(), vec![b"first".to_vec()], 0).unwrap();
    let result = storage.rpush(
        b"my_list".to_vec(),
        vec![b"second".to_vec(), b"third".to_vec()],
        0,
    );
    assert_eq!(result, Ok(3))
}

#[test]
fn test_rpush_wrong_type() {
    let mut storage = Storage::new();
    storage.set(b"key".to_vec(), b"value".to_vec());
    let err = storage.rpush(
        b"key".to_vec(),
        vec![b"first".to_vec(), b"second".to_vec()],
        0,
    );
    assert_eq!(err, Err(StoreError::WrongType))
}

#[test]
fn test_lrange_works() {
    let mut storage = Storage::new();
    let _list = storage.rpush(
        b"my_list".to_vec(),
        vec![b"first".to_vec(), b"second".to_vec()],
        0,
    );
    let result = storage.lrange(b"my_list", 0, 0, 0);
    assert_eq!(result, Ok(vec![b"first".to_vec()]))
}

#[test]
fn test_lrange_works_multiple_values() {
    let mut storage = Storage::new();
    let _list = storage.rpush(
        b"my_list".to_vec(),
        vec![b"first".to_vec(), b"second".to_vec(), b"third".to_vec()],
        0,
    );
    let result = storage.lrange(b"my_list", 0, 2, 0);
    assert_eq!(
        result,
        Ok(vec![b"first".to_vec(), b"second".to_vec(), b"third".to_vec()])
    )
}

#[test]
fn test_lrange_returns_empty_array_if_list_doesnt_exist() {
    let mut storage = Storage::new();
    let result = storage.lrange(b"my_list", 0, 1, 0);
    assert_eq!(result, Ok(vec![]))
}

#[test]
fn test_lrange_returns_empty_array_if_start_pos_is_bigger_than_stop_pos() {
    let mut storage = Storage::new();
    let _list = storage.rpush(
        b"my_list".to_vec(),
        vec![b"first".to_vec(), b"second".to_vec()],
        0,
    );
    let result = storage.lrange(b"my_list", 5, 0, 0);
    assert_eq!(result, Ok(vec![]))
}

#[test]
fn test_lrange_returns_empty_array_if_start_pos_is_bigger_than_list_len() {
    let mut storage = Storage::new();
    let _list = storage.rpush(
        b"my_list".to_vec(),
        vec![b"first".to_vec(), b"second".to_vec()],
        0,
    );
    let result = storage.lrange(b"my_list", 2, 5, 0);
    assert_eq!(result, Ok(vec![]))
}

#[test]
fn test_lrange_stop_pos_is_last_if_stop_is_bigger_than_list_len() {
    let mut storage = Storage::new();
    let _list = storage.rpush(
        b"my_list".to_vec(),
        vec![b"first".to_vec(), b"second".to_vec()],
        0,
    );
    let result = storage.lrange(b"my_list", 0, 5, 0);
    assert_eq!(result, Ok(vec![b"first".to_vec(), b"second".to_vec()]))
}

#[test]
fn test_lrange_doest_work_for_maps() {
    let mut storage = Storage::new();
    storage.set(b"key".to_vec(), b"value".to_vec());
    let err = storage.lrange(b"key", 0, 0, 0);
    assert_eq!(err, Err(StoreError::WrongType))
}

#[test]
fn test_lrange_negative_positions_count_from_the_end() {
    let mut storage = Storage::new();
    storage
        .rpush(
            b"l".to_vec(),
            vec![b"a".to_vec(), b"b".to_vec(), b"c".to_vec(), b"d".to_vec()],
            0,
        )
        .unwrap();
    assert_eq!(
        storage.lrange(b"l", -2, -1, 0),
        Ok(vec![b"c".to_vec(), b"d".to_vec()])
    );
    assert_eq!(
        storage.lrange(b"l", -100, 1, 0),
        Ok(vec![b"a".to_vec(), b"b".to_vec()])
    );
}

#[test]
fn test_lpush_prepends_in_reverse_order() {
    let mut storage = Storage::new();
    storage
        .lpush(b"l".to_vec(), vec![b"a".to_vec(), b"b".to_vec()], 0)
        .unwrap();
    assert_eq!(
        storage.lrange(b"l", 0, -1, 0),
        Ok(vec![b"b".to_vec(), b"a".to_vec()])
    );
}

#[test]
fn test_llen_matches_lrange_full_count() {
    let mut storage = Storage::new();
    storage
        .rpush(
            b"l".to_vec(),
            vec![b"a".to_vec(), b"b".to_vec(), b"c".to_vec()],
            0,
        )
        .unwrap();
    let len = storage.llen(b"l", 0).unwrap();
    let all = storage.lrange(b"l", 0, -1, 0).unwrap();
    assert_eq!(len, all.len());
    assert_eq!(storage.llen(b"missing", 0), Ok(0));
}

#[test]
fn test_lpop_that_empties_removes_the_key() {
    let mut storage = Storage::new();
    storage.rpush(b"l".to_vec(), vec![b"only".to_vec()], 0).unwrap();
    assert_eq!(storage.lpop(b"l", 0), Ok(Some(b"only".to_vec())));
    assert!(!storage.key_exists(b"l", 0));
    assert_eq!(storage.type_of(b"l", 0), ValueKind::Missing);
}

#[test]
fn test_set_overwrites_any_kind_and_drops_expiry() {
    let mut storage = Storage::new();
    storage.rpush(b"k".to_vec(), vec![b"x".to_vec()], 0).unwrap();
    storage.set(b"k".to_vec(), b"v".to_vec());
    assert_eq!(storage.type_of(b"k", 0), ValueKind::Str);
    storage.set_ex(b"k".to_vec(), b"v".to_vec(), 1, 0);
    storage.set(b"k".to_vec(), b"w".to_vec());
    assert_eq!(storage.get(b"k", 5000), Ok(Some(b"w".to_vec())));
}

#[test]
fn test_set_px_deadline_is_in_milliseconds() {
    let mut storage = Storage::new();
    storage.set_px(b"k".to_vec(), b"v".to_vec(), 50, 0);
    assert_eq!(storage.get(b"k", 49), Ok(Some(b"v".to_vec())));
    assert_eq!(storage.get(b"k", 50), Ok(None));
}

#[test]
fn test_delete_of_an_expired_key_reports_absent() {
    let mut storage = Storage::new();
    storage.set_ex(b"k".to_vec(), b"v".to_vec(), 1, 0);
    assert!(!storage.delete(b"k", 5000));
    assert!(!storage.key_exists(b"k", 5000));
}

#[test]
fn test_key_exists_respects_expiry() {
    let mut storage = Storage::new();
    storage.set_ex(b"k".to_vec(), b"v".to_vec(), 1, 0);
    assert!(storage.key_exists(b"k", 500));
    assert!(!storage.key_exists(b"k", 1000));
}
