use logkv::index::Index;
use logkv::store::Store;
use logkv::codec::decode_key_val;
use logkv::{DbError, KeyVal};

/// The two logs of a store, held in memory.
struct Logs {
    data: Vec<u8>,
    index: Vec<u8>,
}

fn put(store: &mut Store, logs: &mut Logs, key: &[u8], val: &[u8]) -> u64 {
    let plan = store.plan_put(key, val).unwrap();
    assert_eq!(plan.offset, logs.data.len() as u64);
    logs.index.extend_from_slice(&plan.index_line);
    store.commit_put(key.to_vec(), &plan);
    logs.data.extend_from_slice(&plan.data_line);
    assert_eq!(store.next_offset(), logs.data.len() as u64);
    plan.offset
}

fn get(store: &Store, logs: &Logs, key: &[u8]) -> Result<KeyVal, DbError> {
    let offset = store.lookup(key)? as usize;
    let rest = &logs.data[offset..];
    let end = rest.iter().position(|b| *b == b'\n').map(|i| i + 1).unwrap_or(rest.len());
    decode_key_val(&rest[..end])
}

fn write_three(store: &mut Store, logs: &mut Logs) {
    put(store, logs, b"Hello", b"World");
    put(store, logs, b"Name", b"Aziz");
    put(store, logs, b"Age", b"25");
}

#[test]
fn write_content() {
    let mut logs = Logs { data: Vec::new(), index: Vec::new() };
    let mut db = Store::new();
    write_three(&mut db, &mut logs);

    let kv = get(&db, &logs, b"Hello").unwrap();
    assert_eq!(kv.val, b"World".to_vec());
    let kv = get(&db, &logs, b"Name").unwrap();
    assert_eq!(kv.val, b"Aziz".to_vec());
    let kv = get(&db, &logs, b"Age").unwrap();
    assert_eq!(String::from_utf8(kv.val).unwrap(), "25");
}

#[test]
fn get_content() {
    let mut logs = Logs { data: Vec::new(), index: Vec::new() };
    let mut first = Store::new();
    write_three(&mut first, &mut logs);

    let db = Store::recover(&logs.index, logs.data.len() as u64).unwrap();
    let kv = get(&db, &logs, b"Hello").unwrap();
    assert_eq!(kv.val, b"World".to_vec());
    let kv = get(&db, &logs, b"Name").unwrap();
    assert_eq!(kv.val, b"Aziz".to_vec());
    let kv = get(&db, &logs, b"Age").unwrap();
    assert_eq!(String::from_utf8(kv.val).unwrap(), "25");
}

#[test]
fn reopened_store_appends_after_existing_records() {
    let mut logs = Logs { data: Vec::new(), index: Vec::new() };
    let mut first = Store::new();
    write_three(&mut first, &mut logs);
    let len = logs.data.len() as u64;

    let mut second = Store::recover(&logs.index, len).unwrap();
    assert_eq!(second.next_offset(), len);
    assert_eq!(put(&mut second, &mut logs, b"City", b"Paris"), len);
    assert_eq!(get(&second, &logs, b"Hello").unwrap().val, b"World".to_vec());
    assert_eq!(get(&second, &logs, b"City").unwrap().val, b"Paris".to_vec());

    let third = Store::recover(&logs.index, logs.data.len() as u64).unwrap();
    assert_eq!(get(&third, &logs, b"Age").unwrap().val, b"25".to_vec());
    assert_eq!(get(&third, &logs, b"City").unwrap().val, b"Paris".to_vec());
}

#[test]
fn put_then_get_returns_binary_value() {
    let mut logs = Logs { data: Vec::new(), index: Vec::new() };
    let mut db = Store::new();
    let key = vec![0u8, 10, 255];
    let val = vec![10u8, 0, 0, 13, 10, 200];
    put(&mut db, &mut logs, &key, &val);
    let kv = get(&db, &logs, &key).unwrap();
    assert_eq!(kv.key, key);
    assert_eq!(kv.val, val);
}

#[test]
fn last_write_wins() {
    let mut logs = Logs { data: Vec::new(), index: Vec::new() };
    let mut db = Store::new();
    put(&mut db, &mut logs, b"k", b"v1");
    put(&mut db, &mut logs, b"other", b"x");
    put(&mut db, &mut logs, b"k", b"v2");
    put(&mut db, &mut logs, b"k", b"v3");
    assert_eq!(get(&db, &logs, b"k").unwrap().val, b"v3".to_vec());
    assert_eq!(get(&db, &logs, b"other").unwrap().val, b"x".to_vec());

    let again = Store::recover(&logs.index, logs.data.len() as u64).unwrap();
    assert_eq!(get(&again, &logs, b"k").unwrap().val, b"v3".to_vec());
}

#[test]
fn unknown_key_is_not_found() {
    let mut logs = Logs { data: Vec::new(), index: Vec::new() };
    let mut db = Store::new();
    assert_eq!(get(&db, &logs, b"missing").err(), Some(DbError::NotFound));
    put(&mut db, &mut logs, b"present", b"1");
    assert_eq!(db.lookup(b"missing"), Err(DbError::NotFound));
    assert_eq!(db.lookup(b"present"), Ok(0));
}

#[test]
fn offsets_increase() {
    let mut logs = Logs { data: Vec::new(), index: Vec::new() };
    let mut db = Store::new();
    let a = put(&mut db, &mut logs, b"a", b"1");
    let b = put(&mut db, &mut logs, b"a", b"1");
    let c = put(&mut db, &mut logs, b"b", b"");
    assert_eq!(a, 0);
    assert_eq!(b, 24);
    assert!(a < b && b < c);
    assert_eq!(c, 48);
}

#[test]
fn replaying_twice_gives_the_same_index() {
    let mut logs = Logs { data: Vec::new(), index: Vec::new() };
    let mut db = Store::new();
    write_three(&mut db, &mut logs);
    put(&mut db, &mut logs, b"Name", b"Zed");
    let one = Store::recover(&logs.index, 7).unwrap();
    let two = Store::recover(&logs.index, 7).unwrap();
    for key in [&b"Hello"[..], b"Name", b"Age", b"none"] {
        assert_eq!(one.lookup(key), two.lookup(key));
        assert_eq!(one.lookup(key), db.lookup(key));
    }
}

#[test]
fn recover_from_empty_log() {
    let db = Store::recover(b"", 0).unwrap();
    assert_eq!(db.next_offset(), 0);
    assert_eq!(db.lookup(b"x"), Err(DbError::NotFound));
}

#[test]
fn recover_rejects_malformed_index_log() {
    assert_eq!(Store::recover(b"garbage\n", 0).err(), Some(DbError::Decode));
    let mut logs = Logs { data: Vec::new(), index: Vec::new() };
    let mut db = Store::new();
    put(&mut db, &mut logs, b"a", b"1");
    let mut cut = logs.index.clone();
    cut.pop();
    assert_eq!(Store::recover(&cut, 0).err(), Some(DbError::Decode));
    assert!(Store::recover(&logs.index, 0).is_ok());
}

#[test]
fn put_refuses_to_outgrow_offsets() {
    let db = Store::recover(b"", u64::MAX - 10).unwrap();
    assert_eq!(db.plan_put(b"a", b"b").err(), Some(DbError::Encode));
    let db = Store::recover(b"", u64::MAX - 24).unwrap();
    assert_eq!(db.plan_put(b"a", b"b").unwrap().offset, u64::MAX - 24);
}

#[test]
fn index_overwrites_and_looks_up() {
    let mut index = Index::new();
    assert_eq!(index.lookup(b"k"), None);
    index.upsert(b"k".to_vec(), 5);
    index.upsert(b"j".to_vec(), 9);
    index.upsert(b"k".to_vec(), 12);
    assert_eq!(index.lookup(b"k"), Some(12));
    assert_eq!(index.lookup(b"j"), Some(9));
    assert_eq!(index.lookup(b"q"), None);
}
