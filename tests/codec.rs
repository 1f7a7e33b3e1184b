use logkv::codec::{decode_key_offset, decode_key_val, encode_key_offset, encode_key_val};
use logkv::{DbError, KeyOffset, KeyVal};

fn kv(key: &[u8], val: &[u8]) -> KeyVal {
    KeyVal::new(key.to_vec(), val.to_vec())
}

#[test]
fn record_line_is_exact() {
    let line = encode_key_val(&kv(b"Hello", b"World"));
    assert_eq!(line, b"{\"key\":\"48656c6c6f\",\"val\":\"576f726c64\"}\n".to_vec());
}

#[test]
fn index_line_is_exact() {
    let ko = KeyOffset { key: b"Age".to_vec(), offset: 25 };
    let line = encode_key_offset(&ko);
    assert_eq!(line, b"{\"key\":\"416765\",\"offset\":25}\n".to_vec());
}

#[test]
fn index_line_of_zero_offset() {
    let ko = KeyOffset { key: Vec::new(), offset: 0 };
    assert_eq!(encode_key_offset(&ko), b"{\"key\":\"\",\"offset\":0}\n".to_vec());
}

#[test]
fn record_round_trips_arbitrary_bytes() {
    let key = vec![0u8, 10, 13, 34, 92, 255, 128];
    let val: Vec<u8> = (0..=255u8).collect();
    let line = encode_key_val(&kv(&key, &val));
    assert_eq!(line.iter().filter(|b| **b == b'\n').count(), 1);
    assert_eq!(*line.last().unwrap(), b'\n');
    let back = decode_key_val(&line).unwrap();
    assert_eq!(back.key, key);
    assert_eq!(back.val, val);
}

#[test]
fn record_round_trips_empty_key_and_value() {
    let line = encode_key_val(&kv(b"", b""));
    assert_eq!(line, b"{\"key\":\"\",\"val\":\"\"}\n".to_vec());
    let back = decode_key_val(&line).unwrap();
    assert!(back.key.is_empty());
    assert!(back.val.is_empty());
}

#[test]
fn index_entry_round_trips_largest_offset() {
    let ko = KeyOffset { key: b"k".to_vec(), offset: u64::MAX };
    let line = encode_key_offset(&ko);
    assert_eq!(line, b"{\"key\":\"6b\",\"offset\":18446744073709551615}\n".to_vec());
    let back = decode_key_offset(&line).unwrap();
    assert_eq!(back.key, b"k".to_vec());
    assert_eq!(back.offset, u64::MAX);
}

#[test]
fn record_decode_rejects_truncated_line() {
    let line = encode_key_val(&kv(b"Name", b"Aziz"));
    let cut = &line[..line.len() - 1];
    assert_eq!(decode_key_val(cut).err(), Some(DbError::Decode));
    assert_eq!(decode_key_val(&line[..5]).err(), Some(DbError::Decode));
    assert_eq!(decode_key_val(b"").err(), Some(DbError::Decode));
}

#[test]
fn record_decode_rejects_uppercase_and_odd_hex() {
    assert_eq!(
        decode_key_val(b"{\"key\":\"4A\",\"val\":\"00\"}\n").err(),
        Some(DbError::Decode)
    );
    assert_eq!(
        decode_key_val(b"{\"key\":\"4\",\"val\":\"00\"}\n").err(),
        Some(DbError::Decode)
    );
    assert_eq!(
        decode_key_val(b"{\"key\":\"4a\",\"val\":\"00\"}\n").unwrap().key,
        vec![0x4a]
    );
}

#[test]
fn record_decode_rejects_index_line() {
    let line = encode_key_offset(&KeyOffset { key: b"a".to_vec(), offset: 3 });
    assert_eq!(decode_key_val(&line).err(), Some(DbError::Decode));
}

#[test]
fn index_decode_rejects_bad_offsets() {
    assert_eq!(
        decode_key_offset(b"{\"key\":\"61\",\"offset\":07}\n").err(),
        Some(DbError::Decode)
    );
    assert_eq!(
        decode_key_offset(b"{\"key\":\"61\",\"offset\":18446744073709551616}\n").err(),
        Some(DbError::Decode)
    );
    assert_eq!(
        decode_key_offset(b"{\"key\":\"61\",\"offset\":}\n").err(),
        Some(DbError::Decode)
    );
    assert_eq!(
        decode_key_offset(b"{\"key\":\"61\",\"offset\":1x}\n").err(),
        Some(DbError::Decode)
    );
    assert_eq!(
        decode_key_offset(b"{\"key\":\"61\",\"offset\":7}\n").unwrap().offset,
        7
    );
}

#[test]
fn lines_are_json_objects() {
    let line = encode_key_val(&kv(b"Hello", b"World"));
    let v: serde_json::Value = serde_json::from_slice(&line[..line.len() - 1]).unwrap();
    assert_eq!(v["key"].as_str(), Some("48656c6c6f"));
    assert_eq!(v["val"].as_str(), Some("576f726c64"));
    let line = encode_key_offset(&KeyOffset { key: b"Hello".to_vec(), offset: 42 });
    let v: serde_json::Value = serde_json::from_slice(&line[..line.len() - 1]).unwrap();
    assert_eq!(v["offset"].as_u64(), Some(42));
}
