use ledger_storage::codec::{
    decode_blob, decode_time, decode_u64, encode_blob, encode_time, encode_u64, DateTimeUtc,
};
use ledger_storage::key::{split_segments, Address, Key, KeyError};
use ledger_storage::mockdb::MockDB;
use ledger_storage::types::{decimal_string, BlockHeight, BlockState, Error};

fn key_of(parts: &[&str]) -> Key {
    let mut k = Key::empty();
    for p in parts {
        k = k.push(&p.to_string()).unwrap();
    }
    k
}

fn sample_state(height: u64, subspaces: Vec<(Key, Vec<u8>)>) -> BlockState {
    BlockState {
        root: vec![1, 2, 3],
        store: vec![4, 5],
        hash: vec![9; 32],
        height: BlockHeight(height),
        epoch: 7,
        epoch_start_height: BlockHeight(height.saturating_sub(1)),
        epoch_start_time: DateTimeUtc { secs: 1_600_000_000, nanos: 250 },
        subspaces,
        address_gen: vec![42],
    }
}

fn sorted_subspaces(st: &BlockState) -> Vec<(String, Vec<u8>)> {
    let mut v: Vec<(String, Vec<u8>)> = st
        .subspaces
        .iter()
        .map(|(k, v)| (k.to_string(), v.clone()))
        .collect();
    v.sort();
    v
}

#[test]
fn codec_round_trip_u64() {
    for v in [0u64, 1, 255, 256, u64::MAX] {
        let e = encode_u64(v);
        assert_eq!(e.len(), 8);
        assert_eq!(decode_u64(&e).unwrap(), v);
    }
    assert_eq!(encode_u64(258), vec![2, 1, 0, 0, 0, 0, 0, 0]);
    assert!(decode_u64(&[1, 2, 3]).is_err());
}

#[test]
fn codec_round_trip_blob() {
    let b = vec![10u8, 20, 30];
    let e = encode_blob(&b);
    assert_eq!(e, vec![3, 0, 0, 0, 0, 0, 0, 0, 10, 20, 30]);
    assert_eq!(decode_blob(&e).unwrap(), b);
    assert_eq!(decode_blob(&encode_blob(&[])).unwrap(), Vec::<u8>::new());
    assert!(decode_blob(&[5, 0, 0, 0, 0, 0, 0, 0, 1]).is_err());
    assert!(decode_blob(&[1, 2]).is_err());
}

#[test]
fn codec_round_trip_time() {
    let t = DateTimeUtc { secs: 1_234_567, nanos: 999 };
    let e = encode_time(t);
    assert_eq!(e.len(), 12);
    assert_eq!(decode_time(&e).unwrap(), t);
    assert!(decode_time(&e[..11]).is_err());
}

#[test]
fn key_round_trip() {
    let k = key_of(&["a", "b1", "c"]);
    let s = k.to_string();
    assert_eq!(s, "a/b1/c");
    let back = Key::parse(&s).unwrap();
    assert_eq!(back.segments, k.segments);
    let empty = Key::parse(&String::new()).unwrap();
    assert!(empty.segments.is_empty());
}

#[test]
fn key_push_rejects_invalid_segments() {
    let k = Key::empty();
    assert!(matches!(k.push(&"a/b".to_string()), Err(KeyError::InvalidSegment(_))));
    assert!(matches!(k.push(&String::new()), Err(KeyError::EmptySegment)));
    assert!(matches!(k.push(&"?".to_string()), Err(KeyError::ReservedSegment)));
    assert!(Key::parse(&"a//b".to_string()).is_err());
    assert!(Key::parse(&"#addr/?".to_string()).is_err());
}

#[test]
fn key_join_and_starts_with() {
    let a = key_of(&["a", "b"]);
    let b = key_of(&["c"]);
    let j = a.join(&b);
    assert_eq!(j.to_string(), "a/b/c");
    assert!(j.starts_with(&a));
    assert!(!a.starts_with(&j));
    assert!(!j.starts_with(&b));
}

#[test]
fn split_keeps_empty_pieces() {
    let v = split_segments("a//b/");
    assert_eq!(v, vec!["a".to_string(), String::new(), "b".to_string(), String::new()]);
}

#[test]
fn height_segments() {
    assert_eq!(decimal_string(0), "0");
    assert_eq!(decimal_string(120), "120");
    assert_eq!(BlockHeight(41).next_height(), BlockHeight(42));
    assert_eq!(BlockHeight(1234).to_db_key(), "1234");
}

#[test]
fn fresh_store_has_no_block() {
    let db = MockDB::default();
    assert!(db.flush().is_ok());
    assert!(matches!(db.read_last_block(), Ok(None)));
    assert!(matches!(db.read(BlockHeight(0), &key_of(&["a"])), Ok(None)));
}

#[test]
fn write_then_read_last_block() {
    let mut db = MockDB::new();
    let subs = vec![
        (key_of(&["b", "z"]), vec![3]),
        (key_of(&["a", "x"]), vec![1]),
        (key_of(&["a", "y"]), vec![2, 2]),
    ];
    let st = sample_state(5, subs);
    db.write_block(st.clone()).unwrap();
    let back = db.read_last_block().unwrap().unwrap();
    assert_eq!(back.root, st.root);
    assert_eq!(back.store, st.store);
    assert_eq!(back.hash, st.hash);
    assert_eq!(back.height, st.height);
    assert_eq!(back.epoch, st.epoch);
    assert_eq!(back.epoch_start_height, st.epoch_start_height);
    assert_eq!(back.epoch_start_time, st.epoch_start_time);
    assert_eq!(back.address_gen, st.address_gen);
    assert_eq!(sorted_subspaces(&back), sorted_subspaces(&st));
}

#[test]
fn stored_layout_is_exact() {
    let mut db = MockDB::new();
    db.write_block(sample_state(3, vec![(key_of(&["acct", "bal"]), vec![8])])).unwrap();
    let get = |k: &str| db.get(&k.to_string()).cloned();
    assert_eq!(get("3/tree/root"), Some(encode_blob(&[1, 2, 3])));
    assert_eq!(get("3/tree/store"), Some(encode_blob(&[4, 5])));
    assert_eq!(get("3/hash"), Some(encode_blob(&[9; 32])));
    assert_eq!(get("3/epoch"), Some(encode_u64(7)));
    assert_eq!(get("3/subspace/acct/bal"), Some(vec![8]));
    assert_eq!(get("3/address_gen"), Some(encode_blob(&[42])));
    assert_eq!(get("epoch_start_height"), Some(encode_u64(2)));
    assert_eq!(get("height"), Some(encode_u64(3)));
}

#[test]
fn read_absent_key_is_empty() {
    let mut db = MockDB::new();
    db.write_block(sample_state(4, vec![(key_of(&["a"]), vec![1])])).unwrap();
    assert!(matches!(db.read(BlockHeight(4), &key_of(&["b"])), Ok(None)));
    assert_eq!(db.read(BlockHeight(4), &key_of(&["a"])).unwrap(), Some(vec![1]));
    assert!(matches!(db.read(BlockHeight(3), &key_of(&["a"])), Ok(None)));
}

#[test]
fn later_height_keeps_history() {
    let mut db = MockDB::new();
    db.write_block(sample_state(1, vec![(key_of(&["a"]), vec![1])])).unwrap();
    db.write_block(sample_state(2, vec![(key_of(&["a"]), vec![2])])).unwrap();
    assert_eq!(db.read(BlockHeight(1), &key_of(&["a"])).unwrap(), Some(vec![1]));
    assert_eq!(db.read(BlockHeight(2), &key_of(&["a"])).unwrap(), Some(vec![2]));
    let last = db.read_last_block().unwrap().unwrap();
    assert_eq!(last.height, BlockHeight(2));
}

#[test]
fn heights_sharing_a_digit_prefix_stay_apart() {
    let mut db = MockDB::new();
    db.write_block(sample_state(10, vec![(key_of(&["t"]), vec![10])])).unwrap();
    db.write_block(sample_state(1, vec![(key_of(&["o"]), vec![1])])).unwrap();
    let last = db.read_last_block().unwrap().unwrap();
    assert_eq!(last.height, BlockHeight(1));
    assert_eq!(sorted_subspaces(&last), vec![("o".to_string(), vec![1])]);
}

#[test]
fn prefix_iteration_yields_matching_entries_in_order() {
    let mut db = MockDB::new();
    let subs = vec![
        (key_of(&["b", "z"]), vec![3]),
        (key_of(&["a", "y"]), vec![2, 2]),
        (key_of(&["a", "x"]), vec![1]),
    ];
    db.write_block(sample_state(6, subs)).unwrap();
    let mut it = db.iter_prefix(BlockHeight(6), &key_of(&["a"]));
    assert_eq!(it.next(), Some(("a/x".to_string(), vec![1], 4)));
    assert_eq!(it.next(), Some(("a/y".to_string(), vec![2, 2], 5)));
    assert_eq!(it.next(), None);
    let all = db.iter_prefix(BlockHeight(6), &Key::empty()).collect_entries();
    let keys: Vec<String> = all.iter().map(|e| e.0.clone()).collect();
    assert_eq!(keys, vec!["a/x", "a/y", "b/z"]);
    assert!(db.iter_prefix(BlockHeight(7), &Key::empty()).collect_entries().is_empty());
}

#[test]
fn validity_predicate_key_reads_back() {
    let addr = Address::decode("atest1v4ehgw36").unwrap();
    let vp = Key::validity_predicate(&addr);
    assert_eq!(vp.to_string(), "#atest1v4ehgw36/?");
    let mut db = MockDB::new();
    db.write_block(sample_state(2, vec![(vp.clone(), vec![0xAA])])).unwrap();
    let back = db.read_last_block().unwrap().unwrap();
    assert_eq!(back.subspaces.len(), 1);
    assert_eq!(back.subspaces[0].0.segments, vp.segments);
    assert_eq!(back.subspaces[0].1, vec![0xAA]);
    assert!(Address::decode("a/b").is_none());
    assert!(Address::decode("").is_none());
}

#[test]
fn missing_essential_field_is_an_error() {
    let mut db = MockDB::new();
    db.put("height".to_string(), encode_u64(3));
    db.put("epoch_start_height".to_string(), encode_u64(0));
    db.put("epoch_start_time".to_string(), encode_time(DateTimeUtc { secs: 0, nanos: 0 }));
    db.put("3/tree/root".to_string(), encode_blob(&[1]));
    assert!(matches!(db.read_last_block(), Err(Error::Temporary { .. })));
}

#[test]
fn missing_epoch_start_counts_as_no_block() {
    let mut db = MockDB::new();
    db.put("height".to_string(), encode_u64(3));
    assert!(matches!(db.read_last_block(), Ok(None)));
}

#[test]
fn undecodable_height_is_a_coding_error() {
    let mut db = MockDB::new();
    db.put("height".to_string(), vec![1, 2, 3]);
    assert!(matches!(db.read_last_block(), Err(Error::CodingError(_))));
}

#[test]
fn unknown_key_under_height_is_an_error() {
    let mut db = MockDB::new();
    db.write_block(sample_state(5, vec![])).unwrap();
    db.put("5/bogus".to_string(), vec![1]);
    match db.read_last_block() {
        Err(Error::UnknownKey { key }) => assert_eq!(key, "5/bogus"),
        other => panic!("unexpected: {:?}", other.is_ok()),
    }
}

#[test]
fn unparsable_subspace_key_is_temporary() {
    let mut db = MockDB::new();
    db.write_block(sample_state(5, vec![])).unwrap();
    db.put("5/subspace/a/?/b".to_string(), vec![1]);
    assert!(matches!(db.read_last_block(), Err(Error::Temporary { .. })));
}
