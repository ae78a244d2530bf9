use foreverdb::error::Error;
use foreverdb::io::{IoOp, IO};
use foreverdb::{DBIndex, DataLog, ForeverDB};

fn open_empty() -> ForeverDB {
    let data_log = DataLog::open(IO::new(Vec::new())).unwrap();
    let db_index = DBIndex::open(IO::new(Vec::new()), IO::new(Vec::new())).unwrap();
    ForeverDB::new(data_log, db_index)
}

#[test]
fn lib_test_insert_and_get() {
    let data_log = DataLog::open(IO::new(Vec::new())).unwrap();
    let db_index = DBIndex::open(IO::new(Vec::new()), IO::new(Vec::new())).unwrap();
    let mut db = ForeverDB::new(data_log, db_index);

    let k1 = vec![1; 32];
    let v1 = vec![42; 100];

    let k2 = vec![2; 32];
    let v2 = vec![43; 100];

    db.insert(&k1, &v1).unwrap();
    db.insert(&k2, &v2).unwrap();
    assert!(db.contains_key(&k1).unwrap());
    assert!(db.contains_key(&k2).unwrap());

    assert_eq!(db.get(&k1).unwrap().unwrap(), v1);
    assert_eq!(db.get(&k2).unwrap().unwrap(), v2);
}

#[test]
fn tests_test_insert_and_get() {
    let data_log = DataLog::open(IO::new(Vec::new())).unwrap();
    let db_index = DBIndex::open(IO::new(Vec::new()), IO::new(Vec::new())).unwrap();
    let mut db = ForeverDB::new(data_log, db_index);

    let k1 = vec![1; 32];
    let v1 = vec![42; 100];

    let k2 = vec![2; 32];
    let v2 = vec![43; 100];

    db.insert(&k1.clone(), &v1.clone()).unwrap();
    db.insert(&k2.clone(), &v2.clone()).unwrap();
    assert!(db.contains_key(&k1).unwrap());
    assert!(db.contains_key(&k2).unwrap());

    assert_eq!(db.get(&k1).unwrap().unwrap(), v1);
    assert_eq!(db.get(&k2).unwrap().unwrap(), v2);
}

#[test]
fn store_round_trips_values_of_many_sizes() {
    let mut db = open_empty();
    let mut expected: Vec<(Vec<u8>, Vec<u8>)> = Vec::new();
    for i in 0..2000u64 {
        let mut key = i.wrapping_mul(0x9E3779B97F4A7C15).to_le_bytes().to_vec();
        key.extend_from_slice(&[i as u8; 24]);
        let value = vec![(i % 251) as u8; (i % 300) as usize];
        db.insert(&key, &value).unwrap();
        expected.push((key, value));
    }
    for (key, value) in expected.iter().rev() {
        assert_eq!(db.get(key).unwrap().as_ref(), Some(value));
        assert!(db.contains_key(key).unwrap());
    }
}

#[test]
fn store_refuses_a_duplicate_and_keeps_the_first_value() {
    let mut db = open_empty();
    let key = vec![5; 32];
    db.insert(&key, b"first").unwrap();
    assert_eq!(db.insert(&key, b"second"), Err(Error::KeyAlreadyExists));
    assert_eq!(db.get(&key).unwrap(), Some(b"first".to_vec()));
    // The refused value was appended to the log all the same.
    let (log_ops, _, _) = db.take_pending();
    let mut written = 0;
    for op in &log_ops {
        if let IoOp::Write { data, .. } = op {
            written += data.len();
        }
    }
    assert_eq!(written, (8 + 5) + (8 + 6));
}

#[test]
fn store_answers_none_and_false_for_an_absent_key() {
    let mut db = open_empty();
    assert_eq!(db.get(&[9; 32]).unwrap(), None);
    assert!(!db.contains_key(&[9; 32]).unwrap());
    db.insert(&[1; 32], b"v").unwrap();
    assert_eq!(db.get(&[9; 32]).unwrap(), None);
    assert!(!db.contains_key(&[9; 32]).unwrap());
}

#[test]
fn store_sync_reaches_all_three_files() {
    let mut db = open_empty();
    db.insert(&[1; 32], b"value").unwrap();
    db.sync().unwrap();
    let (log_ops, main_ops, overflow_ops) = db.take_pending();
    assert!(matches!(log_ops.last(), Some(IoOp::Sync)));
    assert!(matches!(main_ops.last(), Some(IoOp::Sync)));
    assert!(matches!(overflow_ops.last(), Some(IoOp::Sync)));
    assert_eq!(db.get(&[1; 32]).unwrap(), Some(b"value".to_vec()));
}
