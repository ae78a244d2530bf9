use foreverdb::db_index::{decode_locator, encode_locator, DBIndex, IndexEntry};
use foreverdb::error::Error;
use foreverdb::io::IO;

fn open_empty() -> DBIndex {
    DBIndex::open(IO::new(Vec::new()), IO::new(Vec::new())).unwrap()
}

#[test]
fn db_index_test_insert_and_get() {
    let mut db = open_empty();

    let key = vec![1; 32];
    let val = IndexEntry {
        data_offset: 42,
        data_len: 100,
    };
    db.insert(key.clone(), val).unwrap();

    let e = db.get(&key).unwrap();
    assert_eq!(e, Some(val));
}

#[test]
fn locator_is_twelve_little_endian_bytes() {
    let e = IndexEntry { data_offset: 0x0102030405060708, data_len: 0x0A0B0C0D };
    let bytes = encode_locator(e);
    assert_eq!(bytes, vec![8, 7, 6, 5, 4, 3, 2, 1, 0x0D, 0x0C, 0x0B, 0x0A]);
    assert_eq!(decode_locator(&bytes), e);
}

#[test]
fn index_refuses_a_second_locator_for_a_key() {
    let mut db = open_empty();
    let key = vec![3; 16];
    let first = IndexEntry { data_offset: 1, data_len: 9 };
    db.insert(key.clone(), first).unwrap();
    assert_eq!(
        db.insert(key.clone(), IndexEntry { data_offset: 2, data_len: 9 }),
        Err(Error::KeyAlreadyExists)
    );
    assert_eq!(db.get(&key).unwrap(), Some(first));
    assert_eq!(db.get(&vec![4; 16]).unwrap(), None);
}

#[test]
fn index_holds_many_locators() {
    let mut db = open_empty();
    for i in 0..3000u64 {
        let mut key = i.to_le_bytes().to_vec();
        key.extend_from_slice(&[0xAB; 24]);
        db.insert(key, IndexEntry { data_offset: i * 7, data_len: i as u32 + 8 }).unwrap();
    }
    for i in 0..3000u64 {
        let mut key = i.to_le_bytes().to_vec();
        key.extend_from_slice(&[0xAB; 24]);
        assert_eq!(
            db.get(&key).unwrap(),
            Some(IndexEntry { data_offset: i * 7, data_len: i as u32 + 8 })
        );
    }
}
