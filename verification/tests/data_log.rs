use foreverdb::data_log::DataLog;
use foreverdb::error::Error;
use foreverdb::io::{IoOp, IO};

fn open_empty() -> DataLog {
    DataLog::open(IO::new(Vec::new())).unwrap()
}

fn image_of(log: &mut DataLog) -> Vec<u8> {
    let mut image: Vec<u8> = Vec::new();
    for op in log.take_pending() {
        if let IoOp::Write { offset, data } = op {
            let end = offset as usize + data.len();
            if image.len() < end {
                image.resize(end, 0);
            }
            image[offset as usize..end].copy_from_slice(&data);
        }
    }
    image
}

#[test]
fn test_append_and_read() {
    let mut log = open_empty();

    let data1 = vec![1; 10];
    let _ = log.append(&data1).unwrap();
    let data2 = vec![2; 100000];
    let k2 = log.append(&data2).unwrap();

    let read_data = log.read(k2).unwrap();
    assert_eq!(read_data, data2);
}

#[test]
fn append_returns_offset_and_framed_length() {
    let mut log = open_empty();
    assert_eq!(log.append(&[7u8; 10]).unwrap(), (0, 18));
    assert_eq!(log.append(&[]).unwrap(), (18, 8));
    assert_eq!(log.append(&[9u8; 3]).unwrap(), (26, 11));
    assert_eq!(log.read((0, 18)).unwrap(), vec![7u8; 10]);
    assert_eq!(log.read((18, 8)).unwrap(), Vec::<u8>::new());
    assert_eq!(log.read((26, 11)).unwrap(), vec![9u8; 3]);
}

#[test]
fn record_is_magic_then_crc32_then_payload() {
    let mut log = open_empty();
    log.append(b"123456789").unwrap();
    let image = image_of(&mut log);
    assert_eq!(&image[0..4], &0x34655652u32.to_le_bytes());
    // The CRC-32 (IEEE) check value of "123456789".
    assert_eq!(&image[4..8], &0xCBF43926u32.to_le_bytes());
    assert_eq!(&image[8..], b"123456789");
}

#[test]
fn reopened_log_appends_at_its_end() {
    let mut log = open_empty();
    let k1 = log.append(b"first").unwrap();
    let image = image_of(&mut log);
    let mut again = DataLog::open(IO::new(image)).unwrap();
    let k2 = again.append(b"second").unwrap();
    assert_eq!(k2, (13, 14));
    assert_eq!(again.read(k1).unwrap(), b"first".to_vec());
    assert_eq!(again.read(k2).unwrap(), b"second".to_vec());
}

#[test]
fn damaged_magic_is_reported() {
    let mut log = open_empty();
    let k = log.append(b"payload").unwrap();
    let mut image = image_of(&mut log);
    image[1] ^= 0x10;
    let damaged = DataLog::open(IO::new(image)).unwrap();
    assert_eq!(damaged.read(k), Err(Error::LogMagicMismatch));
}

#[test]
fn damaged_checksum_is_reported() {
    let mut log = open_empty();
    let k = log.append(b"payload").unwrap();
    let mut image = image_of(&mut log);
    image[6] ^= 0x01;
    let damaged = DataLog::open(IO::new(image)).unwrap();
    assert_eq!(damaged.read(k), Err(Error::LogCrcMismatch));
}

#[test]
fn every_damaged_payload_byte_is_reported() {
    let mut log = open_empty();
    let k = log.append(b"some payload bytes").unwrap();
    let image = image_of(&mut log);
    for at in 8..image.len() {
        let mut copy = image.clone();
        copy[at] ^= 0x80;
        let damaged = DataLog::open(IO::new(copy)).unwrap();
        assert_eq!(damaged.read(k), Err(Error::LogCrcMismatch));
    }
}

#[test]
fn locator_shorter_than_a_header_is_refused() {
    let mut log = open_empty();
    log.append(b"payload").unwrap();
    assert_eq!(log.read((0, 7)), Err(Error::LogReadFailed));
    assert_eq!(log.read((0, 0)), Err(Error::LogReadFailed));
}

#[test]
fn read_past_the_end_finds_no_record() {
    let mut log = open_empty();
    log.append(b"payload").unwrap();
    assert_eq!(log.read((1000, 16)), Err(Error::LogMagicMismatch));
}

#[test]
fn log_sync_is_journalled_after_the_writes() {
    let mut log = open_empty();
    log.append(b"a").unwrap();
    log.sync().unwrap();
    let ops = log.take_pending();
    assert_eq!(ops.len(), 2);
    assert!(matches!(&ops[0], IoOp::Write { offset: 0, data } if data.len() == 9));
    assert!(matches!(&ops[1], IoOp::Sync));
    assert!(log.take_pending().is_empty());
}
