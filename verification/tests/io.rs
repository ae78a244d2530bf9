use foreverdb::error::Error;
use foreverdb::io::{IoOp, IO};

#[test]
fn io_write_then_read() {
    let mut io = IO::new(Vec::new());
    io.write(&[1, 2, 3, 4], 0).unwrap();
    let mut buf = vec![0u8; 4];
    io.read(&mut buf, 0).unwrap();
    assert_eq!(buf, vec![1, 2, 3, 4]);
    assert_eq!(io.len(), 4);
}

#[test]
fn io_write_past_the_end_fills_the_gap_with_zeros() {
    let mut io = IO::new(vec![9, 9]);
    io.write(&[5, 6], 5).unwrap();
    assert_eq!(io.bytes(), &[9, 9, 0, 0, 0, 5, 6]);
}

#[test]
fn io_write_inside_keeps_the_rest() {
    let mut io = IO::new(vec![1, 2, 3, 4, 5]);
    io.write(&[8, 9], 1).unwrap();
    assert_eq!(io.bytes(), &[1, 8, 9, 4, 5]);
}

#[test]
fn io_empty_write_changes_nothing() {
    let mut io = IO::new(vec![1, 2]);
    io.write(&[], 10).unwrap();
    assert_eq!(io.bytes(), &[1, 2]);
}

#[test]
fn io_read_past_the_end_leaves_the_buffer() {
    let io = IO::new(vec![1, 2, 3]);
    let mut buf = vec![7u8; 4];
    io.read(&mut buf, 1).unwrap();
    assert_eq!(buf, vec![2, 3, 7, 7]);
    let mut far = vec![7u8; 2];
    io.read(&mut far, 100).unwrap();
    assert_eq!(far, vec![7, 7]);
}

#[test]
fn io_write_outside_the_addressable_range_fails() {
    let mut io = IO::new(vec![1, 2, 3]);
    assert_eq!(io.write(&[1, 2], u64::MAX), Err(Error::IO));
    assert_eq!(io.bytes(), &[1, 2, 3]);
    assert!(io.take_pending().is_empty());
}

#[test]
fn io_journal_replays_to_the_image() {
    let base = vec![1u8, 2, 3, 4];
    let mut io = IO::new(base.clone());
    io.write(&[9, 9], 2).unwrap();
    io.flush().unwrap();
    io.write(&[7], 8).unwrap();
    io.write(&[6, 5], 0).unwrap();
    let ops = io.take_pending();
    assert_eq!(ops.len(), 4);
    let mut file = base;
    for op in ops {
        match op {
            IoOp::Write { offset, data } => {
                let end = offset as usize + data.len();
                if file.len() < end {
                    file.resize(end, 0);
                }
                file[offset as usize..end].copy_from_slice(&data);
            }
            IoOp::Sync => {}
        }
    }
    assert_eq!(file, io.bytes());
    assert!(io.take_pending().is_empty());
}
