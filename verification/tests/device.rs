use foreverdb::device::Device;
use foreverdb::error::Error;
use foreverdb::io::{IoOp, IO};
use foreverdb::page::Page;

fn empty_device() -> Device {
    Device::new(IO::new(Vec::new()))
}

fn image_after(device: &mut Device) -> Vec<u8> {
    let mut image: Vec<u8> = Vec::new();
    for op in device.take_pending() {
        if let IoOp::Write { offset, data } = op {
            let end = offset as usize + data.len();
            if image.len() < end {
                image.resize(end, 0);
            }
            image[offset as usize..end].copy_from_slice(&data);
        }
    }
    image
}

fn two_entries() -> Page {
    let mut page = Page { hashes: Vec::new(), kv_pairs: Vec::new(), overflow_id: None };
    page.push(vec![1; 32], vec![1; 16]);
    page.push(vec![2; 32], vec![2; 16]);
    page
}

#[test]
fn test_read_page_ref() {
    let mut device = empty_device();

    let mut page = Page { hashes: Vec::new(), kv_pairs: Vec::new(), overflow_id: None };
    page.push(vec![1; 32], vec![1; 16]);
    page.push(vec![2; 32], vec![2; 16]);

    device.write_page(3, page).unwrap();

    let page_ref = device.read_page_ref(3).unwrap().unwrap();
    assert_eq!(page_ref.get_value(&vec![1; 32]), Some(&vec![1; 16][..]));
    assert_eq!(page_ref.get_value(&vec![2; 32]), Some(&vec![2; 16][..]));
}

#[test]
fn page_ref_answers_as_the_decoded_page() {
    let mut device = empty_device();
    let mut page = two_entries();
    page.overflow_id = Some(99);
    device.write_page(0, page).unwrap();
    let page_ref = device.read_page_ref(0).unwrap().unwrap();
    let decoded = device.read_page(0).unwrap().unwrap();
    for key in [vec![1u8; 32], vec![2u8; 32], vec![3u8; 32], vec![1u8; 31], Vec::new()] {
        assert_eq!(page_ref.get_value(&key), decoded.get(&key).map(|v| &v[..]));
    }
    assert_eq!(page_ref.overflow_id(), Some(99));
    assert_eq!(decoded.overflow_id, Some(99));
}

#[test]
fn frame_is_crc_length_payload_at_its_offset() {
    let mut device = empty_device();
    device.write_page(2, Page::new()).unwrap();
    let ops = device.take_pending();
    assert_eq!(ops.len(), 1);
    match &ops[0] {
        IoOp::Write { offset, data } => {
            assert_eq!(*offset, 2 * 4096);
            assert_eq!(data.len(), 8 + 17);
            assert_eq!(&data[4..8], &17u32.to_le_bytes());
            // CRC-32 of the seventeen zero bytes of an empty page.
            let payload = [0u8; 17];
            assert_eq!(&data[8..], &payload);
            let mut crc = 0xFFFF_FFFFu32;
            for byte in payload {
                crc ^= byte as u32;
                for _ in 0..8 {
                    crc = if crc & 1 == 1 { (crc >> 1) ^ 0xEDB8_8320 } else { crc >> 1 };
                }
            }
            assert_eq!(&data[0..4], &(!crc).to_le_bytes());
        }
        IoOp::Sync => panic!("a write was expected"),
    }
}

#[test]
fn unwritten_frames_read_as_none() {
    let mut device = empty_device();
    assert!(device.read_page(0).unwrap().is_none());
    assert!(device.read_page(5).unwrap().is_none());
    assert!(device.read_page(u64::MAX).unwrap().is_none());
    assert!(device.read_page_ref(5).unwrap().is_none());
    device.write_page(3, two_entries()).unwrap();
    assert!(device.read_page(2).unwrap().is_none());
    assert!(device.read_page(4).unwrap().is_none());
}

#[test]
fn pages_do_not_disturb_each_other() {
    let mut device = empty_device();
    device.write_page(1, two_entries()).unwrap();
    let mut other = Page::new();
    other.push(vec![9; 8], vec![8; 8]);
    device.write_page(0, other).unwrap();
    device.write_page(2, Page::new()).unwrap();
    let one = device.read_page(1).unwrap().unwrap();
    assert_eq!(one.kv_pairs, two_entries().kv_pairs);
    let zero = device.read_page(0).unwrap().unwrap();
    assert_eq!(zero.kv_pairs, vec![(vec![9; 8], vec![8; 8])]);
    // A shorter page written over a longer one is read back as written.
    device.write_page(1, Page::new()).unwrap();
    assert!(device.read_page(1).unwrap().unwrap().kv_pairs.is_empty());
    assert_eq!(device.read_page(0).unwrap().unwrap().kv_pairs.len(), 1);
}

#[test]
fn page_that_exceeds_the_frame_is_refused() {
    let mut device = empty_device();
    let mut page = Page::new();
    // 17 + 4 + 8 + 8 + 4051 = 4088 fits; one byte more does not.
    page.push(vec![1; 8], vec![0; 4051]);
    assert_eq!(page.encoded_len(), Some(4088));
    device.write_page(0, page).unwrap();
    let mut long = Page::new();
    long.push(vec![1; 8], vec![0; 4052]);
    assert_eq!(device.write_page(1, long), Err(Error::PageTooLarge));
    assert!(device.read_page(1).unwrap().is_none());
    assert_eq!(device.read_page(0).unwrap().unwrap().kv_pairs[0].1.len(), 4051);
}

#[test]
fn frame_outside_the_addressable_range_is_refused() {
    let mut device = empty_device();
    assert!(!Device::can_hold(u64::MAX / 4096));
    assert!(Device::can_hold(1000));
    assert_eq!(device.write_page(u64::MAX / 4096, Page::new()), Err(Error::IO));
    assert!(device.take_pending().is_empty());
}

#[test]
fn every_damaged_byte_of_a_frame_is_reported() {
    let mut device = empty_device();
    device.write_page(0, two_entries()).unwrap();
    let image = image_after(&mut device);
    assert_eq!(image.len(), 8 + 17 + 2 * (4 + 8 + 32 + 16));
    // The stored checksum (bytes 0..4) and the payload (from byte 8).
    for at in (0..4).chain(8..image.len()) {
        let mut copy = image.clone();
        copy[at] ^= 0x04;
        let damaged = Device::new(IO::new(copy));
        assert!(matches!(damaged.read_page(0), Err(Error::ChecksumMismatch)));
        assert!(matches!(damaged.read_page_ref(0), Err(Error::ChecksumMismatch)));
    }
}

#[test]
fn declared_length_beyond_the_frame_is_corrupt() {
    let mut image = vec![0u8; 4096];
    image[4..8].copy_from_slice(&4089u32.to_le_bytes());
    let device = Device::new(IO::new(image));
    assert!(matches!(device.read_page(0), Err(Error::ChecksumMismatch)));
}

#[test]
fn device_sync_is_journalled() {
    let mut device = empty_device();
    device.write_page(0, Page::new()).unwrap();
    device.sync().unwrap();
    let ops = device.take_pending();
    assert_eq!(ops.len(), 2);
    assert!(matches!(ops[1], IoOp::Sync));
}
