use foreverdb::error::Error;
use foreverdb::linhash::calc_max_kv_per_page;
use foreverdb::page::{decode_page, encode_page, Page};

fn sample() -> Page {
    let mut page = Page { hashes: Vec::new(), kv_pairs: Vec::new(), overflow_id: Some(7) };
    page.push(b"abc".to_vec(), b"xy".to_vec());
    page.push(b"".to_vec(), b"z".to_vec());
    page
}

#[test]
fn push_caches_the_xxh32_digest_of_the_key() {
    let mut page = Page::new();
    page.push(b"abc".to_vec(), vec![1]);
    page.push(b"".to_vec(), vec![2]);
    page.push(b"a".to_vec(), vec![3]);
    // XXH32 test vectors under seed 0.
    assert_eq!(page.hashes, vec![0x32D153FF, 0x02CC5D05, 0x550D7456]);
    assert_eq!(page.kv_pairs[0], (b"abc".to_vec(), vec![1]));
    assert_eq!(page.len(), 3);
}

#[test]
fn page_lookup_wants_digest_and_key() {
    let mut page = sample();
    assert!(page.contains_key(b"abc"));
    assert!(page.contains_key(b""));
    assert!(!page.contains_key(b"abd"));
    assert_eq!(page.get(b"abc"), Some(&b"xy".to_vec()));
    assert_eq!(page.get(b"nope"), None);
    // An entry whose cached digest is wrong is not found.
    page.hashes[0] ^= 1;
    assert!(!page.contains_key(b"abc"));
}

#[test]
fn first_matching_entry_answers() {
    let mut page = Page::new();
    page.push(b"k".to_vec(), vec![1]);
    page.push(b"k".to_vec(), vec![2]);
    assert_eq!(page.get(b"k"), Some(&vec![1]));
}

#[test]
fn encoding_is_header_digests_entries() {
    let page = sample();
    let mut expected: Vec<u8> = Vec::new();
    expected.extend_from_slice(&2u32.to_le_bytes());
    expected.extend_from_slice(&2u32.to_le_bytes());
    expected.push(1);
    expected.extend_from_slice(&7u64.to_le_bytes());
    expected.extend_from_slice(&0x32D153FFu32.to_le_bytes());
    expected.extend_from_slice(&0x02CC5D05u32.to_le_bytes());
    expected.extend_from_slice(&3u32.to_le_bytes());
    expected.extend_from_slice(&2u32.to_le_bytes());
    expected.extend_from_slice(b"abcxy");
    expected.extend_from_slice(&0u32.to_le_bytes());
    expected.extend_from_slice(&1u32.to_le_bytes());
    expected.extend_from_slice(b"z");
    assert_eq!(encode_page(&page), expected);
    assert_eq!(page.encoded_len(), Some(expected.len()));
}

#[test]
fn decode_gives_the_page_back() {
    let page = sample();
    let back = decode_page(&encode_page(&page)).unwrap();
    assert_eq!(back.hashes, page.hashes);
    assert_eq!(back.kv_pairs, page.kv_pairs);
    assert_eq!(back.overflow_id, Some(7));

    let empty = decode_page(&encode_page(&Page::new())).unwrap();
    assert!(empty.hashes.is_empty() && empty.kv_pairs.is_empty());
    assert_eq!(empty.overflow_id, None);
    assert_eq!(encode_page(&Page::new()).len(), 17);
}

#[test]
fn decode_refuses_what_is_no_page() {
    let good = encode_page(&sample());
    assert!(matches!(decode_page(&[]), Err(Error::Malformed)));
    assert!(matches!(decode_page(&[0u8; 16]), Err(Error::Malformed)));
    // A truncated encoding.
    assert!(matches!(decode_page(&good[..good.len() - 1]), Err(Error::Malformed)));
    // Trailing bytes.
    let mut long = good.clone();
    long.push(0);
    assert!(matches!(decode_page(&long), Err(Error::Malformed)));
    // An overflow flag that is neither 0 nor 1.
    let mut flag = good.clone();
    flag[8] = 2;
    assert!(matches!(decode_page(&flag), Err(Error::Malformed)));
    // More digests than there are bytes.
    let mut count = good;
    count[0..4].copy_from_slice(&u32::MAX.to_le_bytes());
    assert!(matches!(decode_page(&count), Err(Error::Malformed)));
}

#[test]
fn calibration_boundary_is_exact() {
    // 17 + n * (12 + 8 + 8) <= 4088 holds up to n = 145.
    let max = calc_max_kv_per_page(8, 8);
    assert_eq!(max, 145);
    let mut page = Page { hashes: Vec::new(), kv_pairs: Vec::new(), overflow_id: Some(1) };
    for j in 0..max {
        page.push(vec![j; 8], vec![j; 8]);
    }
    assert_eq!(encode_page(&page).len(), 4077);
    assert!(encode_page(&page).len() <= 4088);
    page.push(vec![max; 8], vec![max; 8]);
    assert_eq!(encode_page(&page).len(), 4105);
    assert!(encode_page(&page).len() > 4088);
}

#[test]
fn calibration_values() {
    assert_eq!(calc_max_kv_per_page(32, 12), 72);
    assert_eq!(calc_max_kv_per_page(0, 0), 255);
    assert_eq!(calc_max_kv_per_page(1, 2), 255);
    assert_eq!(calc_max_kv_per_page(2, 2), 254);
    assert_eq!(calc_max_kv_per_page(1000, 1023), 2);
    assert_eq!(calc_max_kv_per_page(8, 1000), 3);
}
