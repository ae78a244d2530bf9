use foreverdb::device::Device;
use foreverdb::error::Error;
use foreverdb::io::{IoOp, IO};
use foreverdb::linhash::op::{Get, Insert, Query, Split};
use foreverdb::linhash::LinHash;
use foreverdb::ForeverHash;
use std::collections::HashMap;

fn vec(i: u64) -> Vec<u8> {
    i.to_le_bytes().to_vec()
}

fn fresh() -> LinHash {
    LinHash::new(IO::new(Vec::new()), IO::new(Vec::new())).unwrap()
}

fn replay(image: &mut Vec<u8>, ops: Vec<IoOp>) {
    for op in ops {
        if let IoOp::Write { offset, data } = op {
            let end = offset as usize + data.len();
            if image.len() < end {
                image.resize(end, 0);
            }
            image[offset as usize..end].copy_from_slice(&data);
        }
    }
}

#[test]
fn mod_test_insert_and_query() {
    let mut fh = fresh();

    let n = 10000;
    let range = 0..n;

    for i in range.clone() {
        fh.insert(vec(i), vec(i)).unwrap();
    }

    assert_eq!(fh.len(), n as u64);

    for i in range {
        let v = fh.get(&vec(i)).unwrap().unwrap();
        assert_eq!(v, vec(i));
    }
}

#[test]
fn index_under_its_own_name() {
    let mut fh = ForeverHash::new(IO::new(Vec::new()), IO::new(Vec::new())).unwrap();
    for i in 0..1000u64 {
        fh.insert(vec(i), vec(i + 1)).unwrap();
    }
    assert_eq!(fh.len(), 1000);
    for i in 0..1000u64 {
        assert_eq!(fh.get(&vec(i)).unwrap().unwrap(), vec(i + 1));
    }
}

#[test]
fn fresh_index_state() {
    let fh = fresh();
    assert_eq!(fh.len(), 0);
    assert_eq!(fh.main_base_level(), 1);
    assert_eq!(fh.next_split_pointer(), 0);
    assert_eq!(fh.max_entries_per_page(), None);
    assert_eq!(fh.get(&vec(1)).unwrap(), None);
}

#[test]
fn first_open_writes_two_empty_main_pages() {
    let mut fh = fresh();
    let (main_ops, overflow_ops) = fh.take_pending();
    assert_eq!(main_ops.len(), 2);
    assert!(matches!(&main_ops[0], IoOp::Write { offset: 0, data } if data.len() == 25));
    assert!(matches!(&main_ops[1], IoOp::Write { offset: 4096, data } if data.len() == 25));
    assert!(overflow_ops.is_empty());
}

#[test]
fn bucket_is_the_low_bits_of_the_leading_eight_bytes() {
    let fh = fresh();
    assert_eq!(fh.hash(&[1, 2, 3, 4, 5, 6, 7, 8, 9]), 0x0807060504030201);
    assert_eq!(fh.calc_main_page_id(&vec(0)), 0);
    assert_eq!(fh.calc_main_page_id(&vec(1)), 1);
    assert_eq!(fh.calc_main_page_id(&vec(6)), 0);
    assert_eq!(fh.calc_main_page_id(&vec(7)), 1);
    assert_eq!(fh.calc_main_page_id(&vec(u64::MAX)), 1);
}

#[test]
fn buckets_below_the_split_pointer_use_one_more_bit() {
    let mut fh = fresh();
    Split { db: &mut fh }.exec().unwrap();
    assert_eq!((fh.main_base_level(), fh.next_split_pointer()), (1, 1));
    // Bucket 0 has been split into 0 and 2; bucket 1 has not.
    assert_eq!(fh.calc_main_page_id(&vec(0)), 0);
    assert_eq!(fh.calc_main_page_id(&vec(2)), 2);
    assert_eq!(fh.calc_main_page_id(&vec(4)), 0);
    assert_eq!(fh.calc_main_page_id(&vec(6)), 2);
    assert_eq!(fh.calc_main_page_id(&vec(1)), 1);
    assert_eq!(fh.calc_main_page_id(&vec(3)), 1);
    Split { db: &mut fh }.exec().unwrap();
    assert_eq!((fh.main_base_level(), fh.next_split_pointer()), (2, 0));
    assert_eq!(fh.calc_main_page_id(&vec(3)), 3);
    assert_eq!(fh.calc_main_page_id(&vec(5)), 1);
    assert_eq!(fh.calc_main_page_id(&vec(7)), 3);
}

#[test]
fn duplicate_key_is_refused_and_changes_nothing() {
    let mut fh = fresh();
    fh.insert(vec(5), vec(50)).unwrap();
    assert_eq!(fh.insert(vec(5), vec(51)), Err(Error::KeyAlreadyExists));
    assert_eq!(fh.get(&vec(5)).unwrap(), Some(vec(50)));
    assert_eq!(fh.len(), 1);
}

#[test]
fn duplicate_key_is_found_anywhere_in_the_chain() {
    let mut fh = fresh();
    // Keys whose low 32 bits are zero share bucket 0 whatever the level.
    for i in 0..400u64 {
        fh.insert(vec(i << 32), vec(i)).unwrap();
    }
    for i in 0..400u64 {
        assert_eq!(fh.insert(vec(i << 32), vec(0)), Err(Error::KeyAlreadyExists));
    }
    assert_eq!(fh.len(), 400);
    for i in 0..400u64 {
        assert_eq!(fh.get(&vec(i << 32)).unwrap(), Some(vec(i)));
    }
}

#[test]
fn absent_key_is_none() {
    let mut fh = fresh();
    for i in 0..300u64 {
        fh.insert(vec(2 * i), vec(i)).unwrap();
    }
    for i in 0..300u64 {
        assert_eq!(fh.get(&vec(2 * i + 1)).unwrap(), None);
    }
}

#[test]
fn capacity_is_calibrated_once() {
    let mut fh = fresh();
    fh.insert(vec(1), vec(1)).unwrap();
    assert_eq!(fh.max_entries_per_page(), Some(145));
    fh.insert(vec![2; 40], vec![0; 100]).unwrap();
    assert_eq!(fh.max_entries_per_page(), Some(145));
    fh.calibrate(1000, 1000);
    assert_eq!(fh.max_entries_per_page(), Some(145));

    let mut other = fresh();
    other.calibrate(32, 12);
    assert_eq!(other.max_entries_per_page(), Some(72));
    other.calibrate(8, 8);
    assert_eq!(other.max_entries_per_page(), Some(72));
}

#[test]
fn full_tail_page_gets_an_overflow_page() {
    let mut fh = fresh();
    // 145 entries fill the main page of bucket 0; the next goes to overflow page 0.
    for i in 0..145u64 {
        fh.insert(vec(i << 32), vec(i)).unwrap();
    }
    let (_, overflow_ops) = fh.take_pending();
    assert!(overflow_ops.is_empty());
    fh.insert(vec(145 << 32), vec(145)).unwrap();
    let (main_ops, overflow_ops) = fh.take_pending();
    // The new page is written, the overflow space synced, the tail rewritten.
    assert_eq!(overflow_ops.len(), 2);
    assert!(matches!(&overflow_ops[0], IoOp::Write { offset: 0, data } if data.len() == 8 + 17 + 28));
    assert!(matches!(&overflow_ops[1], IoOp::Sync));
    assert_eq!(main_ops.len(), 1);
    assert!(matches!(&main_ops[0], IoOp::Write { offset: 0, .. }));
    for i in 0..146u64 {
        assert_eq!(fh.get(&vec(i << 32)).unwrap(), Some(vec(i)));
    }
}

#[test]
fn split_comes_when_the_load_factor_exceeds_four_fifths() {
    let mut fh = fresh();
    // Two main pages of 145 entries: 5 * n > 4 * 2 * 145 first holds at n = 233.
    for i in 0..232u64 {
        fh.insert(vec(i), vec(i)).unwrap();
    }
    assert_eq!((fh.main_base_level(), fh.next_split_pointer()), (1, 0));
    fh.insert(vec(232), vec(232)).unwrap();
    assert_eq!((fh.main_base_level(), fh.next_split_pointer()), (1, 1));
    // Three main pages: 5 * n > 4 * 3 * 145 first holds at n = 349.
    for i in 233..348u64 {
        fh.insert(vec(i), vec(i)).unwrap();
    }
    assert_eq!((fh.main_base_level(), fh.next_split_pointer()), (1, 1));
    fh.insert(vec(348), vec(348)).unwrap();
    assert_eq!((fh.main_base_level(), fh.next_split_pointer()), (2, 0));
    assert_eq!(fh.len(), 349);
    for i in 0..349u64 {
        assert_eq!(fh.get(&vec(i)).unwrap(), Some(vec(i)));
    }
}

#[test]
fn level_never_falls_and_the_split_pointer_cycles() {
    let mut fh = fresh();
    let mut level = fh.main_base_level();
    let mut split = fh.next_split_pointer();
    for i in 0..5000u64 {
        fh.insert(vec(i.wrapping_mul(0x9E3779B97F4A7C15)), vec(i)).unwrap();
        let (l, s) = (fh.main_base_level(), fh.next_split_pointer());
        assert!(s < 1u64 << l);
        if (l, s) != (level, split) {
            if split + 1 < 1u64 << level {
                assert_eq!((l, s), (level, split + 1));
            } else {
                assert_eq!((l, s), (level + 1, 0));
            }
        }
        level = l;
        split = s;
        assert_eq!(fh.len(), i + 1);
    }
    assert!(level > 1);
    for i in 0..5000u64 {
        assert_eq!(fh.get(&vec(i.wrapping_mul(0x9E3779B97F4A7C15))).unwrap(), Some(vec(i)));
    }
}

#[test]
fn split_keeps_every_key_reachable() {
    let mut fh = fresh();
    for i in 0..200u64 {
        fh.insert(vec(i), vec(i * 3)).unwrap();
    }
    for _ in 0..9 {
        Split { db: &mut fh }.exec().unwrap();
        assert_eq!(fh.len(), 200);
        for i in 0..200u64 {
            assert_eq!(fh.get(&vec(i)).unwrap(), Some(vec(i * 3)));
        }
    }
    assert_eq!((fh.main_base_level(), fh.next_split_pointer()), (3, 3));
}

#[test]
fn split_divides_a_chain_and_reuses_its_overflow_pages() {
    let mut fh = fresh();
    fh.calibrate(8, 8);
    // 400 even keys: bucket 0 holds them in a main page and two overflow pages.
    for i in 0..400u64 {
        Insert { db: &mut fh }.exec(vec(2 * i), vec(i)).unwrap();
    }
    fh.take_pending();
    Split { db: &mut fh }.exec().unwrap();
    let (main_ops, overflow_ops) = fh.take_pending();
    // Bucket 0 keeps the 200 keys whose second bit is clear, bucket 2 gets the
    // others: two pages each, on main pages 0 and 2 and overflow pages 0 and 1.
    let mut main_offsets: Vec<u64> = Vec::new();
    for op in &main_ops {
        if let IoOp::Write { offset, .. } = op {
            main_offsets.push(*offset);
        }
    }
    main_offsets.sort();
    assert_eq!(main_offsets, vec![0, 2 * 4096]);
    let mut overflow_offsets: Vec<u64> = Vec::new();
    for op in &overflow_ops {
        if let IoOp::Write { offset, .. } = op {
            overflow_offsets.push(*offset);
        }
    }
    overflow_offsets.sort();
    assert_eq!(overflow_offsets, vec![0, 4096]);
    for i in 0..400u64 {
        let key = vec(2 * i);
        assert_eq!(fh.calc_main_page_id(&key), if i % 2 == 0 { 0 } else { 2 });
        assert_eq!(Get { db: &fh }.exec(&key).unwrap(), Some(vec(i)));
    }
    assert_eq!(fh.len(), 400);
}

#[test]
fn entry_that_does_not_fit_a_page_is_refused() {
    let mut fh = fresh();
    fh.insert(vec(1), vec(1)).unwrap();
    assert_eq!(fh.insert(vec(2), vec![0; 5000]), Err(Error::PageTooLarge));
    assert_eq!(fh.len(), 1);
    assert_eq!(fh.get(&vec(2)).unwrap(), None);
    assert_eq!(fh.get(&vec(1)).unwrap(), Some(vec(1)));
    fh.insert(vec(2), vec(2)).unwrap();
    assert_eq!(fh.len(), 2);
}

#[test]
fn values_of_any_bytes_round_trip() {
    let mut fh = fresh();
    fh.calibrate(8, 8);
    let values: Vec<Vec<u8>> = vec![vec![], vec![0], vec![255; 100], (0..=255).collect()];
    for (i, value) in values.iter().enumerate() {
        let mut key = vec(i as u64);
        key.extend_from_slice(b"-suffix");
        fh.insert(key, value.clone()).unwrap();
    }
    for (i, value) in values.iter().enumerate() {
        let mut key = vec(i as u64);
        key.extend_from_slice(b"-suffix");
        assert_eq!(fh.get(&key).unwrap().as_ref(), Some(value));
        // Keys that share the leading eight bytes are told apart.
        assert_eq!(fh.get(&vec(i as u64)).unwrap(), None);
    }
}

#[test]
fn journals_replay_to_the_page_spaces() {
    let mut fh = fresh();
    let mut main: Vec<u8> = Vec::new();
    let mut overflow: Vec<u8> = Vec::new();
    for i in 0..1500u64 {
        fh.insert(vec(i << 3), vec(i)).unwrap();
        if i % 100 == 0 {
            let (main_ops, overflow_ops) = fh.take_pending();
            replay(&mut main, main_ops);
            replay(&mut overflow, overflow_ops);
        }
    }
    fh.sync().unwrap();
    let (main_ops, overflow_ops) = fh.take_pending();
    assert!(matches!(main_ops.last(), Some(IoOp::Sync)));
    assert!(matches!(overflow_ops.last(), Some(IoOp::Sync)));
    replay(&mut main, main_ops);
    replay(&mut overflow, overflow_ops);
    // Every bucket's chain can be walked in the replayed files.
    let main = Device::new(IO::new(main));
    let overflow = Device::new(IO::new(overflow));
    let buckets = (1u64 << fh.main_base_level()) + fh.next_split_pointer();
    let mut found = 0;
    for b in 0..buckets {
        let mut page = main.read_page(b).unwrap().unwrap();
        loop {
            for (key, value) in &page.kv_pairs {
                assert_eq!(fh.calc_main_page_id(key), b);
                assert_eq!(fh.get(key).unwrap().as_ref(), Some(value));
                found += 1;
            }
            match page.overflow_id {
                Some(id) => page = overflow.read_page(id).unwrap().unwrap(),
                None => break,
            }
        }
    }
    assert_eq!(found, 1500);
}

#[test]
fn open_accepts_an_initialised_empty_index_only() {
    let mut fh = fresh();
    let (main_ops, _) = fh.take_pending();
    let mut main: Vec<u8> = Vec::new();
    replay(&mut main, main_ops);
    assert!(LinHash::new(IO::new(main.clone()), IO::new(Vec::new())).is_ok());

    fh.insert(vec(0), vec(0)).unwrap();
    let (main_ops, _) = fh.take_pending();
    replay(&mut main, main_ops);
    assert!(matches!(
        LinHash::new(IO::new(main.clone()), IO::new(Vec::new())),
        Err(Error::Malformed)
    ));

    main[0] ^= 1;
    assert!(matches!(
        LinHash::new(IO::new(main), IO::new(Vec::new())),
        Err(Error::ChecksumMismatch)
    ));
}

#[test]
fn split_that_would_overfill_a_page_fails_and_changes_nothing() {
    let mut fh = fresh();
    fh.calibrate(8, 8);
    // Bucket 0 takes entries of 36 bytes that a split leaves there and entries
    // of 20 bytes that it moves, in turn: 145 of them fit a page, but 145 of
    // those that stay do not.
    for i in 0..290u64 {
        if i % 2 == 0 {
            fh.insert(vec(4 * i), vec![7; 16]).unwrap();
        } else {
            fh.insert(vec(4 * i + 2), Vec::new()).unwrap();
        }
    }
    // The splits that the load factor asked for have all failed.
    assert_eq!((fh.main_base_level(), fh.next_split_pointer()), (1, 0));
    fh.take_pending();
    assert_eq!(Split { db: &mut fh }.exec(), Err(Error::PageTooLarge));
    assert_eq!((fh.main_base_level(), fh.next_split_pointer()), (1, 0));
    let (main_ops, overflow_ops) = fh.take_pending();
    assert!(main_ops.is_empty() && overflow_ops.is_empty());
    assert_eq!(fh.len(), 290);
    for i in 0..290u64 {
        if i % 2 == 0 {
            assert_eq!(fh.get(&vec(4 * i)).unwrap(), Some(vec![7; 16]));
        } else {
            assert_eq!(fh.get(&vec(4 * i + 2)).unwrap(), Some(Vec::new()));
        }
    }
}

#[test]
fn failed_insert_journals_nothing() {
    let mut fh = fresh();
    fh.insert(vec(1), vec(1)).unwrap();
    fh.take_pending();
    assert_eq!(fh.insert(vec(1), vec(2)), Err(Error::KeyAlreadyExists));
    assert_eq!(fh.insert(vec(3), vec![0; 5000]), Err(Error::PageTooLarge));
    let (main_ops, overflow_ops) = fh.take_pending();
    assert!(main_ops.is_empty() && overflow_ops.is_empty());
}

#[test]
fn index_agrees_with_a_map_on_a_mixed_run() {
    let mut fh = fresh();
    // Keys are at most 10 and values at most 23 bytes long.
    fh.calibrate(10, 23);
    assert_eq!(fh.max_entries_per_page(), Some(90));
    let mut model: HashMap<Vec<u8>, Vec<u8>> = HashMap::new();
    let mut seed = 0x2545F4914F6CDD1Du64;
    let mut next = move || {
        seed ^= seed << 13;
        seed ^= seed >> 7;
        seed ^= seed << 17;
        seed
    };
    for _ in 0..6000 {
        // Few distinct hashes, so that chains grow and duplicates occur.
        let mut key = (next() % 3000).to_le_bytes().to_vec();
        key.extend_from_slice(&vec![0x5A; (next() % 3) as usize]);
        let value = vec![(next() % 256) as u8; (next() % 24) as usize];
        let outcome = fh.insert(key.clone(), value.clone());
        if model.contains_key(&key) {
            assert_eq!(outcome, Err(Error::KeyAlreadyExists));
        } else {
            assert_eq!(outcome, Ok(()));
            model.insert(key, value);
        }
        assert_eq!(fh.len(), model.len() as u64);
    }
    for (key, value) in &model {
        assert_eq!(fh.get(key).unwrap().as_ref(), Some(value));
    }
    for probe in 3000..3100u64 {
        assert_eq!(fh.get(&vec(probe)).unwrap(), None);
    }
}

#[test]
fn lookup_in_place_agrees_with_lookup_by_decoding() {
    let mut fh = fresh();
    for i in 0..2500u64 {
        fh.insert(vec(i * 7), vec(i)).unwrap();
    }
    for probe in 0..20000u64 {
        let key = vec(probe);
        let decoded = Get { db: &fh }.exec(&key).unwrap();
        let in_place = Query { db: &fh }.exec(&key).unwrap();
        assert_eq!(in_place, decoded);
        if probe % 7 == 0 && probe / 7 < 2500 {
            assert_eq!(in_place, Some(vec(probe / 7)));
        } else {
            assert_eq!(in_place, None);
        }
    }
}
