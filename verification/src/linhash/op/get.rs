//! Lookup: a scan of the key's bucket, page by page.

use vstd::prelude::*;
use vstd::slice::slice_to_vec;
use crate::device::found;
use crate::error::Result;
use crate::linhash::{bucket_ok, page_at, page_has, page_ok, LinHash};
use crate::page::lemma_lookup_wf;

verus! {

/// The lookup operation on an index.
pub struct Get<'a> {
    pub db: &'a LinHash,
}

impl Get<'_> {
    /// Looks `key` up: the value the index holds for it, or `None` where it
    /// holds none. The key's bucket is scanned from its main page along its
    /// overflow chain; the first matching entry answers.
    pub fn exec(self, key: &[u8]) -> (r: Result<Option<Vec<u8>>>)
        requires
            self.db.wf(),
            key@.len() >= 8,
        ensures
            r matches Ok(found) && match found {
                Some(value) => self.db@.contains_key(key@) && self.db@[key@] == value@,
                None => !self.db@.contains_key(key@),
            },
    {
        let db = self.db;
        let b = db.calc_main_page_id(key);
        let ghost t = db.table();
        let ghost bi = b as int;
        proof {
            assert(bucket_ok(db.main_pages, db.overflow_pages, t, bi));
            assert(page_ok(db.main_pages, db.overflow_pages, t, bi, 0));
        }
        let mut page = found(db.main_pages.read_page(b));
        let ghost mut j: int = 0;
        loop
            invariant
                db == self.db,
                db.wf(),
                t == db.table(),
                bi == b,
                b == db.spec_bucket_id(key@),
                0 <= b < db.n_buckets(),
                0 <= j < t.chain_len(bi),
                page@ == page_at(db.main_pages, db.overflow_pages, t, bi, j),
                forall|j2: int, i: int|
                    0 <= j2 < j && 0 <= i < page_at(
                        db.main_pages,
                        db.overflow_pages,
                        t,
                        bi,
                        j2,
                    ).entries.len() ==> (#[trigger] page_at(
                        db.main_pages,
                        db.overflow_pages,
                        t,
                        bi,
                        j2,
                    ).entries[i]).0 != key@,
            decreases t.chain_len(bi) - j,
        {
            proof {
                assert(bucket_ok(db.main_pages, db.overflow_pages, t, bi));
                assert(page_ok(db.main_pages, db.overflow_pages, t, bi, j));
                lemma_lookup_wf(page@, key@, 0);
            }
            if let Some(value) = page.get(key) {
                proof {
                    let i = choose|i: int|
                        0 <= i < page@.entries.len() && #[trigger] page@.entries[i] == (
                            key@,
                            value@,
                        );
                    assert(t.entry_ok(bi, page@.entries[i]));
                }
                return Ok(Some(slice_to_vec(value.as_slice())));
            }
            match page.overflow_id {
                Some(id) => {
                    proof {
                        assert(page_ok(db.main_pages, db.overflow_pages, t, bi, j + 1));
                    }
                    page = found(db.overflow_pages.read_page(id));
                    proof {
                        j = j + 1;
                    }
                },
                None => {
                    proof {
                        if db@.contains_key(key@) {
                            let e = (key@, db@[key@]);
                            assert(t.map.dom().contains(key@));
                            let j2 = choose|j2: int| #[trigger]
                                page_has(db.main_pages, db.overflow_pages, t, bi, j2, e);
                            let p = page_at(db.main_pages, db.overflow_pages, t, bi, j2);
                            let i = choose|i: int| 0 <= i < p.entries.len() && p.entries[i] == e;
                            assert(p.entries[i].0 == key@);
                            assert(false);
                        }
                    }
                    return Ok(None);
                },
            }
        }
    }
}

} // verus!
