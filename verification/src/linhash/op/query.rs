//! Lookup without decoding: a scan of the key's bucket that reads each page
//! in place.

use vstd::prelude::*;
use vstd::pervasive::unreached;
use vstd::slice::slice_to_vec;
use crate::error::Result;
use crate::linhash::{bucket_ok, page_at, page_has, page_ok, LinHash};
use crate::page::{lemma_lookup_wf, PageRef};

verus! {

/// The lookup operation on an index that reads pages in place.
pub struct Query<'a> {
    pub db: &'a LinHash,
}

impl Query<'_> {
    /// The page view of a read that is known to have found a page.
    fn found(r: Result<Option<PageRef>>) -> (page: PageRef)
        requires
            r matches Ok(Some(_)),
        ensures
            r matches Ok(Some(p)) && page == p,
    {
        match r {
            Ok(Some(page)) => page,
            _ => unreached(),
        }
    }

    /// Looks `key` up, as [`Get`](crate::linhash::op::Get) does, but without
    /// decoding the pages it scans: each frame is validated and searched in
    /// place, and only the value found is copied.
    pub fn exec(self, key: &[u8]) -> (r: Result<Option<Vec<u8>>>)
        requires
            self.db.wf(),
            key@.len() >= 8,
        ensures
            r matches Ok(found) && match found {
                Some(value) => self.db@.contains_key(key@) && self.db@[key@] == value@,
                None => !self.db@.contains_key(key@),
            },
    {
        let db = self.db;
        let b = db.calc_main_page_id(key);
        let ghost t = db.table();
        let ghost bi = b as int;
        proof {
            assert(bucket_ok(db.main_pages, db.overflow_pages, t, bi));
            assert(page_ok(db.main_pages, db.overflow_pages, t, bi, 0));
        }
        let mut page = Self::found(db.main_pages.read_page_ref(b));
        let ghost mut j: int = 0;
        loop
            invariant
                db == self.db,
                db.wf(),
                t == db.table(),
                bi == b,
                b == db.spec_bucket_id(key@),
                0 <= b < db.n_buckets(),
                0 <= j < t.chain_len(bi),
                page.wf(),
                page@ == page_at(db.main_pages, db.overflow_pages, t, bi, j),
                forall|j2: int, i: int|
                    0 <= j2 < j && 0 <= i < page_at(
                        db.main_pages,
                        db.overflow_pages,
                        t,
                        bi,
                        j2,
                    ).entries.len() ==> (#[trigger] page_at(
                        db.main_pages,
                        db.overflow_pages,
                        t,
                        bi,
                        j2,
                    ).entries[i]).0 != key@,
            decreases t.chain_len(bi) - j,
        {
            proof {
                assert(bucket_ok(db.main_pages, db.overflow_pages, t, bi));
                assert(page_ok(db.main_pages, db.overflow_pages, t, bi, j));
                lemma_lookup_wf(page@, key@, 0);
            }
            if let Some(value) = page.get_value(key) {
                proof {
                    let i = choose|i: int|
                        0 <= i < page@.entries.len() && #[trigger] page@.entries[i] == (
                            key@,
                            value@,
                        );
                    assert(t.entry_ok(bi, page@.entries[i]));
                }
                return Ok(Some(slice_to_vec(value)));
            }
            match page.overflow_id() {
                Some(id) => {
                    proof {
                        assert(page_ok(db.main_pages, db.overflow_pages, t, bi, j + 1));
                    }
                    page = Self::found(db.overflow_pages.read_page_ref(id));
                    proof {
                        j = j + 1;
                    }
                },
                None => {
                    proof {
                        if db@.contains_key(key@) {
                            let e = (key@, db@[key@]);
                            assert(t.map.dom().contains(key@));
                            let j2 = choose|j2: int| #[trigger]
                                page_has(db.main_pages, db.overflow_pages, t, bi, j2, e);
                            let p = page_at(db.main_pages, db.overflow_pages, t, bi, j2);
                            let i = choose|i: int| 0 <= i < p.entries.len() && p.entries[i] == e;
                            assert(p.entries[i].0 == key@);
                            assert(false);
                        }
                    }
                    return Ok(None);
                },
            }
        }
    }
}

} // verus!
