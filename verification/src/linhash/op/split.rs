//! Growth: the bucket at the split pointer is divided between itself and a
//! new sibling bucket, by one more bit of each key's hash.

use vstd::prelude::*;
use vstd::pervasive::unreached;
use vstd::slice::slice_to_vec;
use crate::device::{found, Device, Slot};
use crate::error::{Error, Result};
use crate::io::{extends, lemma_extends_trans};
use crate::le::get_u64;
use crate::linhash::op::layout::{
    all_drawable, chain_entries, chunks, distinct, drawable, drawn, id_at, in_pages, kept,
    laid_out, lemma_chunks_len, lemma_concat_contains, lemma_ids_drawn, lemma_push_contains,
    page_of, page_views, split_outcome,
};
use crate::linhash::{
    advanced, base_count, bucket_has, bucket_ok, dest_of, keys_stored, lemma_base_count,
    lemma_bucket_of_bound, lemma_level_bound, lemma_split_addressing, lemma_stored_entry_ok,
    link_of, page_at, page_has, page_ok, slot_at, spec_hash, store_ok, LinHash, PageId, Table,
};
use crate::page::{entries_view, lemma_page_len_steps, Page, PageView};

verus! {

/// What a split has laid out before it writes: the overflow ids `ids_s` and
/// pages `ps` of the chain that stays in the bucket at the split pointer, and
/// `ids_m` and `pm` of the chain that moves to its sibling. The ids are
/// pairwise different, each an id of the old chain or a fresh one below
/// `next2`; every page fits its frame and links to the next; and the two
/// chains hold between them the entries of the old chain, each where one
/// more bit of its key's hash sends it.
pub open spec fn planned(
    main: Device,
    overflow: Device,
    t: Table,
    ids_s: Seq<u64>,
    ids_m: Seq<u64>,
    ps: Seq<PageView>,
    pm: Seq<PageView>,
    next2: u64,
) -> bool {
    &&& Device::in_range(t.n_buckets() as u64)
    &&& next2 >= t.next_overflow
    &&& ps.len() == ids_s.len() + 1
    &&& pm.len() == ids_m.len() + 1
    &&& distinct(ids_s + ids_m)
    &&& forall|x: int|
        0 <= x < (ids_s + ids_m).len() ==> {
            let id = #[trigger] (ids_s + ids_m)[x];
            &&& Device::in_range(id)
            &&& id < next2
            &&& t.chains[t.split as int].contains(id) || id >= t.next_overflow
        }
    &&& forall|c: int|
        0 <= c < ps.len() ==> {
            &&& (#[trigger] ps[c]).wf()
            &&& ps[c].encoded_len() <= 4088
            &&& ps[c].overflow_id == link_of(ids_s, c)
        }
    &&& forall|c: int|
        0 <= c < pm.len() ==> {
            &&& (#[trigger] pm[c]).wf()
            &&& pm[c].encoded_len() <= 4088
            &&& pm[c].overflow_id == link_of(ids_m, c)
        }
    &&& forall|e: (Seq<u8>, Seq<u8>)|
        in_pages(ps, e) <==> bucket_has(main, overflow, t, t.split as int, e) && dest_of(
            spec_hash(e.0),
            t.level,
        ) == t.split
    &&& forall|e: (Seq<u8>, Seq<u8>)|
        in_pages(pm, e) <==> bucket_has(main, overflow, t, t.split as int, e) && dest_of(
            spec_hash(e.0),
            t.level,
        ) != t.split
}

/// The table state after a split: the split pointer advanced, the old
/// bucket and its new sibling with their rebuilt chains.
pub open spec fn table_split(
    t: Table,
    level2: u64,
    split2: u64,
    next2: u64,
    ids_s: Seq<u64>,
    ids_m: Seq<u64>,
) -> Table {
    Table {
        level: level2,
        split: split2,
        next_overflow: next2,
        chains: t.chains.update(t.split as int, ids_s).push(ids_m),
        map: t.map,
    }
}

/// Rewriting the bucket at the split pointer as two chains, one of the
/// entries that one more hash bit leaves in the bucket and one, for the new
/// sibling bucket, of the entries it moves there, and advancing the split
/// pointer, keeps the store in order with the same map.
#[verifier::rlimit(40)]
pub proof fn lemma_split(
    main: Device,
    overflow: Device,
    t: Table,
    main2: Device,
    overflow2: Device,
    t2: Table,
    ids_s: Seq<u64>,
    ids_m: Seq<u64>,
    ps: Seq<PageView>,
    pm: Seq<PageView>,
)
    requires
        store_ok(main, overflow, t),
        main2.wf(),
        overflow2.wf(),
        planned(main, overflow, t, ids_s, ids_m, ps, pm, t2.next_overflow),
        advanced(t.level, t.split, t2.level, t2.split),
        t2 == table_split(t, t2.level, t2.split, t2.next_overflow, ids_s, ids_m),
        forall|c: int|
            0 <= c < ps.len() ==> slot_at(main2, overflow2, ids_s, t.split as int, c)
                == Slot::Page(#[trigger] ps[c]),
        forall|c: int|
            0 <= c < pm.len() ==> slot_at(main2, overflow2, ids_m, t.n_buckets(), c)
                == Slot::Page(#[trigger] pm[c]),
        forall|id: u64|
            id != t.split && id != t.n_buckets() ==> #[trigger] main2.slot(id) == main.slot(id),
        forall|id: u64|
            !(ids_s + ids_m).contains(id) ==> #[trigger] overflow2.slot(id) == overflow.slot(id),
    ensures
        store_ok(main2, overflow2, t2),
        forall|c: int|
            0 <= c < ps.len() ==> #[trigger] page_at(main2, overflow2, t2, t.split as int, c)
                == ps[c],
        forall|c: int|
            0 <= c < pm.len() ==> #[trigger] page_at(main2, overflow2, t2, t.n_buckets(), c)
                == pm[c],
        forall|b2: int, j2: int|
            0 <= b2 < t.n_buckets() && b2 != t.split && 0 <= j2 < t.chain_len(b2)
                ==> #[trigger] page_at(main2, overflow2, t2, b2, j2) == page_at(
                main,
                overflow,
                t,
                b2,
                j2,
            ),
{
    let s = t.split as int;
    let sib = t.n_buckets();
    let new_ids = ids_s + ids_m;
    lemma_base_count(0, t.level);
    assert(t2.level <= 52 && t2.split < base_count(t2.level)) by {
        if t.split + 1 < base_count(t.level) {
        } else {
            lemma_level_bound(t.level);
            lemma_base_count(0, t2.level);
        }
    }
    lemma_base_count(0, t2.level);
    assert(t2.n_buckets() == sib + 1);
    assert(t2.chains.len() == sib + 1);
    assert(t2.chains[s] == ids_s);
    assert(t2.chains[sib] == ids_m);
    assert forall|b2: int, j2: int|
        0 <= b2 < t.n_buckets() && 0 <= j2 < t.chains[b2].len() implies #[trigger] t.chains[b2][j2]
        < t.next_overflow by {
        assert(bucket_ok(main, overflow, t, b2));
        assert(page_ok(main, overflow, t, b2, j2 + 1));
    }
    // Pages of the other buckets stay where and what they were.
    assert forall|b2: int, j2: int|
        0 <= b2 < sib && b2 != s && 0 <= j2 < t.chain_len(b2) implies #[trigger] page_at(
        main2,
        overflow2,
        t2,
        b2,
        j2,
    ) == page_at(main, overflow, t, b2, j2) && slot_at(main2, overflow2, t2.chains[b2], b2, j2)
        == slot_at(main, overflow, t.chains[b2], b2, j2) by {
        assert(t2.chains[b2] == t.chains[b2]);
        if j2 == 0 {
            assert(main2.slot(b2 as u64) == main.slot(b2 as u64));
        } else {
            let id = t.chains[b2][j2 - 1];
            assert(id < t.next_overflow);
            if new_ids.contains(id) {
                let x = choose|x: int| 0 <= x < new_ids.len() && new_ids[x] == id;
                assert(t.chains[s].contains(new_ids[x]));
                let y = choose|y: int| 0 <= y < t.chains[s].len() && t.chains[s][y] == id;
                assert(t.chains[b2][j2 - 1] != t.chains[s][y]);
            }
            assert(overflow2.slot(id) == overflow.slot(id));
        }
    }
    // No overflow page is shared.
    assert(t2.chains_disjoint()) by {
        assert forall|b1: int, j1: int, b2: int, j2: int|
            0 <= b1 < t2.chains.len() && 0 <= j1 < t2.chains[b1].len() && 0 <= b2
                < t2.chains.len() && 0 <= j2 < t2.chains[b2].len() && (b1 != b2 || j1
                != j2) implies #[trigger] t2.chains[b1][j1] != #[trigger] t2.chains[b2][j2] by {
            let new1 = b1 == s || b1 == sib;
            let new2 = b2 == s || b2 == sib;
            let x1 = if b1 == s {
                j1
            } else {
                ids_s.len() + j1
            };
            let x2 = if b2 == s {
                j2
            } else {
                ids_s.len() + j2
            };
            if new1 {
                assert(new_ids[x1] == t2.chains[b1][j1]);
            } else {
                assert(t2.chains[b1] == t.chains[b1]);
                assert(t.chains[b1][j1] < t.next_overflow);
            }
            if new2 {
                assert(new_ids[x2] == t2.chains[b2][j2]);
            } else {
                assert(t2.chains[b2] == t.chains[b2]);
                assert(t.chains[b2][j2] < t.next_overflow);
            }
            if new1 && !new2 {
                if t.chains[s].contains(new_ids[x1]) {
                    let y = choose|y: int|
                        0 <= y < t.chains[s].len() && t.chains[s][y] == new_ids[x1];
                    assert(t.chains[s][y] != t.chains[b2][j2]);
                }
            }
            if new2 && !new1 {
                if t.chains[s].contains(new_ids[x2]) {
                    let y = choose|y: int|
                        0 <= y < t.chains[s].len() && t.chains[s][y] == new_ids[x2];
                    assert(t.chains[s][y] != t.chains[b1][j1]);
                }
            }
        }
    }
    // Every bucket's chain is in order.
    assert forall|b2: int| 0 <= b2 < t2.n_buckets() implies #[trigger] bucket_ok(
        main2,
        overflow2,
        t2,
        b2,
    ) by {
        assert forall|j2: int| 0 <= j2 < t2.chain_len(b2) implies #[trigger] page_ok(
            main2,
            overflow2,
            t2,
            b2,
            j2,
        ) by {
            let p_new = page_at(main2, overflow2, t2, b2, j2);
            if b2 == s || b2 == sib {
                let x = if b2 == s {
                    j2 - 1
                } else {
                    ids_s.len() + j2 - 1
                };
                if j2 > 0 {
                    assert(new_ids[x] == t2.chains[b2][j2 - 1]);
                }
                if b2 == s {
                    assert(p_new == ps[j2]);
                } else {
                    assert(p_new == pm[j2]);
                }
                assert forall|i: int| 0 <= i < p_new.entries.len() implies t2.entry_ok(
                    b2,
                    #[trigger] p_new.entries[i],
                ) by {
                    let e = p_new.entries[i];
                    assert(p_new.entries.contains(e));
                    if b2 == s {
                        assert(in_pages(ps, e));
                    } else {
                        assert(in_pages(pm, e));
                    }
                    lemma_stored_entry_ok(main, overflow, t, s, e);
                    lemma_split_addressing(spec_hash(e.0), t.level, t.split, t2.level, t2.split);
                }
            } else {
                assert(bucket_ok(main, overflow, t, b2));
                assert(page_ok(main, overflow, t, b2, j2));
                let p_old = page_at(main, overflow, t, b2, j2);
                assert(p_new == p_old);
                assert(t2.chains[b2] == t.chains[b2]);
                assert forall|i: int| 0 <= i < p_new.entries.len() implies t2.entry_ok(
                    b2,
                    #[trigger] p_new.entries[i],
                ) by {
                    let e = p_new.entries[i];
                    assert(t.entry_ok(b2, p_old.entries[i]));
                    lemma_split_addressing(spec_hash(e.0), t.level, t.split, t2.level, t2.split);
                }
            }
        }
    }
    // Every key is stored in the bucket it is now addressed to.
    assert forall|k: Seq<u8>| #[trigger] t2.map.dom().contains(k) implies bucket_has(
        main2,
        overflow2,
        t2,
        t2.bucket_id(k) as int,
        (k, t2.map[k]),
    ) by {
        let e = (k, t.map[k]);
        let bk = t.bucket_id(k) as int;
        lemma_bucket_of_bound(spec_hash(k), t.level, t.split);
        lemma_split_addressing(spec_hash(k), t.level, t.split, t2.level, t2.split);
        assert(bucket_has(main, overflow, t, bk, e));
        if bk == s {
            if dest_of(spec_hash(k), t.level) == t.split {
                assert(in_pages(ps, e));
                let c = choose|c: int| 0 <= c < ps.len() && (#[trigger] ps[c]).entries.contains(e);
                assert(page_at(main2, overflow2, t2, s, c) == ps[c]);
                assert(page_has(main2, overflow2, t2, s, c, e));
            } else {
                assert(in_pages(pm, e));
                let c = choose|c: int| 0 <= c < pm.len() && (#[trigger] pm[c]).entries.contains(e);
                assert(page_at(main2, overflow2, t2, sib, c) == pm[c]);
                assert(page_has(main2, overflow2, t2, sib, c, e));
            }
        } else {
            let j0 = choose|j0: int| #[trigger] page_has(main, overflow, t, bk, j0, e);
            assert(page_at(main2, overflow2, t2, bk, j0) == page_at(main, overflow, t, bk, j0));
            assert(t2.chains[bk] == t.chains[bk]);
            assert(page_has(main2, overflow2, t2, bk, j0, e));
        }
    }
    assert(keys_stored(main2, overflow2, t2));
}

/// The split operation on an index.
pub struct Split<'a> {
    pub db: &'a mut LinHash,
}

/// Whether every key of `after`'s view is stored, with its value, in the
/// bucket it is addressed to in `after`, and is addressed there to the bucket
/// it was addressed to in `before`, or, if that was the bucket at `before`'s
/// split pointer, to that bucket or to its sibling.
pub open spec fn resettled(before: LinHash, after: LinHash) -> bool {
    forall|k: Seq<u8>| #[trigger]
        after@.contains_key(k) ==> {
            let b0 = before.spec_bucket_id(k);
            let b1 = after.spec_bucket_id(k);
            &&& after.bucket_has(b1 as int, (k, after@[k]))
            &&& b1 == b0 || (b0 == before.split_pointer() && b1 == before.n_buckets())
        }
}

/// How a split of `db`'s bucket at the split pointer ends: well, or with the
/// error that keeps it from being written. Pages are laid out at the page
/// capacity, and at 255 entries in an index that has none yet.
pub open spec fn outcome(db: LinHash) -> Result<()> {
    split_outcome(
        db.main_space(),
        db.overflow_space(),
        db.table(),
        match db.capacity() {
            Some(m) => m as int,
            None => 255,
        },
    )
}

/// The pages of the chain that a split of `db` leaves in the bucket at the
/// split pointer (`stay`), or of the chain it gives the sibling (`!stay`).
#[verifier::opaque]
pub open spec fn new_chain(db: LinHash, stay: bool) -> Seq<PageView> {
    let t = db.table();
    let s = t.split as int;
    let cap = match db.capacity() {
        Some(m) => m as int,
        None => 255,
    };
    let all = chain_entries(db.main_space(), db.overflow_space(), t, s, t.chain_len(s));
    let first = chunks(kept(all, t.level, t.split, true), cap).len() - 1;
    laid_out(
        kept(all, t.level, t.split, stay),
        cap,
        t.chains[s],
        t.next_overflow,
        if stay {
            0
        } else {
            first
        },
    )
}

/// What a split does to the index. The entries of the bucket at the split
/// pointer are divided, in their order, between that bucket and its sibling,
/// and each part is laid out as a chain of pages of the page capacity. The
/// overflow pages of the two chains take the ids of the old chain, in its
/// order, and then new ids; the next overflow id moves past the new ones.
/// The pages of all other buckets stay what they were, and the journals are
/// extended.
pub open spec fn rebuilt(before: LinHash, after: LinHash) -> bool {
    let t = before.table();
    let t2 = after.table();
    let s = t.split as int;
    let ps = new_chain(before, true);
    let pm = new_chain(before, false);
    let pool = t.chains[s];
    let used = ps.len() + pm.len() - 2;
    &&& t2.map == t.map
    &&& t2.chains == t.chains.update(s, drawn(pool, t.next_overflow, 0, ps.len() - 1)).push(
        drawn(pool, t.next_overflow, ps.len() - 1, pm.len() - 1),
    )
    &&& t2.next_overflow == (if used > pool.len() {
        t.next_overflow + used - pool.len()
    } else {
        t.next_overflow as int
    })
    &&& forall|c: int|
        0 <= c < ps.len() ==> #[trigger] page_at(
            after.main_space(),
            after.overflow_space(),
            t2,
            s,
            c,
        ) == ps[c]
    &&& forall|c: int|
        0 <= c < pm.len() ==> #[trigger] page_at(
            after.main_space(),
            after.overflow_space(),
            t2,
            t.n_buckets(),
            c,
        ) == pm[c]
    &&& forall|b2: int, j2: int|
        0 <= b2 < t.n_buckets() && b2 != s && 0 <= j2 < t.chain_len(b2) ==> #[trigger] page_at(
            after.main_space(),
            after.overflow_space(),
            t2,
            b2,
            j2,
        ) == page_at(before.main_space(), before.overflow_space(), t, b2, j2)
    &&& extends(before.main_space().pending(), after.main_space().pending())
    &&& extends(before.overflow_space().pending(), after.overflow_space().pending())
    &&& LinHash::same_bases(before, after)
}

/// An index whose table state and pages are those a split leaves has been
/// rebuilt.
pub proof fn lemma_rebuilt(before: LinHash, after: LinHash, ids_s: Seq<u64>, ids_m: Seq<u64>)
    requires
        ({
            let t = before.table();
            let t2 = after.table();
            let s = t.split as int;
            let ps = new_chain(before, true);
            let pm = new_chain(before, false);
            let pool = t.chains[s];
            let used = ps.len() + pm.len() - 2;
            &&& t2.map == t.map
            &&& t2.chains == t.chains.update(s, ids_s).push(ids_m)
            &&& ids_s == drawn(pool, t.next_overflow, 0, ps.len() - 1)
            &&& ids_m == drawn(pool, t.next_overflow, ps.len() - 1, pm.len() - 1)
            &&& t2.next_overflow == (if used > pool.len() {
                t.next_overflow + used - pool.len()
            } else {
                t.next_overflow as int
            })
            &&& forall|c: int|
                0 <= c < ps.len() ==> #[trigger] page_at(
                    after.main_space(),
                    after.overflow_space(),
                    t2,
                    s,
                    c,
                ) == ps[c]
            &&& forall|c: int|
                0 <= c < pm.len() ==> #[trigger] page_at(
                    after.main_space(),
                    after.overflow_space(),
                    t2,
                    t.n_buckets(),
                    c,
                ) == pm[c]
            &&& forall|b2: int, j2: int|
                0 <= b2 < t.n_buckets() && b2 != s && 0 <= j2 < t.chain_len(b2)
                    ==> #[trigger] page_at(
                    after.main_space(),
                    after.overflow_space(),
                    t2,
                    b2,
                    j2,
                ) == page_at(before.main_space(), before.overflow_space(), t, b2, j2)
            &&& extends(before.main_space().pending(), after.main_space().pending())
            &&& extends(before.overflow_space().pending(), after.overflow_space().pending())
            &&& LinHash::same_bases(before, after)
        }),
    ensures
        rebuilt(before, after),
{
}

/// Whether the second pair of page spaces is the first with one chain
/// written: page 0 of `ps` to main page `head`, the others to the overflow
/// pages `ids`; no other frame changed, and the journals extended.
pub open spec fn chain_written(
    main: Device,
    overflow: Device,
    main2: Device,
    overflow2: Device,
    head: u64,
    ids: Seq<u64>,
    ps: Seq<PageView>,
) -> bool {
    &&& main2.wf()
    &&& overflow2.wf()
    &&& main2.slot(head) == Slot::Page(ps[0])
    &&& forall|other: u64| other != head ==> #[trigger] main2.slot(other) == main.slot(other)
    &&& forall|x: int|
        0 <= x < ids.len() ==> overflow2.slot(#[trigger] ids[x]) == Slot::Page(ps[x + 1])
    &&& forall|other: u64|
        !ids.contains(other) ==> #[trigger] overflow2.slot(other) == overflow.slot(other)
    &&& extends(main.pending(), main2.pending())
    &&& extends(overflow.pending(), overflow2.pending())
    &&& main2.base() == main.base()
    &&& overflow2.base() == overflow.base()
}

/// The chains a split has laid out and is about to write.
pub struct SplitPlan {
    /// The pages of the chain that stays in the split bucket.
    pub stay_pages: Vec<Page>,
    /// The overflow ids of that chain.
    pub stay_ids: Vec<u64>,
    /// The pages of the chain that moves to the sibling bucket.
    pub moved_pages: Vec<Page>,
    /// The overflow ids of that chain.
    pub moved_ids: Vec<u64>,
    /// The id the next overflow page receives once the split is written.
    pub next_overflow: u64,
}

impl SplitPlan {
    /// The plan is one for splitting the bucket at `db`'s split pointer.
    pub open spec fn fits(self, db: LinHash) -> bool {
        let t = db.table();
        let pool = t.chains[t.split as int];
        let ps = page_views(self.stay_pages@);
        let pm = page_views(self.moved_pages@);
        let used = ps.len() + pm.len() - 2;
        &&& planned(
            db.main_space(),
            db.overflow_space(),
            t,
            self.stay_ids@,
            self.moved_ids@,
            ps,
            pm,
            self.next_overflow,
        )
        &&& ps == new_chain(db, true)
        &&& pm == new_chain(db, false)
        &&& self.stay_ids@ == drawn(pool, t.next_overflow, 0, ps.len() - 1)
        &&& self.moved_ids@ == drawn(pool, t.next_overflow, ps.len() - 1, pm.len() - 1)
        &&& self.next_overflow == (if used > pool.len() {
            t.next_overflow + used - pool.len()
        } else {
            t.next_overflow as int
        })
    }
}

/// The overflow ids of each chain of a plan are pairwise different and name
/// frames in the addressable range.
pub proof fn lemma_plan_ids(db: LinHash, plan: SplitPlan)
    requires
        plan.fits(db),
    ensures
        distinct(plan.stay_ids@),
        distinct(plan.moved_ids@),
        forall|x: int|
            0 <= x < plan.stay_ids@.len() ==> Device::in_range(#[trigger] plan.stay_ids@[x]),
        forall|x: int|
            0 <= x < plan.moved_ids@.len() ==> Device::in_range(#[trigger] plan.moved_ids@[x]),
{
    let ids_s = plan.stay_ids@;
    let ids_m = plan.moved_ids@;
    let new_ids = ids_s + ids_m;
    assert forall|x: int, y: int|
        0 <= x < ids_s.len() && 0 <= y < ids_s.len() && x != y implies ids_s[x] != ids_s[y] by {
        assert(new_ids[x] == ids_s[x]);
        assert(new_ids[y] == ids_s[y]);
    }
    assert forall|x: int, y: int|
        0 <= x < ids_m.len() && 0 <= y < ids_m.len() && x != y implies ids_m[x] != ids_m[y] by {
        assert(new_ids[ids_s.len() + x] == ids_m[x]);
        assert(new_ids[ids_s.len() + y] == ids_m[y]);
    }
    assert forall|x: int| 0 <= x < ids_s.len() implies Device::in_range(#[trigger] ids_s[x]) by {
        assert(new_ids[x] == ids_s[x]);
    }
    assert forall|x: int| 0 <= x < ids_m.len() implies Device::in_range(#[trigger] ids_m[x]) by {
        assert(new_ids[ids_s.len() + x] == ids_m[x]);
    }
}

/// An index whose two planned chains have been written, the sibling's
/// first, and whose split pointer has been advanced is in order, holds what
/// it held, and has been rebuilt as the plan says.
#[verifier::rlimit(40)]
pub proof fn lemma_committed(
    before: LinHash,
    main1: Device,
    overflow1: Device,
    after: LinHash,
    plan: SplitPlan,
)
    requires
        before.wf(),
        plan.fits(before),
        chain_written(
            before.main_space(),
            before.overflow_space(),
            main1,
            overflow1,
            before.n_buckets() as u64,
            plan.moved_ids@,
            page_views(plan.moved_pages@),
        ),
        chain_written(
            main1,
            overflow1,
            after.main_space(),
            after.overflow_space(),
            before.split_pointer(),
            plan.stay_ids@,
            page_views(plan.stay_pages@),
        ),
        after.table() == table_split(
            before.table(),
            after.table().level,
            after.table().split,
            plan.next_overflow,
            plan.stay_ids@,
            plan.moved_ids@,
        ),
        advanced(
            before.table().level,
            before.table().split,
            after.table().level,
            after.table().split,
        ),
        after.capacity() == before.capacity(),
        after.item_count() == before.item_count(),
    ensures
        after.wf(),
        after@ == before@,
        resettled(before, after),
        rebuilt(before, after),
{
    let t = before.table();
    let t2 = after.table();
    let main0 = before.main_space();
    let overflow0 = before.overflow_space();
    let main2 = after.main_space();
    let overflow2 = after.overflow_space();
    let ps = page_views(plan.stay_pages@);
    let pm = page_views(plan.moved_pages@);
    let ids_s = plan.stay_ids@;
    let ids_m = plan.moved_ids@;
    let new_ids = ids_s + ids_m;
    lemma_base_count(0, t.level);
    lemma_extends_trans(main0.pending(), main1.pending(), main2.pending());
    lemma_extends_trans(overflow0.pending(), overflow1.pending(), overflow2.pending());
    assert forall|c: int| 0 <= c < pm.len() implies slot_at(
        main2,
        overflow2,
        ids_m,
        t.n_buckets(),
        c,
    ) == Slot::Page(#[trigger] pm[c]) by {
        if c > 0 {
            let id = ids_m[c - 1];
            assert(new_ids[ids_s.len() + c - 1] == id);
            if ids_s.contains(id) {
                let y = choose|y: int| 0 <= y < ids_s.len() && ids_s[y] == id;
                assert(new_ids[y] == id);
            }
            assert(overflow2.slot(id) == overflow1.slot(id));
        } else {
            assert(main2.slot(t.n_buckets() as u64) == main1.slot(t.n_buckets() as u64));
        }
    }
    assert forall|c: int| 0 <= c < ps.len() implies slot_at(
        main2,
        overflow2,
        ids_s,
        t.split as int,
        c,
    ) == Slot::Page(#[trigger] ps[c]) by {
        if c > 0 {
            assert(overflow2.slot(ids_s[c - 1]) == Slot::Page(ps[c]));
        }
    }
    assert forall|id: u64| !new_ids.contains(id) implies #[trigger] overflow2.slot(id)
        == overflow0.slot(id) by {
        if ids_s.contains(id) {
            let y = choose|y: int| 0 <= y < ids_s.len() && ids_s[y] == id;
            assert(new_ids[y] == id);
        }
        if ids_m.contains(id) {
            let y = choose|y: int| 0 <= y < ids_m.len() && ids_m[y] == id;
            assert(new_ids[ids_s.len() + y] == id);
        }
        assert(overflow2.slot(id) == overflow1.slot(id));
    }
    assert forall|id: u64| id != t.split && id != t.n_buckets() implies #[trigger] main2.slot(id)
        == main0.slot(id) by {
        assert(main2.slot(id) == main1.slot(id));
    }
    lemma_split(main0, overflow0, t, main2, overflow2, t2, ids_s, ids_m, ps, pm);
    lemma_rebuilt(before, after, ids_s, ids_m);
    after.lemma_wf_buckets();
    assert forall|k: Seq<u8>| #[trigger] after@.contains_key(k) implies {
        let b0 = before.spec_bucket_id(k);
        let b1 = after.spec_bucket_id(k);
        &&& after.bucket_has(b1 as int, (k, after@[k]))
        &&& b1 == b0 || (b0 == before.split_pointer() && b1 == before.n_buckets())
    } by {
        lemma_split_addressing(spec_hash(k), t.level, t.split, t2.level, t2.split);
    }
}

impl Split<'_> {
    /// Splits the bucket at the split pointer. Its whole chain is read and
    /// its entries are divided by the bucket each is addressed to under one
    /// more hash bit: they stay, or move to the sibling bucket, whose main
    /// page is the next main page. Both chains are laid out anew, with the
    /// old chain's overflow pages used again and new ones allocated where
    /// these do not suffice, and written; then the split pointer advances,
    /// and past the last base bucket it returns to 0 and the level rises.
    /// Nothing is written unless every page fits its frame and every frame
    /// lies in the addressable range: a split that fails changes nothing.
    pub fn exec(self) -> (r: Result<()>)
        requires
            old(self.db).wf(),
        ensures
            final(self.db).wf(),
            final(self.db)@ == old(self.db)@,
            final(self.db).item_count() == old(self.db).item_count(),
            final(self.db).capacity() == old(self.db).capacity(),
            final(self.db).next_overflow() >= old(self.db).next_overflow(),
            r == outcome(*old(self.db)),
            match r {
                Ok(_) => {
                    &&& advanced(
                        old(self.db).level() as u64,
                        old(self.db).split_pointer(),
                        final(self.db).level() as u64,
                        final(self.db).split_pointer(),
                    )
                    &&& resettled(*old(self.db), *final(self.db))
                    &&& rebuilt(*old(self.db), *final(self.db))
                },
                Err(e) => {
                    &&& *final(self.db) == *old(self.db)
                    &&& e == Error::PageTooLarge || e == Error::IO
                },
            },
    {
        let plan = Self::plan(&*self.db)?;
        Self::commit(self.db, plan);
        Ok(())
    }

    /// Lays the split out without writing anything: reads the chain of the
    /// bucket at the split pointer, divides its entries and builds the pages
    /// of both new chains. Fails with [`Error::IO`] where the sibling's main
    /// page or a new overflow page lies outside the addressable range, and
    /// with [`Error::PageTooLarge`] where a page does not fit its frame.
    #[verifier::rlimit(40)]
    fn plan(db: &LinHash) -> (r: Result<SplitPlan>)
        requires
            db.wf(),
        ensures
            match r {
                Ok(plan) => plan.fits(*db) && outcome(*db) is Ok,
                Err(e) => outcome(*db) == Err::<(), Error>(e) && (e == Error::PageTooLarge || e
                    == Error::IO),
            },
    {
        let ghost t = db.table();
        let ghost main0 = db.main_pages;
        let ghost overflow0 = db.overflow_pages;
        let s = db.next_split_main_page_id;
        let level = db.main_base_level as u64;
        let next = db.next_overflow_id;
        proof {
            lemma_base_count(0, level);
        }
        let base = 1u64 << level;
        let sibling = s + base;
        if !Device::can_hold(sibling) {
            return Err(Error::IO);
        }
        let cap = match db.max_kv_per_page {
            Some(max) => max as usize,
            None => 255,
        };
        let (entries, pool) = Self::read_chain(db, s);
        let _ = entries.len();
        proof {
            assert forall|x: int| 0 <= x < entries@.len() implies (
            #[trigger] entries@[x]).0@.len() >= 8 by {
                let e = entries_view(entries@)[x];
                assert(entries_view(entries@).contains(e));
                assert(db.bucket_has(s as int, e));
                lemma_stored_entry_ok(main0, overflow0, t, s as int, e);
            }
        }
        let (stay, moved) = Self::partition(&entries, level, s);
        let ghost all = entries_view(entries@);
        let ghost stay_v = kept(all, level, s, true);
        let ghost moved_v = kept(all, level, s, false);
        proof {
            assert(pool@ == t.chains[s as int]);
            assert(all == chain_entries(main0, overflow0, t, s as int, t.chain_len(s as int)));
            assert(entries_view(stay@) == stay_v);
            assert(entries_view(moved@) == moved_v);
            lemma_chunks_len(stay_v, cap as int);
            lemma_chunks_len(moved_v, cap as int);
        }
        let (stay_pages, stay_ids) = Self::build_chain(&stay, cap, &pool, 0, next)?;
        proof {
            assert(page_views(stay_pages@).len() == chunks(stay_v, cap as int).len());
            assert(stay_ids@.len() == chunks(stay_v, cap as int).len() - 1);
        }
        let (moved_pages, moved_ids) = match Self::build_chain(
            &moved,
            cap,
            &pool,
            stay_ids.len(),
            next,
        ) {
            Ok(chain) => chain,
            Err(e) => {
                assert(outcome(*db) == Err::<(), Error>(Error::IO));
                return Err(e);
            },
        };
        proof {
            assert(page_views(moved_pages@).len() == chunks(moved_v, cap as int).len());
            assert(moved_ids@.len() == chunks(moved_v, cap as int).len() - 1);
            assert(page_views(stay_pages@) == laid_out(stay_v, cap as int, pool@, next, 0));
            assert(page_views(moved_pages@) == laid_out(
                moved_v,
                cap as int,
                pool@,
                next,
                stay_ids@.len() as int,
            ));
        }
        if !Self::all_fit(&stay_pages) || !Self::all_fit(&moved_pages) {
            assert(outcome(*db) == Err::<(), Error>(Error::PageTooLarge));
            return Err(Error::PageTooLarge);
        }
        assert(outcome(*db) is Ok);
        proof {
            reveal(new_chain);
        }
        let used = stay_ids.len() + moved_ids.len();
        let ghost ids_s = stay_ids@;
        let ghost ids_m = moved_ids@;
        let ghost new_ids = ids_s + ids_m;
        proof {
            assert(bucket_ok(main0, overflow0, t, s as int));
            assert(distinct(pool@)) by {
                assert forall|x: int, y: int|
                    0 <= x < pool@.len() && 0 <= y < pool@.len() && x != y implies pool@[x]
                    != pool@[y] by {
                    assert(t.chains[s as int][x] != t.chains[s as int][y]);
                }
            }
            assert forall|x: int| 0 <= x < pool@.len() implies #[trigger] pool@[x] < next by {
                assert(page_ok(main0, overflow0, t, s as int, x + 1));
            }
            assert forall|x: int| 0 <= x < new_ids.len() implies #[trigger] new_ids[x] == id_at(
                pool@,
                next,
                x,
            ) by {
                if x < ids_s.len() {
                    assert(new_ids[x] == ids_s[x]);
                } else {
                    assert(new_ids[x] == ids_m[x - ids_s.len()]);
                }
            }
            lemma_ids_drawn(pool@, next, new_ids);
        }
        let next_overflow = if used > pool.len() {
            proof {
                let last = new_ids[used - 1];
                assert(last == id_at(pool@, next, used - 1));
                assert(Device::in_range(last)) by {
                    if used - 1 < ids_s.len() {
                        assert(last == ids_s[used - 1]);
                    } else {
                        assert(last == ids_m[used - 1 - ids_s.len()]);
                    }
                }
            }
            next + (used - pool.len()) as u64
        } else {
            next
        };
        proof {
            assert forall|x: int| 0 <= x < new_ids.len() implies {
                let id = #[trigger] new_ids[x];
                &&& Device::in_range(id)
                &&& id < next_overflow
                &&& t.chains[t.split as int].contains(id) || id >= t.next_overflow
            } by {
                if x < ids_s.len() {
                    assert(new_ids[x] == ids_s[x]);
                } else {
                    assert(new_ids[x] == ids_m[x - ids_s.len()]);
                }
            }
        }
        proof {
            let ps = page_views(stay_pages@);
            let pm = page_views(moved_pages@);
            assert(Device::in_range(t.n_buckets() as u64));
            assert(distinct(new_ids));
            assert forall|e: (Seq<u8>, Seq<u8>)|
                in_pages(ps, e) <==> bucket_has(main0, overflow0, t, t.split as int, e) && dest_of(
                    spec_hash(e.0),
                    t.level,
                ) == t.split by {
                assert(in_pages(ps, e) <==> entries_view(stay@).contains(e));
                assert(entries_view(entries@).contains(e) <==> db.bucket_has(s as int, e));
            }
            assert forall|e: (Seq<u8>, Seq<u8>)|
                in_pages(pm, e) <==> bucket_has(main0, overflow0, t, t.split as int, e) && dest_of(
                    spec_hash(e.0),
                    t.level,
                ) != t.split by {
                assert(in_pages(pm, e) <==> entries_view(moved@).contains(e));
                assert(entries_view(entries@).contains(e) <==> db.bucket_has(s as int, e));
            }
            assert forall|c: int| 0 <= c < ps.len() implies {
                &&& (#[trigger] ps[c]).wf()
                &&& ps[c].encoded_len() <= 4088
                &&& ps[c].overflow_id == link_of(ids_s, c)
            } by {}
            assert forall|c: int| 0 <= c < pm.len() implies {
                &&& (#[trigger] pm[c]).wf()
                &&& pm[c].encoded_len() <= 4088
                &&& pm[c].overflow_id == link_of(ids_m, c)
            } by {}
        }
        Ok(SplitPlan { stay_pages, stay_ids, moved_pages, moved_ids, next_overflow })
    }

    /// Writes the chains a split has laid out, the sibling's first, and
    /// advances the split pointer.
    #[verifier::rlimit(40)]
    fn commit(db: &mut LinHash, plan: SplitPlan)
        requires
            old(db).wf(),
            plan.fits(*old(db)),
        ensures
            final(db).wf(),
            final(db)@ == old(db)@,
            final(db).item_count() == old(db).item_count(),
            final(db).capacity() == old(db).capacity(),
            final(db).next_overflow() >= old(db).next_overflow(),
            advanced(
                old(db).level() as u64,
                old(db).split_pointer(),
                final(db).level() as u64,
                final(db).split_pointer(),
            ),
            resettled(*old(db), *final(db)),
            rebuilt(*old(db), *final(db)),
    {
        let ghost t = db.table();
        let ghost ids_s = plan.stay_ids@;
        let ghost ids_m = plan.moved_ids@;
        let s = db.next_split_main_page_id;
        let level = db.main_base_level as u64;
        proof {
            lemma_base_count(0, level);
            lemma_plan_ids(*db, plan);
        }
        let base = 1u64 << level;
        let sibling = s + base;
        let SplitPlan { stay_pages, stay_ids, moved_pages, moved_ids, next_overflow } = plan;
        Self::write_chain(db, sibling, &moved_ids, moved_pages);
        let ghost main1 = db.main_pages;
        let ghost overflow1 = db.overflow_pages;
        Self::write_chain(db, s, &stay_ids, stay_pages);
        db.next_overflow_id = next_overflow;
        if s + 1 < base {
            db.next_split_main_page_id = s + 1;
        } else {
            db.next_split_main_page_id = 0;
            db.main_base_level = db.main_base_level + 1;
        }
        proof {
            db.chains@ = t.chains.update(s as int, ids_s).push(ids_m);
            lemma_committed(*old(db), main1, overflow1, *db, plan);
        }
    }

    /// Reads the whole chain of bucket `b`: its entries, in chain order, and
    /// the ids of its overflow pages.
    fn read_chain(db: &LinHash, b: u64) -> (r: (Vec<(Vec<u8>, Vec<u8>)>, Vec<u64>))
        requires
            db.wf(),
            0 <= b < db.n_buckets(),
        ensures
            r.1@ == db.table().chains[b as int],
            entries_view(r.0@) == chain_entries(
                db.main_space(),
                db.overflow_space(),
                db.table(),
                b as int,
                db.table().chain_len(b as int),
            ),
            forall|e: (Seq<u8>, Seq<u8>)|
                entries_view(r.0@).contains(e) <==> db.bucket_has(b as int, e),
    {
        let ghost t = db.table();
        let ghost main0 = db.main_pages;
        let ghost overflow0 = db.overflow_pages;
        let ghost bi = b as int;
        proof {
            assert(bucket_ok(main0, overflow0, t, bi));
            assert(page_ok(main0, overflow0, t, bi, 0));
        }
        let mut entries: Vec<(Vec<u8>, Vec<u8>)> = Vec::new();
        let mut ids: Vec<u64> = Vec::new();
        let mut page = found(db.main_pages.read_page(b));
        let ghost mut j: int = 0;
        loop
            invariant_except_break
                page@ == page_at(main0, overflow0, t, bi, j),
                ids@ == t.chains[bi].take(j),
                entries_view(entries@) == chain_entries(main0, overflow0, t, bi, j),
                forall|e: (Seq<u8>, Seq<u8>)|
                    entries_view(entries@).contains(e) <==> exists|j2: int|
                        j2 < j && #[trigger] page_has(main0, overflow0, t, bi, j2, e),
            invariant
                db.wf(),
                db.table() == t,
                db.main_pages == main0,
                db.overflow_pages == overflow0,
                store_ok(main0, overflow0, t),
                bi == b,
                0 <= bi < t.n_buckets(),
                0 <= j < t.chain_len(bi),
            ensures
                ids@ == t.chains[bi],
                entries_view(entries@) == chain_entries(main0, overflow0, t, bi, t.chain_len(bi)),
                forall|e: (Seq<u8>, Seq<u8>)|
                    entries_view(entries@).contains(e) <==> bucket_has(main0, overflow0, t, bi, e),
            decreases t.chain_len(bi) - j,
        {
            proof {
                assert(bucket_ok(main0, overflow0, t, bi));
                assert(page_ok(main0, overflow0, t, bi, j));
            }
            let ghost before = entries_view(entries@);
            let ghost added = page@.entries;
            let link = page.overflow_id;
            entries.append(&mut page.kv_pairs);
            proof {
                assert(entries_view(entries@) =~= before + added);
                assert(entries_view(entries@) == chain_entries(main0, overflow0, t, bi, j + 1));
                assert forall|e: (Seq<u8>, Seq<u8>)|
                    entries_view(entries@).contains(e) <==> exists|j2: int|
                        j2 < j + 1 && #[trigger] page_has(main0, overflow0, t, bi, j2, e) by {
                    lemma_concat_contains(before, added, e);
                    if added.contains(e) {
                        assert(page_has(main0, overflow0, t, bi, j, e));
                    }
                    if exists|j2: int|
                        j2 < j + 1 && #[trigger] page_has(main0, overflow0, t, bi, j2, e) {
                        let j2 = choose|j2: int|
                            j2 < j + 1 && #[trigger] page_has(main0, overflow0, t, bi, j2, e);
                        if j2 < j {
                            assert(before.contains(e));
                        }
                    }
                }
            }
            match link {
                Some(id) => {
                    proof {
                        assert(page_ok(main0, overflow0, t, bi, j + 1));
                    }
                    ids.push(id);
                    page = found(db.overflow_pages.read_page(id));
                    proof {
                        assert(ids@ =~= t.chains[bi].take(j + 1));
                        j = j + 1;
                    }
                },
                None => {
                    proof {
                        assert(ids@ =~= t.chains[bi]);
                        assert forall|e: (Seq<u8>, Seq<u8>)|
                            entries_view(entries@).contains(e) <==> bucket_has(
                                main0,
                                overflow0,
                                t,
                                bi,
                                e,
                            ) by {
                            if bucket_has(main0, overflow0, t, bi, e) {
                                let j2 = choose|j2: int| #[trigger]
                                    page_has(main0, overflow0, t, bi, j2, e);
                                assert(j2 < j + 1);
                            }
                        }
                    }
                    break ;
                },
            }
        }
        (entries, ids)
    }

    /// The bucket `key` is addressed to by its low `level + 1` hash bits.
    pub fn dest(key: &[u8], level: u64) -> (d: u64)
        requires
            key@.len() >= 8,
            level <= 52,
        ensures
            d == dest_of(spec_hash(key@), level),
    {
        let hash = get_u64(key, 0);
        proof {
            lemma_base_count(hash, level);
            assert(1 <= (1u64 << ((level + 1) as u64))) by (bit_vector)
                requires
                    level <= 52,
            ;
        }
        hash & ((1u64 << (level + 1)) - 1)
    }

    /// Divides the entries of a bucket by the bucket each is addressed to
    /// under one more hash bit: those that stay in bucket `split`, and those
    /// that move to its sibling. Both keep their order.
    pub fn partition(entries: &Vec<(Vec<u8>, Vec<u8>)>, level: u64, split: u64) -> (r: (
        Vec<(Vec<u8>, Vec<u8>)>,
        Vec<(Vec<u8>, Vec<u8>)>,
    ))
        requires
            level <= 52,
            forall|x: int| 0 <= x < entries@.len() ==> (#[trigger] entries@[x]).0@.len() >= 8,
        ensures
            r.0@.len() + r.1@.len() == entries@.len(),
            entries_view(r.0@) == kept(entries_view(entries@), level, split, true),
            entries_view(r.1@) == kept(entries_view(entries@), level, split, false),
            forall|e: (Seq<u8>, Seq<u8>)|
                entries_view(r.0@).contains(e) <==> entries_view(entries@).contains(e) && dest_of(
                    spec_hash(e.0),
                    level,
                ) == split,
            forall|e: (Seq<u8>, Seq<u8>)|
                entries_view(r.1@).contains(e) <==> entries_view(entries@).contains(e) && dest_of(
                    spec_hash(e.0),
                    level,
                ) != split,
    {
        let ghost all = entries_view(entries@);
        let mut stay: Vec<(Vec<u8>, Vec<u8>)> = Vec::new();
        let mut moved: Vec<(Vec<u8>, Vec<u8>)> = Vec::new();
        let n = entries.len();
        let mut x: usize = 0;
        while x < n
            invariant
                x <= n,
                n == entries@.len(),
                level <= 52,
                all == entries_view(entries@),
                stay@.len() + moved@.len() == x,
                entries_view(stay@) == kept(all.take(x as int), level, split, true),
                entries_view(moved@) == kept(all.take(x as int), level, split, false),
                forall|x: int| 0 <= x < entries@.len() ==> (#[trigger] entries@[x]).0@.len() >= 8,
                forall|e: (Seq<u8>, Seq<u8>)|
                    entries_view(stay@).contains(e) <==> all.take(x as int).contains(e) && dest_of(
                        spec_hash(e.0),
                        level,
                    ) == split,
                forall|e: (Seq<u8>, Seq<u8>)|
                    entries_view(moved@).contains(e) <==> all.take(x as int).contains(e)
                        && dest_of(spec_hash(e.0), level) != split,
            decreases n - x,
        {
            let key = slice_to_vec(entries[x].0.as_slice());
            let value = slice_to_vec(entries[x].1.as_slice());
            let ghost e0 = (key@, value@);
            let ghost stay0 = entries_view(stay@);
            let ghost moved0 = entries_view(moved@);
            proof {
                assert(all[x as int] == e0);
                assert(all.take(x + 1) =~= all.take(x as int).push(e0));
                assert(all.take(x + 1).drop_last() =~= all.take(x as int));
            }
            if Self::dest(key.as_slice(), level) == split {
                stay.push((key, value));
                proof {
                    assert(entries_view(stay@) =~= stay0.push(e0));
                    assert forall|e: (Seq<u8>, Seq<u8>)|
                        entries_view(stay@).contains(e) <==> all.take(x + 1).contains(e)
                            && dest_of(spec_hash(e.0), level) == split by {
                        lemma_push_contains(stay0, e0, e);
                        lemma_push_contains(all.take(x as int), e0, e);
                    }
                    assert forall|e: (Seq<u8>, Seq<u8>)|
                        entries_view(moved@).contains(e) <==> all.take(x + 1).contains(e)
                            && dest_of(spec_hash(e.0), level) != split by {
                        lemma_push_contains(all.take(x as int), e0, e);
                    }
                }
            } else {
                moved.push((key, value));
                proof {
                    assert(entries_view(moved@) =~= moved0.push(e0));
                    assert forall|e: (Seq<u8>, Seq<u8>)|
                        entries_view(moved@).contains(e) <==> all.take(x + 1).contains(e)
                            && dest_of(spec_hash(e.0), level) != split by {
                        lemma_push_contains(moved0, e0, e);
                        lemma_push_contains(all.take(x as int), e0, e);
                    }
                    assert forall|e: (Seq<u8>, Seq<u8>)|
                        entries_view(stay@).contains(e) <==> all.take(x + 1).contains(e)
                            && dest_of(spec_hash(e.0), level) == split by {
                        lemma_push_contains(all.take(x as int), e0, e);
                    }
                }
            }
            x += 1;
        }
        assert(all.take(n as int) =~= all);
        (stay, moved)
    }

    /// Lays a run of entries out as the pages of one chain, `cap` entries to
    /// a page and at least one page, each page linked to the next. The
    /// overflow pages take their ids from `pool` first, starting at its
    /// `used`-th id, and fresh ids counting up from `next` once the pool is
    /// used up. Fails with [`Error::IO`] where an id names a frame outside
    /// the addressable range.
    #[verifier::rlimit(40)]
    fn build_chain(
        entries: &Vec<(Vec<u8>, Vec<u8>)>,
        cap: usize,
        pool: &Vec<u64>,
        used: usize,
        next: u64,
    ) -> (r: Result<(Vec<Page>, Vec<u64>)>)
        requires
            cap >= 1,
            used + entries@.len() <= usize::MAX,
        ensures
            match r {
                Ok((pages, ids)) => {
                    let ps = page_views(pages@);
                    &&& pages@.len() == ids@.len() + 1
                    &&& ids@.len() <= entries@.len()
                    &&& ps == laid_out(entries_view(entries@), cap as int, pool@, next, used as int)
                    &&& ids@ == drawn(pool@, next, used as int, ids@.len() as int)
                    &&& all_drawable(pool@, next, used as int, ids@.len() as int)
                    &&& forall|c: int|
                        0 <= c < ps.len() ==> (#[trigger] ps[c]).wf() && ps[c].overflow_id
                            == link_of(ids@, c)
                    &&& forall|e: (Seq<u8>, Seq<u8>)|
                        in_pages(ps, e) <==> entries_view(entries@).contains(e)
                    &&& forall|x: int|
                        0 <= x < ids@.len() ==> #[trigger] ids@[x] == id_at(pool@, next, used + x)
                            && Device::in_range(ids@[x])
                },
                Err(e) => {
                    &&& e == Error::IO
                    &&& !all_drawable(
                        pool@,
                        next,
                        used as int,
                        chunks(entries_view(entries@), cap as int).len() - 1,
                    )
                },
            },
    {
        let ghost all = entries_view(entries@);
        let ghost cs = chunks(all, cap as int);
        let mut pages: Vec<Page> = Vec::new();
        let mut ids: Vec<u64> = Vec::new();
        let mut cur = Page::new();
        let mut taken = used;
        let n = entries.len();
        let mut x: usize = 0;
        let ghost mut start: int = 0;
        let ghost mut done: Seq<Seq<(Seq<u8>, Seq<u8>)>> = Seq::empty();
        proof {
            assert(all.skip(0) =~= all);
            assert(done + chunks(all.skip(0), cap as int) =~= cs);
            assert(cur@.entries =~= all.subrange(0, 0));
        }
        while x < n
            invariant
                x <= n,
                n == entries@.len(),
                cap >= 1,
                used + n <= usize::MAX,
                all == entries_view(entries@),
                cs == chunks(all, cap as int),
                pages@.len() == ids@.len(),
                ids@.len() <= x,
                taken == used + ids@.len(),
                cur@.wf(),
                cur@.overflow_id is None,
                0 <= start <= x,
                x - start <= cap,
                cur@.entries == all.subrange(start, x as int),
                done.len() == pages@.len(),
                cs == done + chunks(all.skip(start), cap as int),
                forall|c: int|
                    0 <= c < pages@.len() ==> #[trigger] page_views(pages@)[c] == page_of(
                        done[c],
                        Some(ids@[c]),
                    ),
                forall|c: int|
                    0 <= c < pages@.len() ==> (#[trigger] page_views(pages@)[c]).wf()
                        && page_views(pages@)[c].overflow_id == Some(ids@[c]),
                forall|e: (Seq<u8>, Seq<u8>)|
                    in_pages(page_views(pages@), e) || cur@.entries.contains(e) <==> all.take(
                        x as int,
                    ).contains(e),
                forall|y: int|
                    0 <= y < ids@.len() ==> #[trigger] ids@[y] == id_at(pool@, next, used + y)
                        && Device::in_range(ids@[y]),
            decreases n - x,
        {
            if cur.len() >= cap {
                proof {
                    // Entries remain, so the full page is not the last one.
                    let rest = all.skip(start);
                    assert(rest.len() > cap);
                    assert(rest.take(cap as int) =~= all.subrange(start, x as int));
                    assert(rest.skip(cap as int) =~= all.skip(x as int));
                    lemma_chunks_len(all.skip(x as int), cap as int);
                    assert(cs.len() >= done.len() + 2);
                }
                let id = if taken < pool.len() {
                    pool[taken]
                } else {
                    let fresh = taken - pool.len();
                    if fresh as u64 > u64::MAX - next {
                        assert(!drawable(pool@, next, taken as int));
                        return Err(Error::IO);
                    }
                    next + fresh as u64
                };
                if !Device::can_hold(id) {
                    assert(!drawable(pool@, next, taken as int));
                    return Err(Error::IO);
                }
                let ghost ps0 = page_views(pages@);
                let ghost cur0 = cur@;
                let ghost done0 = done;
                cur.overflow_id = Some(id);
                pages.push(cur);
                ids.push(id);
                taken = taken + 1;
                cur = Page::new();
                proof {
                    let ps1 = page_views(pages@);
                    done = done0.push(cur0.entries);
                    start = x as int;
                    assert(cur@.entries =~= all.subrange(start, x as int));
                    assert(cs =~= done + chunks(all.skip(start), cap as int));
                    assert(ps1 =~= ps0.push(cur0.with_overflow(Some(id))));
                    assert(cur0.with_overflow(Some(id)) == page_of(cur0.entries, Some(id))) by {
                        assert(cur0.hashes =~= page_of(cur0.entries, Some(id)).hashes);
                    }
                    assert forall|c: int| 0 <= c < pages@.len() implies #[trigger] ps1[c]
                        == page_of(done[c], Some(ids@[c])) by {
                        if c < ps0.len() {
                            assert(ps1[c] == ps0[c]);
                        }
                    }
                    assert forall|c: int| 0 <= c < pages@.len() implies (#[trigger] ps1[c]).wf()
                        && ps1[c].overflow_id == Some(ids@[c]) by {
                        if c < ps0.len() {
                            assert(ps1[c] == ps0[c]);
                        }
                    }
                    assert forall|e: (Seq<u8>, Seq<u8>)|
                        in_pages(ps1, e) || cur@.entries.contains(e) <==> all.take(
                            x as int,
                        ).contains(e) by {
                        if in_pages(ps1, e) {
                            let c = choose|c: int|
                                0 <= c < ps1.len() && (#[trigger] ps1[c]).entries.contains(e);
                            if c < ps0.len() {
                                assert(ps0[c].entries.contains(e));
                                assert(in_pages(ps0, e));
                            }
                        }
                        if in_pages(ps0, e) {
                            let c = choose|c: int|
                                0 <= c < ps0.len() && (#[trigger] ps0[c]).entries.contains(e);
                            assert(ps1[c].entries.contains(e));
                        }
                        if cur0.entries.contains(e) {
                            assert(ps1[ps0.len() as int].entries.contains(e));
                        }
                    }
                }
            }
            let key = slice_to_vec(entries[x].0.as_slice());
            let value = slice_to_vec(entries[x].1.as_slice());
            let ghost e0 = (key@, value@);
            let ghost cur1 = cur@;
            cur.push(key, value);
            proof {
                lemma_page_len_steps(cur1, e0.0, e0.1, None);
                assert(all[x as int] == e0);
                assert(all.take(x + 1) =~= all.take(x as int).push(e0));
                assert(cur@.entries =~= all.subrange(start, x + 1));
                assert forall|e: (Seq<u8>, Seq<u8>)|
                    in_pages(page_views(pages@), e) || cur@.entries.contains(e) <==> all.take(
                        x + 1,
                    ).contains(e) by {
                    lemma_push_contains(cur1.entries, e0, e);
                    lemma_push_contains(all.take(x as int), e0, e);
                }
            }
            x += 1;
        }
        let ghost ps0 = page_views(pages@);
        let ghost cur0 = cur@;
        pages.push(cur);
        proof {
            let ps1 = page_views(pages@);
            let rest = all.skip(start);
            assert(rest =~= all.subrange(start, n as int));
            assert(chunks(rest, cap as int) =~= seq![rest]);
            assert(cs =~= done.push(cur0.entries));
            assert(all.take(n as int) =~= all);
            assert(ps1 =~= ps0.push(cur0));
            assert(cur0 == page_of(cur0.entries, None)) by {
                assert(cur0.hashes =~= page_of(cur0.entries, None).hashes);
            }
            assert forall|c: int| 0 <= c < ps1.len() implies (#[trigger] ps1[c]).wf()
                && ps1[c].overflow_id == link_of(ids@, c) by {
                if c < ps0.len() {
                    assert(ps1[c] == ps0[c]);
                }
            }
            assert forall|e: (Seq<u8>, Seq<u8>)| in_pages(ps1, e) <==> all.contains(e) by {
                if in_pages(ps1, e) {
                    let c = choose|c: int|
                        0 <= c < ps1.len() && (#[trigger] ps1[c]).entries.contains(e);
                    if c < ps0.len() {
                        assert(ps0[c].entries.contains(e));
                        assert(in_pages(ps0, e));
                    }
                }
                if in_pages(ps0, e) {
                    let c = choose|c: int|
                        0 <= c < ps0.len() && (#[trigger] ps0[c]).entries.contains(e);
                    assert(ps1[c].entries.contains(e));
                }
                if cur0.entries.contains(e) {
                    assert(ps1[ps0.len() as int].entries.contains(e));
                }
            }
            let want = laid_out(all, cap as int, pool@, next, used as int);
            assert(ps1.len() == want.len());
            assert forall|c: int| 0 <= c < ps1.len() implies ps1[c] == want[c] by {
                if c < ps0.len() {
                    assert(ps1[c] == ps0[c]);
                    assert(ps0[c] == page_of(done[c], Some(ids@[c])));
                    assert(cs[c] == done[c]);
                }
            }
            assert(ps1 =~= want);
            assert(ids@ =~= drawn(pool@, next, used as int, ids@.len() as int));
            assert forall|y: int| used <= y < used + ids@.len() implies #[trigger] drawable(
                pool@,
                next,
                y,
            ) by {
                assert(ids@[y - used] == id_at(pool@, next, used + (y - used)));
            }
        }
        Ok((pages, ids))
    }

    /// Whether every page's encoding fits a frame.
    fn all_fit(pages: &Vec<Page>) -> (fit: bool)
        ensures
            fit == forall|c: int|
                0 <= c < pages@.len() ==> (#[trigger] page_views(pages@)[c]).encoded_len() <= 4088,
    {
        let n = pages.len();
        let mut c: usize = 0;
        while c < n
            invariant
                c <= n,
                n == pages@.len(),
                forall|d: int|
                    0 <= d < c ==> (#[trigger] page_views(pages@)[d]).encoded_len() <= 4088,
            decreases n - c,
        {
            let fits = match pages[c].encoded_len() {
                Some(len) => len <= 4088,
                None => false,
            };
            if !fits {
                assert(page_views(pages@)[c as int].encoded_len() > 4088);
                return false;
            }
            c += 1;
        }
        true
    }

    /// Writes the pages of one chain: the first to main page `head`, the
    /// others to the overflow pages `ids`, last page first.
    #[verifier::rlimit(40)]
    fn write_chain(db: &mut LinHash, head: u64, ids: &Vec<u64>, pages: Vec<Page>)
        requires
            old(db).main_space().wf(),
            old(db).overflow_space().wf(),
            pages@.len() == ids@.len() + 1,
            Device::in_range(head),
            distinct(ids@),
            forall|x: int| 0 <= x < ids@.len() ==> Device::in_range(#[trigger] ids@[x]),
            forall|c: int|
                0 <= c < pages@.len() ==> (#[trigger] page_views(pages@)[c]).encoded_len() <= 4088,
        ensures
            final(db).table() == old(db).table(),
            final(db).capacity() == old(db).capacity(),
            final(db).item_count() == old(db).item_count(),
            chain_written(
                old(db).main_space(),
                old(db).overflow_space(),
                final(db).main_space(),
                final(db).overflow_space(),
                head,
                ids@,
                page_views(pages@),
            ),
    {
        let ghost ps = page_views(pages@);
        let ghost main0 = db.main_pages;
        let ghost overflow0 = db.overflow_pages;
        let ghost t = db.table();
        let mut pages = pages;
        proof {
            assert(main0.pending().take(main0.pending().len() as int) =~= main0.pending());
            assert(overflow0.pending().take(overflow0.pending().len() as int)
                =~= overflow0.pending());
        }
        while pages.len() > 0
            invariant
                db.main_pages.wf(),
                db.overflow_pages.wf(),
                db.table() == t,
                db.capacity() == old(db).capacity(),
                db.item_count() == old(db).item_count(),
                ps.len() == ids@.len() + 1,
                pages@.len() <= ps.len(),
                page_views(pages@) == ps.take(pages@.len() as int),
                Device::in_range(head),
                distinct(ids@),
                forall|x: int| 0 <= x < ids@.len() ==> Device::in_range(#[trigger] ids@[x]),
                forall|c: int| 0 <= c < ps.len() ==> (#[trigger] ps[c]).encoded_len() <= 4088,
                pages@.len() == 0 ==> db.main_pages.slot(head) == Slot::Page(ps[0]),
                forall|other: u64|
                    other != head ==> #[trigger] db.main_pages.slot(other) == main0.slot(other),
                pages@.len() > 0 ==> db.main_pages == main0,
                forall|x: int|
                    pages@.len() <= x + 1 && 0 <= x < ids@.len() ==> db.overflow_pages.slot(
                        #[trigger] ids@[x],
                    ) == Slot::Page(ps[x + 1]),
                forall|other: u64|
                    !ids@.contains(other) ==> #[trigger] db.overflow_pages.slot(other)
                        == overflow0.slot(other),
                extends(main0.pending(), db.main_pages.pending()),
                extends(overflow0.pending(), db.overflow_pages.pending()),
                db.main_pages.base() == main0.base(),
                db.overflow_pages.base() == overflow0.base(),
            decreases pages@.len(),
        {
            let c = pages.len() - 1;
            let ghost before = page_views(pages@);
            let ghost overflow1 = db.overflow_pages;
            let page = match pages.pop() {
                Some(page) => page,
                None => unreached(),
            };
            proof {
                assert(page@ == before[c as int]);
                assert(before[c as int] == ps[c as int]);
                assert(page_views(pages@) =~= ps.take(c as int));
            }
            let id = if c == 0 {
                PageId::Main(head)
            } else {
                PageId::Overflow(ids[c - 1])
            };
            let ghost main1 = db.main_pages;
            let written = db.write_to(id, page);
            assert(written is Ok);
            proof {
                if c == 0 {
                    assert(db.main_pages.pending().take(main0.pending().len() as int)
                        =~= main1.pending().take(main0.pending().len() as int));
                } else {
                    assert(db.overflow_pages.pending().take(overflow0.pending().len() as int)
                        =~= overflow1.pending().take(overflow0.pending().len() as int));
                }
                if c > 0 {
                    let target = ids@[c - 1];
                    assert(ids@.contains(target));
                    assert forall|x: int|
                        pages@.len() <= x + 1 && 0 <= x < ids@.len() implies db.overflow_pages.slot(
                        #[trigger] ids@[x],
                    ) == Slot::Page(ps[x + 1]) by {
                        if x != c - 1 {
                            assert(ids@[x] != target);
                            assert(db.overflow_pages.slot(ids@[x]) == overflow1.slot(ids@[x]));
                        }
                    }
                    assert forall|other: u64| !ids@.contains(other) implies #[trigger]
                        db.overflow_pages.slot(other) == overflow0.slot(other) by {
                        assert(other != target);
                        assert(db.overflow_pages.slot(other) == overflow1.slot(other));
                    }
                }
            }
        }
    }
}

} // verus!
