//! What holds of the store over whole runs of inserts.
//!
//! An insert that succeeds takes the view `m` to `m.insert(key, value)`; one
//! that is refused because the key is there leaves the view as it is. Both
//! the index and the store say so of their `insert`, in terms of [`put`]. A
//! run of such inserts is modelled by [`applied`].

use vstd::prelude::*;

verus! {

/// The view after one insert that succeeded or was refused as a duplicate.
pub open spec fn put(m: Map<Seq<u8>, Seq<u8>>, key: Seq<u8>, value: Seq<u8>) -> Map<
    Seq<u8>,
    Seq<u8>,
> {
    if m.contains_key(key) {
        m
    } else {
        m.insert(key, value)
    }
}

/// The view after a run of inserts, each of which succeeded or was refused
/// as a duplicate.
pub open spec fn applied(m: Map<Seq<u8>, Seq<u8>>, ops: Seq<(Seq<u8>, Seq<u8>)>) -> Map<
    Seq<u8>,
    Seq<u8>,
>
    decreases ops.len(),
{
    if ops.len() == 0 {
        m
    } else {
        put(applied(m, ops.drop_last()), ops.last().0, ops.last().1)
    }
}

/// The value a key has is never altered: a key that the view maps to a
/// value is mapped to the same value after any run of inserts.
pub proof fn lemma_never_altered(
    m: Map<Seq<u8>, Seq<u8>>,
    ops: Seq<(Seq<u8>, Seq<u8>)>,
    key: Seq<u8>,
)
    requires
        m.contains_key(key),
    ensures
        applied(m, ops).contains_key(key),
        applied(m, ops)[key] == m[key],
    decreases ops.len(),
{
    if ops.len() > 0 {
        lemma_never_altered(m, ops.drop_last(), key);
    }
}

/// Round trip: after any run of inserts, in any order, the key of every
/// insert that succeeded is mapped to the value that insert gave it.
pub proof fn lemma_round_trip(m: Map<Seq<u8>, Seq<u8>>, ops: Seq<(Seq<u8>, Seq<u8>)>, i: int)
    requires
        0 <= i < ops.len(),
        !applied(m, ops.take(i)).contains_key(ops[i].0),
    ensures
        applied(m, ops).contains_key(ops[i].0),
        applied(m, ops)[ops[i].0] == ops[i].1,
    decreases ops.len(),
{
    if i == ops.len() - 1 {
        assert(ops.take(i) =~= ops.drop_last());
    } else {
        assert(ops.drop_last().take(i) =~= ops.take(i));
        lemma_round_trip(m, ops.drop_last(), i);
    }
}

/// No duplicates: an insert under a key that an earlier insert of the run
/// stored changes nothing.
pub proof fn lemma_duplicate_refused(
    m: Map<Seq<u8>, Seq<u8>>,
    ops: Seq<(Seq<u8>, Seq<u8>)>,
    key: Seq<u8>,
    value: Seq<u8>,
)
    requires
        applied(m, ops).contains_key(key),
    ensures
        applied(m, ops.push((key, value))) == applied(m, ops),
{
    assert(ops.push((key, value)).drop_last() =~= ops);
}

/// Non-existence: a key that the view does not hold and that no insert of
/// the run names is not held afterwards.
pub proof fn lemma_absent(m: Map<Seq<u8>, Seq<u8>>, ops: Seq<(Seq<u8>, Seq<u8>)>, key: Seq<u8>)
    requires
        !m.contains_key(key),
        forall|i: int| 0 <= i < ops.len() ==> (#[trigger] ops[i]).0 != key,
    ensures
        !applied(m, ops).contains_key(key),
    decreases ops.len(),
{
    if ops.len() > 0 {
        assert forall|i: int| 0 <= i < ops.drop_last().len() implies (
        #[trigger] ops.drop_last()[i]).0 != key by {
            assert(ops.drop_last()[i] == ops[i]);
        }
        lemma_absent(m, ops.drop_last(), key);
        assert(ops.last() == ops[ops.len() - 1]);
    }
}

/// Counting: a run of inserts under pairwise different keys into an empty
/// store leaves as many keys as there were inserts.
pub proof fn lemma_count(ops: Seq<(Seq<u8>, Seq<u8>)>)
    requires
        forall|i: int, j: int| 0 <= i < j < ops.len() ==> ops[i].0 != ops[j].0,
    ensures
        applied(Map::empty(), ops).dom().finite(),
        applied(Map::empty(), ops).len() == ops.len(),
    decreases ops.len(),
{
    if ops.len() > 0 {
        let rest = ops.drop_last();
        assert forall|i: int, j: int| 0 <= i < j < rest.len() implies rest[i].0 != rest[j].0 by {
            assert(rest[i] == ops[i]);
            assert(rest[j] == ops[j]);
        }
        lemma_count(rest);
        assert forall|i: int| 0 <= i < rest.len() implies (#[trigger] rest[i]).0
            != ops.last().0 by {
            assert(rest[i] == ops[i]);
        }
        lemma_absent(Map::empty(), rest, ops.last().0);
        assert(applied(Map::empty(), ops).dom() =~= applied(Map::empty(), rest).dom().insert(
            ops.last().0,
        ));
    }
}

} // verus!
