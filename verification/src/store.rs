//! What the store holds, as far as this library is concerned.
//!
//! The store itself is kept by the caller. The library gives it the value to
//! write for a count (`encode_count`) and reads the count from what it returns
//! for a hash (`decode_count`). The model of a store is the map from the bytes
//! of each hash written so far to the value last written for it; the laws
//! below hold of every store that returns for a key what was last written.

use crate::count::{count_bytes, lemma_count_round_trip, stored_count};
use vstd::prelude::*;

verus! {

/// The count that a lookup of `hash` reports.
pub open spec fn count_at(store: Map<Seq<u8>, Seq<u8>>, hash: Seq<u8>) -> u64 {
    stored_count(
        if store.contains_key(hash) {
            Some(store[hash])
        } else {
            None
        },
    )
}

/// The store after the count `n` was written for `hash`.
pub open spec fn with_count(store: Map<Seq<u8>, Seq<u8>>, hash: Seq<u8>, n: u64) -> Map<
    Seq<u8>,
    Seq<u8>,
> {
    store.insert(hash, count_bytes(n))
}

/// The store after `records` were written, the first of them first.
pub open spec fn with_records(store: Map<Seq<u8>, Seq<u8>>, records: Seq<(Seq<u8>, u64)>) -> Map<
    Seq<u8>,
    Seq<u8>,
>
    decreases records.len(),
{
    if records.len() == 0 {
        store
    } else {
        with_count(with_records(store, records.drop_last()), records.last().0, records.last().1)
    }
}

/// Whether `records` holds a record for `hash`.
pub open spec fn mentions(records: Seq<(Seq<u8>, u64)>, hash: Seq<u8>) -> bool {
    exists|i: int| 0 <= i < records.len() && (#[trigger] records[i]).0 == hash
}

/// A lookup reports the count that was last written for the hash.
pub proof fn lemma_count_after_write(store: Map<Seq<u8>, Seq<u8>>, hash: Seq<u8>, n: u64)
    ensures
        count_at(with_count(store, hash, n), hash) == n,
{
    lemma_count_round_trip(n);
}

/// A write for one hash changes the count of no other.
pub proof fn lemma_write_keeps_others(
    store: Map<Seq<u8>, Seq<u8>>,
    hash: Seq<u8>,
    n: u64,
    other: Seq<u8>,
)
    requires
        other != hash,
    ensures
        count_at(with_count(store, hash, n), other) == count_at(store, other),
{
}

/// A hash that was never written counts zero.
pub proof fn lemma_count_of_unwritten(store: Map<Seq<u8>, Seq<u8>>, hash: Seq<u8>)
    requires
        !store.contains_key(hash),
    ensures
        count_at(store, hash) == 0,
        count_at(Map::empty(), hash) == 0,
{
}

/// Writing a count of zero for a hash that was never written cannot be
/// observed: every lookup reports what it reported before.
pub proof fn lemma_zero_write_is_unobservable(store: Map<Seq<u8>, Seq<u8>>, hash: Seq<u8>)
    requires
        !store.contains_key(hash),
    ensures
        forall|any: Seq<u8>| #[trigger]
            count_at(with_count(store, hash, 0), any) == count_at(store, any),
{
    lemma_count_round_trip(0);
}

/// Records leave the counts of the hashes that they do not mention as they
/// were.
pub proof fn lemma_records_keep_others(
    store: Map<Seq<u8>, Seq<u8>>,
    records: Seq<(Seq<u8>, u64)>,
    hash: Seq<u8>,
)
    requires
        !mentions(records, hash),
    ensures
        count_at(with_records(store, records), hash) == count_at(store, hash),
    decreases records.len(),
{
    if records.len() > 0 {
        let front = records.drop_last();
        assert forall|i: int| 0 <= i < front.len() implies (#[trigger] front[i]).0 != hash by {
            assert(front[i] == records[i]);
        }
        assert(records[records.len() - 1].0 != hash);
        lemma_records_keep_others(store, front, hash);
    }
}

/// The last writer wins: after a run of records, a hash counts what the last
/// record that mentions it says.
pub proof fn lemma_last_record_wins(
    store: Map<Seq<u8>, Seq<u8>>,
    before: Seq<(Seq<u8>, u64)>,
    hash: Seq<u8>,
    n: u64,
    after: Seq<(Seq<u8>, u64)>,
)
    requires
        !mentions(after, hash),
    ensures
        count_at(with_records(store, before + seq![(hash, n)] + after), hash) == n,
    decreases after.len(),
{
    let all = before + seq![(hash, n)] + after;
    if after.len() == 0 {
        assert(all.drop_last() =~= before);
        assert(all.last() == (hash, n));
        lemma_count_after_write(with_records(store, before), hash, n);
    } else {
        let front = after.drop_last();
        assert(all.drop_last() =~= before + seq![(hash, n)] + front);
        assert(all.last() == after.last());
        assert(after[after.len() - 1].0 != hash);
        assert forall|i: int| 0 <= i < front.len() implies (#[trigger] front[i]).0 != hash by {
            assert(front[i] == after[i]);
        }
        lemma_last_record_wins(store, before, hash, n, front);
    }
}

} // verus!
