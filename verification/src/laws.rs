//! What holds of every store: reads after writes, reopening, removal, and
//! logs that were cut short.

use vstd::prelude::*;

use crate::codec::{key_fits, record_bytes, tombstone_bytes, value_fits};
use crate::error::StoreError;
use crate::recovery::{
    is_record_boundary, lemma_appended_record, lemma_boundaries_leave_room, lemma_record_bounds,
    lemma_record_stable, lemma_replay_cut_between_records, lemma_replay_cut_inside_record,
    lemma_replay_errors, lemma_replay_points_at_records, points_at_records,
};
use crate::store::{lemma_remove_keeps_wf, lemma_set_keeps_wf, StoreModel};

verus! {

/// The store after one write: a key with the value it is set to, or with
/// `None` where it is removed.
pub open spec fn after_write(
    store: StoreModel,
    write: (Seq<char>, Option<Seq<char>>),
) -> StoreModel {
    match write.1 {
        Some(value) => store.after_set(write.0, value),
        None => store.after_remove(write.0),
    }
}

/// The store after the writes of `writes`, in order.
pub open spec fn after_writes(
    store: StoreModel,
    writes: Seq<(Seq<char>, Option<Seq<char>>)>,
) -> StoreModel
    decreases writes.len(),
{
    if writes.len() == 0 {
        store
    } else {
        after_write(after_writes(store, writes.drop_last()), writes.last())
    }
}

/// Whether the key of `write`, and its value if it has one, fit the record
/// format.
pub open spec fn write_fits(write: (Seq<char>, Option<Seq<char>>)) -> bool {
    key_fits(write.0) && match write.1 {
        Some(value) => value_fits(value),
        None => true,
    }
}

/// Whether every write of `writes` fits the record format.
pub open spec fn all_fit(writes: Seq<(Seq<char>, Option<Seq<char>>)>) -> bool {
    forall|i: int| 0 <= i < writes.len() ==> write_fits(#[trigger] writes[i])
}

/// The values that `writes` leaves behind: for each key that was set and
/// not removed since, the last value it was set to.
pub open spec fn written(writes: Seq<(Seq<char>, Option<Seq<char>>)>) -> Map<
    Seq<char>,
    Seq<char>,
>
    decreases writes.len(),
{
    if writes.len() == 0 {
        Map::empty()
    } else {
        match writes.last().1 {
            Some(value) => written(writes.drop_last()).insert(writes.last().0, value),
            None => written(writes.drop_last()).remove(writes.last().0),
        }
    }
}

/// In a store that agrees with its log, every index entry is the offset of
/// a complete value record for its key, a header's length or more before
/// the end of the log.
pub proof fn law_index_points_at_records(store: StoreModel)
    requires
        store.wf(),
    ensures
        points_at_records(store.log, store.index),
        forall|key: Seq<char>| #[trigger]
            store.index.contains_key(key) ==> 0 <= store.index[key] && store.index[key] + 8
                <= store.log.len(),
{
    lemma_replay_points_at_records(store.log, 0, Map::empty());
    assert forall|key: Seq<char>| #[trigger] store.index.contains_key(key) implies 0
        <= store.index[key] && store.index[key] + 8 <= store.log.len() by {
        lemma_record_bounds(store.log, store.index[key]);
    }
}

/// A lookup right after a set returns the value that was set.
pub proof fn law_set_then_get(store: StoreModel, key: Seq<char>, value: Seq<char>)
    requires
        store.wf(),
        key_fits(key),
        value_fits(value),
    ensures
        store.after_set(key, value).wf(),
        store.after_set(key, value).lookup(key) == Ok::<Option<Seq<char>>, StoreError>(
            Some(value),
        ),
{
    lemma_set_keeps_wf(store, key, value);
    lemma_appended_record(store.log, key, value);
}

/// A set changes the answer for no other key.
pub proof fn law_set_keeps_other_keys(
    store: StoreModel,
    key: Seq<char>,
    value: Seq<char>,
    other: Seq<char>,
)
    requires
        store.wf(),
        other != key,
    ensures
        store.after_set(key, value).lookup(other) == store.lookup(other),
{
    if store.index.contains_key(other) {
        lemma_replay_points_at_records(store.log, 0, Map::empty());
        lemma_record_stable(store.log, record_bytes(key, value), store.index[other]);
    }
}

/// A removal changes the answer for no other key.
pub proof fn law_remove_keeps_other_keys(store: StoreModel, key: Seq<char>, other: Seq<char>)
    requires
        store.wf(),
        other != key,
    ensures
        store.after_remove(key).lookup(other) == store.lookup(other),
{
    if store.index.contains_key(other) {
        lemma_replay_points_at_records(store.log, 0, Map::empty());
        lemma_record_stable(store.log, tombstone_bytes(key), store.index[other]);
    }
}

/// A key is not found right after its removal.
pub proof fn law_remove_then_get(store: StoreModel, key: Seq<char>)
    requires
        store.wf(),
        key_fits(key),
    ensures
        store.after_remove(key).wf(),
        store.after_remove(key).lookup(key) == Ok::<Option<Seq<char>>, StoreError>(None),
{
    lemma_remove_keeps_wf(store, key);
}

/// After two sets of one key a lookup returns the second value.
pub proof fn law_last_write_wins(
    store: StoreModel,
    key: Seq<char>,
    first: Seq<char>,
    second: Seq<char>,
)
    requires
        store.wf(),
        key_fits(key),
        value_fits(first),
        value_fits(second),
    ensures
        store.after_set(key, first).after_set(key, second).lookup(key) == Ok::<
            Option<Seq<char>>,
            StoreError,
        >(Some(second)),
{
    law_set_then_get(store, key, first);
    law_set_then_get(store.after_set(key, first), key, second);
}

/// Opening the log of a store that agrees with it gives that store again.
pub proof fn law_reopen(store: StoreModel)
    requires
        store.wf(),
    ensures
        StoreModel::opened(store.log) == Ok::<StoreModel, StoreError>(store),
{
}

/// Opening the log of a store that any sequence of sets and removals has
/// written gives that store again, index and all, so every lookup answers
/// as before.
pub proof fn law_reopen_after_writes(
    store: StoreModel,
    writes: Seq<(Seq<char>, Option<Seq<char>>)>,
)
    requires
        store.wf(),
        all_fit(writes),
    ensures
        after_writes(store, writes).wf(),
        StoreModel::opened(after_writes(store, writes).log) == Ok::<StoreModel, StoreError>(
            after_writes(store, writes),
        ),
        forall|key: Seq<char>|
            StoreModel::opened(after_writes(store, writes).log)->Ok_0.lookup(key) == (
            #[trigger] after_writes(store, writes).lookup(key)),
    decreases writes.len(),
{
    if writes.len() > 0 {
        let earlier = writes.drop_last();
        assert forall|i: int| 0 <= i < earlier.len() implies write_fits(#[trigger] earlier[i]) by {
            assert(earlier[i] == writes[i]);
        }
        law_reopen_after_writes(store, earlier);
        assert(write_fits(writes[writes.len() - 1]));
        match writes.last().1 {
            Some(value) => lemma_set_keeps_wf(after_writes(store, earlier), writes.last().0, value),
            None => lemma_remove_keeps_wf(after_writes(store, earlier), writes.last().0),
        }
    }
}

/// A log that does not open is refused for a record that is cut short or
/// for a key that is no text, and for nothing else.
pub proof fn law_open_errors(log: Seq<u8>)
    ensures
        match StoreModel::opened(log) {
            Ok(store) => store.wf() && store.log == log,
            Err(e) => e == StoreError::TruncatedRecord || e == StoreError::InvalidEncoding,
        },
{
    lemma_replay_errors(log, 0, Map::empty());
}

/// The empty log opens as the empty store.
pub proof fn law_empty_log_opens()
    ensures
        StoreModel::opened(Seq::empty()) == Ok::<StoreModel, StoreError>(StoreModel::empty()),
        StoreModel::empty().wf(),
{
}

/// A store that sets and removals have written, from the empty log on,
/// answers each lookup with the last value that the key was set to, and with
/// nothing for a key that was never set or was removed since: no lookup
/// fails.
pub proof fn law_lookup_after_writes(
    writes: Seq<(Seq<char>, Option<Seq<char>>)>,
    key: Seq<char>,
)
    requires
        all_fit(writes),
    ensures
        after_writes(StoreModel::empty(), writes).lookup(key) == (if written(
            writes,
        ).contains_key(key) {
            Ok::<Option<Seq<char>>, StoreError>(Some(written(writes)[key]))
        } else {
            Ok::<Option<Seq<char>>, StoreError>(None)
        }),
    decreases writes.len(),
{
    if writes.len() > 0 {
        let earlier = writes.drop_last();
        let last_key = writes.last().0;
        assert(write_fits(writes[writes.len() - 1]));
        assert forall|i: int| 0 <= i < earlier.len() implies write_fits(#[trigger] earlier[i]) by {
            assert(earlier[i] == writes[i]);
        }
        let before = after_writes(StoreModel::empty(), earlier);
        law_reopen_after_writes(StoreModel::empty(), earlier);
        law_lookup_after_writes(earlier, key);
        match writes.last().1 {
            Some(value) => {
                if key == last_key {
                    law_set_then_get(before, last_key, value);
                } else {
                    law_set_keeps_other_keys(before, last_key, value, key);
                }
            },
            None => {
                if key == last_key {
                    law_remove_then_get(before, last_key);
                } else {
                    law_remove_keeps_other_keys(before, last_key, key);
                }
            },
        }
    }
}

/// A key that was never set is not found, without an error, whatever else
/// was set or removed since the log was empty.
pub proof fn law_missing_key(writes: Seq<(Seq<char>, Option<Seq<char>>)>, key: Seq<char>)
    requires
        forall|i: int| 0 <= i < writes.len() ==> (#[trigger] writes[i]).0 != key,
    ensures
        !after_writes(StoreModel::empty(), writes).index.contains_key(key),
        after_writes(StoreModel::empty(), writes).lookup(key) == Ok::<
            Option<Seq<char>>,
            StoreError,
        >(None),
    decreases writes.len(),
{
    if writes.len() > 0 {
        let earlier = writes.drop_last();
        assert forall|i: int| 0 <= i < earlier.len() implies (#[trigger] earlier[i]).0 != key by {
            assert(earlier[i] == writes[i]);
        }
        law_missing_key(earlier, key);
        assert(writes.last() == writes[writes.len() - 1]);
    }
}

/// After a set and a removal of one key, the store reopens as it is, and
/// the key is not found.
pub proof fn law_removal_survives_reopen(store: StoreModel, key: Seq<char>, value: Seq<char>)
    requires
        store.wf(),
        key_fits(key),
        value_fits(value),
    ensures
        StoreModel::opened(store.after_set(key, value).after_remove(key).log) == Ok::<
            StoreModel,
            StoreError,
        >(store.after_set(key, value).after_remove(key)),
        store.after_set(key, value).after_remove(key).lookup(key) == Ok::<
            Option<Seq<char>>,
            StoreError,
        >(None),
{
    lemma_set_keeps_wf(store, key, value);
    lemma_remove_keeps_wf(store.after_set(key, value), key);
}

/// A log that opens, cut anywhere but between two records, does not: the
/// scan of the prefix reports a truncated record.
pub proof fn law_cut_log_is_refused(log: Seq<u8>, n: int)
    requires
        StoreModel::opened(log) is Ok,
        0 <= n <= log.len(),
        !is_record_boundary(log, 0, n),
    ensures
        StoreModel::opened(log.take(n)) == Err::<StoreModel, StoreError>(
            StoreError::TruncatedRecord,
        ),
{
    lemma_replay_cut_inside_record(log, n, 0, Map::empty());
}

/// A log that opens, cut between two records, still opens.
pub proof fn law_cut_between_records_opens(log: Seq<u8>, n: int)
    requires
        StoreModel::opened(log) is Ok,
        0 <= n <= log.len(),
        is_record_boundary(log, 0, n),
    ensures
        StoreModel::opened(log.take(n)) is Ok,
{
    lemma_replay_cut_between_records(log, n, 0, Map::empty());
}

/// A log that opens, with fewer of its last bytes dropped than a header
/// has, does not open: the scan reports a truncated record, and no store
/// with a partial index is built.
pub proof fn law_dropped_tail_is_refused(log: Seq<u8>, dropped: int)
    requires
        StoreModel::opened(log) is Ok,
        0 < dropped < 8,
        dropped <= log.len(),
    ensures
        StoreModel::opened(log.take(log.len() - dropped)) == Err::<StoreModel, StoreError>(
            StoreError::TruncatedRecord,
        ),
{
    let n = log.len() - dropped;
    if is_record_boundary(log, 0, n) {
        lemma_boundaries_leave_room(log, 0, n, Map::empty());
    }
    law_cut_log_is_refused(log, n);
}

} // verus!
