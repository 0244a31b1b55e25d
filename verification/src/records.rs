//! What the lines of a text contribute to a parse, and the map that a
//! sequence of such contributions builds up.

use vstd::prelude::*;

verus! {

/// What a line contributes to a parse.
#[derive(Clone, Debug, PartialEq, Eq)]
pub enum Record<T> {
    /// The line does not match the grammar and is passed over.
    Skipped,
    /// The line matches the grammar, but one of its numerals does not fit
    /// in 32 bits.
    Malformed,
    /// The line matches, and these are its fields.
    Entry(T),
}

/// No record is malformed.
pub open spec fn none_malformed<T>(records: Seq<Record<T>>) -> bool {
    forall|i: int| 0 <= i < records.len() ==> !(#[trigger] records[i] is Malformed)
}

/// The record at `k` is malformed and none before it is.
pub open spec fn first_malformed<T>(records: Seq<Record<T>>, k: int) -> bool {
    &&& 0 <= k < records.len()
    &&& records[k] is Malformed
    &&& none_malformed(records.take(k))
}

/// The record is an entry for `key`.
pub open spec fn enters<K, V>(record: Record<(K, V)>, key: K) -> bool {
    record is Entry && record->Entry_0.0 == key
}

/// The map as it is after one more record: an entry is put in, in place
/// of what the map had for its key, and any other record changes nothing.
pub open spec fn record_into<K, V>(map: Map<K, V>, record: Record<(K, V)>) -> Map<K, V> {
    match record {
        Record::Entry((key, value)) => map.insert(key, value),
        _ => map,
    }
}

/// The map that a sequence of records builds up, taken in order from the
/// empty map.
pub open spec fn entries_of<K, V>(records: Seq<Record<(K, V)>>) -> Map<K, V>
    decreases records.len(),
{
    if records.len() == 0 {
        Map::empty()
    } else {
        record_into(entries_of(records.drop_last()), records.last())
    }
}

/// Records taken after others go into the map that the others built.
pub proof fn lemma_entries_of_push<K, V>(records: Seq<Record<(K, V)>>, record: Record<(K, V)>)
    ensures
        entries_of(records.push(record)) == record_into(entries_of(records), record),
{
    assert(records.push(record).drop_last() =~= records);
}

/// A record that is no entry can be left out of a sequence, wherever it
/// stands, and the map stays the same.
pub proof fn lemma_entries_of_without<K, V>(
    before: Seq<Record<(K, V)>>,
    record: Record<(K, V)>,
    after: Seq<Record<(K, V)>>,
)
    requires
        !(record is Entry),
    ensures
        entries_of(before + seq![record] + after) == entries_of(before + after),
    decreases after.len(),
{
    if after.len() == 0 {
        assert(before + seq![record] + after =~= before.push(record));
        assert(before + after =~= before);
        lemma_entries_of_push(before, record);
    } else {
        let shorter = after.drop_last();
        lemma_entries_of_without(before, record, shorter);
        assert(before + seq![record] + after =~= (before + seq![record] + shorter).push(
            after.last(),
        ));
        assert(before + after =~= (before + shorter).push(after.last()));
        lemma_entries_of_push(before + seq![record] + shorter, after.last());
        lemma_entries_of_push(before + shorter, after.last());
    }
}

/// A sequence with one more record in it, wherever it stands, is free of
/// malformed records exactly if the rest is and that record is not one.
pub proof fn lemma_none_malformed_without<T>(
    before: Seq<Record<T>>,
    record: Record<T>,
    after: Seq<Record<T>>,
)
    ensures
        none_malformed(before + seq![record] + after) <==> none_malformed(before + after) && !(
        record is Malformed),
{
    let with = before + seq![record] + after;
    let without = before + after;
    let at = before.len() as int;
    if none_malformed(with) {
        assert(with[at] == record);
        assert forall|i: int| 0 <= i < without.len() implies !(
        #[trigger] without[i] is Malformed) by {
            if i < at {
                assert(with[i] == without[i]);
            } else {
                assert(with[i + 1] == without[i]);
            }
        }
    }
    if none_malformed(without) && !(record is Malformed) {
        assert forall|i: int| 0 <= i < with.len() implies !(#[trigger] with[i] is Malformed) by {
            if i < at {
                assert(with[i] == without[i]);
            } else if i > at {
                assert(with[i] == without[i - 1]);
            }
        }
    }
}

/// The record at `i` is an entry for `key`.
pub open spec fn entered_at<K, V>(records: Seq<Record<(K, V)>>, key: K, i: int) -> bool {
    0 <= i < records.len() && enters(records[i], key)
}

/// The record at `i` is an entry for `key`, and no record behind it is.
pub open spec fn last_entered_at<K, V>(records: Seq<Record<(K, V)>>, key: K, i: int) -> bool {
    &&& entered_at(records, key, i)
    &&& forall|j: int| i < j ==> !#[trigger] entered_at(records, key, j)
}

/// The map holds the value of the last record that enters a key.
pub proof fn lemma_entries_of_last<K, V>(records: Seq<Record<(K, V)>>, key: K, i: int)
    requires
        last_entered_at(records, key, i),
    ensures
        entries_of(records).contains_key(key),
        entries_of(records)[key] == records[i]->Entry_0.1,
    decreases records.len(),
{
    let shorter = records.drop_last();
    if i < records.len() - 1 {
        assert(!entered_at(records, key, records.len() - 1));
        assert forall|j: int| i < j implies !#[trigger] entered_at(shorter, key, j) by {
            assert(!entered_at(records, key, j));
        }
        lemma_entries_of_last(shorter, key, i);
    }
}

/// A key is in the map exactly if some record enters it.
pub proof fn lemma_entries_of_contains<K, V>(records: Seq<Record<(K, V)>>, key: K)
    ensures
        entries_of(records).contains_key(key) <==> exists|i: int|
            #[trigger] entered_at(records, key, i),
    decreases records.len(),
{
    if records.len() > 0 {
        let shorter = records.drop_last();
        let last = records.len() - 1;
        lemma_entries_of_contains(shorter, key);
        if entries_of(records).contains_key(key) {
            if enters(records[last], key) {
                assert(entered_at(records, key, last));
            } else {
                assert(entries_of(shorter).contains_key(key));
                let i = choose|i: int| #[trigger] entered_at(shorter, key, i);
                assert(entered_at(records, key, i));
            }
        }
        if exists|i: int| #[trigger] entered_at(records, key, i) {
            let i = choose|i: int| #[trigger] entered_at(records, key, i);
            if i < last {
                assert(entered_at(shorter, key, i));
            }
        }
    }
}

} // verus!
