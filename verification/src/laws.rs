//! What holds of tables over several operations.
//!
//! The operations of `HashMap` say what one call does to the map that a table
//! stands for. The lemmas here follow tables through runs of such calls.

use vstd::prelude::*;
use crate::load::{lemma_growth_suffices, DEFAULT_BUCKETS};
use crate::map::HashMap;

verus! {

/// `after` is `before` once `value` has been put under `key`.
pub open spec fn inserted<V>(before: HashMap<V>, key: Seq<char>, value: V, after: HashMap<V>) -> bool {
    &&& before.wf()
    &&& after.wf()
    &&& after@ == before@.insert(key, value)
    &&& after.spec_bucket_count() == before.buckets_after_insert(key)
}

/// `after` is `before` once `key` has been removed.
pub open spec fn removed<V>(before: HashMap<V>, key: Seq<char>, after: HashMap<V>) -> bool {
    &&& before.wf()
    &&& after.wf()
    &&& after@ == before@.remove(key)
}

/// A run of insertions: `tables` starts with a table in order, and each
/// further table is the one before it once the entry of `entries` at that
/// place has been inserted.
pub open spec fn insert_run<V>(tables: Seq<HashMap<V>>, entries: Seq<(Seq<char>, V)>) -> bool {
    &&& tables.len() == entries.len() + 1
    &&& tables[0].wf()
    &&& forall|i: int|
        #![trigger entries[i]]
        0 <= i < entries.len() ==> inserted(tables[i], entries[i].0, entries[i].1, tables[i + 1])
}

/// The entry at place `i` is the last of the first `n` entries under its key.
pub open spec fn last_under_key<V>(entries: Seq<(Seq<char>, V)>, i: int, n: int) -> bool {
    forall|j: int| i < j < n ==> #[trigger] entries[j].0 != entries[i].0
}

/// After the first `n` insertions of a run, the table holds each key under
/// the value that was inserted last for it, and no key that was neither in
/// the first table nor inserted.
proof fn lemma_run_prefix<V>(tables: Seq<HashMap<V>>, entries: Seq<(Seq<char>, V)>, n: int)
    requires
        insert_run(tables, entries),
        0 <= n <= entries.len(),
    ensures
        tables[n].wf(),
        forall|i: int|
            0 <= i < n && last_under_key(entries, i, n) ==> #[trigger] tables[n].lookup(
                entries[i].0,
            ) == Some(entries[i].1),
        forall|key: Seq<char>| #[trigger]
            tables[n]@.contains_key(key) ==> tables[0]@.contains_key(key) || exists|i: int|
                0 <= i < n && #[trigger] entries[i].0 == key,
    decreases n,
{
    if n > 0 {
        lemma_run_prefix(tables, entries, n - 1);
        let (key, value) = entries[n - 1];
        assert(inserted(tables[n - 1], key, value, tables[n]));
        assert forall|i: int| 0 <= i < n && last_under_key(entries, i, n) implies #[trigger]
            tables[n].lookup(entries[i].0) == Some(entries[i].1) by {
            if i < n - 1 {
                assert(entries[n - 1].0 != entries[i].0);
                assert(last_under_key(entries, i, n - 1));
                assert(tables[n - 1].lookup(entries[i].0) == Some(entries[i].1));
            }
        }
        assert forall|q: Seq<char>| #[trigger] tables[n]@.contains_key(q) implies tables[0]@.contains_key(q)
            || exists|i: int| 0 <= i < n && #[trigger] entries[i].0 == q by {
            if q == key {
                assert(entries[n - 1].0 == q);
            } else {
                assert(tables[n - 1]@.contains_key(q));
                if !tables[0]@.contains_key(q) {
                    let i = choose|i: int| 0 <= i < n - 1 && #[trigger] entries[i].0 == q;
                    assert(0 <= i < n && entries[i].0 == q);
                }
            }
        }
    }
}

/// After the first `n` insertions of a run, the table has at least as many
/// buckets as the first table had, and at least the default number once an
/// entry has been inserted into a table that had none.
proof fn lemma_run_buckets_prefix<V>(
    tables: Seq<HashMap<V>>,
    entries: Seq<(Seq<char>, V)>,
    n: int,
)
    requires
        insert_run(tables, entries),
        0 <= n <= entries.len(),
    ensures
        tables[n].spec_bucket_count() >= tables[0].spec_bucket_count(),
        n > 0 && tables[0].spec_bucket_count() == 0 ==> tables[n].spec_bucket_count()
            >= DEFAULT_BUCKETS,
    decreases n,
{
    if n > 0 {
        lemma_run_buckets_prefix(tables, entries, n - 1);
        let (key, value) = entries[n - 1];
        assert(inserted(tables[n - 1], key, value, tables[n]));
        tables[n - 1].lemma_wf();
        lemma_growth_suffices(tables[n - 1].spec_bucket_count() as nat, tables[n - 1]@.len());
    }
}

/// After the first `n` insertions of a run with distinct keys into an empty
/// table, the table holds `n` entries.
proof fn lemma_run_count<V>(tables: Seq<HashMap<V>>, entries: Seq<(Seq<char>, V)>, n: int)
    requires
        insert_run(tables, entries),
        tables[0]@ == Map::<Seq<char>, V>::empty(),
        forall|i: int, j: int| 0 <= i < j < entries.len() ==> entries[i].0 != entries[j].0,
        0 <= n <= entries.len(),
    ensures
        tables[n]@.dom().finite(),
        tables[n]@.len() == n,
    decreases n,
{
    lemma_run_prefix(tables, entries, n);
    tables[n].lemma_wf();
    if n > 0 {
        lemma_run_count(tables, entries, n - 1);
        lemma_run_prefix(tables, entries, n - 1);
        let (key, value) = entries[n - 1];
        assert(inserted(tables[n - 1], key, value, tables[n]));
        if tables[n - 1]@.contains_key(key) {
            let i = choose|i: int| 0 <= i < n - 1 && #[trigger] entries[i].0 == key;
            assert(entries[i].0 != entries[n - 1].0);
        }
    }
}

/// Insertions under distinct keys into an empty table: the table then holds
/// as many entries as were inserted, and a lookup of each key finds the value
/// that was inserted with it.
pub proof fn lemma_distinct_inserts<V>(tables: Seq<HashMap<V>>, entries: Seq<(Seq<char>, V)>)
    requires
        insert_run(tables, entries),
        tables[0]@ == Map::<Seq<char>, V>::empty(),
        forall|i: int, j: int| 0 <= i < j < entries.len() ==> entries[i].0 != entries[j].0,
    ensures
        tables.last()@.len() == entries.len(),
        forall|i: int|
            0 <= i < entries.len() ==> #[trigger] tables.last().lookup(entries[i].0) == Some(
                entries[i].1,
            ),
{
    let n = entries.len() as int;
    lemma_run_count(tables, entries, n);
    lemma_run_prefix(tables, entries, n);
    assert forall|i: int| 0 <= i < n implies #[trigger] tables.last().lookup(entries[i].0) == Some(
        entries[i].1,
    ) by {
        assert(last_under_key(entries, i, n));
    }
}

/// Insertions into any table, whatever the keys: a lookup of a key that was
/// inserted finds the value that was inserted last under it.
pub proof fn lemma_last_insert_found<V>(
    tables: Seq<HashMap<V>>,
    entries: Seq<(Seq<char>, V)>,
    i: int,
)
    requires
        insert_run(tables, entries),
        0 <= i < entries.len(),
        last_under_key(entries, i, entries.len() as int),
    ensures
        tables.last().lookup(entries[i].0) == Some(entries[i].1),
{
    lemma_run_prefix(tables, entries, entries.len() as int);
}

/// A table made without buckets gets its first buckets, the default number
/// of them, with its first entry; from then on the number of buckets only
/// grows.
pub proof fn lemma_buckets_only_grow<V>(
    tables: Seq<HashMap<V>>,
    entries: Seq<(Seq<char>, V)>,
    i: int,
    j: int,
)
    requires
        insert_run(tables, entries),
        0 <= i <= j <= entries.len(),
    ensures
        tables[i].spec_bucket_count() <= tables[j].spec_bucket_count(),
        tables[0].spec_bucket_count() == 0 && j > 0 ==> tables[j].spec_bucket_count()
            >= DEFAULT_BUCKETS,
        tables[0].spec_bucket_count() == 0 && entries.len() > 0 ==> tables[1].spec_bucket_count()
            == DEFAULT_BUCKETS,
    decreases j - i,
{
    lemma_run_buckets_prefix(tables, entries, j);
    if i < j {
        lemma_buckets_only_grow(tables, entries, i + 1, j);
        let (key, value) = entries[i];
        assert(inserted(tables[i], key, value, tables[i + 1]));
        tables[i].lemma_wf();
        lemma_growth_suffices(tables[i].spec_bucket_count() as nat, tables[i]@.len());
    }
    if entries.len() > 0 && tables[0].spec_bucket_count() == 0 {
        let (key, value) = entries[0];
        assert(inserted(tables[0], key, value, tables[1]));
        tables[0].lemma_wf();
        assert(tables[0]@.dom() =~= Set::empty());
    }
}

/// An insertion under a key that is there already: the value that was there
/// is what a lookup found before, a lookup now finds the new one, and the
/// table holds as many entries as before.
pub proof fn lemma_reinsert<V>(before: HashMap<V>, key: Seq<char>, value: V, after: HashMap<V>)
    requires
        inserted(before, key, value, after),
        before@.contains_key(key),
    ensures
        before.lookup(key) == Some(before@[key]),
        after.lookup(key) == Some(value),
        after@.len() == before@.len(),
{
    assert(after@.dom() =~= before@.dom());
}

/// A removal of a key that is there: a lookup of the key then finds nothing,
/// a further removal changes nothing, and the table holds one entry less.
pub proof fn lemma_removed_is_absent<V>(before: HashMap<V>, key: Seq<char>, after: HashMap<V>)
    requires
        removed(before, key, after),
        before@.contains_key(key),
    ensures
        after.lookup(key) is None,
        after@.remove(key) == after@,
        after@.len() == before@.len() - 1,
{
    before.lemma_wf();
    assert(after@.remove(key) =~= after@);
}

/// A removal of a key that is not there changes nothing, however often it is
/// repeated.
pub proof fn lemma_remove_absent<V>(before: HashMap<V>, key: Seq<char>, after: HashMap<V>)
    requires
        removed(before, key, after),
        !before@.contains_key(key),
    ensures
        after@ == before@,
        after.lookup(key) is None,
        removed(after, key, after),
{
    assert(before@.remove(key) =~= before@);
}

} // verus!
