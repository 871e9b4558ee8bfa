//! The bucket array: chains of entries, what they hold, and how entries move
//! between them.

use vstd::prelude::*;
use crate::hash::{bucket_index, hash_key, key_bucket};
use crate::key::{keys_equal, valid_key};

verus! {

/// One association held by the table: the owned copy of a key and the value
/// that belongs to it.
pub(crate) struct Entry<V> {
    pub(crate) key: String,
    pub(crate) value: Box<V>,
}

/// A chain: the entries of one bucket, in the order in which they were
/// linked into it.
pub(crate) type Chain<V> = Vec<Entry<V>>;

/// Position `j` of chain `i` exists and holds `key`.
pub(crate) open spec fn stored_at<V>(b: Seq<Chain<V>>, i: int, j: int, key: Seq<char>) -> bool {
    &&& 0 <= i < b.len()
    &&& 0 <= j < b[i]@.len()
    &&& b[i]@[j].key@ == key
}

/// Some position holds `key`.
pub(crate) open spec fn holds_key<V>(b: Seq<Chain<V>>, key: Seq<char>) -> bool {
    exists|i: int, j: int| stored_at(b, i, j, key)
}

/// The associations that the chains hold.
pub(crate) open spec fn contents<V>(b: Seq<Chain<V>>) -> Map<Seq<char>, V> {
    Map::new(
        |key: Seq<char>| holds_key(b, key),
        |key: Seq<char>|
            {
                let (i, j) = choose|i: int, j: int| stored_at(b, i, j, key);
                *b[i]@[j].value
            },
    )
}

/// No key is held at two positions.
pub(crate) open spec fn unique_keys<V>(b: Seq<Chain<V>>) -> bool {
    forall|i1: int, j1: int, i2: int, j2: int, key: Seq<char>|
        #[trigger] stored_at(b, i1, j1, key) && #[trigger] stored_at(b, i2, j2, key) ==> i1 == i2
            && j1 == j2
}

/// Every entry holds a valid key and sits in the chain that its key selects.
pub(crate) open spec fn well_placed<V>(b: Seq<Chain<V>>) -> bool {
    forall|i: int, j: int, key: Seq<char>| #[trigger]
        stored_at(b, i, j, key) ==> valid_key(key) && key_bucket(key, b.len()) == i
}

/// What is stored at a position is what the contents give for its key.
pub(crate) proof fn lemma_stored_value<V>(b: Seq<Chain<V>>, i: int, j: int, key: Seq<char>)
    requires
        unique_keys(b),
        stored_at(b, i, j, key),
    ensures
        contents(b).contains_key(key),
        contents(b)[key] == *b[i]@[j].value,
{
    let (i2, j2) = choose|i2: int, j2: int| stored_at(b, i2, j2, key);
}

/// A key that its own chain does not hold is not held at all.
pub(crate) proof fn lemma_absent<V>(b: Seq<Chain<V>>, key: Seq<char>)
    requires
        well_placed(b),
        b.len() > 0 ==> forall|j: int|
            0 <= j < b[key_bucket(key, b.len())]@.len() ==> b[key_bucket(
                key,
                b.len(),
            )]@[j].key@ != key,
    ensures
        !contents(b).contains_key(key),
{
    if holds_key(b, key) {
        let (i, j) = choose|i: int, j: int| stored_at(b, i, j, key);
    }
}

/// `after` is `before` with `entry` added at the end of chain `i`.
pub(crate) open spec fn pushed<V>(
    before: Seq<Chain<V>>,
    after: Seq<Chain<V>>,
    i: int,
    entry: Entry<V>,
) -> bool {
    &&& 0 <= i < before.len()
    &&& after.len() == before.len()
    &&& after[i]@ == before[i]@.push(entry)
    &&& forall|k: int| 0 <= k < before.len() && k != i ==> after[k] == before[k]
}

/// `after` is `before` but for the value at position `j` of chain `i`.
pub(crate) open spec fn revalued<V>(
    before: Seq<Chain<V>>,
    after: Seq<Chain<V>>,
    i: int,
    j: int,
) -> bool {
    &&& 0 <= i < before.len()
    &&& 0 <= j < before[i]@.len()
    &&& after.len() == before.len()
    &&& after[i]@.len() == before[i]@.len()
    &&& after[i]@[j].key == before[i]@[j].key
    &&& forall|l: int| 0 <= l < before[i]@.len() && l != j ==> after[i]@[l] == before[i]@[l]
    &&& forall|k: int| 0 <= k < before.len() && k != i ==> after[k] == before[k]
}

/// `after` is `before` without the entry at position `j` of chain `i`.
pub(crate) open spec fn unlinked<V>(
    before: Seq<Chain<V>>,
    after: Seq<Chain<V>>,
    i: int,
    j: int,
) -> bool {
    &&& 0 <= i < before.len()
    &&& 0 <= j < before[i]@.len()
    &&& after.len() == before.len()
    &&& after[i]@ == before[i]@.remove(j)
    &&& forall|k: int| 0 <= k < before.len() && k != i ==> after[k] == before[k]
}

/// Adding an entry with a new key to the chain that its key selects adds one
/// association and keeps the chains in order.
pub(crate) proof fn lemma_pushed<V>(
    before: Seq<Chain<V>>,
    after: Seq<Chain<V>>,
    i: int,
    entry: Entry<V>,
)
    requires
        unique_keys(before),
        well_placed(before),
        pushed(before, after, i, entry),
        !holds_key(before, entry.key@),
        valid_key(entry.key@),
        key_bucket(entry.key@, before.len()) == i,
    ensures
        unique_keys(after),
        well_placed(after),
        contents(after) == contents(before).insert(entry.key@, *entry.value),
{
    let key = entry.key@;
    let last = before[i]@.len() as int;
    assert forall|i1: int, j1: int, q: Seq<char>| #[trigger]
        stored_at(after, i1, j1, q) implies stored_at(before, i1, j1, q) || (i1 == i && j1 == last
        && q == key) by {}
    assert forall|i1: int, j1: int, q: Seq<char>| #[trigger]
        stored_at(before, i1, j1, q) implies stored_at(after, i1, j1, q) by {}
    assert(stored_at(after, i, last, key));
    let grown = contents(before).insert(key, *entry.value);
    assert forall|q: Seq<char>| contents(after).contains_key(q) implies grown.contains_key(q)
        && contents(after)[q] == grown[q] by {
        let (i1, j1) = choose|i1: int, j1: int| stored_at(after, i1, j1, q);
        lemma_stored_value(after, i1, j1, q);
        if q != key {
            lemma_stored_value(before, i1, j1, q);
        }
    }
    assert forall|q: Seq<char>| grown.contains_key(q) implies contents(after).contains_key(q) by {
        if q != key {
            let (i1, j1) = choose|i1: int, j1: int| stored_at(before, i1, j1, q);
            assert(stored_at(after, i1, j1, q));
        }
    }
}

/// Changing the value of one entry changes that one association.
pub(crate) proof fn lemma_revalued<V>(
    before: Seq<Chain<V>>,
    after: Seq<Chain<V>>,
    i: int,
    j: int,
)
    requires
        unique_keys(before),
        well_placed(before),
        revalued(before, after, i, j),
    ensures
        unique_keys(after),
        well_placed(after),
        contents(after) == contents(before).insert(before[i]@[j].key@, *after[i]@[j].value),
        contents(after).dom() == contents(before).dom(),
{
    let key = before[i]@[j].key@;
    assert forall|i1: int, j1: int, q: Seq<char>| #[trigger]
        stored_at(after, i1, j1, q) implies stored_at(before, i1, j1, q) by {}
    assert forall|i1: int, j1: int, q: Seq<char>| #[trigger]
        stored_at(before, i1, j1, q) implies stored_at(after, i1, j1, q) by {}
    assert(stored_at(after, i, j, key));
    let changed = contents(before).insert(key, *after[i]@[j].value);
    assert forall|q: Seq<char>| contents(after).contains_key(q) implies changed.contains_key(q)
        && contents(after)[q] == changed[q] by {
        let (i1, j1) = choose|i1: int, j1: int| stored_at(after, i1, j1, q);
        lemma_stored_value(after, i1, j1, q);
        lemma_stored_value(before, i1, j1, q);
    }
    assert forall|q: Seq<char>| changed.contains_key(q) implies contents(after).contains_key(q) by {
        if q != key {
            let (i1, j1) = choose|i1: int, j1: int| stored_at(before, i1, j1, q);
            assert(stored_at(after, i1, j1, q));
        }
    }
}

/// Taking one entry out of its chain takes away that one association.
pub(crate) proof fn lemma_unlinked<V>(
    before: Seq<Chain<V>>,
    after: Seq<Chain<V>>,
    i: int,
    j: int,
)
    requires
        unique_keys(before),
        well_placed(before),
        unlinked(before, after, i, j),
    ensures
        unique_keys(after),
        well_placed(after),
        contents(after) == contents(before).remove(before[i]@[j].key@),
{
    let key = before[i]@[j].key@;
    // where a position of `after` was in `before`, and the other way round
    let back = |i1: int, j1: int| if i1 == i && j1 >= j { j1 + 1 } else { j1 };
    let forth = |i1: int, j1: int| if i1 == i && j1 > j { j1 - 1 } else { j1 };
    assert forall|i1: int, j1: int, q: Seq<char>| #[trigger]
        stored_at(after, i1, j1, q) implies stored_at(before, i1, back(i1, j1), q)
        && after[i1]@[j1] == before[i1]@[back(i1, j1)] && !(i1 == i && back(i1, j1) == j) by {}
    assert forall|i1: int, j1: int, q: Seq<char>| #[trigger]
        stored_at(before, i1, j1, q) && !(i1 == i && j1 == j) implies stored_at(
        after,
        i1,
        forth(i1, j1),
        q,
    ) && after[i1]@[forth(i1, j1)] == before[i1]@[j1] by {}
    assert(stored_at(before, i, j, key));
    assert forall|i1: int, j1: int, i2: int, j2: int, q: Seq<char>|
        #[trigger] stored_at(after, i1, j1, q) && #[trigger] stored_at(
            after,
            i2,
            j2,
            q,
        ) implies i1 == i2 && j1 == j2 by {
        assert(stored_at(before, i1, back(i1, j1), q));
        assert(stored_at(before, i2, back(i2, j2), q));
    }
    assert forall|i1: int, j1: int, q: Seq<char>| #[trigger]
        stored_at(after, i1, j1, q) implies valid_key(q) && key_bucket(q, after.len()) == i1 by {
        assert(stored_at(before, i1, back(i1, j1), q));
    }
    let shrunk = contents(before).remove(key);
    assert forall|q: Seq<char>| contents(after).contains_key(q) implies shrunk.contains_key(q)
        && contents(after)[q] == shrunk[q] by {
        let (i1, j1) = choose|i1: int, j1: int| stored_at(after, i1, j1, q);
        lemma_stored_value(after, i1, j1, q);
        lemma_stored_value(before, i1, back(i1, j1), q);
    }
    assert forall|q: Seq<char>| shrunk.contains_key(q) implies contents(after).contains_key(q) by {
        let (i1, j1) = choose|i1: int, j1: int| stored_at(before, i1, j1, q);
        assert(stored_at(after, i1, forth(i1, j1), q));
    }
}

/// Position `j` of chain `i` comes before position `r` of chain `m`.
pub(crate) open spec fn comes_before(i: int, j: int, m: int, r: int) -> bool {
    i < m || (i == m && j < r)
}

/// `key` is held at position `r` of chain `m` or behind it.
pub(crate) open spec fn held_from<V>(b: Seq<Chain<V>>, m: int, r: int, key: Seq<char>) -> bool {
    exists|i: int, j: int| stored_at(b, i, j, key) && !comes_before(i, j, m, r)
}

/// Looks for `key` in one chain and gives the position that holds it.
pub(crate) fn find_in_chain<V>(chain: &Chain<V>, key: &str) -> (found: Option<usize>)
    ensures
        match found {
            Some(j) => j < chain@.len() && chain@[j as int].key@ == key@,
            None => forall|j: int| 0 <= j < chain@.len() ==> chain@[j].key@ != key@,
        },
{
    let mut j: usize = 0;
    while j < chain.len()
        invariant
            j <= chain@.len(),
            forall|l: int| 0 <= l < j ==> chain@[l].key@ != key@,
        decreases chain@.len() - j,
    {
        if keys_equal(chain[j].key.as_str(), key) {
            return Some(j);
        }
        j += 1;
    }
    None
}

/// Gives access to the value at position `j` of chain `i`.
pub(crate) fn value_at_mut<V>(b: &mut Vec<Chain<V>>, i: usize, j: usize) -> (value: &mut V)
    requires
        i < old(b)@.len(),
        j < old(b)@[i as int]@.len(),
    ensures
        *value == *old(b)@[i as int]@[j as int].value,
        *final(value) == *final(b)@[i as int]@[j as int].value,
        revalued(old(b)@, final(b)@, i as int, j as int),
{
    &mut *b[i][j].value
}

/// Makes `count` empty chains.
pub(crate) fn empty_buckets<V>(count: usize) -> (b: Vec<Chain<V>>)
    ensures
        b@.len() == count,
        forall|i: int| 0 <= i < count ==> b@[i]@.len() == 0,
{
    let mut b: Vec<Chain<V>> = Vec::new();
    while b.len() < count
        invariant
            b@.len() <= count,
            forall|i: int| 0 <= i < b@.len() ==> b@[i]@.len() == 0,
        decreases count - b@.len(),
    {
        b.push(Vec::new());
    }
    b
}

/// Empty chains hold nothing.
pub(crate) proof fn lemma_empty<V>(b: Seq<Chain<V>>)
    requires
        forall|i: int| 0 <= i < b.len() ==> b[i]@.len() == 0,
    ensures
        unique_keys(b),
        well_placed(b),
        contents(b) == Map::<Seq<char>, V>::empty(),
{
    assert forall|i: int, j: int, key: Seq<char>| !stored_at(b, i, j, key) by {}
}

/// Moves every entry of `old` into a fresh array of `count` chains, each to
/// the chain that its key selects there.
pub(crate) fn rehash<V>(old: Vec<Chain<V>>, count: usize) -> (new: Vec<Chain<V>>)
    requires
        count > 0,
        unique_keys(old@),
        well_placed(old@),
    ensures
        new@.len() == count,
        unique_keys(new@),
        well_placed(new@),
        contents(new@) == contents(old@),
{
    let ghost orig = old@;
    let mut old = old;
    let mut new: Vec<Chain<V>> = empty_buckets(count);
    proof {
        lemma_empty(new@);
        assert forall|q: Seq<char>| !held_from(orig, orig.len() as int, 0, q) by {}
    }
    while old.len() > 0
        invariant
            count > 0,
            unique_keys(orig),
            well_placed(orig),
            old@.len() <= orig.len(),
            old@ == orig.take(old@.len() as int),
            new@.len() == count,
            unique_keys(new@),
            well_placed(new@),
            forall|q: Seq<char>|
                contents(new@).contains_key(q) <==> held_from(orig, old@.len() as int, 0, q),
            forall|q: Seq<char>|
                contents(new@).contains_key(q) ==> contents(new@)[q] == contents(orig)[q],
        decreases old@.len(),
    {
        let ghost above = old@.len() as int;
        let mut chain = old.pop().unwrap();
        let ghost m = old@.len() as int;
        proof {
            assert forall|q: Seq<char>|
                held_from(orig, above, 0, q) <==> held_from(orig, m, chain@.len() as int, q) by {
                if held_from(orig, above, 0, q) {
                    let (i, j) = choose|i: int, j: int|
                        stored_at(orig, i, j, q) && !comes_before(i, j, above, 0);
                    assert(stored_at(orig, i, j, q) && !comes_before(
                        i,
                        j,
                        m,
                        chain@.len() as int,
                    ));
                }
                if held_from(orig, m, chain@.len() as int, q) {
                    let (i, j) = choose|i: int, j: int|
                        stored_at(orig, i, j, q) && !comes_before(i, j, m, chain@.len() as int);
                    assert(stored_at(orig, i, j, q) && !comes_before(i, j, above, 0));
                }
            }
        }
        while chain.len() > 0
            invariant
                count > 0,
                unique_keys(orig),
                well_placed(orig),
                0 <= m < orig.len(),
                old@.len() == m,
                old@ == orig.take(m),
                chain@.len() <= orig[m]@.len(),
                chain@ == orig[m]@.take(chain@.len() as int),
                new@.len() == count,
                unique_keys(new@),
                well_placed(new@),
                forall|q: Seq<char>|
                    contents(new@).contains_key(q) <==> held_from(
                        orig,
                        m,
                        chain@.len() as int,
                        q,
                    ),
                forall|q: Seq<char>|
                    contents(new@).contains_key(q) ==> contents(new@)[q] == contents(orig)[q],
            decreases chain@.len(),
        {
            let ghost r = chain@.len() as int;
            let entry = chain.pop().unwrap();
            let index = bucket_index(hash_key(entry.key.as_str()), count);
            let ghost moved = entry;
            let ghost before = new@;
            new[index].push(entry);
            proof {
                let key = moved.key@;
                assert(stored_at(orig, m, r - 1, key));
                lemma_stored_value(orig, m, r - 1, key);
                // the key is held nowhere else, so it has not been moved yet
                assert(!held_from(orig, m, r, key)) by {
                    if held_from(orig, m, r, key) {
                        let (i, j) = choose|i: int, j: int|
                            stored_at(orig, i, j, key) && !comes_before(i, j, m, r);
                        assert(i == m && j == r - 1);
                    }
                }
                lemma_pushed(before, new@, index as int, moved);
                assert forall|q: Seq<char>|
                    contents(new@).contains_key(q) <==> held_from(orig, m, r - 1, q) by {
                    if held_from(orig, m, r, q) {
                        let (i, j) = choose|i: int, j: int|
                            stored_at(orig, i, j, q) && !comes_before(i, j, m, r);
                        assert(stored_at(orig, i, j, q) && !comes_before(i, j, m, r - 1));
                    }
                    if q == key {
                        assert(stored_at(orig, m, r - 1, q) && !comes_before(m, r - 1, m, r - 1));
                    }
                    if held_from(orig, m, r - 1, q) && q != key {
                        let (i, j) = choose|i: int, j: int|
                            stored_at(orig, i, j, q) && !comes_before(i, j, m, r - 1);
                        assert(stored_at(orig, i, j, q) && !comes_before(i, j, m, r));
                    }
                }
            }
        }
    }
    proof {
        assert forall|q: Seq<char>| held_from(orig, 0, 0, q) <==> holds_key(orig, q) by {
            if holds_key(orig, q) {
                let (i, j) = choose|i: int, j: int| stored_at(orig, i, j, q);
                assert(stored_at(orig, i, j, q) && !comes_before(i, j, 0, 0));
            }
            if held_from(orig, 0, 0, q) {
                let (i, j) = choose|i: int, j: int|
                    stored_at(orig, i, j, q) && !comes_before(i, j, 0, 0);
                assert(stored_at(orig, i, j, q));
            }
        }
    }
    new
}

} // verus!
