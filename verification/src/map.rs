//! The hash table.

use vstd::prelude::*;
use crate::buckets::{
    contents, empty_buckets, find_in_chain, lemma_absent, lemma_empty, lemma_pushed,
    lemma_revalued, lemma_stored_value, lemma_unlinked, rehash, revalued, stored_at, unique_keys,
    value_at_mut, well_placed, Chain, Entry,
};
use crate::error::HashMapError;
use crate::hash::{bucket_index, hash_key};
use crate::key::{is_valid_key, valid_key};
use crate::load::{
    grown_buckets, lemma_growth_suffices, load_of, next_bucket_count, overloaded, LoadFactor,
};

verus! {

/// A hash table from text keys to values of type `V`.
///
/// The table owns its values: an insertion takes a value over, and a removal
/// or an insertion under a key that is already there hands one back. A table
/// that goes out of scope releases the keys and values that it still holds,
/// and its buckets. Seen from outside a table is a finite map from keys to
/// values, `self@`.
pub struct HashMap<V> {
    /// The chains, one for each bucket.
    buckets: Vec<Chain<V>>,
    /// The number of entries in all chains together.
    len: usize,
}

impl<V> View for HashMap<V> {
    type V = Map<Seq<char>, V>;

    /// The associations that the table holds.
    closed spec fn view(&self) -> Map<Seq<char>, V> {
        contents(self.buckets@)
    }
}

impl<V> HashMap<V> {
    /// The table is in order: no key is held twice, every entry is in the
    /// bucket that its key selects, the entries are counted, and there are
    /// no more of them than the load limit allows.
    pub closed spec fn wf(&self) -> bool {
        &&& unique_keys(self.buckets@)
        &&& well_placed(self.buckets@)
        &&& self@.dom().finite()
        &&& self.len == self@.len()
        &&& !overloaded(self.len as nat, self.buckets@.len())
    }

    /// The number of buckets.
    pub closed spec fn spec_bucket_count(&self) -> usize {
        self.buckets.len()
    }

    /// What the table holds under `key`, if anything.
    pub open spec fn lookup(&self, key: Seq<char>) -> Option<V> {
        if self@.contains_key(key) {
            Some(self@[key])
        } else {
            None
        }
    }

    /// The number of buckets that the table has after an insertion under
    /// `key`: as many as before where the key is there already, else as many
    /// as the growth rule gives.
    pub open spec fn buckets_after_insert(&self, key: Seq<char>) -> nat {
        if self@.contains_key(key) {
            self.spec_bucket_count() as nat
        } else {
            grown_buckets(self.spec_bucket_count() as nat, self@.len())
        }
    }

    /// The table accepts an insertion under `key`: the key is valid, and
    /// the number of buckets that the table would have can be represented.
    pub open spec fn accepts(&self, key: Seq<char>) -> bool {
        valid_key(key) && self.buckets_after_insert(key) <= usize::MAX
    }

    /// Why an insertion under `key` is refused, where it is.
    pub open spec fn refusal(key: Seq<char>) -> HashMapError {
        if valid_key(key) {
            HashMapError::OutOfMemory
        } else {
            HashMapError::InvalidKey
        }
    }

    /// A table in order holds finitely many entries, all under valid keys,
    /// and no more than the load limit allows; a table that holds an entry
    /// has buckets.
    pub proof fn lemma_wf(&self)
        requires
            self.wf(),
        ensures
            self@.dom().finite(),
            self@.len() <= usize::MAX,
            !overloaded(self@.len(), self.spec_bucket_count() as nat),
            self@.len() > 0 ==> self.spec_bucket_count() > 0,
            forall|key: Seq<char>| self@.contains_key(key) ==> valid_key(key),
    {
        assert forall|key: Seq<char>| self@.contains_key(key) implies valid_key(key) by {
            let (i, j) = choose|i: int, j: int| stored_at(self.buckets@, i, j, key);
            assert(stored_at(self.buckets@, i, j, key));
        }
    }

    /// Makes a table without buckets. The first insertion gives it
    /// `DEFAULT_BUCKETS` of them.
    pub fn new() -> (map: Self)
        ensures
            map.wf(),
            map@ == Map::<Seq<char>, V>::empty(),
            map.spec_bucket_count() == 0,
    {
        Self::with_buckets(0)
    }

    /// Makes a table with `buckets` empty buckets.
    pub fn with_buckets(buckets: usize) -> (map: Self)
        ensures
            map.wf(),
            map@ == Map::<Seq<char>, V>::empty(),
            map.spec_bucket_count() == buckets,
    {
        let chains: Vec<Chain<V>> = empty_buckets(buckets);
        proof {
            lemma_empty(chains@);
        }
        HashMap { buckets: chains, len: 0 }
    }

    /// The number of entries.
    pub fn len(&self) -> (n: usize)
        requires
            self.wf(),
        ensures
            n == self@.len(),
    {
        self.len
    }

    /// Whether the table holds no entry.
    pub fn is_empty(&self) -> (empty: bool)
        requires
            self.wf(),
        ensures
            empty == (self@ == Map::<Seq<char>, V>::empty()),
            empty == (self@.len() == 0),
    {
        proof {
            if self@.len() == 0 {
                assert(self@ =~= Map::<Seq<char>, V>::empty());
            }
        }
        self.len() == 0
    }

    /// The number of buckets.
    #[verifier::when_used_as_spec(spec_bucket_count)]
    pub fn bucket_count(&self) -> (n: usize)
        ensures
            n == self.spec_bucket_count(),
    {
        self.buckets.len()
    }

    /// The ratio of entries to buckets, as an exact fraction. It is zero for
    /// a table without buckets, and never above 3/4.
    pub fn load_factor(&self) -> (load: LoadFactor)
        requires
            self.wf(),
        ensures
            load == load_of(self@.len(), self.bucket_count() as nat),
            !load.above_limit(),
    {
        if self.buckets.len() == 0 {
            LoadFactor { numerator: 0, denominator: 1 }
        } else {
            LoadFactor { numerator: self.len, denominator: self.buckets.len() }
        }
    }

    /// Looks `key` up and gives a reference to its value. The table keeps
    /// the value.
    pub fn get(&self, key: &str) -> (found: Option<&V>)
        requires
            self.wf(),
        ensures
            match found {
                Some(value) => self.lookup(key@) == Some(*value),
                None => self.lookup(key@) is None,
            },
    {
        if self.buckets.len() == 0 {
            proof {
                lemma_absent(self.buckets@, key@);
            }
            return None;
        }
        let index = bucket_index(hash_key(key), self.buckets.len());
        match find_in_chain(&self.buckets[index], key) {
            Some(j) => {
                proof {
                    lemma_stored_value(self.buckets@, index as int, j as int, key@);
                }
                Some(&*self.buckets[index][j].value)
            },
            None => {
                proof {
                    lemma_absent(self.buckets@, key@);
                }
                None
            },
        }
    }

    /// Looks `key` up and gives a reference through which its value can be
    /// changed in place. The table keeps the value, and cannot be used in
    /// any other way while the reference is alive.
    pub fn get_mut_unchecked(&mut self, key: &str) -> (found: Option<&mut V>)
        requires
            old(self).wf(),
        ensures
            final(self).wf(),
            final(self).bucket_count() == old(self).bucket_count(),
            match found {
                Some(value) => old(self).lookup(key@) == Some(*value)
                    && final(self)@ == old(self)@.insert(key@, *final(value)),
                None => old(self).lookup(key@) is None && *final(self) == *old(self),
            },
    {
        if self.buckets.len() == 0 {
            proof {
                lemma_absent(self.buckets@, key@);
            }
            return None;
        }
        let index = bucket_index(hash_key(key), self.buckets.len());
        match find_in_chain(&self.buckets[index], key) {
            Some(j) => {
                let ghost before = self.buckets@;
                proof {
                    lemma_stored_value(before, index as int, j as int, key@);
                    // whatever the caller writes through the reference
                    assert forall|after: Seq<Chain<V>>| #[trigger]
                        revalued(before, after, index as int, j as int) implies unique_keys(after)
                        && well_placed(after) && contents(after).dom() == contents(before).dom()
                        && contents(after) == contents(before).insert(
                        key@,
                        *after[index as int]@[j as int].value,
                    ) by {
                        lemma_revalued(before, after, index as int, j as int);
                    }
                }
                Some(value_at_mut(&mut self.buckets, index, j))
            },
            None => {
                proof {
                    lemma_absent(self.buckets@, key@);
                }
                None
            },
        }
    }

    /// Takes the entry under `key` out of the table and hands its value to
    /// the caller. Where there is no such entry the table stays as it is.
    /// The number of buckets never changes.
    pub fn remove(&mut self, key: &str) -> (removed: Option<Box<V>>)
        requires
            old(self).wf(),
        ensures
            final(self).wf(),
            final(self)@ == old(self)@.remove(key@),
            final(self).bucket_count() == old(self).bucket_count(),
            match removed {
                Some(value) => old(self).lookup(key@) == Some(*value)
                    && final(self)@.len() == old(self)@.len() - 1,
                None => old(self).lookup(key@) is None && *final(self) == *old(self),
            },
    {
        if self.buckets.len() == 0 {
            proof {
                lemma_absent(self.buckets@, key@);
            }
            return None;
        }
        let index = bucket_index(hash_key(key), self.buckets.len());
        match find_in_chain(&self.buckets[index], key) {
            Some(j) => {
                proof {
                    lemma_stored_value(self.buckets@, index as int, j as int, key@);
                }
                let entry = self.buckets[index].remove(j);
                proof {
                    lemma_unlinked(old(self).buckets@, self.buckets@, index as int, j as int);
                }
                self.len = self.len - 1;
                Some(entry.value)
            },
            None => {
                proof {
                    lemma_absent(self.buckets@, key@);
                }
                None
            },
        }
    }

    /// Puts `value` under `key`, or says why it cannot.
    ///
    /// Where the key is there already, its value is replaced in place and
    /// the old value is handed back; the number of buckets stays. Else a new
    /// entry with a copy of the key goes to the end of its chain, after the
    /// table has got its first buckets if it had none; if the table is then
    /// above the load limit, it gets twice as many buckets and every entry
    /// moves to the bucket that its key selects among them.
    ///
    /// A key that is not valid is refused with `InvalidKey`; an insertion for
    /// which the table cannot grow, with `OutOfMemory`. A refused insertion
    /// leaves the table as it was, and drops `value`.
    pub fn try_insert(&mut self, key: &str, value: Box<V>) -> (outcome: Result<
        Option<Box<V>>,
        HashMapError,
    >)
        requires
            old(self).wf(),
        ensures
            final(self).wf(),
            match outcome {
                Ok(previous) => old(self).accepts(key@)
                    && final(self)@ == old(self)@.insert(key@, *value)
                    && final(self).bucket_count() == old(self).buckets_after_insert(key@)
                    && match previous {
                        Some(was) => old(self).lookup(key@) == Some(*was)
                            && final(self)@.len() == old(self)@.len(),
                        None => old(self).lookup(key@) is None
                            && final(self)@.len() == old(self)@.len() + 1,
                    },
                Err(error) => !old(self).accepts(key@)
                    && error == Self::refusal(key@)
                    && *final(self) == *old(self),
            },
            !overloaded(final(self)@.len(), final(self).bucket_count() as nat),
    {
        if !is_valid_key(key) {
            return Err(HashMapError::InvalidKey);
        }
        let mut value = value;
        if self.buckets.len() > 0 {
            let index = bucket_index(hash_key(key), self.buckets.len());
            match find_in_chain(&self.buckets[index], key) {
                Some(j) => {
                    proof {
                        lemma_stored_value(self.buckets@, index as int, j as int, key@);
                    }
                    core::mem::swap(&mut self.buckets[index][j].value, &mut value);
                    proof {
                        lemma_revalued(old(self).buckets@, self.buckets@, index as int, j as int);
                    }
                    return Ok(Some(value));
                },
                None => {},
            }
        }
        proof {
            lemma_absent(self.buckets@, key@);
        }
        let target = match next_bucket_count(self.buckets.len(), self.len) {
            Ok(count) => count,
            Err(error) => {
                return Err(error);
            },
        };
        proof {
            lemma_growth_suffices(self.buckets@.len(), self.len as nat);
        }
        if self.buckets.len() == 0 {
            self.buckets = empty_buckets(target);
            proof {
                lemma_empty(self.buckets@);
            }
        }
        let index = bucket_index(hash_key(key), self.buckets.len());
        let entry = Entry { key: key.to_owned(), value };
        let ghost before = self.buckets@;
        let ghost added = entry;
        self.buckets[index].push(entry);
        proof {
            lemma_pushed(before, self.buckets@, index as int, added);
        }
        self.len = self.len + 1;
        if self.buckets.len() < target {
            let mut chains: Vec<Chain<V>> = Vec::new();
            core::mem::swap(&mut chains, &mut self.buckets);
            self.buckets = rehash(chains, target);
        }
        Ok(None)
    }

    /// Puts `value` under `key` and hands back the value that was there
    /// before, if any. An insertion that `try_insert` would refuse leaves
    /// the table as it was, drops `value`, and gives nothing back.
    pub fn insert(&mut self, key: &str, value: Box<V>) -> (previous: Option<Box<V>>)
        requires
            old(self).wf(),
        ensures
            final(self).wf(),
            old(self).accepts(key@) ==> final(self)@ == old(self)@.insert(key@, *value)
                && final(self).bucket_count() == old(self).buckets_after_insert(key@),
            !old(self).accepts(key@) ==> *final(self) == *old(self),
            match previous {
                Some(was) => old(self).lookup(key@) == Some(*was)
                    && final(self)@.len() == old(self)@.len(),
                None => old(self).lookup(key@) is None
                    && (old(self).accepts(key@) ==> final(self)@.len() == old(self)@.len() + 1),
            },
            !overloaded(final(self)@.len(), final(self).bucket_count() as nat),
    {
        proof {
            self.lemma_wf();
        }
        match self.try_insert(key, value) {
            Ok(previous) => previous,
            Err(_) => None,
        }
    }
}

impl<V> Default for HashMap<V> {
    /// Makes a table without buckets, as `new` does.
    fn default() -> (map: Self)
        ensures
            map.wf(),
            map@ == Map::<Seq<char>, V>::empty(),
            map.spec_bucket_count() == 0,
    {
        Self::new()
    }
}

} // verus!
