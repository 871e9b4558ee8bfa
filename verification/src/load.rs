//! How full a table may get, and by how much it grows.
//!
//! A table never holds more than 3/4 as many entries as it has buckets. An
//! insertion that would cross that limit doubles the number of buckets; the
//! first insertion into a table without buckets gives it eight.

use vstd::prelude::*;
use crate::error::HashMapError;

verus! {

/// The number of buckets that the first insertion gives a table without any.
pub const DEFAULT_BUCKETS: usize = 8;

/// The factor by which the number of buckets grows.
pub const GROWTH_FACTOR: usize = 2;

/// The numerator of the greatest load factor allowed, 3/4.
pub const MAX_LOAD_NUMERATOR: usize = 3;

/// The denominator of the greatest load factor allowed, 3/4.
pub const MAX_LOAD_DENOMINATOR: usize = 4;

/// A load factor as an exact fraction: entries per bucket.
#[derive(Clone, Copy, Debug, PartialEq, Eq, Structural)]
pub struct LoadFactor {
    /// The number of entries.
    pub numerator: usize,
    /// The number of buckets, or 1 for a table without buckets.
    pub denominator: usize,
}

/// `entries` entries in `buckets` buckets are more than the limit allows.
pub open spec fn overloaded(entries: nat, buckets: nat) -> bool {
    entries * MAX_LOAD_DENOMINATOR > buckets * MAX_LOAD_NUMERATOR
}

/// The number of buckets that a table of `buckets` buckets and `entries`
/// entries has once it has taken one more entry.
pub open spec fn grown_buckets(buckets: nat, entries: nat) -> nat {
    if buckets == 0 {
        DEFAULT_BUCKETS as nat
    } else if overloaded(entries + 1, buckets) {
        buckets * (GROWTH_FACTOR as nat)
    } else {
        buckets
    }
}

/// The load factor of `entries` entries in `buckets` buckets; that of a table
/// without buckets is zero.
pub open spec fn load_of(entries: nat, buckets: nat) -> LoadFactor {
    if buckets == 0 {
        LoadFactor { numerator: 0, denominator: 1 }
    } else {
        LoadFactor { numerator: entries as usize, denominator: buckets as usize }
    }
}

impl LoadFactor {
    /// This load factor is above the limit of 3/4.
    pub open spec fn above_limit(&self) -> bool {
        overloaded(self.numerator as nat, self.denominator as nat)
    }

    /// Whether this load factor is above the limit of 3/4.
    pub fn exceeds_limit(&self) -> (above: bool)
        ensures
            above == self.above_limit(),
    {
        let entries: u128 = self.numerator as u128;
        let buckets: u128 = self.denominator as u128;
        let numerator: u128 = MAX_LOAD_NUMERATOR as u128;
        let denominator: u128 = MAX_LOAD_DENOMINATOR as u128;
        entries * denominator > buckets * numerator
    }
}

/// Computes the number of buckets that a table of `buckets` buckets and
/// `entries` entries has once it has taken one more entry. Where that number
/// cannot be represented the table cannot grow: `OutOfMemory`.
pub fn next_bucket_count(buckets: usize, entries: usize) -> (next: Result<usize, HashMapError>)
    ensures
        match next {
            Ok(count) => count == grown_buckets(buckets as nat, entries as nat),
            Err(error) => error == HashMapError::OutOfMemory && grown_buckets(
                buckets as nat,
                entries as nat,
            ) > usize::MAX,
        },
{
    if buckets == 0 {
        Ok(DEFAULT_BUCKETS)
    } else if entries == usize::MAX || (LoadFactor {
        numerator: entries + 1,
        denominator: buckets,
    }).exceeds_limit() {
        match buckets.checked_mul(GROWTH_FACTOR) {
            Some(count) => Ok(count),
            None => Err(HashMapError::OutOfMemory),
        }
    } else {
        Ok(buckets)
    }
}

/// Doubling is enough: once a table within the limit has grown for one more
/// entry, it is within the limit with that entry.
pub proof fn lemma_growth_suffices(buckets: nat, entries: nat)
    requires
        !overloaded(entries, buckets),
    ensures
        !overloaded(entries + 1, grown_buckets(buckets, entries)),
        grown_buckets(buckets, entries) >= buckets,
        grown_buckets(buckets, entries) > 0,
{
}

} // verus!
