//! Properties of the table's operations taken together, stated over the
//! outcomes that `get`, `insert` and `remove` are specified by.

use crate::key::DominusKey;
use crate::table::{insert_outcome, lookup_result, remove_outcome, DominusError};
use vstd::prelude::*;

verus! {

/// After an accepted insertion of `k -> v`, looking up `k` gives `v`.
pub proof fn lemma_get_after_insert<K: DominusKey, V>(m: Map<K, V>, max_size: nat, k: K, v: V)
    requires
        insert_outcome(m, max_size, k, v).1 is Ok,
    ensures
        lookup_result(insert_outcome(m, max_size, k, v).0, k) == Ok::<Option<V>, DominusError>(Some(v)),
{
}

/// An insertion of `k` leaves the lookup of every other key as it was.
pub proof fn lemma_insert_keeps_other_keys<K: DominusKey, V>(
    m: Map<K, V>,
    max_size: nat,
    k: K,
    v: V,
    other: K,
)
    requires
        other != k,
    ensures
        lookup_result(insert_outcome(m, max_size, k, v).0, other) == lookup_result(m, other),
{
}

/// An insertion returns what a lookup of the key would have returned just
/// before, unless it is refused.
pub proof fn lemma_insert_returns_previous<K: DominusKey, V>(m: Map<K, V>, max_size: nat, k: K, v: V)
    requires
        insert_outcome(m, max_size, k, v).1 is Ok,
    ensures
        insert_outcome(m, max_size, k, v).1 == lookup_result(m, k),
{
}

/// A table that holds its maximum number of entries refuses every insertion
/// and stays as it is.
pub proof fn lemma_full_table_refuses<K: DominusKey, V>(m: Map<K, V>, max_size: nat, k: K, v: V)
    requires
        m.len() >= max_size,
    ensures
        insert_outcome(m, max_size, k, v) == (m, Err::<Option<V>, DominusError>(DominusError::TableFull)),
{
}

/// An accepted insertion adds one entry for a new key and none for a key
/// already present; no insertion takes the table past its maximum size.
pub proof fn lemma_insert_size<K: DominusKey, V>(m: Map<K, V>, max_size: nat, k: K, v: V)
    requires
        m.dom().finite(),
    ensures
        insert_outcome(m, max_size, k, v).1 == Ok::<Option<V>, DominusError>(None)
            ==> insert_outcome(m, max_size, k, v).0.len() == m.len() + 1,
        insert_outcome(m, max_size, k, v).1 matches Ok(Some(_))
            ==> insert_outcome(m, max_size, k, v).0.len() == m.len(),
        m.len() <= max_size ==> insert_outcome(m, max_size, k, v).0.len() <= max_size,
{
}

/// After an accepted removal of `k`, looking up `k` finds nothing.
pub proof fn lemma_get_after_remove<K: DominusKey, V>(m: Map<K, V>, k: K)
    requires
        remove_outcome(m, k).1 is Ok,
    ensures
        lookup_result(remove_outcome(m, k).0, k) == Ok::<Option<V>, DominusError>(None),
{
}

/// A removal of `k` leaves the lookup of every other key as it was.
pub proof fn lemma_remove_keeps_other_keys<K: DominusKey, V>(m: Map<K, V>, k: K, other: K)
    requires
        other != k,
    ensures
        lookup_result(remove_outcome(m, k).0, other) == lookup_result(m, other),
{
}

/// A removal returns what a lookup of the key would have returned just
/// before.
pub proof fn lemma_remove_returns_previous<K: DominusKey, V>(m: Map<K, V>, k: K)
    ensures
        remove_outcome(m, k).1 == lookup_result(m, k),
{
}

/// A removal that finds its key takes one entry out of the table.
pub proof fn lemma_remove_size<K: DominusKey, V>(m: Map<K, V>, k: K)
    requires
        m.dom().finite(),
        remove_outcome(m, k).1 matches Ok(Some(_)),
    ensures
        remove_outcome(m, k).0.len() + 1 == m.len(),
{
}

/// Inserting a new key and then removing it gives back the value inserted
/// and leaves the table holding what it held before.
pub proof fn lemma_insert_then_remove<K: DominusKey, V>(m: Map<K, V>, max_size: nat, k: K, v: V)
    requires
        !m.contains_key(k),
        insert_outcome(m, max_size, k, v).1 is Ok,
    ensures
        remove_outcome(insert_outcome(m, max_size, k, v).0, k) == (
            m,
            Ok::<Option<V>, DominusError>(Some(v)),
        ),
{
    assert(m.insert(k, v).remove(k) =~= m);
}

/// An insertion is refused as full exactly when the table already holds its
/// maximum number of entries; below that limit, a key whose hash fits in a
/// `usize` is always taken in, with the previous value returned.
pub proof fn lemma_insert_accepted_below_limit<K: DominusKey, V>(m: Map<K, V>, max_size: nat, k: K, v: V)
    ensures
        insert_outcome(m, max_size, k, v).1 == Err::<Option<V>, DominusError>(DominusError::TableFull)
            <==> m.len() >= max_size,
        m.len() < max_size && k.spec_hash() <= usize::MAX ==> {
            &&& insert_outcome(m, max_size, k, v).0 == m.insert(k, v)
            &&& insert_outcome(m, max_size, k, v).1 == (if m.contains_key(k) {
                Ok::<Option<V>, DominusError>(Some(m[k]))
            } else {
                Ok::<Option<V>, DominusError>(None)
            })
        },
{
}

/// A lookup of a key whose hash fits in a `usize` succeeds, with the key's
/// value if the table holds it and nothing otherwise; it fails only for a key
/// whose hash does not fit.
pub proof fn lemma_lookup_succeeds<K: DominusKey, V>(m: Map<K, V>, k: K)
    ensures
        k.spec_hash() <= usize::MAX ==> lookup_result(m, k) == (if m.contains_key(k) {
            Ok::<Option<V>, DominusError>(Some(m[k]))
        } else {
            Ok::<Option<V>, DominusError>(None)
        }),
        lookup_result(m, k) is Err ==> k.spec_hash() > usize::MAX,
{
}

/// A removal of a key whose hash fits in a `usize` succeeds, returning the
/// key's value if the table held it and leaving the table without the key;
/// it fails only for a key whose hash does not fit.
pub proof fn lemma_remove_succeeds<K: DominusKey, V>(m: Map<K, V>, k: K)
    ensures
        k.spec_hash() <= usize::MAX ==> {
            &&& remove_outcome(m, k).0 == m.remove(k)
            &&& remove_outcome(m, k).1 == (if m.contains_key(k) {
                Ok::<Option<V>, DominusError>(Some(m[k]))
            } else {
                Ok::<Option<V>, DominusError>(None)
            })
        },
        remove_outcome(m, k).1 is Err ==> k.spec_hash() > usize::MAX,
{
    if k.spec_hash() <= usize::MAX && !m.contains_key(k) {
        assert(m.remove(k) =~= m);
    }
}

/// On a target whose `usize` has 64 bits every hash fits in a `usize`, so no
/// lookup, insertion or removal fails with `HashOutOfRange`.
pub proof fn lemma_hash_fits_on_64_bit<K: DominusKey, V>(m: Map<K, V>, max_size: nat, k: K, v: V)
    requires
        usize::BITS == 64,
    ensures
        k.spec_hash() <= usize::MAX,
        lookup_result(m, k) != Err::<Option<V>, DominusError>(DominusError::HashOutOfRange),
        insert_outcome(m, max_size, k, v).1 != Err::<Option<V>, DominusError>(
            DominusError::HashOutOfRange,
        ),
        remove_outcome(m, k).1 != Err::<Option<V>, DominusError>(DominusError::HashOutOfRange),
{
}

} // verus!
