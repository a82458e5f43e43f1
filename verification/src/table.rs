//! The table itself: creation, lookup, insertion with Robin Hood
//! displacement, and removal with backward shifting.

use crate::key::DominusKey;
use crate::slots::{
    all_backed, all_placed, back_index, backed_at, entry_placed, home_index, key_at, keys_unique,
    lemma_chain_short, lemma_count_bounded, lemma_empty_bucket_exists, lemma_probe_stop,
    lemma_view_absent, lemma_view_at, lemma_view_update, lemma_weight_sum_update,
    lemma_weight_sum_zero, next_index, occupied_count, occupied_weight, prev_index, probe_index,
    psl_of, psl_total, psl_weight, slots_ok, slots_view, Entry,
};
use vstd::prelude::*;

verus! {

/// Why an operation was refused.
#[derive(Clone, Copy, Debug, PartialEq, Eq, Structural)]
pub enum DominusError {
    /// The table already holds its maximum number of entries.
    TableFull,
    /// The key's hash does not fit in a `usize` (only on targets whose
    /// `usize` is narrower than 64 bits).
    HashOutOfRange,
}

/// A Robin Hood hash table with a fixed number of buckets.
///
/// It refuses insertions once it holds `max_size` entries (the maximum load
/// factor times the number of buckets).
pub struct Dominus<K, V> {
    entries: Vec<Option<Entry<K, V>>>,
    size: usize,
    capacity: usize,
    max_size: usize,
}

/// What a lookup of `k` in a table holding `m` returns.
pub open spec fn lookup_result<K: DominusKey, V>(m: Map<K, V>, k: K) -> Result<Option<V>, DominusError> {
    if k.spec_hash() > usize::MAX {
        Err(DominusError::HashOutOfRange)
    } else if m.contains_key(k) {
        Ok(Some(m[k]))
    } else {
        Ok(None)
    }
}

/// What inserting `k -> v` into a table holding `m`, that takes at most
/// `max_size` entries, leaves in the table and returns.
pub open spec fn insert_outcome<K: DominusKey, V>(m: Map<K, V>, max_size: nat, k: K, v: V) -> (
    Map<K, V>,
    Result<Option<V>, DominusError>,
) {
    if m.len() >= max_size {
        (m, Err(DominusError::TableFull))
    } else if k.spec_hash() > usize::MAX {
        (m, Err(DominusError::HashOutOfRange))
    } else if m.contains_key(k) {
        (m.insert(k, v), Ok(Some(m[k])))
    } else {
        (m.insert(k, v), Ok(None))
    }
}

/// What removing `k` from a table holding `m` leaves in the table and returns.
pub open spec fn remove_outcome<K: DominusKey, V>(m: Map<K, V>, k: K) -> (
    Map<K, V>,
    Result<Option<V>, DominusError>,
) {
    if k.spec_hash() > usize::MAX {
        (m, Err(DominusError::HashOutOfRange))
    } else if m.contains_key(k) {
        (m.remove(k), Ok(Some(m[k])))
    } else {
        (m, Ok(None))
    }
}

/// Inserting `k` comes to an end: it is refused, or it replaces an existing
/// entry, or a bucket is free for a new one. (With every bucket taken, a new
/// key below the size limit would be carried round the table for ever.)
pub open spec fn insert_returns<K: DominusKey, V>(m: Map<K, V>, capacity: nat, max_size: nat, k: K) -> bool {
    ||| m.len() >= max_size
    ||| k.spec_hash() > usize::MAX
    ||| m.contains_key(k)
    ||| m.len() < capacity
}

impl<K: DominusKey, V: Copy> View for Dominus<K, V> {
    type V = Map<K, V>;

    closed spec fn view(&self) -> Map<K, V> {
        slots_view(self.entries@)
    }
}

impl<K: DominusKey, V: Copy> Dominus<K, V> {
    /// The buckets form a Robin Hood table, and the size counts its entries.
    pub closed spec fn wf(&self) -> bool {
        &&& self.entries@.len() == self.capacity
        &&& slots_ok(self.entries@)
        &&& occupied_count(self.entries@) == self.size
        &&& slots_view(self.entries@).dom().finite()
        &&& slots_view(self.entries@).len() == self.size
    }

    /// The number of buckets.
    pub closed spec fn spec_capacity(&self) -> nat {
        self.capacity as nat
    }

    /// The number of entries at which the table refuses insertions.
    pub closed spec fn spec_max_size(&self) -> nat {
        self.max_size as nat
    }

    /// A table never holds more entries than it has buckets.
    pub proof fn lemma_size_bounded(&self)
        requires
            self.wf(),
        ensures
            self@.len() <= self.spec_capacity(),
    {
        lemma_count_bounded(self.entries@);
    }

    /// The map that a table holds is finite.
    pub proof fn lemma_view_finite(&self)
        requires
            self.wf(),
        ensures
            self@.dom().finite(),
    {
    }

    /// Every key that a table holds has a hash that fits in a `usize`, so
    /// looking it up or removing it never fails with `HashOutOfRange`.
    pub proof fn lemma_held_key_hash_fits(&self, k: K)
        requires
            self.wf(),
            self@.contains_key(k),
        ensures
            k.spec_hash() <= usize::MAX,
    {
        let s = self.entries@;
        let i = choose|i: int| key_at(s, i, k);
        assert(key_at(s, i, k));
        assert(s[i] is Some);
        assert(entry_placed(s[i]->Some_0, i, s.len() as int));
    }

    /// Creates an empty table with `capacity` buckets that accepts insertions
    /// while it holds fewer than `max_size` entries.
    pub fn new(capacity: usize, max_size: usize) -> (t: Self)
        ensures
            t.wf(),
            t@ == Map::<K, V>::empty(),
            t@.dom().finite(),
            t.spec_capacity() == capacity,
            t.spec_max_size() == max_size,
    {
        let mut entries: Vec<Option<Entry<K, V>>> = Vec::new();
        let mut i: usize = 0;
        while i < capacity
            invariant
                i <= capacity,
                entries@.len() == i,
                forall|j: int| 0 <= j < i ==> #[trigger] entries@[j] is None,
            decreases capacity - i,
        {
            entries.push(None);
            i = i + 1;
        }
        let t = Dominus { entries, size: 0, capacity, max_size };
        proof {
            let s = t.entries@;
            assert forall|j: int| 0 <= j < s.len() implies #[trigger] backed_at(s, j) by {
                assert(s[j] is None);
            }
            let w = |x: Option<Entry<K, V>>| occupied_weight(x);
            assert forall|j: int| 0 <= j < s.len() implies w(#[trigger] s[j]) == 0 by {}
            lemma_weight_sum_zero(s, w);
            assert(slots_view(s) =~= Map::<K, V>::empty());
        }
        t
    }

    /// The number of entries in the table.
    pub fn size(&self) -> (r: usize)
        requires
            self.wf(),
        ensures
            r == self@.len(),
    {
        self.size
    }

    /// Whether the table holds its maximum number of entries.
    fn load_factor_reached(&self) -> (b: bool)
        requires
            self.wf(),
        ensures
            b == (self@.len() >= self.spec_max_size()),
    {
        self.size >= self.max_size
    }

    /// The hash of a key.
    fn get_hash(&self, key: &K) -> (h: u64)
        ensures
            h == key.spec_hash(),
    {
        key.hash_key()
    }

    /// Walks the probe sequence of `key` from its home bucket. Returns the
    /// bucket where the walk stopped, how far from home it is, and whether
    /// the key was found there. The walk stops at the key, or at the first
    /// bucket that is empty or whose entry is nearer its own home.
    fn probe(&self, key: &K, home: usize) -> (res: (usize, usize, bool))
        requires
            self.wf(),
            self.capacity > 0,
            key.spec_hash() <= usize::MAX,
            home == home_index(key.spec_hash(), self.capacity as int),
        ensures
            res.0 < self.capacity,
            res.1 <= self.capacity,
            res.0 == probe_index(home as int, res.1 as int, self.capacity as int),
            forall|d: int|
                0 <= d < res.1 ==> #[trigger] psl_of(
                    self.entries@[probe_index(home as int, d, self.capacity as int)],
                ) >= d,
            res.2 ==> key_at(self.entries@, res.0 as int, *key),
            res.2 ==> psl_of(self.entries@[res.0 as int]) == res.1,
            !res.2 ==> forall|j: int| !#[trigger] key_at(self.entries@, j, *key),
            !res.2 ==> psl_of(self.entries@[res.0 as int]) < res.1,
    {
        let n: usize = self.capacity;
        let ghost s = self.entries@;
        let mut i: usize = home;
        let mut p: usize = 0;
        loop
            invariant
                self.wf(),
                n == self.capacity,
                s == self.entries@,
                n > 0,
                key.spec_hash() <= usize::MAX,
                home == home_index(key.spec_hash(), n as int),
                p <= n,
                i == probe_index(home as int, p as int, n as int),
                forall|d: int|
                    0 <= d < p ==> #[trigger] psl_of(s[probe_index(home as int, d, n as int)]) >= d,
                forall|d: int| 0 <= d < p ==> !#[trigger] key_at(s, probe_index(home as int, d, n as int), *key),
            decreases n - p,
        {
            assert(i < n);
            match &self.entries[i] {
                Some(e) => {
                    if e.key.same_key(key) {
                        assert(key_at(s, i as int, *key));
                        assert(entry_placed(*e, i as int, n as int));
                        return (i, p, true);
                    }
                    if e.psl < p {
                        proof {
                            lemma_probe_stop(s, *key, home as int, p as int);
                        }
                        return (i, p, false);
                    }
                    assert(entry_placed(*e, i as int, n as int));
                }
                None => {
                    proof {
                        lemma_probe_stop(s, *key, home as int, p as int);
                    }
                    return (i, p, false);
                }
            }
            assert(psl_of(s[probe_index(home as int, p as int, n as int)]) >= p);
            assert(!key_at(s, probe_index(home as int, p as int, n as int), *key));
            p = p + 1;
            i = if i + 1 == n {
                0
            } else {
                i + 1
            };
        }
    }

    /// Looks `key` up: its value if the table holds it, `None` if not.
    pub fn get(&self, key: &K) -> (r: Result<Option<V>, DominusError>)
        requires
            self.wf(),
            self.spec_capacity() > 0,
        ensures
            r == lookup_result(self@, *key),
            key.spec_hash() <= usize::MAX ==> r == (if self@.contains_key(*key) {
                Ok::<Option<V>, DominusError>(Some(self@[*key]))
            } else {
                Ok::<Option<V>, DominusError>(None)
            }),
    {
        let hash: u64 = self.get_hash(key);
        let h: usize = match usize::try_from(hash) {
            Ok(h) => h,
            Err(_) => {
                return Err(DominusError::HashOutOfRange);
            },
        };
        let home: usize = h % self.capacity;
        let (i, _p, found): (usize, usize, bool) = self.probe(key, home);
        if found {
            match &self.entries[i] {
                Some(e) => {
                    proof {
                        lemma_view_at(self.entries@, i as int);
                    }
                    Ok(Some(e.value))
                },
                // The probe found the key in this bucket, so it is not empty.
                None => Ok(None),
            }
        } else {
            proof {
                lemma_view_absent(self.entries@, *key);
            }
            Ok(None)
        }
    }

    /// Inserts `key -> value`. Returns the value the key had before, or
    /// `None` for a new key. A new key is placed Robin Hood style: walking
    /// from its home bucket, it takes the bucket of the first entry that is
    /// nearer its own home, and that entry walks on in its place.
    pub fn insert(&mut self, key: K, value: V) -> (r: Result<Option<V>, DominusError>)
        requires
            old(self).wf(),
            old(self).spec_capacity() > 0,
            insert_returns(old(self)@, old(self).spec_capacity(), old(self).spec_max_size(), key),
        ensures
            final(self).wf(),
            final(self)@.dom().finite(),
            final(self).spec_capacity() == old(self).spec_capacity(),
            final(self).spec_max_size() == old(self).spec_max_size(),
            (final(self)@, r) == insert_outcome(old(self)@, old(self).spec_max_size(), key, value),
            r == Err::<Option<V>, DominusError>(DominusError::TableFull) <==> old(self)@.len()
                >= old(self).spec_max_size(),
            old(self)@.len() < old(self).spec_max_size() && key.spec_hash() <= usize::MAX ==> {
                &&& final(self)@ == old(self)@.insert(key, value)
                &&& r == (if old(self)@.contains_key(key) {
                    Ok::<Option<V>, DominusError>(Some(old(self)@[key]))
                } else {
                    Ok::<Option<V>, DominusError>(None)
                })
            },
            r is Err ==> *final(self) == *old(self),
    {
        let hash: u64 = self.get_hash(&key);
        if self.load_factor_reached() {
            return Err(DominusError::TableFull);
        }
        let h: usize = match usize::try_from(hash) {
            Ok(h) => h,
            Err(_) => {
                return Err(DominusError::HashOutOfRange);
            },
        };
        let n: usize = self.capacity;
        let home: usize = h % n;
        let ghost m0 = self@;
        let ghost s0 = self.entries@;
        let (mut i, p, found): (usize, usize, bool) = self.probe(&key, home);
        if found {
            let cur = self.entries[i];
            match cur {
                Some(e) => {
                    let replacement = Entry::new(hash, key, value, p);
                    proof {
                        lemma_view_at(s0, i as int);
                        lemma_view_update(s0, i as int, Some(replacement));
                        lemma_weight_sum_update(
                            s0,
                            i as int,
                            Some(replacement),
                            |x: Option<Entry<K, V>>| occupied_weight(x),
                        );
                    }
                    self.entries[i] = Some(replacement);
                    proof {
                        let s = self.entries@;
                        assert forall|j: int| 0 <= j < s.len() implies #[trigger] backed_at(s, j) by {
                            assert(backed_at(s0, j));
                        }
                        assert(slots_view(s) =~= m0.insert(key, value));
                    }
                    return Ok(Some(e.value));
                },
                // The probe found the key in this bucket, so it is not empty.
                None => {
                    return Ok(None);
                },
            }
        }
        proof {
            lemma_empty_bucket_exists(s0);
        }
        let ghost empty = choose|j: int| 0 <= j < n && s0[j] is None;
        proof {
            assert forall|d: int| 1 <= d <= p implies #[trigger] psl_of(
                s0[back_index(i as int, d, n as int)],
            ) >= p - d by {
                assert(back_index(i as int, d, n as int) == probe_index(home as int, p - d, n as int));
                assert(psl_of(s0[probe_index(home as int, p - d, n as int)]) >= p - d);
            }
            lemma_chain_short(s0, i as int, p as int, empty);
            lemma_view_absent(s0, key);
        }
        let mut carried = Entry::new(hash, key, value, p);
        loop
            invariant
                n == self.capacity,
                n == old(self).capacity,
                n > 0,
                self.max_size == old(self).max_size,
                m0.len() < self.max_size,
                key.spec_hash() <= usize::MAX,
                self.size == old(self).size,
                self.size < n,
                m0 == old(self)@,
                !m0.contains_key(key),
                m0.len() == self.size,
                m0.dom().finite(),
                self.entries@.len() == n,
                all_placed(self.entries@),
                all_backed(self.entries@),
                keys_unique(self.entries@),
                occupied_count(self.entries@) == self.size,
                0 <= i < n,
                entry_placed(carried, i as int, n as int),
                forall|d: int|
                    1 <= d <= carried.psl ==> #[trigger] psl_of(
                        self.entries@[back_index(i as int, d, n as int)],
                    ) >= carried.psl - d,
                forall|j: int| !#[trigger] key_at(self.entries@, j, carried.key),
                slots_view(self.entries@).insert(carried.key, carried.value) == m0.insert(key, value),
                0 <= empty < n,
                self.entries@[empty] is None,
            decreases (if empty >= i {
                empty - i
            } else {
                empty + n - i
            }),
        {
            let ghost s = self.entries@;
            let cur = self.entries[i];
            match cur {
                None => {
                    proof {
                        lemma_view_update(s, i as int, Some(carried));
                        lemma_weight_sum_update(
                            s,
                            i as int,
                            Some(carried),
                            |x: Option<Entry<K, V>>| occupied_weight(x),
                        );
                    }
                    self.entries[i] = Some(carried);
                    self.size = self.size + 1;
                    proof {
                        let t = self.entries@;
                        assert(backed_at(t, i as int)) by {
                            if carried.psl > 0 {
                                assert(back_index(i as int, 1, n as int) == prev_index(i as int, n as int));
                                assert(psl_of(s[back_index(i as int, 1, n as int)]) >= carried.psl - 1);
                            }
                        }
                        assert forall|j: int| 0 <= j < t.len() implies #[trigger] backed_at(t, j) by {
                            assert(backed_at(s, j));
                            if j != i as int {
                                assert(backed_at(s, next_index(i as int, n as int)));
                            }
                        }
                        assert forall|j: int| 0 <= j < t.len() && #[trigger] t[j] is Some implies entry_placed(
                            t[j]->Some_0,
                            j,
                            t.len() as int,
                        ) by {
                            if j != i {
                                assert(s[j] is Some);
                            }
                        }
                        assert(slots_view(t) == m0.insert(key, value));
                    }
                    return Ok(None);
                },
                Some(e) => {
                    assert(i != empty);
                    assert(entry_placed(e, i as int, n as int));
                    if carried.psl > e.psl {
                        proof {
                            lemma_view_at(s, i as int);
                            lemma_view_update(s, i as int, Some(carried));
                            lemma_weight_sum_update(
                                s,
                                i as int,
                                Some(carried),
                                |x: Option<Entry<K, V>>| occupied_weight(x),
                            );
                        }
                        self.entries[i] = Some(carried);
                        proof {
                            let t = self.entries@;
                            assert(backed_at(t, i as int)) by {
                                assert(back_index(i as int, 1, n as int) == prev_index(i as int, n as int));
                                assert(psl_of(s[back_index(i as int, 1, n as int)]) >= carried.psl - 1);
                            }
                            assert forall|j: int| 0 <= j < t.len() implies #[trigger] backed_at(t, j) by {
                                assert(backed_at(s, j));
                            }
                            assert forall|j: int|
                                0 <= j < t.len() && #[trigger] t[j] is Some implies entry_placed(
                                t[j]->Some_0,
                                j,
                                t.len() as int,
                            ) by {
                                if j != i {
                                    assert(s[j] is Some);
                                }
                            }
                            assert forall|j: int| !#[trigger] key_at(t, j, e.key) by {
                                if j != i {
                                    if key_at(t, j, e.key) {
                                        assert(key_at(s, j, e.key));
                                        assert(key_at(s, i as int, e.key));
                                    }
                                }
                            }
                            assert(slots_view(t).insert(e.key, e.value) =~= slots_view(s).insert(
                                carried.key,
                                carried.value,
                            ));
                            assert forall|d: int|
                                1 <= d <= e.psl + 1 implies #[trigger] psl_of(
                                t[back_index(next_index(i as int, n as int), d, n as int)],
                            ) >= e.psl + 1 - d by {
                                if d >= 2 {
                                    assert(back_index(next_index(i as int, n as int), d, n as int)
                                        == back_index(i as int, d - 1, n as int));
                                    assert(psl_of(s[back_index(i as int, d - 1, n as int)]) >= carried.psl
                                        - (d - 1));
                                }
                            }
                            lemma_chain_short(t, next_index(i as int, n as int), e.psl + 1, empty);
                        }
                        carried = e;
                    } else {
                        proof {
                            assert forall|d: int|
                                1 <= d <= carried.psl + 1 implies #[trigger] psl_of(
                                s[back_index(next_index(i as int, n as int), d, n as int)],
                            ) >= carried.psl + 1 - d by {
                                if d >= 2 {
                                    assert(back_index(next_index(i as int, n as int), d, n as int)
                                        == back_index(i as int, d - 1, n as int));
                                }
                            }
                            lemma_chain_short(s, next_index(i as int, n as int), carried.psl + 1, empty);
                        }
                    }
                    carried.psl = carried.psl + 1;
                },
            }
            i = if i + 1 == n {
                0
            } else {
                i + 1
            };
        }
    }

    /// Removes `key`. Returns the value it had, or `None` if the table did
    /// not hold it. The entries after the freed bucket that are away from
    /// home are shifted back one bucket each, up to the first entry that is
    /// at home or the first empty bucket.
    pub fn remove(&mut self, key: &K) -> (r: Result<Option<V>, DominusError>)
        requires
            old(self).wf(),
            old(self).spec_capacity() > 0,
        ensures
            final(self).wf(),
            final(self)@.dom().finite(),
            final(self).spec_capacity() == old(self).spec_capacity(),
            final(self).spec_max_size() == old(self).spec_max_size(),
            (final(self)@, r) == remove_outcome(old(self)@, *key),
            key.spec_hash() <= usize::MAX ==> {
                &&& final(self)@ == old(self)@.remove(*key)
                &&& r == (if old(self)@.contains_key(*key) {
                    Ok::<Option<V>, DominusError>(Some(old(self)@[*key]))
                } else {
                    Ok::<Option<V>, DominusError>(None)
                })
            },
            r is Err ==> *final(self) == *old(self),
    {
        let hash: u64 = self.get_hash(key);
        let h: usize = match usize::try_from(hash) {
            Ok(h) => h,
            Err(_) => {
                return Err(DominusError::HashOutOfRange);
            },
        };
        let n: usize = self.capacity;
        let home: usize = h % n;
        let ghost m0 = self@;
        let ghost s0 = self.entries@;
        let (mut i, _p, found): (usize, usize, bool) = self.probe(key, home);
        if !found {
            proof {
                lemma_view_absent(s0, *key);
            }
            return Ok(None);
        }
        let removed = match self.entries[i] {
            Some(e) => e,
            // The probe found the key in this bucket, so it is not empty.
            None => {
                return Ok(None);
            },
        };
        proof {
            lemma_view_at(s0, i as int);
            lemma_view_update(s0, i as int, None);
            lemma_weight_sum_update(s0, i as int, None, |x: Option<Entry<K, V>>| occupied_weight(x));
            assert(entry_placed(removed, i as int, n as int));
            assert(backed_at(s0, i as int));
            assert(backed_at(s0, next_index(i as int, n as int)));
        }
        self.entries[i] = None;
        let ghost mut gap_psl: int = removed.psl as int;
        proof {
            let t = self.entries@;
            assert forall|j: int|
                0 <= j < n && j != next_index(i as int, n as int) implies #[trigger] backed_at(t, j) by {
                assert(backed_at(s0, j));
            }
            assert forall|j: int| 0 <= j < t.len() && #[trigger] t[j] is Some implies entry_placed(
                t[j]->Some_0,
                j,
                t.len() as int,
            ) by {
                assert(s0[j] is Some);
            }
            assert(slots_view(t) == m0.remove(*key));
        }
        loop
            invariant
                n == self.capacity,
                n == old(self).capacity,
                n > 0,
                self.max_size == old(self).max_size,
                self.size == old(self).size,
                m0 == old(self)@,
                m0.contains_key(*key),
                m0[*key] == removed.value,
                m0.len() == self.size,
                m0.dom().finite(),
                key.spec_hash() <= usize::MAX,
                self.entries@.len() == n,
                all_placed(self.entries@),
                keys_unique(self.entries@),
                occupied_count(self.entries@) + 1 == self.size,
                slots_view(self.entries@) == m0.remove(*key),
                0 <= i < n,
                self.entries@[i as int] is None,
                forall|j: int|
                    0 <= j < n && j != next_index(i as int, n as int) ==> #[trigger] backed_at(
                        self.entries@,
                        j,
                    ),
                psl_of(self.entries@[next_index(i as int, n as int)]) <= gap_psl + 1,
                0 <= gap_psl < n,
                gap_psl <= psl_of(self.entries@[prev_index(i as int, n as int)]) + 1,
            ensures
                n == self.capacity,
                self.max_size == old(self).max_size,
                self.size == old(self).size,
                occupied_count(self.entries@) + 1 == self.size,
                slots_view(self.entries@) == m0.remove(*key),
                self.entries@.len() == n,
                all_placed(self.entries@),
                all_backed(self.entries@),
                keys_unique(self.entries@),
            decreases psl_total(self.entries@),
        {
            let ghost s = self.entries@;
            let j: usize = if i + 1 == n {
                0
            } else {
                i + 1
            };
            let next = self.entries[j];
            match next {
                Some(e) => {
                    if e.psl > 0 {
                        let shifted = Entry::new(e.hash, e.key, e.value, e.psl - 1);
                        proof {
                            assert(entry_placed(e, j as int, n as int));
                            lemma_view_at(s, j as int);
                            lemma_view_update(s, j as int, None);
                            lemma_weight_sum_update(
                                s,
                                j as int,
                                None,
                                |x: Option<Entry<K, V>>| occupied_weight(x),
                            );
                            lemma_weight_sum_update(s, j as int, None, |x: Option<Entry<K, V>>| psl_weight(x));
                        }
                        self.entries[j] = None;
                        proof {
                            let s1 = self.entries@;
                            assert forall|a: int| !#[trigger] key_at(s1, a, e.key) by {
                                if key_at(s1, a, e.key) {
                                    assert(key_at(s, a, e.key));
                                    assert(key_at(s, j as int, e.key));
                                }
                            }
                            lemma_view_update(s1, i as int, Some(shifted));
                            lemma_weight_sum_update(
                                s1,
                                i as int,
                                Some(shifted),
                                |x: Option<Entry<K, V>>| occupied_weight(x),
                            );
                            lemma_weight_sum_update(
                                s1,
                                i as int,
                                Some(shifted),
                                |x: Option<Entry<K, V>>| psl_weight(x),
                            );
                        }
                        self.entries[i] = Some(shifted);
                        proof {
                            let t = self.entries@;
                            assert(slots_view(t) =~= slots_view(s));
                            assert forall|a: int|
                                0 <= a < n && a != next_index(j as int, n as int) implies #[trigger] backed_at(
                                t,
                                a,
                            ) by {
                                if a != i && a != j {
                                    assert(backed_at(s, a));
                                }
                            }
                            if next_index(j as int, n as int) != i {
                                assert(backed_at(s, next_index(j as int, n as int)));
                            }
                            assert forall|a: int| 0 <= a < t.len() && #[trigger] t[a] is Some implies entry_placed(
                                t[a]->Some_0,
                                a,
                                t.len() as int,
                            ) by {
                                if a != i {
                                    assert(s[a] is Some);
                                }
                            }
                            gap_psl = e.psl as int;
                        }
                        i = j;
                    } else {
                        proof {
                            assert(backed_at(self.entries@, j as int));
                        }
                        break;
                    }
                },
                None => {
                    proof {
                        assert(backed_at(self.entries@, j as int));
                    }
                    break;
                },
            }
        }
        self.size = self.size - 1;
        Ok(Some(removed.value))
    }

    /// Inserts `key -> value` as `insert` does, unless that insertion would
    /// never end (every bucket taken, the key new and the table below its
    /// size limit): then returns `None` and leaves the table as it is.
    pub fn try_insert(&mut self, key: K, value: V) -> (r: Option<Result<Option<V>, DominusError>>)
        requires
            old(self).wf(),
            old(self).spec_capacity() > 0,
        ensures
            final(self).wf(),
            final(self)@.dom().finite(),
            final(self).spec_capacity() == old(self).spec_capacity(),
            final(self).spec_max_size() == old(self).spec_max_size(),
            r is None <==> !insert_returns(
                old(self)@,
                old(self).spec_capacity(),
                old(self).spec_max_size(),
                key,
            ),
            r is None ==> *final(self) == *old(self),
            r matches Some(x) ==> (final(self)@, x) == insert_outcome(
                old(self)@,
                old(self).spec_max_size(),
                key,
                value,
            ),
    {
        if self.size < self.max_size && self.size >= self.capacity {
            let hash: u64 = key.hash_key();
            if usize::try_from(hash).is_ok() {
                if let Ok(None) = self.get(&key) {
                    return None;
                }
            }
        }
        Some(self.insert(key, value))
    }
}

} // verus!
