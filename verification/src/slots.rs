//! The buckets of the table as a sequence, and what it means for that
//! sequence to be a well-formed Robin Hood table.

use crate::key::DominusKey;
use vstd::prelude::*;

verus! {

/// An occupied bucket: the key's hash, the key, its value, and its probe
/// sequence length (how many buckets past its home bucket it sits).
#[derive(Clone, Copy)]
pub struct Entry<K, V> {
    pub hash: u64,
    pub key: K,
    pub value: V,
    pub psl: usize,
}

impl<K, V> Entry<K, V> {
    /// Builds an entry from its four parts.
    pub fn new(hash: u64, key: K, value: V, psl: usize) -> (e: Self)
        ensures
            e.hash == hash,
            e.key == key,
            e.value == value,
            e.psl == psl,
    {
        Entry { hash, key, value, psl }
    }
}

/// The bucket after bucket `i` in a table of `n` buckets, going round.
pub open spec fn next_index(i: int, n: int) -> int {
    if i + 1 == n {
        0
    } else {
        i + 1
    }
}

/// The bucket before bucket `i` in a table of `n` buckets, going round.
pub open spec fn prev_index(i: int, n: int) -> int {
    if i == 0 {
        n - 1
    } else {
        i - 1
    }
}

/// The bucket `d` steps after bucket `h` (for `0 <= h < n` and `0 <= d <= n`).
pub open spec fn probe_index(h: int, d: int, n: int) -> int {
    if h + d < n {
        h + d
    } else {
        h + d - n
    }
}

/// The bucket `d` steps before bucket `i` (for `0 <= i < n` and `0 <= d <= n`).
pub open spec fn back_index(i: int, d: int, n: int) -> int {
    if d <= i {
        i - d
    } else {
        i - d + n
    }
}

/// The home bucket of a hash in a table of `n` buckets.
pub open spec fn home_index(hash: u64, n: int) -> int {
    (hash as int) % n
}

/// The probe sequence length of a bucket's entry, or -1 for an empty bucket.
pub open spec fn psl_of<K, V>(slot: Option<Entry<K, V>>) -> int {
    match slot {
        Some(e) => e.psl as int,
        None => -1,
    }
}

/// Bucket `i` holds key `k`.
pub open spec fn key_at<K, V>(s: Seq<Option<Entry<K, V>>>, i: int, k: K) -> bool {
    &&& 0 <= i < s.len()
    &&& match s[i] {
        Some(e) => e.key == k,
        None => false,
    }
}

/// The value stored in bucket `i`.
pub open spec fn value_at<K, V>(s: Seq<Option<Entry<K, V>>>, i: int) -> V {
    s[i]->Some_0.value
}

/// Entry `e` sits where it belongs in bucket `i` of `n`: its recorded hash is
/// its key's hash, that hash is a valid index, and `i` is `psl` buckets after
/// its home bucket.
pub open spec fn entry_placed<K: DominusKey, V>(e: Entry<K, V>, i: int, n: int) -> bool {
    &&& e.hash == e.key.spec_hash()
    &&& e.hash <= usize::MAX
    &&& e.psl < n
    &&& probe_index(home_index(e.hash, n), e.psl as int, n) == i
}

/// Every entry sits where it belongs.
pub open spec fn all_placed<K: DominusKey, V>(s: Seq<Option<Entry<K, V>>>) -> bool {
    forall|i: int|
        0 <= i < s.len() && #[trigger] s[i] is Some ==> entry_placed(s[i]->Some_0, i, s.len() as int)
}

/// The Robin Hood condition at bucket `i`: an entry that is `p > 0` buckets
/// from home follows an entry at least `p - 1` buckets from its own home.
pub open spec fn backed_at<K, V>(s: Seq<Option<Entry<K, V>>>, i: int) -> bool {
    psl_of(s[i]) <= psl_of(s[prev_index(i, s.len() as int)]) + 1
}

/// The Robin Hood condition holds at every bucket.
pub open spec fn all_backed<K, V>(s: Seq<Option<Entry<K, V>>>) -> bool {
    forall|i: int| 0 <= i < s.len() ==> #[trigger] backed_at(s, i)
}

/// No key is stored twice.
pub open spec fn keys_unique<K, V>(s: Seq<Option<Entry<K, V>>>) -> bool {
    forall|i: int, j: int, k: K| #[trigger] key_at(s, i, k) && #[trigger] key_at(s, j, k) ==> i == j
}

/// The buckets form a Robin Hood table.
pub open spec fn slots_ok<K: DominusKey, V>(s: Seq<Option<Entry<K, V>>>) -> bool {
    &&& all_placed(s)
    &&& all_backed(s)
    &&& keys_unique(s)
}

/// The key-value map that the buckets hold.
pub open spec fn slots_view<K, V>(s: Seq<Option<Entry<K, V>>>) -> Map<K, V> {
    Map::new(
        |k: K| exists|i: int| key_at(s, i, k),
        |k: K| value_at(s, choose|i: int| key_at(s, i, k)),
    )
}

/// The sum of a weight over a sequence.
pub open spec fn weight_sum<A>(s: Seq<A>, w: spec_fn(A) -> nat) -> nat
    decreases s.len(),
{
    if s.len() == 0 {
        0
    } else {
        weight_sum(s.drop_last(), w) + w(s.last())
    }
}

/// One for an occupied bucket, zero for an empty one.
pub open spec fn occupied_weight<K, V>(slot: Option<Entry<K, V>>) -> nat {
    if slot is Some {
        1
    } else {
        0
    }
}

/// The probe sequence length of an occupied bucket, zero for an empty one.
pub open spec fn psl_weight<K, V>(slot: Option<Entry<K, V>>) -> nat {
    match slot {
        Some(e) => e.psl as nat,
        None => 0,
    }
}

/// The number of occupied buckets.
pub open spec fn occupied_count<K, V>(s: Seq<Option<Entry<K, V>>>) -> nat {
    weight_sum(s, |x: Option<Entry<K, V>>| occupied_weight(x))
}

/// The sum of the probe sequence lengths of all entries.
pub open spec fn psl_total<K, V>(s: Seq<Option<Entry<K, V>>>) -> nat {
    weight_sum(s, |x: Option<Entry<K, V>>| psl_weight(x))
}

/// Changing one element changes a weight sum by the difference of weights.
pub proof fn lemma_weight_sum_update<A>(s: Seq<A>, i: int, x: A, w: spec_fn(A) -> nat)
    requires
        0 <= i < s.len(),
    ensures
        weight_sum(s.update(i, x), w) + w(s[i]) == weight_sum(s, w) + w(x),
    decreases s.len(),
{
    let t = s.update(i, x);
    if i == s.len() - 1 {
        assert(t.drop_last() =~= s.drop_last());
    } else {
        lemma_weight_sum_update(s.drop_last(), i, x, w);
        assert(t.drop_last() =~= s.drop_last().update(i, x));
    }
}

/// A sequence whose elements all weigh nothing sums to zero.
pub proof fn lemma_weight_sum_zero<A>(s: Seq<A>, w: spec_fn(A) -> nat)
    requires
        forall|i: int| 0 <= i < s.len() ==> w(#[trigger] s[i]) == 0,
    ensures
        weight_sum(s, w) == 0,
    decreases s.len(),
{
    if s.len() > 0 {
        lemma_weight_sum_zero(s.drop_last(), w);
    }
}

/// A sequence whose elements all weigh at least one weighs at least its length.
pub proof fn lemma_weight_sum_lower<A>(s: Seq<A>, w: spec_fn(A) -> nat)
    requires
        forall|i: int| 0 <= i < s.len() ==> w(#[trigger] s[i]) >= 1,
    ensures
        weight_sum(s, w) >= s.len(),
    decreases s.len(),
{
    if s.len() > 0 {
        lemma_weight_sum_lower(s.drop_last(), w);
    }
}

/// A sequence whose elements all weigh at most one weighs at most its length.
pub proof fn lemma_weight_sum_upper<A>(s: Seq<A>, w: spec_fn(A) -> nat)
    requires
        forall|i: int| 0 <= i < s.len() ==> w(#[trigger] s[i]) <= 1,
    ensures
        weight_sum(s, w) <= s.len(),
    decreases s.len(),
{
    if s.len() > 0 {
        lemma_weight_sum_upper(s.drop_last(), w);
    }
}

/// There are no more occupied buckets than buckets.
pub proof fn lemma_count_bounded<K, V>(s: Seq<Option<Entry<K, V>>>)
    ensures
        occupied_count(s) <= s.len(),
{
    let w = |x: Option<Entry<K, V>>| occupied_weight(x);
    assert forall|i: int| 0 <= i < s.len() implies w(#[trigger] s[i]) <= 1 by {}
    lemma_weight_sum_upper(s, w);
}

/// Fewer occupied buckets than buckets leaves an empty bucket.
pub proof fn lemma_empty_bucket_exists<K, V>(s: Seq<Option<Entry<K, V>>>)
    requires
        occupied_count(s) < s.len(),
    ensures
        exists|i: int| 0 <= i < s.len() && s[i] is None,
{
    if forall|i: int| 0 <= i < s.len() ==> s[i] is Some {
        let w = |x: Option<Entry<K, V>>| occupied_weight(x);
        assert forall|i: int| 0 <= i < s.len() implies w(#[trigger] s[i]) >= 1 by {}
        lemma_weight_sum_lower(s, w);
    }
}

/// Walking back from an entry towards its home bucket passes only entries
/// that are at least as far from home as the walk has left to go.
pub proof fn lemma_chain<K, V>(s: Seq<Option<Entry<K, V>>>, j: int, d: int)
    requires
        all_backed(s),
        0 <= j < s.len(),
        0 <= d <= psl_of(s[j]),
        psl_of(s[j]) < s.len(),
    ensures
        psl_of(s[back_index(j, d, s.len() as int)]) >= psl_of(s[j]) - d,
    decreases d,
{
    let n: int = s.len() as int;
    if d > 0 {
        lemma_chain(s, j, d - 1);
        let b: int = back_index(j, d - 1, n);
        assert(backed_at(s, b));
        assert(prev_index(b, n) == back_index(j, d, n));
    }
}

/// Where a probe from `home` stops, at distance `p`, because the bucket there
/// is empty or holds an entry nearer its own home, the key is in no bucket.
pub proof fn lemma_probe_stop<K: DominusKey, V>(s: Seq<Option<Entry<K, V>>>, key: K, home: int, p: int)
    requires
        slots_ok(s),
        s.len() > 0,
        key.spec_hash() <= usize::MAX,
        home == home_index(key.spec_hash(), s.len() as int),
        0 <= p <= s.len(),
        psl_of(s[probe_index(home, p, s.len() as int)]) < p,
        forall|d: int| 0 <= d < p ==> !#[trigger] key_at(s, probe_index(home, d, s.len() as int), key),
    ensures
        forall|j: int| !#[trigger] key_at(s, j, key),
{
    let n: int = s.len() as int;
    assert forall|j: int| !#[trigger] key_at(s, j, key) by {
        if key_at(s, j, key) {
            let e = s[j]->Some_0;
            assert(entry_placed(e, j, n));
            let q: int = e.psl as int;
            if q < p {
                assert(key_at(s, probe_index(home, q, n), key));
            } else {
                lemma_chain(s, j, q - p);
                assert(back_index(j, q - p, n) == probe_index(home, p, n));
            }
        }
    }
}

/// A walk back from bucket `i` over entries each at least as far from home
/// as the walk has left to go cannot go all the way round past an empty
/// bucket: the distance `p` it covers is less than the number of buckets.
pub proof fn lemma_chain_short<K, V>(s: Seq<Option<Entry<K, V>>>, i: int, p: int, empty: int)
    requires
        0 <= i < s.len(),
        0 <= empty < s.len(),
        s[empty] is None,
        0 <= p <= s.len(),
        forall|d: int| 1 <= d <= p ==> #[trigger] psl_of(s[back_index(i, d, s.len() as int)]) >= p - d,
    ensures
        p < s.len(),
{
    let n: int = s.len() as int;
    if p == n {
        let d0: int = if empty < i { i - empty } else { i - empty + n };
        assert(back_index(i, d0, n) == empty);
        assert(psl_of(s[back_index(i, d0, n)]) >= p - d0);
    }
}

/// A bucket's entry is in the map that the buckets hold, with its value.
pub proof fn lemma_view_at<K, V>(s: Seq<Option<Entry<K, V>>>, i: int)
    requires
        keys_unique(s),
        0 <= i < s.len(),
        s[i] is Some,
    ensures
        slots_view(s).contains_key(s[i]->Some_0.key),
        slots_view(s)[s[i]->Some_0.key] == s[i]->Some_0.value,
{
    let k = s[i]->Some_0.key;
    assert(key_at(s, i, k));
    let j: int = choose|j: int| key_at(s, j, k);
    assert(key_at(s, j, k));
    assert(j == i);
}

/// A key in no bucket is not in the map that the buckets hold.
pub proof fn lemma_view_absent<K, V>(s: Seq<Option<Entry<K, V>>>, k: K)
    requires
        forall|i: int| !key_at(s, i, k),
    ensures
        !slots_view(s).contains_key(k),
{
}

/// What writing one bucket does to the map that the buckets hold.
pub proof fn lemma_view_update<K, V>(s: Seq<Option<Entry<K, V>>>, i: int, x: Option<Entry<K, V>>)
    requires
        keys_unique(s),
        0 <= i < s.len(),
        x matches Some(y) ==> forall|j: int| j != i ==> !key_at(s, j, y.key),
    ensures
        keys_unique(s.update(i, x)),
        slots_view(s.update(i, x)) == ({
            let removed = match s[i] {
                Some(e) => slots_view(s).remove(e.key),
                None => slots_view(s),
            };
            match x {
                Some(y) => removed.insert(y.key, y.value),
                None => removed,
            }
        }),
{
    let t = s.update(i, x);
    let removed = match s[i] {
        Some(e) => slots_view(s).remove(e.key),
        None => slots_view(s),
    };
    let expected = match x {
        Some(y) => removed.insert(y.key, y.value),
        None => removed,
    };
    assert forall|a: int, b: int, k: K| #[trigger] key_at(t, a, k) && #[trigger] key_at(t, b, k) implies a == b by {
        if a != i && b != i {
            assert(key_at(s, a, k) && key_at(s, b, k));
        } else if a != i {
            assert(key_at(s, a, k));
        } else if b != i {
            assert(key_at(s, b, k));
        }
    }
    assert forall|k: K| #[trigger] slots_view(t).contains_key(k) == expected.contains_key(k) by {
        if slots_view(t).contains_key(k) {
            let a: int = choose|a: int| key_at(t, a, k);
            if a != i {
                assert(key_at(s, a, k));
                lemma_view_at(s, a);
                if let Some(e) = s[i] {
                    if e.key == k {
                        assert(key_at(s, i, k));
                    }
                }
            }
        }
        if expected.contains_key(k) {
            let in_x = match x {
                Some(y) => y.key == k,
                None => false,
            };
            if in_x {
                assert(key_at(t, i, k));
            } else {
                let a: int = choose|a: int| key_at(s, a, k);
                assert(key_at(s, a, k));
                assert(a != i);
                assert(key_at(t, a, k));
            }
        }
    }
    assert forall|k: K| #[trigger] slots_view(t).contains_key(k) implies slots_view(t)[k] == expected[k] by {
        let a: int = choose|a: int| key_at(t, a, k);
        assert(key_at(t, a, k));
        lemma_view_at(t, a);
        if a != i {
            assert(key_at(s, a, k));
            lemma_view_at(s, a);
        }
    }
    assert(slots_view(t) =~= expected);
}

} // verus!
