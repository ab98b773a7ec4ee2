//! The hash table: a growable array of buckets, each an ordered list of
//! key/value pairs, with chained collision resolution.
//!
//! The table is modelled as a map from key identities (the bytes a key feeds
//! to the hasher, see [`HashKey::key_id`]) to values. Every entry lives in the
//! bucket selected by its identity's digest modulo the current bucket count;
//! `items` counts the stored entries. `insert` grows the bucket array (by
//! [`GROWTH_FACTOR`]) as soon as the stored items have reached
//! [`LOAD_FACTOR_NUM`] / [`LOAD_FACTOR_DEN`] of the bucket count.

use crate::key::HashKey;
use std::collections::hash_map::DefaultHasher;
use std::hash::Hasher;
use vstd::prelude::*;
use vstd::std_specs::hash::DefaultHasherAdditionalSpecFns;

verus! {

/// Bucket count of the first allocation, made lazily by the first insert.
pub const INITIAL_NBUCKETS: usize = 1;

/// Factor by which the bucket array grows on each resize.
pub const GROWTH_FACTOR: usize = 2;

/// Numerator of the load-factor threshold that triggers a resize.
pub const LOAD_FACTOR_NUM: usize = 3;

/// Denominator of the load-factor threshold that triggers a resize.
pub const LOAD_FACTOR_DEN: usize = 4;

/// The digest the standard hasher produces for one write of `id`.
pub open spec fn spec_digest(id: Seq<u8>) -> u64 {
    DefaultHasher::spec_finish(seq![id])
}

/// The bucket index for identity `id` in a table of `n` buckets.
pub open spec fn bucket_index(id: Seq<u8>, n: int) -> int
    recommends
        n > 0,
{
    spec_digest(id) as int % n
}

/// The views of a sequence of bucket vectors, as a sequence of entry
/// sequences.
pub open spec fn views_of<K, V>(bv: Seq<Vec<(K, V)>>) -> Seq<Seq<(K, V)>> {
    Seq::new(bv.len(), |i: int| bv[i]@)
}

/// First-match lookup of identity `id` in one bucket.
pub open spec fn bucket_get<K: HashKey, V>(b: Seq<(K, V)>, id: Seq<u8>) -> Option<V>
    decreases b.len(),
{
    if b.len() == 0 {
        None
    } else if b[0].0.key_id() == id {
        Some(b[0].1)
    } else {
        bucket_get(b.drop_first(), id)
    }
}

/// Lookup of identity `id` across a non-empty bucket array: first-match scan
/// of the bucket the identity hashes to.
pub open spec fn table_get<K: HashKey, V>(bs: Seq<Seq<(K, V)>>, id: Seq<u8>) -> Option<V>
    recommends
        bs.len() > 0,
{
    bucket_get(bs[bucket_index(id, bs.len() as int)], id)
}

/// Whether some entry of the bucket has identity `id`.
pub open spec fn bucket_has_key<K: HashKey, V>(b: Seq<(K, V)>, id: Seq<u8>) -> bool {
    exists|j: int| 0 <= j < b.len() && b[j].0.key_id() == id
}

/// No two entries of the bucket share an identity.
pub open spec fn distinct_keys<K: HashKey, V>(b: Seq<(K, V)>) -> bool {
    forall|j1: int, j2: int|
        0 <= j1 < j2 < b.len() ==> b[j1].0.key_id() != b[j2].0.key_id()
}

/// Total number of entries across a sequence of buckets.
pub open spec fn total_count<K, V>(bs: Seq<Seq<(K, V)>>) -> nat
    decreases bs.len(),
{
    if bs.len() == 0 {
        0
    } else {
        total_count(bs.drop_last()) + bs.last().len()
    }
}

/// A bucket's first-match lookup finds nothing exactly when no entry has the
/// identity.
pub proof fn lemma_bucket_get_none<K: HashKey, V>(b: Seq<(K, V)>, id: Seq<u8>)
    ensures
        bucket_get(b, id) is None <==> !bucket_has_key(b, id),
    decreases b.len(),
{
    if b.len() > 0 {
        lemma_bucket_get_none(b.drop_first(), id);
        if b[0].0.key_id() == id {
            assert(bucket_has_key(b, id));
        } else {
            if bucket_has_key(b, id) {
                let j = choose|j: int| 0 <= j < b.len() && b[j].0.key_id() == id;
                assert(b.drop_first()[j - 1] == b[j]);
                assert(bucket_has_key(b.drop_first(), id));
            }
            if bucket_has_key(b.drop_first(), id) {
                let j = choose|j: int|
                    0 <= j < b.drop_first().len() && b.drop_first()[j].0.key_id() == id;
                assert(b[j + 1] == b.drop_first()[j]);
                assert(bucket_has_key(b, id));
            }
        }
    }
}

/// Dropping a bucket's first entry keeps its identities distinct.
pub proof fn lemma_distinct_drop_first<K: HashKey, V>(b: Seq<(K, V)>)
    requires
        distinct_keys(b),
        b.len() > 0,
    ensures
        distinct_keys(b.drop_first()),
{
    assert forall|j1: int, j2: int| 0 <= j1 < j2 < b.drop_first().len() implies b.drop_first()[j1].0.key_id()
        != b.drop_first()[j2].0.key_id() by {
        assert(b.drop_first()[j1] == b[j1 + 1]);
        assert(b.drop_first()[j2] == b[j2 + 1]);
    }
}

/// In a bucket with distinct identities, the lookup of entry `i`'s identity
/// returns entry `i`'s value.
pub proof fn lemma_bucket_get_at<K: HashKey, V>(b: Seq<(K, V)>, i: int)
    requires
        distinct_keys(b),
        0 <= i < b.len(),
    ensures
        bucket_get(b, b[i].0.key_id()) == Some(b[i].1),
    decreases b.len(),
{
    if i > 0 {
        lemma_distinct_drop_first(b);
        lemma_bucket_get_at(b.drop_first(), i - 1);
        assert(b.drop_first()[i - 1] == b[i]);
    }
}

/// Replacing the value of entry `i` (keeping its key) changes the lookup of
/// that entry's identity to the new value and no other lookup.
pub proof fn lemma_bucket_get_update<K: HashKey, V>(b: Seq<(K, V)>, i: int, v: V, id: Seq<u8>)
    requires
        distinct_keys(b),
        0 <= i < b.len(),
    ensures
        bucket_get(b.update(i, (b[i].0, v)), id) == if id == b[i].0.key_id() {
            Some(v)
        } else {
            bucket_get(b, id)
        },
    decreases b.len(),
{
    let b2 = b.update(i, (b[i].0, v));
    if i == 0 {
        assert(b2.drop_first() =~= b.drop_first());
    } else {
        assert(b2[0] == b[0]);
        assert(b2.drop_first() =~= b.drop_first().update(i - 1, (b[i].0, v)));
        lemma_distinct_drop_first(b);
        lemma_bucket_get_update(b.drop_first(), i - 1, v, id);
        assert(b.drop_first()[i - 1] == b[i]);
    }
}

/// Appending an entry leaves every lookup unchanged except the appended
/// identity's, which finds the appended value if it found nothing before.
pub proof fn lemma_bucket_get_push<K: HashKey, V>(b: Seq<(K, V)>, p: (K, V), id: Seq<u8>)
    ensures
        bucket_get(b.push(p), id) == if bucket_get(b, id) is Some {
            bucket_get(b, id)
        } else if p.0.key_id() == id {
            Some(p.1)
        } else {
            None::<V>
        },
    decreases b.len(),
{
    if b.len() == 0 {
        assert(bucket_get(b, id) is None);
        assert(b.push(p)[0] == p);
        assert(b.push(p).drop_first() =~= Seq::<(K, V)>::empty());
        if p.0.key_id() == id {
            assert(bucket_get(b.push(p), id) == Some(p.1));
        } else {
            assert(bucket_get(b.push(p), id) == bucket_get(b.push(p).drop_first(), id));
            assert(bucket_get(b.push(p), id) is None);
        }
    } else {
        assert(b.push(p)[0] == b[0]);
        assert(b.push(p).drop_first() =~= b.drop_first().push(p));
        lemma_bucket_get_push(b.drop_first(), p, id);
        if b[0].0.key_id() == id {
            assert(bucket_get(b.push(p), id) == Some(b[0].1));
            assert(bucket_get(b, id) == Some(b[0].1));
        } else {
            assert(bucket_get(b.push(p), id) == bucket_get(b.drop_first().push(p), id));
            assert(bucket_get(b, id) == bucket_get(b.drop_first(), id));
        }
    }
}

/// Removing entry `i` of a bucket with distinct identities empties the lookup
/// of that entry's identity and leaves every other lookup unchanged.
pub proof fn lemma_bucket_get_remove<K: HashKey, V>(b: Seq<(K, V)>, i: int, id: Seq<u8>)
    requires
        distinct_keys(b),
        0 <= i < b.len(),
    ensures
        bucket_get(b.remove(i), id) == if id == b[i].0.key_id() {
            None::<V>
        } else {
            bucket_get(b, id)
        },
    decreases b.len(),
{
    let b2 = b.remove(i);
    if i == 0 {
        assert(b2 =~= b.drop_first());
        if id == b[0].0.key_id() {
            lemma_bucket_get_none(b.drop_first(), id);
            if bucket_has_key(b.drop_first(), id) {
                let j = choose|j: int|
                    0 <= j < b.drop_first().len() && b.drop_first()[j].0.key_id() == id;
                assert(b[j + 1] == b.drop_first()[j]);
            }
        }
    } else {
        assert(b2[0] == b[0]);
        assert(b2.drop_first() =~= b.drop_first().remove(i - 1));
        lemma_distinct_drop_first(b);
        lemma_bucket_get_remove(b.drop_first(), i - 1, id);
        assert(b.drop_first()[i - 1] == b[i]);
    }
}

/// Replacing bucket `i` changes the entry total by the difference of the two
/// bucket lengths.
pub proof fn lemma_total_count_update<K, V>(bs: Seq<Seq<(K, V)>>, i: int, b2: Seq<(K, V)>)
    requires
        0 <= i < bs.len(),
    ensures
        total_count(bs.update(i, b2)) as int == total_count(bs) as int - bs[i].len() + b2.len(),
    decreases bs.len(),
{
    let u = bs.update(i, b2);
    if i == bs.len() - 1 {
        assert(u.drop_last() =~= bs.drop_last());
        assert(u.last() == b2);
    } else {
        assert(u.drop_last() =~= bs.drop_last().update(i, b2));
        assert(u.last() == bs.last());
        lemma_total_count_update(bs.drop_last(), i, b2);
        assert(bs.drop_last()[i] == bs[i]);
    }
}

/// Extending a prefix of buckets by one bucket adds that bucket's length to
/// the prefix's entry total.
pub proof fn lemma_total_count_take_step<K, V>(bs: Seq<Seq<(K, V)>>, i: int)
    requires
        0 <= i < bs.len(),
    ensures
        total_count(bs.take(i + 1)) == total_count(bs.take(i)) + bs[i].len(),
{
    assert(bs.take(i + 1).drop_last() =~= bs.take(i));
    assert(bs.take(i + 1).last() == bs[i]);
}

/// The prefix of all buckets has the full entry total.
pub proof fn lemma_total_count_all<K, V>(bs: Seq<Seq<(K, V)>>)
    ensures
        total_count(bs.take(bs.len() as int)) == total_count(bs),
{
    assert(bs.take(bs.len() as int) =~= bs);
}

/// A bucket array of empty buckets holds no entries.
pub proof fn lemma_total_count_empty<K, V>(bs: Seq<Seq<(K, V)>>)
    requires
        forall|i: int| 0 <= i < bs.len() ==> (#[trigger] bs[i]).len() == 0,
    ensures
        total_count(bs) == 0,
    decreases bs.len(),
{
    if bs.len() > 0 {
        assert forall|i: int| 0 <= i < bs.drop_last().len() implies (#[trigger] bs.drop_last()[i]).len()
            == 0 by {
            assert(bs.drop_last()[i] == bs[i]);
        }
        lemma_total_count_empty(bs.drop_last());
    }
}

/// No single bucket holds more entries than all buckets together.
pub proof fn lemma_total_count_ge_bucket<K, V>(bs: Seq<Seq<(K, V)>>, i: int)
    requires
        0 <= i < bs.len(),
    ensures
        total_count(bs) >= bs[i].len(),
    decreases bs.len(),
{
    if i < bs.len() - 1 {
        lemma_total_count_ge_bucket(bs.drop_last(), i);
        assert(bs.drop_last()[i] == bs[i]);
    }
}

/// In a bucket with distinct identities, the prefix before entry `j` holds
/// nothing under entry `j`'s identity.
pub proof fn lemma_bucket_prefix_absent<K: HashKey, V>(b: Seq<(K, V)>, j: int)
    requires
        distinct_keys(b),
        0 <= j < b.len(),
    ensures
        bucket_get(b.take(j), b[j].0.key_id()) is None,
{
    let id = b[j].0.key_id();
    lemma_bucket_get_none(b.take(j), id);
    if bucket_has_key(b.take(j), id) {
        let j2 = choose|j2: int| 0 <= j2 < b.take(j).len() && b.take(j)[j2].0.key_id() == id;
        assert(b.take(j)[j2] == b[j2]);
        assert(false);
    }
}

/// Appending an entry whose identity the bucket lacks keeps its identities
/// distinct.
pub proof fn lemma_distinct_push<K: HashKey, V>(b: Seq<(K, V)>, p: (K, V))
    requires
        distinct_keys(b),
        !bucket_has_key(b, p.0.key_id()),
    ensures
        distinct_keys(b.push(p)),
{
    let b2 = b.push(p);
    assert forall|j1: int, j2: int| 0 <= j1 < j2 < b2.len() implies b2[j1].0.key_id()
        != b2[j2].0.key_id() by {
        if j2 == b.len() {
            assert(b2[j1] == b[j1]);
            assert(!(0 <= j1 < b.len() && b[j1].0.key_id() == p.0.key_id()));
        } else {
            assert(b2[j1] == b[j1]);
            assert(b2[j2] == b[j2]);
        }
    }
}

/// Removing an entry keeps a bucket's identities distinct.
pub proof fn lemma_distinct_remove<K: HashKey, V>(b: Seq<(K, V)>, i: int)
    requires
        distinct_keys(b),
        0 <= i < b.len(),
    ensures
        distinct_keys(b.remove(i)),
{
    let b2 = b.remove(i);
    assert forall|j1: int, j2: int| 0 <= j1 < j2 < b2.len() implies b2[j1].0.key_id()
        != b2[j2].0.key_id() by {
        assert(b2[j1] == if j1 < i {
            b[j1]
        } else {
            b[j1 + 1]
        });
        assert(b2[j2] == if j2 < i {
            b[j2]
        } else {
            b[j2 + 1]
        });
    }
}

/// A hash table mapping keys to values by separate chaining.
pub struct HashMap<K: HashKey, V> {
    /// The bucket array; each bucket lists its entries in insertion order.
    pub buckets: Vec<Vec<(K, V)>>,
    /// Count of stored key/value pairs.
    pub items: usize,
}

impl<K: HashKey, V: Copy> HashMap<K, V> {
    /// The buckets as a sequence of entry sequences.
    pub open spec fn bucket_seqs(self) -> Seq<Seq<(K, V)>> {
        views_of(self.buckets@)
    }

    /// The current bucket count.
    pub open spec fn num_buckets(self) -> int {
        self.buckets@.len() as int
    }

    /// Well-formedness: `items` counts the entries, no bucket holds two
    /// entries with equal identities, every entry sits in the bucket its
    /// identity hashes to, and the stored items never outnumber the buckets.
    pub open spec fn wf(self) -> bool {
        let bs = self.bucket_seqs();
        let n = self.num_buckets();
        &&& self.items == total_count(bs)
        &&& forall|i: int| 0 <= i < n ==> distinct_keys(#[trigger] bs[i])
        &&& forall|i: int, j: int|
            0 <= i < n && 0 <= j < bs[i].len() ==> bucket_index(
                (#[trigger] bs[i][j]).0.key_id(),
                n,
            ) == i
        &&& n > 0 ==> self.items <= n
    }

    /// The value stored under identity `id`, if any.
    pub open spec fn spec_get(self, id: Seq<u8>) -> Option<V> {
        if self.num_buckets() == 0 {
            None
        } else {
            table_get(self.bucket_seqs(), id)
        }
    }

    /// The table's contents as a map from key identities to values.
    pub open spec fn as_map(self) -> Map<Seq<u8>, V> {
        Map::new(|id: Seq<u8>| self.spec_get(id) is Some, |id: Seq<u8>| self.spec_get(id).unwrap())
    }

    /// Whether the next insert will grow the bucket array first.
    pub open spec fn needs_grow(self) -> bool {
        self.num_buckets() == 0 || self.items >= (LOAD_FACTOR_NUM as int) * self.num_buckets()
            / (LOAD_FACTOR_DEN as int)
    }

    /// The bucket count after one resize of a table of `n` buckets.
    pub open spec fn grown_capacity(n: int) -> int {
        if n == 0 {
            INITIAL_NBUCKETS as int
        } else {
            GROWTH_FACTOR * n
        }
    }

    /// Construct an empty table: no buckets, no items.
    pub fn new() -> (t: Self)
        ensures
            t.wf(),
            t.items == 0,
            t.num_buckets() == 0,
            t.as_map() == Map::<Seq<u8>, V>::empty(),
    {
        let t = HashMap { buckets: Vec::new(), items: 0 };
        proof {
            assert(t.bucket_seqs() =~= Seq::<Seq<(K, V)>>::empty());
            assert(t.as_map() =~= Map::<Seq<u8>, V>::empty());
        }
        t
    }

    /// Map a key to its bucket index among `buckets_len` buckets: the key's
    /// digest modulo the bucket count.
    fn hash(key: &K, buckets_len: usize) -> (idx: usize)
        requires
            buckets_len > 0,
        ensures
            idx as int == bucket_index(key.key_id(), buckets_len as int),
            idx < buckets_len,
    {
        let mut hasher = DefaultHasher::new();
        key.write_to(&mut hasher);
        let digest = hasher.finish();
        proof {
            assert(hasher@ =~= seq![key.key_id()]);
        }
        (digest % (buckets_len as u64)) as usize
    }

    /// The map view looks a key up exactly as `spec_get` does.
    pub proof fn lemma_as_map_get(self, id: Seq<u8>)
        ensures
            self.as_map().contains_key(id) <==> self.spec_get(id) is Some,
            self.as_map().contains_key(id) ==> self.as_map()[id] == self.spec_get(id).unwrap(),
    {
    }

    /// Look the key up in its bucket; absent keys, and every key of a table
    /// that has never seen an insert, give `None`.
    pub fn get(&self, key: &K) -> (r: Option<&V>)
        requires
            self.wf(),
        ensures
            (match r {
                Some(v) => self.spec_get(key.key_id()) == Some(*v),
                None => self.spec_get(key.key_id()) is None,
            }),
            (match r {
                Some(v) => self.as_map().contains_key(key.key_id()) && *v == self.as_map()[key.key_id()],
                None => !self.as_map().contains_key(key.key_id()),
            }),
    {
        proof {
            self.lemma_as_map_get(key.key_id());
        }
        if self.buckets.len() == 0 {
            return None;
        }
        let n = self.buckets.len();
        let b = Self::hash(key, n);
        let ghost bseq = self.bucket_seqs()[b as int];
        proof {
            assert(distinct_keys(bseq));
        }
        let blen = self.buckets[b].len();
        let mut i: usize = 0;
        #[verifier::loop_isolation(false)]
        while i < blen
            invariant
                i <= blen,
                forall|j: int| 0 <= j < i ==> (#[trigger] bseq[j]).0.key_id() != key.key_id(),
            decreases blen - i,
        {
            if self.buckets[b][i].0.key_eq(key) {
                proof {
                    lemma_bucket_get_at::<K, V>(bseq, i as int);
                }
                return Some(&self.buckets[b][i].1);
            }
            i += 1;
        }
        proof {
            lemma_bucket_get_none::<K, V>(bseq, key.key_id());
            if bucket_has_key(bseq, key.key_id()) {
                let j = choose|j: int| 0 <= j < bseq.len() && bseq[j].0.key_id() == key.key_id();
                assert(bseq[j].0.key_id() == key.key_id());
                assert(false);
            }
        }
        None
    }

    /// Grow the bucket array — to [`INITIAL_NBUCKETS`] on the first
    /// allocation, else by [`GROWTH_FACTOR`] — and move every entry into the
    /// bucket its identity hashes to under the new count. A full rehash: the
    /// table's contents and `items` are unchanged.
    #[verifier::loop_isolation(false)]
    pub fn resize(&mut self)
        requires
            old(self).wf(),
            old(self).num_buckets() * (GROWTH_FACTOR as int) <= usize::MAX as int,
        ensures
            final(self).wf(),
            final(self).items == old(self).items,
            final(self).num_buckets() == Self::grown_capacity(old(self).num_buckets()),
            forall|id: Seq<u8>| #[trigger] final(self).spec_get(id) == old(self).spec_get(id),
            final(self).as_map() == old(self).as_map(),
    {
        let n0 = self.buckets.len();
        let target: usize = if n0 == 0 {
            INITIAL_NBUCKETS
        } else {
            GROWTH_FACTOR * n0
        };
        let ghost obs = self.bucket_seqs();
        let ghost n0i = n0 as int;
        let ghost n1i = target as int;

        let mut new_buckets: Vec<Vec<(K, V)>> = Vec::new();
        while new_buckets.len() < target
            invariant
                new_buckets@.len() <= target,
                forall|t: int|
                    0 <= t < new_buckets@.len() ==> (#[trigger] views_of(new_buckets@)[t]).len()
                        == 0,
            decreases target - new_buckets@.len(),
        {
            let ghost pre = views_of(new_buckets@);
            new_buckets.push(Vec::new());
            proof {
                assert forall|t: int| 0 <= t < new_buckets@.len() implies (#[trigger] views_of(
                    new_buckets@,
                )[t]).len() == 0 by {
                    if t < pre.len() {
                        assert(views_of(new_buckets@)[t] == pre[t]);
                    } else {
                        assert(views_of(new_buckets@)[t] == new_buckets@[t]@);
                    }
                }
            }
        }
        proof {
            lemma_total_count_empty(views_of(new_buckets@));
            assert(total_count(obs.take(0)) == 0) by {
                assert(obs.take(0) =~= Seq::<Seq<(K, V)>>::empty());
            }
            assert forall|id: Seq<u8>| #[trigger] table_get(views_of(new_buckets@), id)
                is None by {
                assert(views_of(new_buckets@)[bucket_index(id, n1i)].len() == 0);
            }
        }
        let mut i: usize = 0;
        while i < n0
            invariant
                i <= n0,
                new_buckets@.len() == target,
                forall|t: int|
                    0 <= t < n1i ==> distinct_keys(#[trigger] views_of(new_buckets@)[t]),
                forall|t: int, j: int|
                    0 <= t < n1i && 0 <= j < views_of(new_buckets@)[t].len() ==> bucket_index(
                        (#[trigger] views_of(new_buckets@)[t][j]).0.key_id(),
                        n1i,
                    ) == t,
                forall|id: Seq<u8>|
                    #[trigger] table_get(views_of(new_buckets@), id) == (
                    if 0 <= bucket_index(id, n0i) < i as int {
                        bucket_get(obs[bucket_index(id, n0i)], id)
                    } else {
                        None::<V>
                    }),
                total_count(views_of(new_buckets@)) == total_count(obs.take(i as int)),
            decreases n0 - i,
        {
            let blen = self.buckets[i].len();
            let mut j: usize = 0;
            while j < blen
                invariant
                    j <= blen,
                    i < n0,
                    blen == obs[i as int].len(),
                    new_buckets@.len() == target,
                    forall|t: int|
                        0 <= t < n1i ==> distinct_keys(#[trigger] views_of(new_buckets@)[t]),
                    forall|t: int, j2: int|
                        0 <= t < n1i && 0 <= j2 < views_of(new_buckets@)[t].len() ==> bucket_index(
                            (#[trigger] views_of(new_buckets@)[t][j2]).0.key_id(),
                            n1i,
                        ) == t,
                    forall|id: Seq<u8>|
                        #[trigger] table_get(views_of(new_buckets@), id) == (
                        if 0 <= bucket_index(id, n0i) < i as int {
                            bucket_get(obs[bucket_index(id, n0i)], id)
                        } else if bucket_index(id, n0i) == i as int {
                            bucket_get(obs[i as int].take(j as int), id)
                        } else {
                            None::<V>
                        }),
                    total_count(views_of(new_buckets@)) == total_count(obs.take(i as int)) + j,
                decreases blen - j,
            {
                let p = self.buckets[i][j];
                let t = Self::hash(&p.0, target);
                let ghost pre = views_of(new_buckets@);
                let ghost pk = p.0.key_id();
                let ghost ii = i as int;
                let ghost jj = j as int;
                let ghost ti = t as int;
                let ghost ob = obs[ii];
                proof {
                    assert(p == ob[jj]);
                    assert(bucket_index(pk, n0i) == ii);
                    assert(distinct_keys(ob));
                    lemma_bucket_prefix_absent(ob, jj);
                    assert(table_get(pre, pk) == bucket_get(ob.take(jj), pk));
                    assert(bucket_get(pre[ti], pk) is None);
                    lemma_bucket_get_none(pre[ti], pk);
                }
                new_buckets[t].push(p);
                proof {
                    let post = views_of(new_buckets@);
                    assert(post =~= pre.update(ti, pre[ti].push(p)));
                    lemma_distinct_push(pre[ti], p);
                    lemma_total_count_update(pre, ti, pre[ti].push(p));
                    assert(ob.take(jj + 1) =~= ob.take(jj).push(p));

                    assert forall|t2: int| 0 <= t2 < n1i implies distinct_keys(
                        #[trigger] post[t2],
                    ) by {
                        if t2 != ti {
                            assert(post[t2] == pre[t2]);
                        }
                    }
                    assert forall|t2: int, j2: int|
                        0 <= t2 < n1i && 0 <= j2 < post[t2].len() implies bucket_index(
                        (#[trigger] post[t2][j2]).0.key_id(),
                        n1i,
                    ) == t2 by {
                        if t2 == ti {
                            if j2 < pre[ti].len() {
                                assert(post[ti][j2] == pre[ti][j2]);
                            } else {
                                assert(post[ti][j2] == p);
                            }
                        } else {
                            assert(post[t2] == pre[t2]);
                        }
                    }
                    assert forall|id: Seq<u8>|
                        #[trigger] table_get(post, id) == (
                        if 0 <= bucket_index(id, n0i) < ii {
                            bucket_get(obs[bucket_index(id, n0i)], id)
                        } else if bucket_index(id, n0i) == ii {
                            bucket_get(ob.take(jj + 1), id)
                        } else {
                            None::<V>
                        }) by {
                        let bi1 = bucket_index(id, n1i);
                        let bi0 = bucket_index(id, n0i);
                        if bi1 == ti {
                            lemma_bucket_get_push(pre[ti], p, id);
                        } else {
                            assert(post[bi1] == pre[bi1]);
                        }
                        if bi0 == ii {
                            lemma_bucket_get_push(ob.take(jj), p, id);
                            assert(bucket_get(ob.take(jj + 1), id) == bucket_get(
                                ob.take(jj).push(p),
                                id,
                            ));
                        }
                        if id == pk {
                            assert(bi0 == ii && bi1 == ti);
                            assert(bucket_get(post[ti], id) == Some(p.1));
                            assert(bucket_get(ob.take(jj + 1), id) == Some(p.1));
                        } else {
                            assert(table_get(post, id) == table_get(pre, id));
                            if bi0 == ii {
                                assert(bucket_get(ob.take(jj + 1), id) == bucket_get(
                                    ob.take(jj),
                                    id,
                                ));
                            }
                        }
                    }
                }
                j += 1;
            }
            proof {
                assert(obs[i as int].take(blen as int) =~= obs[i as int]);
                lemma_total_count_take_step(obs, i as int);
                assert forall|id: Seq<u8>|
                    #[trigger] table_get(views_of(new_buckets@), id) == (
                    if 0 <= bucket_index(id, n0i) < i as int + 1 {
                        bucket_get(obs[bucket_index(id, n0i)], id)
                    } else {
                        None::<V>
                    }) by {
                    if bucket_index(id, n0i) == i as int {
                        assert(bucket_get(obs[i as int].take(blen as int), id) == bucket_get(
                            obs[i as int],
                            id,
                        ));
                    }
                }
            }
            i += 1;
        }
        proof {
            lemma_total_count_all(obs);
        }
        let ghost fin = views_of(new_buckets@);
        self.buckets = new_buckets;
        proof {
            assert(self.bucket_seqs() == fin);
            assert forall|id: Seq<u8>| #[trigger] self.spec_get(id) == old(self).spec_get(id) by {
                if n0i > 0 {
                    assert(0 <= bucket_index(id, n0i) < n0i);
                }
            }
            assert(self.as_map() =~= old(self).as_map());
        }
    }

    /// Insert a key/value pair, returning the previous value stored under the
    /// key, if any.
    ///
    /// The table grows first (see [`Self::resize`]) when it has no buckets
    /// yet, or when the stored items have reached [`LOAD_FACTOR_NUM`] /
    /// [`LOAD_FACTOR_DEN`] of the bucket count. A present key keeps its entry
    /// and only the value is replaced, leaving `items` unchanged; a new key's
    /// pair is appended to its bucket and `items` grows by one.
    #[verifier::loop_isolation(false)]
    pub fn insert(&mut self, key: K, value: V) -> (prev: Option<V>)
        requires
            old(self).wf(),
            (LOAD_FACTOR_NUM as int) * old(self).num_buckets() <= usize::MAX as int,
        ensures
            final(self).wf(),
            prev == old(self).spec_get(key.key_id()),
            final(self).spec_get(key.key_id()) == Some(value),
            forall|id: Seq<u8>|
                id != key.key_id() ==> #[trigger] final(self).spec_get(id) == old(self).spec_get(
                    id,
                ),
            final(self).as_map() == old(self).as_map().insert(key.key_id(), value),
            final(self).items == if old(self).spec_get(key.key_id()) is Some {
                old(self).items as int
            } else {
                old(self).items + 1
            },
            final(self).num_buckets() == if old(self).needs_grow() {
                Self::grown_capacity(old(self).num_buckets())
            } else {
                old(self).num_buckets()
            },
    {
        if self.buckets.len() == 0 || self.items >= LOAD_FACTOR_NUM * self.buckets.len()
            / LOAD_FACTOR_DEN {
            self.resize();
        }
        let ghost mid = *self;
        let n = self.buckets.len();
        let b = Self::hash(&key, n);
        let ghost id = key.key_id();
        let ghost bseq = self.bucket_seqs()[b as int];
        let ghost bi = b as int;
        proof {
            assert(distinct_keys(bseq));
        }
        let blen = self.buckets[b].len();
        let mut i: usize = 0;
        while i < blen
            invariant
                i <= blen,
                *self == mid,
                forall|j: int| 0 <= j < i ==> (#[trigger] bseq[j]).0.key_id() != id,
            decreases blen - i,
        {
            if self.buckets[b][i].0.key_eq(&key) {
                let prev_v = self.buckets[b][i].1;
                let ghost ii = i as int;
                proof {
                    lemma_bucket_get_at(bseq, ii);
                }
                self.buckets[b][i].1 = value;
                proof {
                    let upd = bseq.update(ii, (bseq[ii].0, value));
                    assert(self.buckets@[bi]@ =~= upd);
                    assert(self.bucket_seqs() =~= mid.bucket_seqs().update(bi, upd));
                    lemma_total_count_update(mid.bucket_seqs(), bi, upd);
                    assert forall|j1: int| 0 <= j1 < upd.len() implies (#[trigger] upd[j1]).0.key_id()
                        == bseq[j1].0.key_id() by {}
                    assert(distinct_keys(upd));
                    assert forall|id2: Seq<u8>| #[trigger] self.spec_get(id2) == (
                    if id2 == id {
                        Some(value)
                    } else {
                        mid.spec_get(id2)
                    }) by {
                        if bucket_index(id2, n as int) == bi {
                            lemma_bucket_get_update(bseq, ii, value, id2);
                        } else {
                            assert(self.bucket_seqs()[bucket_index(id2, n as int)]
                                == mid.bucket_seqs()[bucket_index(id2, n as int)]);
                        }
                    }
                    assert(self.wf());
                    assert(self.as_map() =~= old(self).as_map().insert(id, value));
                }
                return Some(prev_v);
            }
            i += 1;
        }
        proof {
            lemma_bucket_get_none(bseq, id);
            if bucket_has_key(bseq, id) {
                let j = choose|j: int| 0 <= j < bseq.len() && bseq[j].0.key_id() == id;
                assert(bseq[j].0.key_id() == id);
                assert(false);
            }
            assert(self.items < usize::MAX);
        }
        self.buckets[b].push((key, value));
        self.items = self.items + 1;
        proof {
            let upd = bseq.push((key, value));
            assert(self.buckets@[bi]@ =~= upd);
            assert(self.bucket_seqs() =~= mid.bucket_seqs().update(bi, upd));
            lemma_total_count_update(mid.bucket_seqs(), bi, upd);
            lemma_distinct_push(bseq, (key, value));
            assert forall|id2: Seq<u8>| #[trigger] self.spec_get(id2) == (
            if id2 == id {
                Some(value)
            } else {
                mid.spec_get(id2)
            }) by {
                if bucket_index(id2, n as int) == bi {
                    lemma_bucket_get_push(bseq, (key, value), id2);
                } else {
                    assert(self.bucket_seqs()[bucket_index(id2, n as int)]
                        == mid.bucket_seqs()[bucket_index(id2, n as int)]);
                }
            }
            assert forall|t2: int, j2: int|
                0 <= t2 < n as int && 0 <= j2 < self.bucket_seqs()[t2].len() implies bucket_index(
                (#[trigger] self.bucket_seqs()[t2][j2]).0.key_id(),
                n as int,
            ) == t2 by {
                if t2 == bi && j2 == upd.len() - 1 {
                    assert(upd[j2] == (key, value));
                } else {
                    assert(self.bucket_seqs()[t2][j2] == mid.bucket_seqs()[t2][j2]);
                }
            }
            assert(self.wf());
            assert(self.as_map() =~= old(self).as_map().insert(id, value));
        }
        None
    }

    /// Remove the entry stored under the key, returning its value.
    ///
    /// An absent key — and any key of a table that has never seen an
    /// insert — leaves the table unchanged and returns `None`. A present
    /// key's entry leaves its bucket, the order of the remaining entries is
    /// kept, and `items` shrinks by one. Removal never shrinks the bucket
    /// array.
    #[verifier::loop_isolation(false)]
    pub fn remove(&mut self, key: &K) -> (r: Option<V>)
        requires
            old(self).wf(),
        ensures
            final(self).wf(),
            r == old(self).spec_get(key.key_id()),
            final(self).spec_get(key.key_id()) is None,
            forall|id: Seq<u8>|
                id != key.key_id() ==> #[trigger] final(self).spec_get(id) == old(self).spec_get(
                    id,
                ),
            final(self).as_map() == old(self).as_map().remove(key.key_id()),
            final(self).items == if old(self).spec_get(key.key_id()) is Some {
                old(self).items - 1
            } else {
                old(self).items as int
            },
            final(self).num_buckets() == old(self).num_buckets(),
    {
        let ghost id = key.key_id();
        if self.buckets.len() == 0 {
            proof {
                assert(self.as_map() =~= old(self).as_map().remove(id));
            }
            return None;
        }
        let n = self.buckets.len();
        let b = Self::hash(key, n);
        let ghost bseq = self.bucket_seqs()[b as int];
        let ghost bi = b as int;
        proof {
            assert(distinct_keys(bseq));
        }
        let blen = self.buckets[b].len();
        let mut i: usize = 0;
        while i < blen
            invariant
                i <= blen,
                *self == *old(self),
                forall|j: int| 0 <= j < i ==> (#[trigger] bseq[j]).0.key_id() != id,
            decreases blen - i,
        {
            if self.buckets[b][i].0.key_eq(key) {
                let ghost ii = i as int;
                proof {
                    lemma_bucket_get_at(bseq, ii);
                    lemma_total_count_ge_bucket(old(self).bucket_seqs(), bi);
                }
                let removed = self.buckets[b].remove(i);
                self.items = self.items - 1;
                proof {
                    let upd = bseq.remove(ii);
                    assert(self.buckets@[bi]@ =~= upd);
                    assert(self.bucket_seqs() =~= old(self).bucket_seqs().update(bi, upd));
                    lemma_total_count_update(old(self).bucket_seqs(), bi, upd);
                    lemma_distinct_remove(bseq, ii);
                    assert forall|t2: int, j2: int|
                        0 <= t2 < n as int && 0 <= j2 < self.bucket_seqs()[t2].len() implies
                        bucket_index(
                        (#[trigger] self.bucket_seqs()[t2][j2]).0.key_id(),
                        n as int,
                    ) == t2 by {
                        if t2 == bi {
                            assert(upd[j2] == if j2 < ii {
                                bseq[j2]
                            } else {
                                bseq[j2 + 1]
                            });
                        } else {
                            assert(self.bucket_seqs()[t2][j2] == old(self).bucket_seqs()[t2][j2]);
                        }
                    }
                    assert forall|id2: Seq<u8>| #[trigger] self.spec_get(id2) == (
                    if id2 == id {
                        None::<V>
                    } else {
                        old(self).spec_get(id2)
                    }) by {
                        if bucket_index(id2, n as int) == bi {
                            lemma_bucket_get_remove(bseq, ii, id2);
                        } else {
                            assert(self.bucket_seqs()[bucket_index(id2, n as int)] == old(
                                self,
                            ).bucket_seqs()[bucket_index(id2, n as int)]);
                        }
                    }
                    assert(self.wf());
                    assert(self.as_map() =~= old(self).as_map().remove(id));
                }
                return Some(removed.1);
            }
            i += 1;
        }
        proof {
            lemma_bucket_get_none(bseq, id);
            if bucket_has_key(bseq, id) {
                let j = choose|j: int| 0 <= j < bseq.len() && bseq[j].0.key_id() == id;
                assert(bseq[j].0.key_id() == id);
                assert(false);
            }
            assert(self.as_map() =~= old(self).as_map().remove(id));
        }
        None
    }

    /// The current number of buckets.
    pub fn bucket_count(&self) -> (n: usize)
        ensures
            n as int == self.num_buckets(),
    {
        self.buckets.len()
    }
}

/// Insert-then-get: a table whose map view is another's with `key`'s identity
/// bound to `value` — the state `insert` leaves behind — yields that value,
/// the most recently inserted one, when the key is looked up.
pub proof fn lemma_insert_then_get<K: HashKey, V: Copy>(
    pre: HashMap<K, V>,
    post: HashMap<K, V>,
    key: K,
    value: V,
)
    requires
        post.as_map() == pre.as_map().insert(key.key_id(), value),
    ensures
        post.spec_get(key.key_id()) == Some(value),
{
    post.lemma_as_map_get(key.key_id());
    assert(post.as_map().contains_key(key.key_id()));
    assert(post.as_map()[key.key_id()] == value);
}

/// Remove-then-get: a table whose map view is another's without `key`'s
/// identity — the state `remove` leaves behind — finds nothing when the key
/// is looked up.
pub proof fn lemma_remove_then_get<K: HashKey, V: Copy>(
    pre: HashMap<K, V>,
    post: HashMap<K, V>,
    key: K,
)
    requires
        post.as_map() == pre.as_map().remove(key.key_id()),
    ensures
        post.spec_get(key.key_id()) is None,
{
    post.lemma_as_map_get(key.key_id());
    assert(!post.as_map().contains_key(key.key_id()));
}

/// Load-factor bound: a well-formed table with at least one bucket never
/// stores more items than it has buckets.
pub proof fn lemma_load_factor_bound<K: HashKey, V: Copy>(t: HashMap<K, V>)
    requires
        t.wf(),
        t.num_buckets() > 0,
    ensures
        t.items <= t.num_buckets(),
{
}

} // verus!
