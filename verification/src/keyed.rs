//! A map from byte-string keys to values in which a later insertion of a key
//! replaces the earlier one. Records are kept in insertion order and found
//! again through a hash table keyed by the FNV-1a hash of the key.
use std::collections::HashMap;
use vstd::prelude::*;
use crate::fnv::{fnv, fnv1a64_bytes};

verus! {

broadcast use vstd::std_specs::hash::group_hash_axioms;

/// The map a list of `(key, value)` insertions leaves behind: each key maps to
/// the value of its last insertion.
pub open spec fn last_wins<V>(rs: Seq<(Seq<u8>, V)>) -> Map<Seq<u8>, V>
    decreases rs.len(),
{
    if rs.len() == 0 {
        Map::empty()
    } else {
        last_wins(rs.drop_last()).insert(rs.last().0, rs.last().1)
    }
}

/// Whether `i` is the last position in `rs` that holds the key `k`.
pub open spec fn is_last_with_key<V>(rs: Seq<(Seq<u8>, V)>, k: Seq<u8>, i: int) -> bool {
    &&& 0 <= i < rs.len()
    &&& rs[i].0 == k
    &&& forall|j: int| i < j < rs.len() ==> rs[j].0 != k
}

/// A key is in `last_wins(rs)` iff some insertion holds it, and then it maps to
/// the value of the last such insertion.
pub proof fn lemma_last_wins<V>(rs: Seq<(Seq<u8>, V)>, k: Seq<u8>)
    ensures
        last_wins(rs).contains_key(k) <==> exists|i: int| 0 <= i < rs.len() && rs[i].0 == k,
        forall|i: int| is_last_with_key(rs, k, i) ==> last_wins(rs)[k] == rs[i].1,
    decreases rs.len(),
{
    if rs.len() > 0 {
        let init = rs.drop_last();
        lemma_last_wins(init, k);
        if rs.last().0 != k {
            assert forall|i: int| 0 <= i < init.len() && init[i].0 == k implies 0 <= i < rs.len() && rs[i].0 == k by {}
            assert forall|i: int| is_last_with_key(rs, k, i) implies last_wins(rs)[k] == rs[i].1 by {
                assert(i != rs.len() - 1);
                assert(is_last_with_key(init, k, i));
            }
            if exists|i: int| 0 <= i < rs.len() && rs[i].0 == k {
                let i = choose|i: int| 0 <= i < rs.len() && rs[i].0 == k;
                assert(init[i].0 == k);
            }
        } else {
            assert(0 <= rs.len() - 1 < rs.len() && rs[rs.len() - 1].0 == k);
        }
    }
}

pub struct KeyedIndex<V> {
    records: Vec<(Vec<u8>, V)>,
    buckets: HashMap<u64, Vec<usize>>,
}

/// A bucket of the hash table: increasing positions of records whose key hashes
/// to `h`.
pub open spec fn bucket_ok(b: Seq<usize>, h: u64, keys: Seq<Seq<u8>>) -> bool {
    &&& forall|j: int| 0 <= j < b.len() ==> (#[trigger] b[j]) < keys.len() && fnv(keys[b[j] as int]) == h
    &&& forall|j: int, k: int| 0 <= j < k < b.len() ==> #[trigger] b[j] < #[trigger] b[k]
}

impl<V> KeyedIndex<V> {
    /// The insertions so far, in order.
    pub closed spec fn entries(&self) -> Seq<(Seq<u8>, V)> {
        self.records@.map_values(|r: (Vec<u8>, V)| (r.0@, r.1))
    }

    spec fn keys(&self) -> Seq<Seq<u8>> {
        self.records@.map_values(|r: (Vec<u8>, V)| r.0@)
    }

    /// The map from each key to its last inserted value.
    pub open spec fn map(&self) -> Map<Seq<u8>, V> {
        last_wins(self.entries())
    }

    spec fn wf(&self) -> bool {
        &&& forall|h: u64| #[trigger] self.buckets@.contains_key(h) ==> bucket_ok(self.buckets@[h]@, h, self.keys())
        &&& forall|i: int| 0 <= i < self.records@.len() ==> {
            let h = fnv(#[trigger] self.records@[i].0@);
            self.buckets@.contains_key(h) && self.buckets@[h]@.contains(i as usize)
        }
    }

    /// The hash table finds every record again.
    #[verifier::type_invariant]
    spec fn inv(self) -> bool {
        self.wf()
    }

    pub fn new() -> (r: Self)
        ensures
            r.entries() == Seq::<(Seq<u8>, V)>::empty(),
            r.map() == Map::<Seq<u8>, V>::empty(),
    {
        let r = KeyedIndex { records: Vec::new(), buckets: HashMap::new() };
        assert(r.entries() =~= Seq::<(Seq<u8>, V)>::empty());
        r
    }

    /// How many insertions were made.
    pub fn num_entries(&self) -> (n: usize)
        ensures
            n == self.entries().len(),
    {
        self.records.len()
    }

    /// Record that `key` now maps to `value`.
    pub fn insert(&mut self, key: Vec<u8>, value: V)
        ensures
            final(self).entries() == old(self).entries().push((key@, value)),
            final(self).map() == old(self).map().insert(key@, value),
    {
        let mut this = KeyedIndex::new();
        std::mem::swap(&mut this, self);
        proof {
            use_type_invariant(&this);
        }
        let ghost o = this;
        let KeyedIndex { mut records, mut buckets } = this;
        let ghost old_keys = o.keys();
        let h = fnv1a64_bytes(key.as_slice());
        let idx = records.len();
        let ghost kv = key@;
        records.push((key, value));
        let mut bucket = match buckets.remove(&h) {
            Some(b) => b,
            None => Vec::new(),
        };
        let ghost old_bucket = bucket@;
        bucket.push(idx);
        buckets.insert(h, bucket);
        let ghost r = KeyedIndex { records, buckets };
        proof {
            assert(r.keys() =~= old_keys.push(kv));
            assert(r.entries() =~= o.entries().push((kv, value)));
            assert(o.entries().push((kv, value)).drop_last() =~= o.entries());
            assert forall|g: u64| #[trigger] r.buckets@.contains_key(g) implies bucket_ok(r.buckets@[g]@, g, r.keys()) by {
                if g == h {
                    assert(r.buckets@[g]@ == old_bucket.push(idx));
                    if o.buckets@.contains_key(h) {
                        assert(bucket_ok(old_bucket, h, old_keys));
                    } else {
                        assert(old_bucket.len() == 0);
                    }
                } else {
                    assert(r.buckets@[g] == o.buckets@[g]);
                    assert(bucket_ok(o.buckets@[g]@, g, old_keys));
                }
            }
            assert forall|i: int| 0 <= i < r.records@.len() implies {
                let g = fnv(#[trigger] r.records@[i].0@);
                r.buckets@.contains_key(g) && r.buckets@[g]@.contains(i as usize)
            } by {
                let g = fnv(r.records@[i].0@);
                if i < idx {
                    assert(r.records@[i] == o.records@[i]);
                    if g == h {
                        let j = choose|j: int| 0 <= j < old_bucket.len() && old_bucket[j] == i as usize;
                        assert(r.buckets@[g]@[j] == i as usize);
                    } else {
                        assert(r.buckets@[g] == o.buckets@[g]);
                    }
                } else {
                    assert(r.buckets@[h]@[old_bucket.len() as int] == idx);
                }
            }
        }
        *self = KeyedIndex { records, buckets };
    }

    proof fn lemma_in_bucket(&self, i: int)
        requires
            self.wf(),
            0 <= i < self.entries().len(),
        ensures
            self.buckets@.contains_key(fnv(self.entries()[i].0)),
            exists|t: int|
                0 <= t < self.buckets@[fnv(self.entries()[i].0)]@.len()
                    && self.buckets@[fnv(self.entries()[i].0)]@[t] == i,
    {
        assert(self.entries()[i].0 == self.records@[i].0@);
        assert(self.records@.len() == self.records.len());
        assert(i as usize == i);
        assert(self.buckets@[fnv(self.records@[i].0@)]@.contains(i as usize));
        let b = self.buckets@[fnv(self.records@[i].0@)]@;
        let t = choose|t: int| 0 <= t < b.len() && b[t] == i as usize;
        assert(0 <= t < b.len() && b[t] == i);
    }

    /// A match found scanning a bucket from its end is the last insertion of
    /// the key.
    proof fn lemma_found(&self, key: Seq<u8>, j: int)
        requires
            self.wf(),
            self.buckets@.contains_key(fnv(key)),
            0 <= j < self.buckets@[fnv(key)]@.len(),
            self.entries()[self.buckets@[fnv(key)]@[j] as int].0 == key,
            forall|t: int|
                j < t < self.buckets@[fnv(key)]@.len() ==> self.entries()[self.buckets@[fnv(key)]@[t] as int].0
                    != key,
        ensures
            is_last_with_key(self.entries(), key, self.buckets@[fnv(key)]@[j] as int),
    {
        let h = fnv(key);
        let b = self.buckets@[h]@;
        assert(bucket_ok(b, h, self.keys()));
        assert forall|i: int| b[j] < i < self.entries().len() implies self.entries()[i].0 != key by {
            if self.entries()[i].0 == key {
                self.lemma_in_bucket(i);
                let t = choose|t: int| 0 <= t < b.len() && b[t] == i;
                if t < j {
                    assert(b[t] < b[j]);
                }
            }
        }
    }

    /// A key none of whose bucket holds it was never inserted.
    proof fn lemma_absent(&self, key: Seq<u8>)
        requires
            self.wf(),
            self.buckets@.contains_key(fnv(key)) ==> forall|t: int|
                0 <= t < self.buckets@[fnv(key)]@.len() ==> self.entries()[self.buckets@[fnv(key)]@[t] as int].0
                    != key,
        ensures
            !self.map().contains_key(key),
    {
        lemma_last_wins(self.entries(), key);
        assert forall|i: int| 0 <= i < self.entries().len() implies self.entries()[i].0 != key by {
            if self.entries()[i].0 == key {
                self.lemma_in_bucket(i);
            }
        }
    }

    /// The position of the last insertion of `key`, if any.
    pub fn position_of(&self, key: &[u8]) -> (r: Option<usize>)
        ensures
            r matches Some(i) ==> is_last_with_key(self.entries(), key@, i as int),
            r is None ==> !self.map().contains_key(key@),
            r is None ==> forall|i: int| 0 <= i < self.entries().len() ==> self.entries()[i].0 != key@,
    {
        proof {
            use_type_invariant(self);
        }
        let h = fnv1a64_bytes(key);
        let bucket = match self.buckets.get(&h) {
            Some(b) => b,
            None => {
                proof {
                    self.lemma_absent(key@);
                    assert forall|i: int| 0 <= i < self.entries().len() implies self.entries()[i].0 != key@ by {
                        if self.entries()[i].0 == key@ {
                            self.lemma_in_bucket(i);
                        }
                    }
                }
                return None;
            },
        };
        let mut j = bucket.len();
        while j > 0
            invariant
                j <= bucket@.len(),
                self.wf(),
                h == fnv(key@),
                self.buckets@.contains_key(h),
                self.buckets@[h] == *bucket,
                forall|t: int| j <= t < bucket@.len() ==> self.entries()[bucket@[t] as int].0 != key@,
            decreases j,
        {
            let idx = bucket[j - 1];
            proof {
                assert(bucket_ok(bucket@, h, self.keys()));
                assert(self.entries()[idx as int].0 == self.records@[idx as int].0@);
            }
            if bytes_equal(self.records[idx].0.as_slice(), key) {
                proof {
                    self.lemma_found(key@, j - 1);
                }
                return Some(idx);
            }
            j -= 1;
        }
        proof {
            self.lemma_absent(key@);
            assert forall|i: int| 0 <= i < self.entries().len() implies self.entries()[i].0 != key@ by {
                if self.entries()[i].0 == key@ {
                    self.lemma_in_bucket(i);
                    let t = choose|t: int| 0 <= t < bucket@.len() && bucket@[t] == i;
                }
            }
        }
        None
    }

    /// The value last inserted under `key`, if any.
    pub fn get(&self, key: &[u8]) -> (r: Option<&V>)
        ensures
            r is Some <==> self.map().contains_key(key@),
            r matches Some(v) ==> *v == self.map()[key@],
    {
        proof {
            use_type_invariant(self);
        }
        match self.position_of(key) {
            Some(i) => {
                proof {
                    lemma_last_wins(self.entries(), key@);
                    assert(self.entries()[i as int].1 == self.records@[i as int].1);
                }
                Some(&self.records[i].1)
            },
            None => None,
        }
    }

    /// The value each key maps to, once per key, in insertion order.
    pub fn values(&self) -> (r: Vec<&V>)
        ensures
            forall|j: int| 0 <= j < r@.len() ==> self.map().contains_value(*#[trigger] r@[j]),
            forall|v: V| #[trigger] self.map().contains_value(v) ==> exists|j: int| 0 <= j < r@.len() && *r@[j] == v,
    {
        proof {
            use_type_invariant(self);
        }
        let ghost rs = self.entries();
        let mut out: Vec<&V> = Vec::new();
        let mut i: usize = 0;
        while i < self.records.len()
            invariant
                self.wf(),
                rs == self.entries(),
                i <= rs.len(),
                forall|j: int| 0 <= j < out@.len() ==> exists|t: int| #[trigger] is_last_with_key(rs, rs[t].0, t) && rs[t].1 == *#[trigger] out@[j],
                forall|t: int| 0 <= t < i && #[trigger] is_last_with_key(rs, rs[t].0, t) ==> exists|j: int| 0 <= j < out@.len() && *out@[j] == rs[t].1,
            decreases rs.len() - i,
        {
            let key = self.records[i].0.as_slice();
            proof {
                assert(rs[i as int].0 == key@);
                assert(rs[i as int].1 == self.records@[i as int].1);
            }
            let ghost before = out@;
            match self.position_of(key) {
                Some(p) => {
                    if p == i {
                        out.push(&self.records[i].1);
                        proof {
                            assert forall|j: int| 0 <= j < out@.len() implies exists|t: int| #[trigger] is_last_with_key(rs, rs[t].0, t) && rs[t].1 == *#[trigger] out@[j] by {
                                if j < before.len() {
                                    assert(out@[j] == before[j]);
                                } else {
                                    assert(is_last_with_key(rs, rs[i as int].0, i as int));
                                }
                            }
                            assert forall|t: int| 0 <= t < i + 1 && #[trigger] is_last_with_key(rs, rs[t].0, t) implies exists|j: int| 0 <= j < out@.len() && *out@[j] == rs[t].1 by {
                                if t < i {
                                    let j = choose|j: int| 0 <= j < before.len() && *before[j] == rs[t].1;
                                    assert(out@[j] == before[j]);
                                } else {
                                    assert(*out@[before.len() as int] == rs[t].1);
                                }
                            }
                        }
                    } else {
                        proof {
                            assert(!is_last_with_key(rs, rs[i as int].0, i as int)) by {
                                if p < i {
                                    assert(rs[i as int].0 == key@);
                                } else {
                                    assert(rs[p as int].0 == key@);
                                }
                            }
                        }
                    }
                },
                None => {},
            }
            i += 1;
        }
        proof {
            assert forall|j: int| 0 <= j < out@.len() implies self.map().contains_value(*#[trigger] out@[j]) by {
                let t = choose|t: int| #[trigger] is_last_with_key(rs, rs[t].0, t) && rs[t].1 == *out@[j];
                lemma_last_wins(rs, rs[t].0);
                assert(self.map().contains_key(rs[t].0));
            }
            assert forall|v: V| #[trigger] self.map().contains_value(v) implies exists|j: int| 0 <= j < out@.len() && *out@[j] == v by {
                let k = choose|k: Seq<u8>| self.map().contains_key(k) && self.map()[k] == v;
                lemma_last_wins(rs, k);
                lemma_has_last(rs, k);
                let t = choose|t: int| is_last_with_key(rs, k, t);
                assert(is_last_with_key(rs, rs[t].0, t));
            }
        }
        out
    }
}

/// A key some insertion holds has a last insertion.
pub proof fn lemma_has_last<V>(rs: Seq<(Seq<u8>, V)>, k: Seq<u8>)
    requires
        exists|i: int| 0 <= i < rs.len() && rs[i].0 == k,
    ensures
        exists|i: int| is_last_with_key(rs, k, i),
    decreases rs.len(),
{
    if rs.last().0 == k {
        assert(is_last_with_key(rs, k, rs.len() - 1));
    } else {
        let init = rs.drop_last();
        let i = choose|i: int| 0 <= i < rs.len() && rs[i].0 == k;
        assert(init[i].0 == k);
        lemma_has_last(init, k);
        let t = choose|t: int| is_last_with_key(init, k, t);
        assert(rs[t] == init[t]);
        assert forall|j: int| t < j < rs.len() implies rs[j].0 != k by {
            if j < init.len() {
                assert(rs[j] == init[j]);
            }
        }
        assert(is_last_with_key(rs, k, t));
    }
}

/// Whether two byte strings are equal.
pub fn bytes_equal(a: &[u8], b: &[u8]) -> (r: bool)
    ensures
        r == (a@ == b@),
{
    if a.len() != b.len() {
        return false;
    }
    let mut i: usize = 0;
    while i < a.len()
        invariant
            a@.len() == b@.len(),
            i <= a@.len(),
            forall|k: int| 0 <= k < i ==> a@[k] == b@[k],
        decreases a@.len() - i,
    {
        if a[i] != b[i] {
            return false;
        }
        i += 1;
    }
    assert(a@ =~= b@);
    true
}

} // verus!
