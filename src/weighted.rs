//! The weighted map and its weight index.
use std::collections::BTreeMap;
use vstd::prelude::*;

use crate::key::Key;
use crate::model::{inserted, key_views, keys_at, weight_added, weight_subtracted};

verus! {

/// A map from keys to values in which every key also has a weight.
///
/// Entries live in three parallel vectors (one slot per key). Besides them,
/// `buckets` holds, for every weight that some key has, the keys with that
/// weight. A weight that no key has is absent from `buckets`: a bucket is
/// removed as soon as its last key leaves it.
pub struct WeightedMap<K: Key, V> {
    keys: Vec<K>,
    values: Vec<V>,
    weights: Vec<u32>,
    buckets: BTreeMap<u32, Vec<K>>,
}

/// Whether the weight index `b` (each bucket given by the views of its keys)
/// lists exactly the keys of `m` under their current weights.
spec fn index_matches<KV, V>(m: Map<KV, (V, u32)>, b: Map<u32, Seq<KV>>) -> bool {
    &&& forall|w: u32| #[trigger] b.contains_key(w) ==> b[w].len() > 0 && b[w].no_duplicates()
    &&& forall|w: u32, k: KV|
        b.contains_key(w) ==> (#[trigger] b[w].contains(k) <==> m.contains_key(k) && m[k].1 == w)
    &&& forall|k: KV| #[trigger] m.contains_key(k) ==> b.contains_key(m[k].1)
}

/// The index of the first key in `ks` that denotes the same entry as `key`.
fn position<K: Key>(ks: &Vec<K>, key: &K) -> (r: Option<usize>)
    ensures
        match r {
            Some(i) => i < ks@.len() && ks@[i as int]@ == key@,
            None => !key_views(ks@).contains(key@),
        },
{
    let mut i: usize = 0;
    while i < ks.len()
        invariant
            0 <= i <= ks@.len(),
            forall|j: int| 0 <= j < i ==> ks@[j]@ != key@,
        decreases ks@.len() - i,
    {
        if ks[i].same_key(key) {
            return Some(i);
        }
        i += 1;
    }
    proof {
        let kv = key_views(ks@);
        assert forall|j: int| 0 <= j < kv.len() implies kv[j] != key@ by {
            assert(kv[j] == ks@[j]@);
        }
    }
    None
}

/// The weight index after key `k` has left bucket `w`; the bucket goes
/// away with its last key.
spec fn detached<KV>(b: Map<u32, Seq<KV>>, w: u32, k: KV) -> Map<u32, Seq<KV>> {
    let rest = b[w].remove(b[w].index_of(k));
    if rest.len() == 0 {
        b.remove(w)
    } else {
        b.insert(w, rest)
    }
}

/// The weight index after key `k` has joined bucket `w`.
spec fn attached<KV>(b: Map<u32, Seq<KV>>, w: u32, k: KV) -> Map<u32, Seq<KV>> {
    if b.contains_key(w) {
        b.insert(w, b[w].push(k))
    } else {
        b.insert(w, seq![k])
    }
}

/// Moving key `k` to weight `w1` (from its bucket, if it has one) keeps the
/// index in step with the entries.
proof fn lemma_relocate<KV, V>(m: Map<KV, (V, u32)>, b: Map<u32, Seq<KV>>, k: KV, v: V, w1: u32)
    requires
        index_matches(m, b),
    ensures
        ({
            let b1 = if m.contains_key(k) {
                detached(b, m[k].1, k)
            } else {
                b
            };
            index_matches(m.insert(k, (v, w1)), attached(b1, w1, k))
        }),
{
    let b1 = if m.contains_key(k) {
        detached(b, m[k].1, k)
    } else {
        b
    };
    if m.contains_key(k) {
        let w0 = m[k].1;
        let s = b[w0];
        assert(s.contains(k));
        let j = s.index_of(k);
        let rest = s.remove(j);
        assert(0 <= j < s.len() && s[j] == k);
        assert forall|x: KV| rest.contains(x) <==> s.contains(x) && x != k by {
            if rest.contains(x) {
                let p = choose|p: int| 0 <= p < rest.len() && rest[p] == x;
                if p < j {
                    assert(s[p] == x);
                } else {
                    assert(s[p + 1] == x);
                }
            }
            if s.contains(x) && x != k {
                let p = choose|p: int| 0 <= p < s.len() && s[p] == x;
                if p < j {
                    assert(rest[p] == x);
                } else {
                    assert(p != j);
                    assert(rest[p - 1] == x);
                }
            }
        }
        assert(rest.no_duplicates()) by {
            assert forall|p: int, q: int| 0 <= p < rest.len() && 0 <= q < rest.len() && p != q
                implies rest[p] != rest[q] by {
                let pp = if p < j { p } else { p + 1 };
                let qq = if q < j { q } else { q + 1 };
                assert(rest[p] == s[pp] && rest[q] == s[qq]);
            }
        }
    }
    // What the index holds once `k` has left its bucket.
    assert forall|w: u32| #[trigger] b1.contains_key(w) implies b1[w].len() > 0
        && b1[w].no_duplicates() && !b1[w].contains(k) by {
        assert(b.contains_key(w));
        if !(m.contains_key(k) && w == m[k].1) {
            assert(b1[w] == b[w]);
            assert(b[w].contains(k) <==> m.contains_key(k) && m[k].1 == w);
        }
    }
    assert forall|w: u32, x: KV| b1.contains_key(w) && x != k implies (#[trigger] b1[w].contains(x)
        <==> m.contains_key(x) && m[x].1 == w) by {
        assert(b[w].contains(x) <==> m.contains_key(x) && m[x].1 == w);
    }
    assert forall|x: KV| #[trigger] m.contains_key(x) && x != k implies b1.contains_key(m[x].1) by {
        assert(b.contains_key(m[x].1));
        assert(b[m[x].1].contains(x));
    }
    let m2 = m.insert(k, (v, w1));
    let b2 = attached(b1, w1, k);
    assert forall|w: u32| #[trigger] b2.contains_key(w) implies b2[w].len() > 0
        && b2[w].no_duplicates() by {
        if w == w1 && b1.contains_key(w1) {
            assert(!b1[w1].contains(k));
            assert forall|p: int, q: int| 0 <= p < b2[w].len() && 0 <= q < b2[w].len() && p != q
                implies b2[w][p] != b2[w][q] by {
                if p < b1[w].len() && q < b1[w].len() {
                } else if p < b1[w].len() {
                    assert(b1[w][p] == b2[w][p]);
                } else {
                    assert(b1[w][q] == b2[w][q]);
                }
            }
        }
    }
    assert forall|w: u32, x: KV| b2.contains_key(w) implies (#[trigger] b2[w].contains(x)
        <==> m2.contains_key(x) && m2[x].1 == w) by {
        if w == w1 {
            if b1.contains_key(w1) {
                assert(b2[w] == b1[w].push(k));
                if b2[w].contains(x) && x != k {
                    let p = choose|p: int| 0 <= p < b2[w].len() && b2[w][p] == x;
                    assert(p < b1[w].len());
                    assert(b1[w][p] == x);
                }
                if x == k {
                    assert(b2[w][b1[w].len() as int] == k);
                } else if b1[w].contains(x) {
                    let p = choose|p: int| 0 <= p < b1[w].len() && b1[w][p] == x;
                    assert(b2[w][p] == x);
                }
            } else {
                assert(b2[w] == seq![k]);
                if x != k {
                    assert(b2[w].contains(x) ==> b2[w][0] == x);
                    if m.contains_key(x) && m[x].1 == w {
                        assert(b1.contains_key(m[x].1));
                    }
                } else {
                    assert(b2[w][0] == k);
                }
            }
        } else {
            assert(b2[w] == b1[w]);
            assert(b1.contains_key(w));
        }
    }
    assert forall|x: KV| #[trigger] m2.contains_key(x) implies b2.contains_key(m2[x].1) by {
        if x != k {
            assert(b1.contains_key(m[x].1));
        }
    }
}

impl<K: Key, V> View for WeightedMap<K, V> {
    type V = Map<K::V, (V, u32)>;

    /// Each key, by its view, with its value and its weight.
    closed spec fn view(&self) -> Map<K::V, (V, u32)> {
        Map::new(
            |k: K::V| key_views(self.keys@).contains(k),
            |k: K::V| (self.values@[self.slot(k)], self.weights@[self.slot(k)]),
        )
    }
}

impl<K: Key, V> WeightedMap<K, V> {
    /// The slot that holds key `k`.
    spec fn slot(&self, k: K::V) -> int {
        key_views(self.keys@).index_of(k)
    }

    /// The weight index, each bucket given by the views of its keys.
    spec fn bucket_views(&self) -> Map<u32, Seq<K::V>> {
        self.buckets@.map_values(|b: Vec<K>| key_views(b@))
    }

    /// The slots agree in number, no key occupies two slots, and the weight
    /// index matches the weights of the slots.
    pub closed spec fn wf(&self) -> bool {
        &&& self.keys@.len() == self.values@.len()
        &&& self.keys@.len() == self.weights@.len()
        &&& key_views(self.keys@).no_duplicates()
        &&& index_matches(self@, self.bucket_views())
    }

    /// The key in slot `i` is found in slot `i`.
    proof fn lemma_slot(&self, i: int)
        requires
            key_views(self.keys@).no_duplicates(),
            0 <= i < self.keys@.len(),
        ensures
            key_views(self.keys@).contains(self.keys@[i]@),
            self.slot(self.keys@[i]@) == i,
    {
        let kv = key_views(self.keys@);
        assert(kv[i] == self.keys@[i]@);
        let j = self.slot(self.keys@[i]@);
        assert(0 <= j < kv.len() && kv[j] == kv[i]);
    }

    /// An empty map.
    pub fn new() -> (r: Self)
        ensures
            r.wf(),
            r@ == Map::<K::V, (V, u32)>::empty(),
    {
        let r = WeightedMap {
            keys: Vec::new(),
            values: Vec::new(),
            weights: Vec::new(),
            buckets: BTreeMap::new(),
        };
        assert(r@ =~= Map::<K::V, (V, u32)>::empty());
        assert(r.bucket_views() =~= Map::<u32, Seq<K::V>>::empty());
        r
    }

    /// The slot of `key`, if it has one.
    fn find(&self, key: &K) -> (r: Option<usize>)
        requires
            self.keys@.len() == self.values@.len(),
            self.keys@.len() == self.weights@.len(),
            key_views(self.keys@).no_duplicates(),
        ensures
            match r {
                Some(i) => {
                    &&& i < self.keys@.len()
                    &&& self.keys@[i as int]@ == key@
                    &&& self@.contains_key(key@)
                    &&& self.slot(key@) == i
                },
                None => !self@.contains_key(key@),
            },
    {
        let r = position(&self.keys, key);
        if let Some(i) = r {
            proof {
                self.lemma_slot(i as int);
            }
        }
        r
    }

    /// Takes `key` out of bucket `w`, dropping the bucket if it empties.
    fn detach(&mut self, key: &K, w: u32)
        requires
            old(self).bucket_views().contains_key(w),
            old(self).bucket_views()[w].no_duplicates(),
            old(self).bucket_views()[w].contains(key@),
        ensures
            final(self).keys == old(self).keys,
            final(self).values == old(self).values,
            final(self).weights == old(self).weights,
            final(self).bucket_views() == detached(old(self).bucket_views(), w, key@),
    {
        let ghost b0 = self.bucket_views();
        let mut b = self.buckets.remove(&w).unwrap();
        let ghost kb = key_views(b@);
        assert(kb == b0[w]);
        match position(&b, key) {
            Some(j) => {
                proof {
                    assert(kb[j as int] == key@);
                    let c = kb.index_of(key@);
                    assert(0 <= c < kb.len() && kb[c] == key@);
                }
                b.remove(j);
                assert(key_views(b@) =~= kb.remove(kb.index_of(key@)));
            },
            None => {},
        }
        if b.len() > 0 {
            self.buckets.insert(w, b);
        }
        assert(self.bucket_views() =~= detached(b0, w, key@));
    }

    /// Adds `key` to bucket `w`, making the bucket if it is not there.
    fn attach(&mut self, key: K, w: u32)
        ensures
            final(self).keys == old(self).keys,
            final(self).values == old(self).values,
            final(self).weights == old(self).weights,
            final(self).bucket_views() == attached(old(self).bucket_views(), w, key@),
    {
        let ghost b0 = self.bucket_views();
        let ghost kv = key@;
        let mut b = match self.buckets.remove(&w) {
            Some(b) => b,
            None => Vec::new(),
        };
        let ghost kb = key_views(b@);
        proof {
            if b0.contains_key(w) {
                assert(kb == b0[w]);
            } else {
                assert(kb.push(kv) =~= seq![kv]);
            }
        }
        b.push(key);
        assert(key_views(b@) =~= kb.push(kv));
        self.buckets.insert(w, b);
        assert(self.bucket_views() =~= attached(b0, w, kv));
    }

    /// Stores `value` under `key` with weight zero, replacing the value and
    /// resetting the weight of a key that is already there.
    pub fn insert(&mut self, key: K, value: V)
        requires
            old(self).wf(),
        ensures
            final(self).wf(),
            final(self)@ == inserted(old(self)@, key@, value),
    {
        let ghost m0 = self@;
        let ghost b0 = self.bucket_views();
        proof {
            lemma_relocate(m0, b0, key@, value, 0);
        }
        match self.find(&key) {
            Some(i) => {
                let w0 = self.weights[i];
                proof {
                    assert(b0.contains_key(w0));
                    assert(b0[w0].contains(key@));
                }
                self.values[i] = value;
                self.weights[i] = 0;
                self.detach(&key, w0);
                self.attach(key, 0);
                assert(self@ =~= inserted(m0, key@, value));
            },
            None => {
                let copy = key.copy_key();
                let ghost n = self.keys@.len();
                self.keys.push(key);
                self.values.push(value);
                self.weights.push(0);
                self.attach(copy, 0);
                proof {
                    let kv0 = key_views(old(self).keys@);
                    let kv = key_views(self.keys@);
                    assert(kv =~= kv0.push(copy@));
                    assert(kv.no_duplicates()) by {
                        assert forall|p: int, q: int| 0 <= p < q < kv.len() implies kv[p] != kv[q] by {
                            if q == n {
                                assert(kv0.contains(kv0[p]));
                            } else {
                                assert(kv[p] == kv0[p] && kv[q] == kv0[q]);
                            }
                        }
                    }
                    self.lemma_slot(n as int);
                    assert forall|k: K::V| #[trigger] kv0.contains(k) implies self.slot(k)
                        == old(self).slot(k) by {
                        let i = old(self).slot(k);
                        assert(kv0[i] == k);
                        old(self).lemma_slot(i);
                        self.lemma_slot(i);
                        assert(kv[i] == k);
                    }
                    assert forall|k: K::V| #[trigger] kv.contains(k) <==> kv0.contains(k) || k
                        == copy@ by {
                        if kv.contains(k) && k != copy@ {
                            let p = choose|p: int| 0 <= p < kv.len() && kv[p] == k;
                            assert(kv0[p] == k);
                        }
                        if kv0.contains(k) {
                            let p = choose|p: int| 0 <= p < kv0.len() && kv0[p] == k;
                            assert(kv[p] == k);
                        }
                        if k == copy@ {
                            assert(kv[n as int] == k);
                        }
                    }
                }
                assert(self@ =~= inserted(m0, key@, value));
            },
        }
    }

    /// Slot `i` now has weight `w1`, and the key of slot `i` is moved to
    /// bucket `w1` accordingly.
    fn set_weight(&mut self, i: usize, w1: u32)
        requires
            old(self).wf(),
            i < old(self).keys@.len(),
        ensures
            final(self).wf(),
            final(self)@ == old(self)@.insert(
                old(self).keys@[i as int]@,
                (old(self)@[old(self).keys@[i as int]@].0, w1),
            ),
    {
        let ghost m0 = self@;
        let ghost b0 = self.bucket_views();
        let key = self.keys[i].copy_key();
        let ghost kv = key@;
        proof {
            self.lemma_slot(i as int);
            lemma_relocate(m0, b0, kv, m0[kv].0, w1);
        }
        let w0 = self.weights[i];
        proof {
            assert(b0.contains_key(w0));
            assert(b0[w0].contains(kv));
        }
        self.weights[i] = w1;
        self.detach(&key, w0);
        self.attach(key, w1);
        assert(self@ =~= m0.insert(kv, (m0[kv].0, w1)));
    }

    /// Adds `delta` to the weight of `key`, stopping at `u32::MAX`; a key
    /// that was never inserted is left absent.
    pub fn add_weight(&mut self, key: K, delta: u32)
        requires
            old(self).wf(),
        ensures
            final(self).wf(),
            final(self)@ == weight_added(old(self)@, key@, delta),
    {
        if let Some(i) = self.find(&key) {
            let w = self.weights[i].saturating_add(delta);
            self.set_weight(i, w);
        }
    }

    /// Subtracts `delta` from the weight of `key`, stopping at zero; a key
    /// that was never inserted is left absent.
    pub fn subtract_weight(&mut self, key: K, delta: u32)
        requires
            old(self).wf(),
        ensures
            final(self).wf(),
            final(self)@ == weight_subtracted(old(self)@, key@, delta),
    {
        if let Some(i) = self.find(&key) {
            let w = self.weights[i].saturating_sub(delta);
            self.set_weight(i, w);
        }
    }

    /// The value stored under `key`, or `None` where `key` was never inserted.
    pub fn get_value(&mut self, key: K) -> (r: Option<&V>)
        requires
            old(self).wf(),
        ensures
            *final(self) == *old(self),
            match r {
                Some(v) => old(self)@.contains_key(key@) && *v == old(self)@[key@].0,
                None => !old(self)@.contains_key(key@),
            },
    {
        match self.find(&key) {
            Some(i) => Some(&self.values[i]),
            None => None,
        }
    }

    /// The current weight of `key`, or `None` where `key` was never inserted.
    pub fn get_weight(&mut self, key: K) -> (r: Option<&u32>)
        requires
            old(self).wf(),
        ensures
            *final(self) == *old(self),
            match r {
                Some(w) => old(self)@.contains_key(key@) && *w == old(self)@[key@].1,
                None => !old(self)@.contains_key(key@),
            },
    {
        match self.find(&key) {
            Some(i) => Some(&self.weights[i]),
            None => None,
        }
    }

    /// The keys whose current weight is `weight`, each once, or `None` where
    /// no key has that weight.
    pub fn keys_with_weight(&self, weight: u32) -> (r: Option<&Vec<K>>)
        requires
            self.wf(),
        ensures
            r.is_some() == (keys_at(self@, weight) != Set::<K::V>::empty()),
            r matches Some(ks) ==> {
                &&& key_views(ks@).no_duplicates()
                &&& key_views(ks@).to_set() == keys_at(self@, weight)
            },
    {
        let r = self.buckets.get(&weight);
        proof {
            let m = self@;
            let b = self.bucket_views();
            match r {
                Some(ks) => {
                    assert(b.contains_key(weight));
                    assert(b[weight] == key_views(ks@));
                    assert forall|k: K::V| #[trigger]
                        key_views(ks@).to_set().contains(k) == keys_at(m, weight).contains(k) by {
                        assert(b[weight].contains(k) <==> m.contains_key(k) && m[k].1 == weight);
                    }
                    assert(key_views(ks@).to_set() =~= keys_at(m, weight));
                    assert(keys_at(m, weight).contains(key_views(ks@)[0]));
                },
                None => {
                    assert forall|k: K::V| !#[trigger] keys_at(m, weight).contains(k) by {
                        if m.contains_key(k) && m[k].1 == weight {
                            assert(b.contains_key(m[k].1));
                        }
                    }
                    assert(keys_at(m, weight) =~= Set::<K::V>::empty());
                },
            }
        }
        r
    }
}

} // verus!
