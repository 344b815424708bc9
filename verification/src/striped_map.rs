//! The index of the cache: an associative store split into a fixed number of
//! stripes. A key lives in the stripe that its digest picks, and every
//! operation touches that one stripe only: it leaves the other stripes as
//! they are.
//!
//! Inside a stripe the entries are filed by the digest of their key, so an
//! operation looks at the entries of one digest only.

use crate::key::{CacheKey, BUCKETS};
use std::collections::HashMap;
use vstd::prelude::*;

verus! {

/// The stripe of a key with view `kv`.
pub open spec fn bucket_of<K: CacheKey>(kv: K::V) -> u64 {
    K::digest(kv) % BUCKETS
}

/// Whether some entry of `chain` has the key `kv`.
spec fn chain_has<K: CacheKey, V>(chain: Seq<(K, V)>, kv: K::V) -> bool {
    exists|i: int| 0 <= i < chain.len() && (#[trigger] chain[i]).0@ == kv
}

/// The value of an entry of `chain` with the key `kv`.
spec fn chain_value<K: CacheKey, V>(chain: Seq<(K, V)>, kv: K::V) -> V {
    chain[choose|i: int| 0 <= i < chain.len() && (#[trigger] chain[i]).0@ == kv].1
}

/// No two entries of `chain` have the same key.
spec fn chain_distinct<K: CacheKey, V>(chain: Seq<(K, V)>) -> bool {
    forall|i: int, j: int|
        0 <= i < j < chain.len() ==> (#[trigger] chain[i]).0@ != (#[trigger] chain[j]).0@
}

/// Where no key occurs twice, the entry of a key is found at its position.
proof fn lemma_chain_at<K: CacheKey, V>(chain: Seq<(K, V)>, kv: K::V, i: int)
    requires
        chain_distinct(chain),
        0 <= i < chain.len(),
        chain[i].0@ == kv,
    ensures
        chain_has(chain, kv),
        chain_value(chain, kv) == chain[i].1,
{
    let j = choose|j: int| 0 <= j < chain.len() && (#[trigger] chain[j]).0@ == kv;
    if j < i {
        assert(chain[j].0@ != chain[i].0@);
    }
    if i < j {
        assert(chain[i].0@ != chain[j].0@);
    }
}

/// The position of the key `k` in `chain`, if it is there.
fn find_in<K: CacheKey, V>(chain: &Vec<(K, V)>, k: &K) -> (r: Option<usize>)
    ensures
        match r {
            Some(i) => i < chain.len() && chain[i as int].0@ == k@,
            None => !chain_has(chain@, k@),
        },
{
    let mut i: usize = 0;
    while i < chain.len()
        invariant
            i <= chain.len(),
            forall|j: int| 0 <= j < i ==> (#[trigger] chain[j]).0@ != k@,
        decreases chain.len() - i,
    {
        if chain[i].0.same_key(k) {
            return Some(i);
        }
        i += 1;
    }
    None
}

/// One stripe: its entries, filed by the digest of their key.
struct Stripe<K: CacheKey, V> {
    slots: HashMap<u64, Vec<(K, V)>>,
}

impl<K: CacheKey, V> View for Stripe<K, V> {
    type V = Map<K::V, V>;

    closed spec fn view(&self) -> Map<K::V, V> {
        Map::new(
            |kv: K::V| chain_has(self.chain(K::digest(kv)), kv),
            |kv: K::V| chain_value(self.chain(K::digest(kv)), kv),
        )
    }
}

impl<K: CacheKey, V> Stripe<K, V> {
    /// The entries that are filed under the digest `h`.
    closed spec fn chain(&self, h: u64) -> Seq<(K, V)> {
        if self.slots@.contains_key(h) {
            self.slots@[h]@
        } else {
            Seq::empty()
        }
    }

    /// Every entry is filed under the digest of its key, and no key occurs
    /// twice.
    closed spec fn wf(&self) -> bool {
        &&& forall|h: u64, i: int|
            0 <= i < self.chain(h).len() ==> K::digest((#[trigger] self.chain(h)[i]).0@) == h
        &&& forall|h: u64| chain_distinct(#[trigger] self.chain(h))
    }

    /// The stripe holds `kv` with the value of its entry where the chain of
    /// its digest has an entry of it.
    proof fn lemma_holds(&self, kv: K::V, i: int)
        requires
            self.wf(),
            0 <= i < self.chain(K::digest(kv)).len(),
            self.chain(K::digest(kv))[i].0@ == kv,
        ensures
            self@.contains_key(kv),
            self@[kv] == self.chain(K::digest(kv))[i].1,
    {
        let chain = self.chain(K::digest(kv));
        assert(chain_distinct(chain));
        lemma_chain_at(chain, kv, i);
    }

    /// An empty stripe.
    fn new() -> (stripe: Self)
        ensures
            stripe.wf(),
            stripe@ == Map::<K::V, V>::empty(),
    {
        let stripe = Self { slots: HashMap::new() };
        proof {
            assert forall|h: u64| #[trigger] stripe.chain(h) == Seq::<(K, V)>::empty() by {}
            assert(stripe@ =~= Map::<K::V, V>::empty());
        }
        stripe
    }

    /// The value of `k`, if it has one.
    fn get(&self, k: &K) -> (r: Option<&V>)
        requires
            self.wf(),
        ensures
            match r {
                Some(v) => self@.contains_key(k@) && self@[k@] == *v,
                None => !self@.contains_key(k@),
            },
    {
        let h = k.hash_key();
        match self.slots.get(&h) {
            Some(chain) => {
                assert(chain@ == self.chain(h));
                match find_in(chain, k) {
                    Some(i) => {
                        proof {
                            self.lemma_holds(k@, i as int);
                        }
                        Some(&chain[i].1)
                    },
                    None => None,
                }
            },
            None => {
                assert(self.chain(h) == Seq::<(K, V)>::empty());
                None
            },
        }
    }

    /// Maps `k` to `v`.
    fn insert(&mut self, k: K, v: V)
        requires
            old(self).wf(),
        ensures
            final(self).wf(),
            final(self)@ == old(self)@.insert(k@, v),
    {
        let h = k.hash_key();
        let ghost kv = k@;
        let ghost before = self.chain(h);
        let mut chain = match self.slots.remove(&h) {
            Some(c) => c,
            None => Vec::new(),
        };
        assert(chain@ == before);
        let found = find_in(&chain, &k);
        match found {
            Some(i) => {
                chain[i] = (k, v);
            },
            None => {
                chain.push((k, v));
            },
        }
        let ghost after = chain@;
        let ghost at = match found {
            Some(i) => i as int,
            None => before.len() as int,
        };
        self.slots.insert(h, chain);
        proof {
            assert(self.chain(h) == after);
            assert forall|g: u64| g != h implies #[trigger] self.chain(g) == old(self).chain(g) by {}
            assert(after[at] == (k, v));
            assert forall|i: int| 0 <= i < after.len() && i != at implies 0 <= i < before.len()
                && #[trigger] after[i] == before[i] && before[i].0@ != kv by {
                if let Some(f) = found {
                    if i < f {
                        assert(before[i].0@ != before[f as int].0@);
                    } else {
                        assert(before[f as int].0@ != before[i].0@);
                    }
                }
            }
            assert(chain_distinct(after)) by {
                assert(chain_distinct(old(self).chain(h)));
                assert forall|i: int, j: int| 0 <= i < j < after.len() implies (
                #[trigger] after[i]).0@ != (#[trigger] after[j]).0@ by {
                    if i != at && j != at {
                        assert(before[i].0@ != before[j].0@);
                    }
                }
            }
            assert forall|g: u64, i: int| 0 <= i < self.chain(g).len() implies K::digest(
                (#[trigger] self.chain(g)[i]).0@,
            ) == g by {
                if g != h {
                    assert(K::digest(old(self).chain(g)[i].0@) == g);
                } else if i != at {
                    assert(K::digest(old(self).chain(h)[i].0@) == h);
                }
            }
            assert forall|g: u64| chain_distinct(#[trigger] self.chain(g)) by {
                if g != h {
                    assert(chain_distinct(old(self).chain(g)));
                }
            }
            assert forall|w: K::V|
                #![trigger self@.contains_key(w)]
                #![trigger self@[w]]
                #![trigger old(self)@.insert(kv, v).contains_key(w)]
                self@.contains_key(w) == old(self)@.insert(kv, v).contains_key(w) && (
                self@.contains_key(w) ==> self@[w] == old(self)@.insert(kv, v)[w]) by {
                let g = K::digest(w);
                if w == kv {
                    self.lemma_holds(kv, at);
                } else if g != h {
                } else {
                    if chain_has(before, w) {
                        let i = choose|i: int| 0 <= i < before.len() && (#[trigger] before[i]).0@
                            == w;
                        assert(i != at);
                        assert(after[i] == before[i]);
                        old(self).lemma_holds(w, i);
                        self.lemma_holds(w, i);
                    }
                    if chain_has(after, w) {
                        let i = choose|i: int| 0 <= i < after.len() && (#[trigger] after[i]).0@
                            == w;
                        assert(i != at);
                        assert(after[i] == before[i]);
                        assert(before[i].0@ == w);
                    }
                }
            }
            assert(self@ =~= old(self)@.insert(kv, v));
        }
    }

    /// Takes `k` out of the stripe and returns the value that it had.
    fn remove(&mut self, k: &K) -> (r: Option<V>)
        requires
            old(self).wf(),
        ensures
            final(self).wf(),
            final(self)@ == old(self)@.remove(k@),
            r == (if old(self)@.contains_key(k@) {
                Some(old(self)@[k@])
            } else {
                None
            }),
    {
        let h = k.hash_key();
        let ghost kv = k@;
        let ghost before = self.chain(h);
        match self.slots.remove(&h) {
            None => {
                proof {
                    assert(before == Seq::<(K, V)>::empty());
                    assert forall|g: u64| #[trigger] self.chain(g) == old(self).chain(g) by {}
                    assert(self@ =~= old(self)@);
                    assert(old(self)@.remove(kv) =~= old(self)@);
                }
                None
            },
            Some(chain) => {
                let mut chain = chain;
                assert(chain@ == before);
                match find_in(&chain, k) {
                    None => {
                        self.slots.insert(h, chain);
                        proof {
                            assert forall|g: u64| #[trigger] self.chain(g) == old(self).chain(
                                g,
                            ) by {}
                            assert(self@ =~= old(self)@);
                            assert(old(self)@.remove(kv) =~= old(self)@);
                        }
                        None
                    },
                    Some(i) => {
                        let gone = chain.remove(i);
                        let ghost after = chain@;
                        if chain.len() > 0 {
                            self.slots.insert(h, chain);
                        }
                        proof {
                            old(self).lemma_holds(kv, i as int);
                            assert(self.chain(h) == after);
                            assert forall|g: u64| g != h implies #[trigger] self.chain(g) == old(
                                self,
                            ).chain(g) by {}
                            assert(chain_distinct(old(self).chain(h)));
                            assert forall|j: int| 0 <= j < after.len() implies #[trigger] after[j]
                                == before[if j < i { j } else { j + 1 }] && after[j].0@ != kv by {
                                let oj = if j < i { j } else { j + 1 };
                                if oj < i {
                                    assert(before[oj].0@ != before[i as int].0@);
                                } else {
                                    assert(before[i as int].0@ != before[oj].0@);
                                }
                            }
                            assert(chain_distinct(after)) by {
                                assert forall|x: int, y: int| 0 <= x < y < after.len() implies (
                                #[trigger] after[x]).0@ != (#[trigger] after[y]).0@ by {
                                    let ox = if x < i { x } else { x + 1 };
                                    let oy = if y < i { y } else { y + 1 };
                                    assert(before[ox].0@ != before[oy].0@);
                                }
                            }
                            assert forall|g: u64, j: int|
                                0 <= j < self.chain(g).len() implies K::digest(
                                (#[trigger] self.chain(g)[j]).0@,
                            ) == g by {
                                if g != h {
                                    assert(K::digest(old(self).chain(g)[j].0@) == g);
                                } else {
                                    let oj = if j < i { j } else { j + 1 };
                                    assert(K::digest(old(self).chain(h)[oj].0@) == h);
                                }
                            }
                            assert forall|g: u64| chain_distinct(#[trigger] self.chain(g)) by {
                                if g != h {
                                    assert(chain_distinct(old(self).chain(g)));
                                }
                            }
                            assert forall|w: K::V|
                                #![trigger self@.contains_key(w)]
                                #![trigger self@[w]]
                                #![trigger old(self)@.remove(kv).contains_key(w)]
                                self@.contains_key(w) == old(self)@.remove(kv).contains_key(w) && (
                                self@.contains_key(w) ==> self@[w] == old(self)@.remove(kv)[w]) by {
                                let g = K::digest(w);
                                if w == kv {
                                    if chain_has(after, w) {
                                        let j = choose|j: int|
                                            0 <= j < after.len() && (#[trigger] after[j]).0@ == w;
                                        assert(after[j].0@ != kv);
                                    }
                                } else if g != h {
                                } else {
                                    if chain_has(before, w) {
                                        let j = choose|j: int|
                                            0 <= j < before.len() && (#[trigger] before[j]).0@
                                                == w;
                                        let nj = if j < i { j } else { j - 1 };
                                        assert(after[nj] == before[j]);
                                        old(self).lemma_holds(w, j);
                                        self.lemma_holds(w, nj);
                                    }
                                    if chain_has(after, w) {
                                        let j = choose|j: int|
                                            0 <= j < after.len() && (#[trigger] after[j]).0@ == w;
                                        let oj = if j < i { j } else { j + 1 };
                                        assert(before[oj].0@ == w);
                                    }
                                }
                            }
                            assert(self@ =~= old(self)@.remove(kv));
                        }
                        Some(gone.1)
                    },
                }
            },
        }
    }
}

/// A map from keys to values, split into 16 stripes.
pub struct ConcurrentHashMap<K: CacheKey, V> {
    buckets: Vec<Stripe<K, V>>,
    model: Ghost<Map<K::V, V>>,
}

impl<K: CacheKey, V> View for ConcurrentHashMap<K, V> {
    type V = Map<K::V, V>;

    closed spec fn view(&self) -> Map<K::V, V> {
        self.model@
    }
}

impl<K: CacheKey, V> ConcurrentHashMap<K, V> {
    /// What stripe `b` holds.
    pub closed spec fn stripe(&self, b: int) -> Map<K::V, V> {
        self.buckets[b]@
    }

    /// The stripes hold what the view says and nothing else: each key in
    /// the stripe of its digest, with its value.
    pub closed spec fn wf(&self) -> bool {
        &&& self.buckets.len() == BUCKETS
        &&& self.model@.dom().finite()
        &&& forall|b: int| 0 <= b < BUCKETS ==> (#[trigger] self.buckets[b]).wf()
        &&& forall|b: int, kv: K::V|
            0 <= b < BUCKETS && #[trigger] self.stripe(b).contains_key(kv) ==> bucket_of::<K>(kv)
                == b
        &&& forall|kv: K::V| #[trigger]
            self.model@.contains_key(kv) <==> self.stripe(bucket_of::<K>(kv) as int).contains_key(
                kv,
            )
        &&& forall|kv: K::V| #[trigger]
            self.model@.contains_key(kv) ==> self.model@[kv] == self.stripe(
                bucket_of::<K>(kv) as int,
            )[kv]
    }

    /// A sound map holds finitely many keys, and each of them in the stripe
    /// of its digest and in no other.
    pub proof fn lemma_striping(&self)
        requires
            self.wf(),
        ensures
            self@.dom().finite(),
            forall|kv: K::V| #[trigger]
                self@.contains_key(kv) <==> self.stripe(bucket_of::<K>(kv) as int).contains_key(
                    kv,
                ),
            forall|kv: K::V| #[trigger]
                self@.contains_key(kv) ==> self@[kv] == self.stripe(bucket_of::<K>(kv) as int)[kv],
            forall|kv: K::V, b: int|
                0 <= b < BUCKETS && b != bucket_of::<K>(kv) ==> !#[trigger] self.stripe(
                    b,
                ).contains_key(kv),
    {
    }

    /// An empty map, with 16 stripes.
    pub fn new() -> (map: Self)
        ensures
            map.wf(),
            map@ == Map::<K::V, V>::empty(),
    {
        let mut buckets: Vec<Stripe<K, V>> = Vec::new();
        let mut n: u64 = 0;
        while n < BUCKETS
            invariant
                n <= BUCKETS,
                buckets.len() == n,
                forall|b: int|
                    0 <= b < n ==> (#[trigger] buckets[b]).wf() && buckets[b]@ == Map::<
                        K::V,
                        V,
                    >::empty(),
            decreases BUCKETS - n,
        {
            buckets.push(Stripe::new());
            n += 1;
        }
        Self { buckets, model: Ghost(Map::empty()) }
    }

    /// The stripe in which the key `k` lives.
    pub fn get_bucket(k: &K) -> (b: u64)
        ensures
            b == bucket_of::<K>(k@),
            b < BUCKETS,
    {
        k.hash_key() % BUCKETS
    }

    /// Maps `k` to `v`; a value that `k` had before is dropped.
    pub fn insert(&mut self, k: K, v: V)
        requires
            old(self).wf(),
        ensures
            final(self).wf(),
            final(self)@ == old(self)@.insert(k@, v),
            forall|b: int|
                0 <= b < BUCKETS && b != bucket_of::<K>(k@) ==> #[trigger] final(self).stripe(b)
                    == old(self).stripe(b),
    {
        let b = Self::get_bucket(&k) as usize;
        let ghost kv = k@;
        self.buckets[b].insert(k, v);
        self.model = Ghost(self.model@.insert(kv, v));
        proof {
            assert forall|c: int| 0 <= c < BUCKETS && c != b implies self.buckets[c] == old(
                self,
            ).buckets[c] by {}
            assert forall|c: int, w: K::V|
                0 <= c < BUCKETS && #[trigger] self.stripe(c).contains_key(w) implies bucket_of::<
                K,
            >(w) == c by {
                if c != b || w != kv {
                    assert(old(self).stripe(c).contains_key(w));
                }
            }
            assert forall|w: K::V| #[trigger]
                self.model@.contains_key(w) <==> self.stripe(
                    bucket_of::<K>(w) as int,
                ).contains_key(w) by {
                assert(old(self).model@.contains_key(w) <==> old(self).stripe(
                    bucket_of::<K>(w) as int,
                ).contains_key(w));
            }
            assert forall|w: K::V| #[trigger] self.model@.contains_key(w) implies self.model@[w]
                == self.stripe(bucket_of::<K>(w) as int)[w] by {
                if w != kv {
                    assert(old(self).model@.contains_key(w));
                }
            }
        }
    }

    /// The value of `k`, if it has one: a copy, so that the map is free
    /// again as soon as the call returns.
    pub fn get(&self, k: &K) -> (r: Option<V>) where V: Clone
        requires
            self.wf(),
        ensures
            match r {
                Some(v) => self@.contains_key(k@) && cloned(self@[k@], v),
                None => !self@.contains_key(k@),
            },
    {
        let b = Self::get_bucket(k) as usize;
        assert(self.model@.contains_key(k@) <==> self.stripe(b as int).contains_key(k@));
        match self.buckets[b].get(k) {
            Some(v) => Some(v.clone()),
            None => None,
        }
    }

    /// Takes `k` out of the map and returns the value that it had.
    pub fn remove(&mut self, k: &K) -> (r: Option<V>)
        requires
            old(self).wf(),
        ensures
            final(self).wf(),
            final(self)@ == old(self)@.remove(k@),
            r == (if old(self)@.contains_key(k@) {
                Some(old(self)@[k@])
            } else {
                None
            }),
            forall|b: int|
                0 <= b < BUCKETS && b != bucket_of::<K>(k@) ==> #[trigger] final(self).stripe(b)
                    == old(self).stripe(b),
    {
        let b = Self::get_bucket(k) as usize;
        let ghost kv = k@;
        assert(self.model@.contains_key(kv) <==> self.stripe(b as int).contains_key(kv));
        let r = self.buckets[b].remove(k);
        self.model = Ghost(self.model@.remove(kv));
        proof {
            assert forall|c: int| 0 <= c < BUCKETS && c != b implies self.buckets[c] == old(
                self,
            ).buckets[c] by {}
            assert forall|c: int, w: K::V|
                0 <= c < BUCKETS && #[trigger] self.stripe(c).contains_key(w) implies bucket_of::<
                K,
            >(w) == c by {
                assert(old(self).stripe(c).contains_key(w));
            }
            assert forall|w: K::V| #[trigger]
                self.model@.contains_key(w) <==> self.stripe(
                    bucket_of::<K>(w) as int,
                ).contains_key(w) by {
                assert(old(self).model@.contains_key(w) <==> old(self).stripe(
                    bucket_of::<K>(w) as int,
                ).contains_key(w));
            }
            assert forall|w: K::V| #[trigger] self.model@.contains_key(w) implies self.model@[w]
                == self.stripe(bucket_of::<K>(w) as int)[w] by {
                assert(old(self).model@.contains_key(w));
            }
        }
        r
    }

    /// Whether `k` has a value in the map.
    pub fn contains_key(&self, k: &K) -> (found: bool)
        requires
            self.wf(),
        ensures
            found == self@.contains_key(k@),
    {
        let b = Self::get_bucket(k) as usize;
        assert(self.model@.contains_key(k@) <==> self.stripe(b as int).contains_key(k@));
        self.buckets[b].get(k).is_some()
    }
}

} // verus!
