//! The bounded cache: an index from keys to slots and a recency list of the
//! entries, kept in step. When the cache is full, an insert evicts the entry
//! that was used least recently.
//!
//! The model of a cache is the sequence of its entries, each a key's view
//! with its value, from the least recently used to the most recently used.
//! A cache of capacity 0 stores nothing: every insert leaves it empty.

use crate::key::CacheKey;
use crate::recency::{lemma_push_keeps_distinct, lemma_remove_keeps_rest, ConcurrentLL};
pub use crate::striped_map::ConcurrentHashMap;
use vstd::prelude::*;

verus! {

/// Whether some entry of `s` has the key `kv`.
pub open spec fn has_key<KV, V>(s: Seq<(KV, V)>, kv: KV) -> bool {
    exists|i: int| 0 <= i < s.len() && (#[trigger] s[i]).0 == kv
}

/// The position of an entry of `s` with the key `kv`.
pub open spec fn key_index<KV, V>(s: Seq<(KV, V)>, kv: KV) -> int {
    choose|i: int| 0 <= i < s.len() && (#[trigger] s[i]).0 == kv
}

/// No two entries of `s` have the same key.
pub open spec fn distinct_keys<KV, V>(s: Seq<(KV, V)>) -> bool {
    forall|i: int, j: int| 0 <= i < j < s.len() ==> (#[trigger] s[i]).0 != (#[trigger] s[j]).0
}

/// The entries after a lookup of `kv`: an entry that is found moves to the
/// end, the most recently used place.
pub open spec fn touched<KV, V>(s: Seq<(KV, V)>, kv: KV) -> Seq<(KV, V)> {
    if has_key(s, kv) {
        s.remove(key_index(s, kv)).push(s[key_index(s, kv)])
    } else {
        s
    }
}

/// The entries after `kv` was taken out.
pub open spec fn removed<KV, V>(s: Seq<(KV, V)>, kv: KV) -> Seq<(KV, V)> {
    if has_key(s, kv) {
        s.remove(key_index(s, kv))
    } else {
        s
    }
}

/// The entries after `kv` was set to `v` in a cache that holds at most `cap`
/// entries. A key that is present gets the new value and moves to the end.
/// A new key goes to the end; where the cache is full the first entry, the
/// least recently used, leaves to make room.
pub open spec fn inserted<KV, V>(s: Seq<(KV, V)>, cap: nat, kv: KV, v: V) -> Seq<(KV, V)> {
    if has_key(s, kv) {
        s.remove(key_index(s, kv)).push((kv, v))
    } else if cap == 0 {
        s
    } else if s.len() >= cap {
        s.drop_first().push((kv, v))
    } else {
        s.push((kv, v))
    }
}

/// Where no key occurs twice, a key that stands at position `i` is found
/// there.
pub proof fn lemma_key_at<KV, V>(s: Seq<(KV, V)>, kv: KV, i: int)
    requires
        distinct_keys(s),
        0 <= i < s.len(),
        s[i].0 == kv,
    ensures
        has_key(s, kv),
        key_index(s, kv) == i,
{
    let j = key_index(s, kv);
    if j < i {
        assert(s[j].0 != s[i].0);
    }
    if i < j {
        assert(s[i].0 != s[j].0);
    }
}

/// A key that is not the key of any entry is not found.
pub proof fn lemma_key_absent<KV, V>(s: Seq<(KV, V)>, kv: KV)
    requires
        forall|i: int| 0 <= i < s.len() ==> (#[trigger] s[i]).0 != kv,
    ensures
        !has_key(s, kv),
{
}

/// After a lookup that found `kv`, its entry is the last one, unchanged; the
/// other entries keep their order.
pub proof fn lemma_touched<KV, V>(s: Seq<(KV, V)>, kv: KV)
    requires
        distinct_keys(s),
        has_key(s, kv),
    ensures
        touched(s, kv).len() == s.len(),
        distinct_keys(touched(s, kv)),
        has_key(touched(s, kv), kv),
        key_index(touched(s, kv), kv) == s.len() - 1,
        touched(s, kv).last() == s[key_index(s, kv)],
        removed(touched(s, kv), kv) == removed(s, kv),
        forall|w: KV| has_key(touched(s, kv), w) <==> has_key(s, w),
{
    let i = key_index(s, kv);
    let t = touched(s, kv);
    assert forall|x: int, y: int| 0 <= x < y < t.len() implies (#[trigger] t[x]).0 != (
    #[trigger] t[y]).0 by {
        let ox = if x < i { x } else { x + 1 };
        let oy = if y == t.len() - 1 { i } else if y < i { y } else { y + 1 };
        assert(t[x] == s[ox] && t[y] == s[oy]);
        if ox < oy {
            assert(s[ox].0 != s[oy].0);
        } else {
            assert(s[oy].0 != s[ox].0);
        }
    }
    lemma_key_at(t, kv, s.len() - 1);
    assert(removed(t, kv) =~= removed(s, kv));
    assert forall|w: KV| has_key(t, w) <==> has_key(s, w) by {
        if has_key(t, w) {
            let x = key_index(t, w);
            let ox = if x == t.len() - 1 { i } else if x < i { x } else { x + 1 };
            assert(s[ox].0 == w);
        }
        if has_key(s, w) {
            let x = key_index(s, w);
            let nx = if x == i { t.len() - 1 } else if x < i { x } else { x - 1 };
            assert(t[nx].0 == w);
        }
    }
}

/// After an insert into a cache that holds something, the entry of the key
/// is the last one and has the new value; no key occurs twice; and the
/// cache is within its capacity if it was before.
pub proof fn lemma_inserted<KV, V>(s: Seq<(KV, V)>, cap: nat, kv: KV, v: V)
    requires
        distinct_keys(s),
        cap > 0,
    ensures
        distinct_keys(inserted(s, cap, kv, v)),
        inserted(s, cap, kv, v).len() > 0,
        inserted(s, cap, kv, v).last() == (kv, v),
        has_key(inserted(s, cap, kv, v), kv),
        key_index(inserted(s, cap, kv, v), kv) == inserted(s, cap, kv, v).len() - 1,
        s.len() <= cap ==> inserted(s, cap, kv, v).len() <= cap,
{
    let t = inserted(s, cap, kv, v);
    assert forall|x: int, y: int| 0 <= x < y < t.len() implies (#[trigger] t[x]).0 != (
    #[trigger] t[y]).0 by {
        if has_key(s, kv) {
            let i = key_index(s, kv);
            let ox = if x < i { x } else { x + 1 };
            assert(t[x] == s[ox]);
            if y < t.len() - 1 {
                let oy = if y < i { y } else { y + 1 };
                assert(t[y] == s[oy]);
                assert(s[ox].0 != s[oy].0);
            } else if ox < i {
                assert(s[ox].0 != s[i].0);
            } else {
                assert(s[i].0 != s[ox].0);
            }
        } else if s.len() >= cap {
            assert(t[x] == s[x + 1]);
            if y < t.len() - 1 {
                assert(t[y] == s[y + 1]);
                assert(s[x + 1].0 != s[y + 1].0);
            }
        } else {
            assert(t[x] == s[x]);
            if y < t.len() - 1 {
                assert(t[y] == s[y]);
                assert(s[x].0 != s[y].0);
            }
        }
    }
    lemma_key_at(t, kv, t.len() - 1);
}

/// An insert into a full cache evicts exactly one entry, the first one,
/// unless the key is present: then no entry leaves, and the keys stay the
/// same.
pub proof fn lemma_insert_into_full<KV, V>(s: Seq<(KV, V)>, cap: nat, kv: KV, v: V)
    requires
        distinct_keys(s),
        s.len() == cap,
        cap > 0,
    ensures
        inserted(s, cap, kv, v).len() == cap,
        !has_key(s, kv) ==> inserted(s, cap, kv, v) == s.drop_first().push((kv, v)),
        !has_key(s, kv) ==> forall|w: KV|
            has_key(inserted(s, cap, kv, v), w) <==> w == kv || (has_key(s, w) && w != s[0].0),
        has_key(s, kv) ==> forall|w: KV| has_key(inserted(s, cap, kv, v), w) <==> has_key(s, w),
{
    let t = inserted(s, cap, kv, v);
    if has_key(s, kv) {
        let i = key_index(s, kv);
        assert forall|w: KV| has_key(t, w) <==> has_key(s, w) by {
            if has_key(t, w) {
                let x = key_index(t, w);
                let ox = if x == t.len() - 1 { i } else if x < i { x } else { x + 1 };
                assert(s[ox].0 == w);
            }
            if has_key(s, w) {
                let x = key_index(s, w);
                let nx = if x == i { t.len() - 1 } else if x < i { x } else { x - 1 };
                assert(t[nx].0 == w);
            }
        }
    } else {
        assert forall|w: KV| has_key(t, w) <==> w == kv || (has_key(s, w) && w != s[0].0) by {
            if has_key(t, w) {
                let x = key_index(t, w);
                if x < t.len() - 1 {
                    assert(t[x] == s[x + 1]);
                    assert(s[0].0 != s[x + 1].0);
                }
            }
            if w == kv {
                assert(t[t.len() - 1].0 == w);
            }
            if has_key(s, w) && w != s[0].0 {
                let x = key_index(s, w);
                assert(t[x - 1].0 == w);
            }
        }
    }
}

/// The entries after the entries of `items` were inserted one after the
/// other, the first first.
pub open spec fn inserted_all<KV, V>(s: Seq<(KV, V)>, cap: nat, items: Seq<(KV, V)>) -> Seq<
    (KV, V),
>
    decreases items.len(),
{
    if items.len() == 0 {
        s
    } else {
        inserted(inserted_all(s, cap, items.drop_last()), cap, items.last().0, items.last().1)
    }
}

/// Entries with different keys, inserted into an empty cache in any one
/// order, leave the cache with the entries that were inserted last, as many
/// as it can hold, in the order of their insertion: each key once.
pub proof fn lemma_last_inserted_survive<KV, V>(cap: nat, items: Seq<(KV, V)>)
    requires
        distinct_keys(items),
    ensures
        inserted_all(Seq::empty(), cap, items) == (if items.len() <= cap {
            items
        } else {
            items.subrange(items.len() - cap, items.len() as int)
        }),
        inserted_all(Seq::empty(), cap, items).len() == (if items.len() <= cap {
            items.len()
        } else {
            cap
        }),
        distinct_keys(inserted_all(Seq::empty(), cap, items)),
    decreases items.len(),
{
    let empty = Seq::<(KV, V)>::empty();
    if items.len() == 0 {
        assert(items =~= empty);
    } else {
        let n = items.len() as int;
        let front = items.drop_last();
        let last = items.last();
        assert forall|x: int, y: int| 0 <= x < y < front.len() implies (#[trigger] front[x]).0 != (
        #[trigger] front[y]).0 by {
            assert(front[x] == items[x] && front[y] == items[y]);
        }
        lemma_last_inserted_survive(cap, front);
        let before = inserted_all(empty, cap, front);
        assert forall|i: int| 0 <= i < before.len() implies (#[trigger] before[i]).0 != last.0 by {
            let oi = if front.len() <= cap { i } else { front.len() - cap + i };
            assert(before[i] == items[oi]);
            assert(items[oi].0 != items[n - 1].0);
        }
        lemma_key_absent(before, last.0);
        let after = inserted(before, cap, last.0, last.1);
        if cap == 0 {
            assert(after =~= items.subrange(n - cap, n));
        } else if before.len() >= cap {
            assert(after =~= items.subrange(n - cap, n));
        } else if items.len() <= cap {
            assert(after =~= items);
        } else {
            assert(after =~= items.subrange(n - cap, n));
        }
        let kept = if items.len() <= cap { items } else { items.subrange(n - cap, n) };
        assert forall|x: int, y: int| 0 <= x < y < kept.len() implies (#[trigger] kept[x]).0 != (
        #[trigger] kept[y]).0 by {
            let ox = if items.len() <= cap { x } else { n - cap + x };
            let oy = if items.len() <= cap { y } else { n - cap + y };
            assert(kept[x] == items[ox] && kept[y] == items[oy]);
        }
    }
}

/// The index sends the key at position `p` to the slot at position `p`.
spec fn index_hit<KV, V>(
    index: Map<KV, usize>,
    slots: Seq<usize>,
    entries: Seq<(KV, V)>,
    p: int,
) -> bool {
    index.contains_key(entries[p].0) && index[entries[p].0] == slots[p]
}

/// The index and the chain agree: the index holds the keys of the chain and
/// no other, each with the slot of its entry.
spec fn index_ok<KV, V>(index: Map<KV, usize>, slots: Seq<usize>, entries: Seq<(KV, V)>) -> bool {
    &&& slots.len() == entries.len()
    &&& slots.no_duplicates()
    &&& index.dom().finite()
    &&& index.dom().len() == slots.len()
    &&& forall|p: int| 0 <= p < slots.len() ==> #[trigger] index_hit(index, slots, entries, p)
    &&& forall|kv: KV| #[trigger] index.contains_key(kv) ==> has_key(entries, kv)
}

/// Where index and chain agree, no key occurs twice in the chain.
proof fn lemma_index_distinct<KV, V>(
    index: Map<KV, usize>,
    slots: Seq<usize>,
    entries: Seq<(KV, V)>,
)
    requires
        index_ok(index, slots, entries),
    ensures
        distinct_keys(entries),
{
    assert forall|i: int, j: int| 0 <= i < j < entries.len() implies (#[trigger] entries[i]).0 != (
    #[trigger] entries[j]).0 by {
        assert(index_hit(index, slots, entries, i));
        assert(index_hit(index, slots, entries, j));
    }
}

/// A key of the index has one position in the chain, that of its slot.
proof fn lemma_index_position<KV, V>(
    index: Map<KV, usize>,
    slots: Seq<usize>,
    entries: Seq<(KV, V)>,
    kv: KV,
)
    requires
        index_ok(index, slots, entries),
        index.contains_key(kv),
    ensures
        has_key(entries, kv),
        0 <= key_index(entries, kv) < entries.len(),
        entries[key_index(entries, kv)].0 == kv,
        slots[key_index(entries, kv)] == index[kv],
        slots.contains(index[kv]),
        slots.index_of(index[kv]) == key_index(entries, kv),
{
    let i = key_index(entries, kv);
    assert(index_hit(index, slots, entries, i));
    assert(slots[i] == index[kv]);
    let j = slots.index_of(index[kv]);
    assert(slots[j] == index[kv]);
}

/// A key that the index lacks is the key of no entry.
proof fn lemma_index_miss<KV, V>(
    index: Map<KV, usize>,
    slots: Seq<usize>,
    entries: Seq<(KV, V)>,
    kv: KV,
)
    requires
        index_ok(index, slots, entries),
        !index.contains_key(kv),
    ensures
        !has_key(entries, kv),
{
    if has_key(entries, kv) {
        let i = key_index(entries, kv);
        assert(index_hit(index, slots, entries, i));
    }
}

/// A new entry at the end of the chain, with its key in the index.
proof fn lemma_index_append<KV, V>(
    index: Map<KV, usize>,
    slots: Seq<usize>,
    entries: Seq<(KV, V)>,
    kv: KV,
    v: V,
    slot: usize,
)
    requires
        index_ok(index, slots, entries),
        !index.contains_key(kv),
        !slots.contains(slot),
    ensures
        index_ok(index.insert(kv, slot), slots.push(slot), entries.push((kv, v))),
{
    let index2 = index.insert(kv, slot);
    let slots2 = slots.push(slot);
    let entries2 = entries.push((kv, v));
    lemma_push_keeps_distinct(slots, slot);
    assert(index2.dom() =~= index.dom().insert(kv));
    assert forall|p: int| 0 <= p < slots2.len() implies #[trigger] index_hit(
        index2,
        slots2,
        entries2,
        p,
    ) by {
        if p < slots.len() {
            assert(index_hit(index, slots, entries, p));
        }
    }
    assert forall|w: KV| #[trigger] index2.contains_key(w) implies has_key(entries2, w) by {
        if w == kv {
            assert(entries2[entries.len() as int].0 == kv);
        } else {
            assert(index.contains_key(w));
            let i = key_index(entries, w);
            assert(entries2[i].0 == w);
        }
    }
}

/// The entry at position `p` leaves the chain, and its key the index.
proof fn lemma_index_delete<KV, V>(
    index: Map<KV, usize>,
    slots: Seq<usize>,
    entries: Seq<(KV, V)>,
    p: int,
)
    requires
        index_ok(index, slots, entries),
        0 <= p < entries.len(),
    ensures
        index_ok(index.remove(entries[p].0), slots.remove(p), entries.remove(p)),
        !index.remove(entries[p].0).contains_key(entries[p].0),
        !slots.remove(p).contains(slots[p]),
{
    let kv = entries[p].0;
    let index2 = index.remove(kv);
    let slots2 = slots.remove(p);
    let entries2 = entries.remove(p);
    lemma_remove_keeps_rest(slots, p);
    lemma_index_distinct(index, slots, entries);
    assert(index_hit(index, slots, entries, p));
    assert(index2.dom() =~= index.dom().remove(kv));
    assert forall|q: int| 0 <= q < slots2.len() implies #[trigger] index_hit(
        index2,
        slots2,
        entries2,
        q,
    ) by {
        let oq = if q < p { q } else { q + 1 };
        assert(index_hit(index, slots, entries, oq));
        assert(entries2[q] == entries[oq]);
        assert(slots2[q] == slots[oq]);
        if oq < p {
            assert(entries[oq].0 != entries[p].0);
        } else {
            assert(entries[p].0 != entries[oq].0);
        }
    }
    assert forall|w: KV| #[trigger] index2.contains_key(w) implies has_key(entries2, w) by {
        assert(index.contains_key(w));
        let i = key_index(entries, w);
        let ni = if i < p { i } else { i - 1 };
        assert(entries2[ni].0 == w);
    }
}

/// A new value for the entry at position `p` changes nothing in the index.
proof fn lemma_index_revalue<KV, V>(
    index: Map<KV, usize>,
    slots: Seq<usize>,
    entries: Seq<(KV, V)>,
    p: int,
    v: V,
)
    requires
        index_ok(index, slots, entries),
        0 <= p < entries.len(),
    ensures
        index_ok(index, slots, entries.update(p, (entries[p].0, v))),
{
    let entries2 = entries.update(p, (entries[p].0, v));
    assert forall|q: int| 0 <= q < slots.len() implies #[trigger] index_hit(
        index,
        slots,
        entries2,
        q,
    ) by {
        assert(index_hit(index, slots, entries, q));
    }
    assert forall|w: KV| #[trigger] index.contains_key(w) implies has_key(entries2, w) by {
        let i = key_index(entries, w);
        assert(entries2[i].0 == w);
    }
}

/// The entry at position `p` moves to the end of the chain; the index stays.
proof fn lemma_index_rotate<KV, V>(
    index: Map<KV, usize>,
    slots: Seq<usize>,
    entries: Seq<(KV, V)>,
    p: int,
)
    requires
        index_ok(index, slots, entries),
        0 <= p < entries.len(),
    ensures
        index_ok(index, slots.remove(p).push(slots[p]), entries.remove(p).push(entries[p])),
{
    let kv = entries[p].0;
    assert(index_hit(index, slots, entries, p));
    lemma_index_delete(index, slots, entries, p);
    lemma_index_append(
        index.remove(kv),
        slots.remove(p),
        entries.remove(p),
        kv,
        entries[p].1,
        slots[p],
    );
    assert(index.remove(kv).insert(kv, slots[p]) =~= index);
}

/// A cache that holds at most a fixed number of entries and evicts the least
/// recently used one to make room.
pub struct LruCache<K: CacheKey, V> {
    index: ConcurrentHashMap<K, usize>,
    list: ConcurrentLL<K, V>,
    limit: usize,
    count: usize,
}

impl<K: CacheKey, V> View for LruCache<K, V> {
    type V = Seq<(K::V, V)>;

    closed spec fn view(&self) -> Seq<(K::V, V)> {
        Seq::new(
            self.list.slots().len(),
            |p: int| (self.list.entry(self.list.slots()[p]).0@, self.list.entry(self.list.slots()[p]).1),
        )
    }
}

impl<K: CacheKey, V> LruCache<K, V> {
    /// The largest number of entries that the cache holds.
    pub closed spec fn capacity(&self) -> nat {
        self.limit as nat
    }

    /// The count of entries that the cache keeps.
    pub closed spec fn counter(&self) -> nat {
        self.count as nat
    }

    /// The keys that the index holds.
    pub closed spec fn indexed(&self) -> Set<K::V> {
        self.index@.dom()
    }

    /// The slots that a walk along the chain visits, from head to tail.
    pub closed spec fn chain(&self) -> Seq<usize> {
        self.list.slots()
    }

    /// The cache is sound: index and chain are, they hold the same keys, the
    /// count is the number of entries, and it is within the capacity.
    pub closed spec fn wf(&self) -> bool {
        &&& self.index.wf()
        &&& self.list.wf()
        &&& self.count == self.list.slots().len()
        &&& self.count <= self.limit
        &&& index_ok(self.index@, self.list.slots(), self@)
    }

    /// In a sound cache no key occurs twice, the entries are within the
    /// capacity, and the count, the index and the chain tell the same
    /// number: the count of entries is the number of keys in the index and
    /// the number of slots on a walk from head to tail.
    pub proof fn lemma_count_is_population(&self)
        requires
            self.wf(),
        ensures
            distinct_keys(self@),
            self@.len() <= self.capacity(),
            self.counter() == self@.len(),
            self.indexed().finite(),
            self.indexed().len() == self.counter(),
            self.chain().len() == self.counter(),
            self.chain().no_duplicates(),
            forall|kv: K::V| self.indexed().contains(kv) <==> has_key(self@, kv),
    {
        lemma_index_distinct(self.index@, self.list.slots(), self@);
        assert forall|kv: K::V| self.indexed().contains(kv) <==> has_key(self@, kv) by {
            if !self.index@.contains_key(kv) {
                lemma_index_miss(self.index@, self.list.slots(), self@, kv);
            }
        }
    }

    /// An empty cache that holds at most `limit` entries.
    pub fn new(limit: usize) -> (cache: Self)
        ensures
            cache.wf(),
            cache@ == Seq::<(K::V, V)>::empty(),
            cache.capacity() == limit,
    {
        let cache = Self { index: ConcurrentHashMap::new(), list: ConcurrentLL::new(), limit, count: 0 };
        proof {
            cache.index.lemma_striping();
            assert(cache@ =~= Seq::<(K::V, V)>::empty());
        }
        cache
    }

    /// The number of entries in the cache.
    pub fn len(&self) -> (n: usize)
        requires
            self.wf(),
        ensures
            n == self@.len(),
            n == self.counter(),
    {
        self.count
    }

    /// Takes the entry of `k` out of the index and out of the chain, and
    /// returns it.
    fn remove_internal(&mut self, k: &K) -> (r: Option<(K, V)>)
        requires
            old(self).wf(),
        ensures
            final(self).wf(),
            final(self).capacity() == old(self).capacity(),
            final(self)@ == removed(old(self)@, k@),
            match r {
                Some(e) => has_key(old(self)@, k@) && e.0@ == k@ && e.1 == old(self)@[key_index(
                    old(self)@,
                    k@,
                )].1,
                None => !has_key(old(self)@, k@),
            },
    {
        let ghost index = self.index@;
        let ghost slots = self.list.slots();
        let ghost entries = self@;
        match self.index.remove(k) {
            None => {
                proof {
                    lemma_index_miss(index, slots, entries, k@);
                    assert(self.index@ =~= index);
                }
                None
            },
            Some(slot) => {
                let ghost i = key_index(entries, k@);
                proof {
                    lemma_index_position(index, slots, entries, k@);
                    lemma_index_delete(index, slots, entries, i);
                }
                let e = self.list.unlink(slot);
                self.count = self.count - 1;
                proof {
                    assert forall|p: int| 0 <= p < entries.len() - 1 implies self@[p]
                        == entries.remove(i)[p] by {
                        let op = if p < i { p } else { p + 1 };
                        assert(self.list.slots()[p] == slots[op]);
                        assert(slots.contains(slots[op]));
                        assert(slots[op] != slots[i]);
                    }
                    assert(self@ =~= entries.remove(i));
                }
                Some(e)
            },
        }
    }

    /// Removes `k` from the cache and returns the value that it had.
    pub fn remove(&mut self, k: &K) -> (r: Option<V>)
        requires
            old(self).wf(),
        ensures
            final(self).wf(),
            final(self).capacity() == old(self).capacity(),
            final(self)@ == removed(old(self)@, k@),
            r == (if has_key(old(self)@, k@) {
                Some(old(self)@[key_index(old(self)@, k@)].1)
            } else {
                None
            }),
    {
        match self.remove_internal(k) {
            Some(e) => Some(e.1),
            None => None,
        }
    }

    /// The value of `k`, if it has one: a copy. The entry becomes the most
    /// recently used one.
    pub fn get(&mut self, k: &K) -> (r: Option<V>) where V: Clone
        requires
            old(self).wf(),
        ensures
            final(self).wf(),
            final(self).capacity() == old(self).capacity(),
            final(self)@ == touched(old(self)@, k@),
            match r {
                Some(v) => has_key(old(self)@, k@) && cloned(
                    old(self)@[key_index(old(self)@, k@)].1,
                    v,
                ),
                None => !has_key(old(self)@, k@),
            },
    {
        let ghost index = self.index@;
        let ghost slots = self.list.slots();
        let ghost entries = self@;
        match self.index.get(k) {
            None => {
                proof {
                    lemma_index_miss(index, slots, entries, k@);
                }
                None
            },
            Some(slot) => {
                let ghost i = key_index(entries, k@);
                proof {
                    lemma_index_position(index, slots, entries, k@);
                    lemma_index_rotate(index, slots, entries, i);
                }
                self.list.move_to_tail(slot);
                proof {
                    let turned = entries.remove(i).push(entries[i]);
                    assert forall|p: int| 0 <= p < entries.len() implies self@[p] == turned[p] by {
                        let op = if p == entries.len() - 1 {
                            i
                        } else if p < i {
                            p
                        } else {
                            p + 1
                        };
                        assert(self.list.slots()[p] == slots[op]);
                        assert(slots.contains(slots[op]));
                    }
                    assert(self@ =~= turned);
                    assert(self.list.slots()[entries.len() - 1] == slot);
                }
                Some(self.list.value_at(slot).clone())
            },
        }
    }

    /// Sets `k` to `v` and makes the entry the most recently used one. A key
    /// that is new to a full cache evicts the least recently used entry.
    pub fn insert(&mut self, k: K, v: V)
        requires
            old(self).wf(),
        ensures
            final(self).wf(),
            final(self).capacity() == old(self).capacity(),
            final(self)@ == inserted(old(self)@, old(self).capacity(), k@, v),
    {
        let ghost index = self.index@;
        let ghost slots = self.list.slots();
        let ghost entries = self@;
        let ghost kv = k@;
        match self.index.get(&k) {
            Some(slot) => {
                let ghost i = key_index(entries, kv);
                proof {
                    lemma_index_position(index, slots, entries, kv);
                    lemma_index_revalue(index, slots, entries, i, v);
                    lemma_index_rotate(index, slots, entries.update(i, (kv, v)), i);
                }
                let _ = self.list.replace_value(slot, v);
                self.list.move_to_tail(slot);
                proof {
                    let turned = entries.remove(i).push((kv, v));
                    assert(turned =~= entries.update(i, (kv, v)).remove(i).push((kv, v)));
                    assert forall|p: int| 0 <= p < entries.len() implies self@[p] == turned[p] by {
                        let op = if p == entries.len() - 1 {
                            i
                        } else if p < i {
                            p
                        } else {
                            p + 1
                        };
                        assert(self.list.slots()[p] == slots[op]);
                        assert(slots.contains(slots[op]));
                        if op != i {
                            assert(slots[op] != slots[i]);
                        }
                    }
                    assert(self@ =~= turned);
                }
            },
            None => {
                proof {
                    lemma_index_miss(index, slots, entries, kv);
                }
                if self.limit == 0 {
                    return ;
                }
                if self.count == self.limit {
                    self.evict();
                }
                let ghost index1 = self.index@;
                let ghost slots1 = self.list.slots();
                let ghost entries1 = self@;
                let k2 = k.copy_key();
                let slot = self.list.push_tail(k, v);
                self.index.insert(k2, slot);
                self.count = self.count + 1;
                proof {
                    lemma_index_append(index1, slots1, entries1, kv, v, slot);
                    let grown = entries1.push((kv, v));
                    assert forall|p: int| 0 <= p < grown.len() implies self@[p] == grown[p] by {
                        if p < entries1.len() {
                            assert(self.list.slots()[p] == slots1[p]);
                            assert(slots1.contains(slots1[p]));
                        }
                    }
                    assert(self@ =~= grown);
                }
            },
        }
    }

    /// Evicts the head of the chain, the least recently used entry.
    fn evict(&mut self)
        requires
            old(self).index.wf(),
            old(self).list.wf(),
            old(self).count == old(self).list.slots().len(),
            old(self).count > 0,
            index_ok(old(self).index@, old(self).list.slots(), old(self)@),
        ensures
            final(self).index.wf(),
            final(self).list.wf(),
            final(self).count == final(self).list.slots().len(),
            final(self).count == old(self).count - 1,
            final(self).limit == old(self).limit,
            index_ok(final(self).index@, final(self).list.slots(), final(self)@),
            final(self)@ == old(self)@.drop_first(),
            final(self).index@ == old(self).index@.remove(old(self)@[0].0),
    {
        let ghost index = self.index@;
        let ghost slots = self.list.slots();
        let ghost entries = self@;
        proof {
            lemma_index_delete(index, slots, entries, 0);
            assert(index_hit(index, slots, entries, 0));
        }
        match self.list.pop_head() {
            Some(e) => {
                let _ = self.index.remove(&e.0);
                self.count = self.count - 1;
                proof {
                    assert(slots.remove(0) =~= slots.drop_first());
                    assert forall|p: int| 0 <= p < entries.len() - 1 implies self@[p]
                        == entries.drop_first()[p] by {
                        assert(self.list.slots()[p] == slots[p + 1]);
                        assert(self.list.slots().contains(slots[p + 1]));
                    }
                    assert(self@ =~= entries.drop_first());
                    assert(entries.remove(0) =~= entries.drop_first());
                }
            },
            None => {},
        }
    }

    /// The value of the least recently used entry: the next to be evicted.
    pub fn head(&self) -> (v: V) where V: Clone
        requires
            self.wf(),
            self@.len() > 0,
        ensures
            cloned(self@[0].1, v),
    {
        let slot = self.list.head_slot().unwrap();
        assert(self.list.slots().contains(self.list.slots()[0]));
        self.list.value_at(slot).clone()
    }

    /// The value of the most recently used entry.
    pub fn tail(&self) -> (v: V) where V: Clone
        requires
            self.wf(),
            self@.len() > 0,
        ensures
            cloned(self@.last().1, v),
    {
        let slot = self.list.tail_slot().unwrap();
        assert(self.list.slots().contains(self.list.slots().last()));
        self.list.value_at(slot).clone()
    }
    /// The values of all entries, from the least recently used to the most
    /// recently used, as a walk along the chain meets them.
    pub fn values(&self) -> (all: Vec<V>) where V: Clone
        requires
            self.wf(),
        ensures
            all.len() == self@.len(),
            forall|i: int| 0 <= i < all.len() ==> cloned(self@[i].1, #[trigger] all[i]),
    {
        let slots = self.list.walk();
        let mut all: Vec<V> = Vec::new();
        let n = slots.len();
        let mut i: usize = 0;
        while i < n
            invariant
                self.wf(),
                slots@ == self.list.slots(),
                n == slots.len(),
                i <= n,
                all.len() == i,
                forall|j: int| 0 <= j < i ==> cloned(self@[j].1, #[trigger] all[j]),
            decreases n - i,
        {
            assert(self.list.slots().contains(slots[i as int]));
            all.push(self.list.value_at(slots[i]).clone());
            i += 1;
        }
        all
    }
}

} // verus!
