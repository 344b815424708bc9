//! The recency list: a doubly linked chain of entries, least recently used
//! first, kept in an arena of slots that are addressed by index.
//!
//! A slot index stays valid for as long as its entry is in the chain, so an
//! index can hold it as a handle. Every operation on the chain is a single
//! call on `&mut self`: no caller sees a chain that is half updated.

use vstd::prelude::*;

verus! {

/// One entry of the chain with the links to its neighbours.
struct Node<K, V> {
    k: K,
    v: V,
    next: Option<usize>,
    prev: Option<usize>,
}

impl<K, V> Node<K, V> {
    /// A node that is linked to nothing yet.
    fn new(k: K, v: V) -> (node: Self)
        ensures
            node.k == k,
            node.v == v,
            node.next.is_none(),
            node.prev.is_none(),
    {
        Self { k, v, next: None, prev: None }
    }
}

/// The chain of entries in recency order, head first.
pub struct ConcurrentLL<K, V> {
    nodes: Vec<Option<Node<K, V>>>,
    free: Vec<usize>,
    head: Option<usize>,
    tail: Option<usize>,
    order: Ghost<Seq<usize>>,
}

/// The slot before position `p` of `order`, if there is one.
pub open spec fn link_before(order: Seq<usize>, p: int) -> Option<usize> {
    if p == 0 {
        None
    } else {
        Some(order[p - 1])
    }
}

/// The slot after position `p` of `order`, if there is one.
pub open spec fn link_after(order: Seq<usize>, p: int) -> Option<usize> {
    if p == order.len() - 1 {
        None
    } else {
        Some(order[p + 1])
    }
}

/// Removing one position from a sequence without duplicates leaves a sequence
/// without duplicates that holds everything but the removed item.
pub proof fn lemma_remove_keeps_rest(s: Seq<usize>, p: int)
    requires
        s.no_duplicates(),
        0 <= p < s.len(),
    ensures
        s.remove(p).no_duplicates(),
        s.remove(p).len() == s.len() - 1,
        !s.remove(p).contains(s[p]),
        forall|x: usize| #[trigger] s.remove(p).contains(x) <==> s.contains(x) && x != s[p],
{
    let r = s.remove(p);
    assert forall|i: int, j: int| 0 <= i < r.len() && 0 <= j < r.len() && i != j implies r[i]
        != r[j] by {
        let si = if i < p { i } else { i + 1 };
        let sj = if j < p { j } else { j + 1 };
        assert(r[i] == s[si] && r[j] == s[sj]);
    }
    assert forall|x: usize| #[trigger] r.contains(x) <==> s.contains(x) && x != s[p] by {
        if r.contains(x) {
            let i = choose|i: int| 0 <= i < r.len() && r[i] == x;
            let si = if i < p { i } else { i + 1 };
            assert(s[si] == x);
        }
        if s.contains(x) && x != s[p] {
            let i = choose|i: int| 0 <= i < s.len() && s[i] == x;
            let ri = if i < p { i } else { i - 1 };
            assert(r[ri] == x);
        }
    }
}

/// Appending an item that a sequence without duplicates does not hold leaves a
/// sequence without duplicates.
pub proof fn lemma_push_keeps_distinct(s: Seq<usize>, x: usize)
    requires
        s.no_duplicates(),
        !s.contains(x),
    ensures
        s.push(x).no_duplicates(),
        forall|y: usize| #[trigger] s.push(x).contains(y) <==> s.contains(y) || y == x,
{
    let r = s.push(x);
    assert forall|i: int, j: int| 0 <= i < r.len() && 0 <= j < r.len() && i != j implies r[i]
        != r[j] by {
        if i < s.len() {
            assert(s.contains(r[i]));
        }
        if j < s.len() {
            assert(s.contains(r[j]));
        }
    }
    assert forall|y: usize| #[trigger] r.contains(y) <==> s.contains(y) || y == x by {
        if r.contains(y) {
            let i = choose|i: int| 0 <= i < r.len() && r[i] == y;
            if i < s.len() {
                assert(s[i] == y);
            }
        }
        if s.contains(y) {
            let i = choose|i: int| 0 <= i < s.len() && s[i] == y;
            assert(r[i] == y);
        }
        if y == x {
            assert(r[s.len() as int] == y);
        }
    }
}

/// The node at position `p` of `order` names its neighbours in `order`.
spec fn link_holds<K, V>(nodes: Seq<Option<Node<K, V>>>, order: Seq<usize>, p: int) -> bool {
    &&& order[p] < nodes.len()
    &&& nodes[order[p] as int] is Some
    &&& nodes[order[p] as int]->0.prev == link_before(order, p)
    &&& nodes[order[p] as int]->0.next == link_after(order, p)
}

/// Every slot of `order` holds a node whose links name its neighbours in
/// `order`.
spec fn links_ok<K, V>(nodes: Seq<Option<Node<K, V>>>, order: Seq<usize>) -> bool {
    forall|p: int| 0 <= p < order.len() ==> #[trigger] link_holds(nodes, order, p)
}

/// Slot `s` holds a node.
spec fn live<K, V>(nodes: Seq<Option<Node<K, V>>>, s: usize) -> bool {
    s < nodes.len() && nodes[s as int] is Some
}

/// Slot `s` exists and holds no node.
spec fn vacant<K, V>(nodes: Seq<Option<Node<K, V>>>, s: usize) -> bool {
    s < nodes.len() && nodes[s as int] is None
}

/// The slots that hold a node are those of `order`, and `loose` if there is
/// one; the slots that hold none are those of `free`.
spec fn slots_ok<K, V>(
    nodes: Seq<Option<Node<K, V>>>,
    order: Seq<usize>,
    free: Seq<usize>,
    loose: Option<usize>,
) -> bool {
    &&& order.no_duplicates()
    &&& free.no_duplicates()
    &&& loose matches Some(l) ==> !order.contains(l)
    &&& forall|s: usize| #[trigger] live(nodes, s) <==> order.contains(s) || loose == Some(s)
    &&& forall|s: usize| #[trigger] vacant(nodes, s) <==> free.contains(s)
}

/// Slot `s` holds a node in `b` if it does in `a`, with the same key and
/// value.
spec fn payload_kept<K, V>(
    a: Seq<Option<Node<K, V>>>,
    b: Seq<Option<Node<K, V>>>,
    s: int,
) -> bool {
    &&& b[s] is Some <==> a[s] is Some
    &&& a[s] is Some ==> b[s]->0.k == a[s]->0.k && b[s]->0.v == a[s]->0.v
}

/// `b` holds nodes in the slots in which `a` does, with the same keys and
/// values.
spec fn same_payload<K, V>(a: Seq<Option<Node<K, V>>>, b: Seq<Option<Node<K, V>>>) -> bool {
    &&& a.len() == b.len()
    &&& forall|s: int| 0 <= s < a.len() ==> #[trigger] payload_kept(a, b, s)
}

/// What closing the gap at position `p` does to the links of position `q`.
spec fn gap_closed<K, V>(
    a: Seq<Option<Node<K, V>>>,
    b: Seq<Option<Node<K, V>>>,
    order: Seq<usize>,
    p: int,
    q: int,
) -> bool {
    &&& b[order[q] as int]->0.next == (if q == p - 1 {
        a[order[p] as int]->0.next
    } else {
        a[order[q] as int]->0.next
    })
    &&& b[order[q] as int]->0.prev == (if q == p + 1 {
        a[order[p] as int]->0.prev
    } else {
        a[order[q] as int]->0.prev
    })
}

/// What hanging `slot` behind the tail does to the links of position `q`.
spec fn tail_moved<K, V>(
    a: Seq<Option<Node<K, V>>>,
    b: Seq<Option<Node<K, V>>>,
    order: Seq<usize>,
    slot: usize,
    q: int,
) -> bool {
    &&& b[order[q] as int]->0.next == (if q == order.len() - 1 {
        Some(slot)
    } else {
        a[order[q] as int]->0.next
    })
    &&& b[order[q] as int]->0.prev == a[order[q] as int]->0.prev
}

/// A slot of a linked chain holds a node, and has a position in the chain.
proof fn lemma_chain_slot<K, V>(nodes: Seq<Option<Node<K, V>>>, order: Seq<usize>, slot: usize)
    requires
        links_ok(nodes, order),
        order.contains(slot),
    ensures
        live(nodes, slot),
        0 <= order.index_of(slot) < order.len(),
        order[order.index_of(slot)] == slot,
        link_holds(nodes, order, order.index_of(slot)),
{
    let q = order.index_of(slot);
    assert(order[q] == slot);
    assert(link_holds(nodes, order, q));
}

/// Which slots are taken does not depend on the links.
proof fn lemma_slots_ok_payload<K, V>(
    a: Seq<Option<Node<K, V>>>,
    b: Seq<Option<Node<K, V>>>,
    order: Seq<usize>,
    free: Seq<usize>,
    loose: Option<usize>,
)
    requires
        slots_ok(a, order, free, loose),
        same_payload(a, b),
    ensures
        slots_ok(b, order, free, loose),
{
    assert forall|s: usize| #[trigger] live(b, s) <==> order.contains(s) || loose == Some(s) by {
        assert(live(a, s) <==> order.contains(s) || loose == Some(s));
        if s < a.len() {
            assert(payload_kept(a, b, s as int));
        }
    }
    assert forall|s: usize| #[trigger] vacant(b, s) <==> free.contains(s) by {
        assert(vacant(a, s) <==> free.contains(s));
        if s < a.len() {
            assert(payload_kept(a, b, s as int));
        }
    }
}

/// Closing the gap around position `p` links the rest of the chain.
proof fn lemma_detach_links<K, V>(
    a: Seq<Option<Node<K, V>>>,
    b: Seq<Option<Node<K, V>>>,
    order: Seq<usize>,
    p: int,
)
    requires
        links_ok(a, order),
        0 <= p < order.len(),
        same_payload(a, b),
        forall|q: int| 0 <= q < order.len() && q != p ==> #[trigger] gap_closed(a, b, order, p, q),
    ensures
        links_ok(b, order.remove(p)),
{
    let rest = order.remove(p);
    assert(link_holds(a, order, p));
    assert forall|q: int| 0 <= q < rest.len() implies #[trigger] link_holds(b, rest, q) by {
        let oq = if q < p { q } else { q + 1 };
        assert(rest[q] == order[oq]);
        assert(link_holds(a, order, oq));
        assert(gap_closed(a, b, order, p, oq));
        assert(payload_kept(a, b, order[oq] as int));
        if q > 0 {
            assert(rest[q - 1] == order[if q - 1 < p { q - 1 } else { q }]);
        }
        if q < rest.len() - 1 {
            assert(rest[q + 1] == order[if q + 1 < p { q + 1 } else { q + 2 }]);
        }
    }
}

/// Hanging the loose `slot` behind the tail links the longer chain.
proof fn lemma_attach_links<K, V>(
    a: Seq<Option<Node<K, V>>>,
    b: Seq<Option<Node<K, V>>>,
    order: Seq<usize>,
    slot: usize,
)
    requires
        links_ok(a, order),
        live(a, slot),
        same_payload(a, b),
        b[slot as int]->0.prev == (if order.len() == 0 {
            None
        } else {
            Some(order[order.len() - 1])
        }),
        b[slot as int]->0.next.is_none(),
        forall|q: int| 0 <= q < order.len() ==> #[trigger] tail_moved(a, b, order, slot, q),
    ensures
        links_ok(b, order.push(slot)),
{
    let grown = order.push(slot);
    assert(payload_kept(a, b, slot as int));
    assert forall|q: int| 0 <= q < grown.len() implies #[trigger] link_holds(b, grown, q) by {
        if q < order.len() {
            assert(grown[q] == order[q]);
            assert(link_holds(a, order, q));
            assert(tail_moved(a, b, order, slot, q));
            assert(payload_kept(a, b, order[q] as int));
            if q > 0 {
                assert(grown[q - 1] == order[q - 1]);
            }
            if q < order.len() - 1 {
                assert(grown[q + 1] == order[q + 1]);
            }
        } else {
            assert(grown[q] == slot);
            if q > 0 {
                assert(grown[q - 1] == order[q - 1]);
            }
        }
    }
}

/// A change of slots outside the chain leaves the chain linked.
proof fn lemma_links_frame<K, V>(
    a: Seq<Option<Node<K, V>>>,
    b: Seq<Option<Node<K, V>>>,
    order: Seq<usize>,
    slot: usize,
)
    requires
        links_ok(a, order),
        !order.contains(slot),
        a.len() <= b.len(),
        forall|s: int| 0 <= s < a.len() && s != slot ==> #[trigger] b[s] == a[s],
    ensures
        links_ok(b, order),
{
    assert forall|q: int| 0 <= q < order.len() implies #[trigger] link_holds(b, order, q) by {
        assert(link_holds(a, order, q));
        assert(order.contains(order[q]));
    }
}

/// Taking a slot into use: the last of the spare slots, or a new slot at the
/// end of the arena where none is spare.
proof fn lemma_slot_taken<K, V>(
    a: Seq<Option<Node<K, V>>>,
    b: Seq<Option<Node<K, V>>>,
    order: Seq<usize>,
    free: Seq<usize>,
    slot: usize,
)
    requires
        links_ok(a, order),
        slots_ok(a, order, free, None),
        if free.len() > 0 {
            slot == free.last() && b.len() == a.len()
        } else {
            slot == a.len() && b.len() == a.len() + 1
        },
        b[slot as int] is Some,
        forall|s: int| 0 <= s < a.len() && s != slot ==> #[trigger] b[s] == a[s],
    ensures
        !order.contains(slot),
        links_ok(b, order),
        slots_ok(b, order, if free.len() > 0 { free.drop_last() } else { free }, Some(slot)),
{
    let rest = if free.len() > 0 { free.drop_last() } else { free };
    if free.len() > 0 {
        assert(free[free.len() - 1] == slot);
        assert(free.contains(slot));
        assert(vacant(a, slot));
    }
    assert(live(a, slot) <==> order.contains(slot));
    lemma_links_frame(a, b, order, slot);
    assert forall|s: usize| #[trigger] live(b, s) <==> order.contains(s) || Some(slot) == Some(
        s,
    ) by {
        assert(live(a, s) <==> order.contains(s));
        if s < a.len() && s != slot {
            assert(b[s as int] == a[s as int]);
        }
    }
    assert forall|s: usize| #[trigger] vacant(b, s) <==> rest.contains(s) by {
        assert(vacant(a, s) <==> free.contains(s));
        if s < a.len() && s != slot {
            assert(b[s as int] == a[s as int]);
        }
        if free.contains(s) && s != slot {
            let f = free.index_of(s);
            assert(free[f] == s);
            assert(rest[f] == s);
        }
        if rest.contains(s) {
            let f = rest.index_of(s);
            assert(rest[f] == s);
            assert(free[f] == s);
            if free.len() > 0 {
                assert(free[f] != free[free.len() - 1]);
            }
        }
    }
}

/// Giving the loose slot back: it holds nothing any more and is spare.
proof fn lemma_slot_released<K, V>(
    a: Seq<Option<Node<K, V>>>,
    b: Seq<Option<Node<K, V>>>,
    order: Seq<usize>,
    free: Seq<usize>,
    slot: usize,
)
    requires
        links_ok(a, order),
        slots_ok(a, order, free, Some(slot)),
        b == a.update(slot as int, None),
    ensures
        links_ok(b, order),
        slots_ok(b, order, free.push(slot), None),
{
    assert(live(a, slot));
    assert(vacant(a, slot) <==> free.contains(slot));
    lemma_links_frame(a, b, order, slot);
    lemma_push_keeps_distinct(free, slot);
    assert forall|s: usize| #[trigger] live(b, s) <==> order.contains(s) || None::<usize> == Some(
        s,
    ) by {
        assert(live(a, s) <==> order.contains(s) || Some(slot) == Some(s));
    }
    assert forall|s: usize| #[trigger] vacant(b, s) <==> free.push(slot).contains(s) by {
        assert(vacant(a, s) <==> free.contains(s));
    }
}

impl<K, V> ConcurrentLL<K, V> {
    /// The slots of the chain in order, from the head to the tail.
    pub closed spec fn slots(&self) -> Seq<usize> {
        self.order@
    }

    /// The key and the value that `slot` holds.
    pub closed spec fn entry(&self, slot: usize) -> (K, V) {
        (self.nodes[slot as int]->0.k, self.nodes[slot as int]->0.v)
    }

    /// The entries of the chain in order, from the head to the tail.
    pub open spec fn view(&self) -> Seq<(K, V)> {
        Seq::new(self.slots().len(), |p: int| self.entry(self.slots()[p]))
    }

    /// The chain is sound but for `loose`: a slot that holds an entry and is
    /// in no chain at the moment.
    closed spec fn linked(&self, loose: Option<usize>) -> bool {
        let order = self.order@;
        &&& links_ok(self.nodes@, order)
        &&& slots_ok(self.nodes@, order, self.free@, loose)
        &&& self.head == (if order.len() == 0 {
            None
        } else {
            Some(order[0])
        })
        &&& self.tail == (if order.len() == 0 {
            None
        } else {
            Some(order[order.len() - 1])
        })
    }

    /// The chain is sound: walking the links from the head visits the slots
    /// of `slots()` in order, each once, and ends at the tail; the slots that
    /// hold no entry are exactly those kept for reuse.
    pub closed spec fn wf(&self) -> bool {
        self.linked(None)
    }

    /// An empty chain.
    pub fn new() -> (list: Self)
        ensures
            list.wf(),
            list.slots() == Seq::<usize>::empty(),
            list@ == Seq::<(K, V)>::empty(),
    {
        let list = Self {
            nodes: Vec::new(),
            free: Vec::new(),
            head: None,
            tail: None,
            order: Ghost(Seq::empty()),
        };
        proof {
            assert forall|s: usize| #[trigger] live(list.nodes@, s) <==> list.order@.contains(s)
                || None::<usize> == Some(s) by {}
            assert forall|s: usize| #[trigger] vacant(list.nodes@, s) <==> list.free@.contains(
                s,
            ) by {}
            assert(list@ =~= Seq::<(K, V)>::empty());
        }
        list
    }

    /// Whether the chain holds no entry.
    pub fn is_empty(&self) -> (b: bool)
        requires
            self.wf(),
        ensures
            b == (self.slots().len() == 0),
    {
        self.head.is_none()
    }

    /// The slot at the head of the chain: the least recently used entry.
    pub fn head_slot(&self) -> (slot: Option<usize>)
        requires
            self.wf(),
        ensures
            slot == (if self.slots().len() == 0 {
                None
            } else {
                Some(self.slots()[0])
            }),
    {
        self.head
    }

    /// The slot at the tail of the chain: the most recently used entry.
    pub fn tail_slot(&self) -> (slot: Option<usize>)
        requires
            self.wf(),
        ensures
            slot == (if self.slots().len() == 0 {
                None
            } else {
                Some(self.slots().last())
            }),
    {
        self.tail
    }

    /// The key that `slot` holds.
    pub fn key_at(&self, slot: usize) -> (k: &K)
        requires
            self.wf(),
            self.slots().contains(slot),
        ensures
            *k == self.entry(slot).0,
    {
        proof {
            lemma_chain_slot(self.nodes@, self.order@, slot);
        }
        let node = self.nodes[slot].as_ref().unwrap();
        &node.k
    }

    /// The value that `slot` holds.
    pub fn value_at(&self, slot: usize) -> (v: &V)
        requires
            self.wf(),
            self.slots().contains(slot),
        ensures
            *v == self.entry(slot).1,
    {
        proof {
            lemma_chain_slot(self.nodes@, self.order@, slot);
        }
        let node = self.nodes[slot].as_ref().unwrap();
        &node.v
    }

    /// The slot after `slot` in the chain, if there is one.
    pub fn next_slot(&self, slot: usize) -> (next: Option<usize>)
        requires
            self.wf(),
            self.slots().contains(slot),
        ensures
            next == link_after(self.slots(), self.slots().index_of(slot)),
    {
        proof {
            lemma_chain_slot(self.nodes@, self.order@, slot);
        }
        let node = self.nodes[slot].as_ref().unwrap();
        node.next
    }

    /// Walks the chain along its links, from the head to the tail, and
    /// returns the slots in the order in which it meets them.
    pub fn walk(&self) -> (met: Vec<usize>)
        requires
            self.wf(),
        ensures
            met@ == self.slots(),
    {
        let ghost order = self.order@;
        let mut met: Vec<usize> = Vec::new();
        let mut at = self.head;
        while at.is_some()
            invariant
                self.wf(),
                order == self.order@,
                met.len() <= order.len(),
                met@ == order.subrange(0, met.len() as int),
                at == (if met.len() == order.len() {
                    None
                } else {
                    Some(order[met.len() as int])
                }),
            decreases order.len() - met.len(),
        {
            let slot = at.unwrap();
            proof {
                let p = met.len() as int;
                assert(order[p] == slot);
                assert(order.contains(slot));
                let q = order.index_of(slot);
                assert(order[q] == slot);
                assert(q == p);
            }
            at = self.next_slot(slot);
            met.push(slot);
            assert(met@ =~= order.subrange(0, met.len() as int));
        }
        assert(order.subrange(0, order.len() as int) =~= order);
        met
    }

    /// Sets the link from `slot` to the node after it.
    fn set_next(&mut self, slot: usize, next: Option<usize>)
        requires
            live(old(self).nodes@, slot),
        ensures
            final(self).nodes@ == old(self).nodes@.update(
                slot as int,
                Some(Node { next, ..old(self).nodes[slot as int]->0 }),
            ),
            final(self).free == old(self).free,
            final(self).head == old(self).head,
            final(self).tail == old(self).tail,
            final(self).order == old(self).order,
    {
        match &mut self.nodes[slot] {
            Some(n) => {
                n.next = next;
            },
            None => {},
        }
    }

    /// Sets the link from `slot` to the node before it.
    fn set_prev(&mut self, slot: usize, prev: Option<usize>)
        requires
            live(old(self).nodes@, slot),
        ensures
            final(self).nodes@ == old(self).nodes@.update(
                slot as int,
                Some(Node { prev, ..old(self).nodes[slot as int]->0 }),
            ),
            final(self).free == old(self).free,
            final(self).head == old(self).head,
            final(self).tail == old(self).tail,
            final(self).order == old(self).order,
    {
        match &mut self.nodes[slot] {
            Some(n) => {
                n.prev = prev;
            },
            None => {},
        }
    }

    /// Takes `slot` out of the chain and closes the gap; the entry stays in
    /// its slot.
    fn detach(&mut self, slot: usize)
        requires
            old(self).linked(None),
            old(self).order@.contains(slot),
        ensures
            final(self).linked(Some(slot)),
            final(self).order@ == old(self).order@.remove(old(self).order@.index_of(slot)),
            same_payload(old(self).nodes@, final(self).nodes@),
    {
        let ghost order = self.order@;
        let ghost p = order.index_of(slot);
        let ghost a = self.nodes@;
        proof {
            lemma_chain_slot(a, order, slot);
            lemma_remove_keeps_rest(order, p);
        }
        let node = self.nodes[slot].as_ref().unwrap();
        let prev = node.prev;
        let next = node.next;
        match prev {
            Some(before) => {
                assert(before == order[p - 1]);
                assert(link_holds(a, order, p - 1));
                self.set_next(before, next);
            },
            None => {
                self.head = next;
            },
        }
        match next {
            Some(after) => {
                assert(after == order[p + 1]);
                assert(link_holds(a, order, p + 1));
                self.set_prev(after, prev);
            },
            None => {
                self.tail = prev;
            },
        }
        self.order = Ghost(order.remove(p));
        proof {
            let b = self.nodes@;
            assert forall|s: int| 0 <= s < a.len() implies #[trigger] payload_kept(a, b, s) by {}
            assert forall|q: int| 0 <= q < order.len() && q != p implies #[trigger] gap_closed(
                a,
                b,
                order,
                p,
                q,
            ) by {
                assert(link_holds(a, order, q));
                assert(order[q] != order[p]);
                if p > 0 {
                    assert(order[q] == order[p - 1] ==> q == p - 1);
                }
                if p < order.len() - 1 {
                    assert(order[q] == order[p + 1] ==> q == p + 1);
                }
            }
            lemma_detach_links(a, b, order, p);
            lemma_slots_ok_payload(a, b, order, self.free@, None);
            let rest = order.remove(p);
            assert forall|s: usize| #[trigger] live(b, s) <==> rest.contains(s) || Some(slot)
                == Some(s) by {
                assert(live(b, s) <==> order.contains(s) || None::<usize> == Some(s));
            }
            if rest.len() > 0 {
                assert(rest[0] == order[if p == 0 { 1int } else { 0int }]);
                assert(rest[rest.len() - 1] == order[if p == order.len() - 1 {
                    order.len() - 2
                } else {
                    order.len() - 1
                }]);
            }
        }
    }

    /// Links the loose `slot` behind the tail of the chain.
    fn attach(&mut self, slot: usize)
        requires
            old(self).linked(Some(slot)),
        ensures
            final(self).linked(None),
            final(self).order@ == old(self).order@.push(slot),
            same_payload(old(self).nodes@, final(self).nodes@),
    {
        let ghost order = self.order@;
        let ghost a = self.nodes@;
        proof {
            lemma_push_keeps_distinct(order, slot);
            assert(live(a, slot));
        }
        let last = self.tail;
        self.set_prev(slot, last);
        self.set_next(slot, None);
        match last {
            Some(t) => {
                assert(t == order[order.len() - 1]);
                assert(link_holds(a, order, order.len() - 1));
                assert(order.contains(t));
                self.set_next(t, Some(slot));
            },
            None => {
                self.head = Some(slot);
            },
        }
        self.tail = Some(slot);
        self.order = Ghost(order.push(slot));
        proof {
            let b = self.nodes@;
            assert forall|s: int| 0 <= s < a.len() implies #[trigger] payload_kept(a, b, s) by {}
            assert forall|q: int| 0 <= q < order.len() implies #[trigger] tail_moved(
                a,
                b,
                order,
                slot,
                q,
            ) by {
                assert(link_holds(a, order, q));
                assert(order.contains(order[q]));
                assert(order[q] == order[order.len() - 1] ==> q == order.len() - 1);
            }
            lemma_attach_links(a, b, order, slot);
            lemma_slots_ok_payload(a, b, order, self.free@, Some(slot));
            let grown = order.push(slot);
            assert forall|s: usize| #[trigger] live(b, s) <==> grown.contains(s) || None::<usize>
                == Some(s) by {
                assert(live(b, s) <==> order.contains(s) || Some(slot) == Some(s));
            }
            assert(grown[0] == (if order.len() == 0 {
                slot
            } else {
                order[0]
            }));
            assert(grown[grown.len() - 1] == slot);
        }
    }

    /// Appends an entry at the tail of the chain and returns the slot that
    /// holds it from now on.
    pub fn push_tail(&mut self, k: K, v: V) -> (slot: usize)
        requires
            old(self).wf(),
        ensures
            final(self).wf(),
            !old(self).slots().contains(slot),
            final(self).slots() == old(self).slots().push(slot),
            final(self).entry(slot) == (k, v),
            forall|s: usize|
                old(self).slots().contains(s) ==> #[trigger] final(self).entry(s) == old(
                    self,
                ).entry(s),
            final(self)@ == old(self)@.push((k, v)),
    {
        let ghost order = self.order@;
        let ghost a = self.nodes@;
        let ghost spare = self.free@;
        let node = Node::new(k, v);
        let slot = match self.free.pop() {
            Some(s) => {
                proof {
                    assert(spare[spare.len() - 1] == s);
                    assert(spare.contains(s));
                    assert(vacant(a, s));
                }
                self.nodes[s] = Some(node);
                s
            },
            None => {
                self.nodes.push(Some(node));
                self.nodes.len() - 1
            },
        };
        let ghost b = self.nodes@;
        proof {
            lemma_slot_taken(a, b, order, spare, slot);
        }
        self.attach(slot);
        proof {
            let c = self.nodes@;
            assert(payload_kept(b, c, slot as int));
            assert forall|s: usize| order.contains(s) implies #[trigger] self.entry(s) == old(
                self,
            ).entry(s) by {
                lemma_chain_slot(a, order, s);
                assert(payload_kept(b, c, s as int));
            }
            let grown = old(self)@.push((k, v));
            assert forall|i: int| 0 <= i < grown.len() implies self@[i] == grown[i] by {
                if i < order.len() {
                    assert(order.contains(order[i]));
                }
            }
            assert(self@ =~= grown);
        }
        slot
    }

    /// Removes `slot` from wherever it sits in the chain and returns its
    /// entry. The slot holds nothing afterwards and may be handed out again.
    pub fn unlink(&mut self, slot: usize) -> (e: (K, V))
        requires
            old(self).wf(),
            old(self).slots().contains(slot),
        ensures
            final(self).wf(),
            final(self).slots() == old(self).slots().remove(old(self).slots().index_of(slot)),
            e == old(self).entry(slot),
            forall|s: usize|
                old(self).slots().contains(s) && s != slot ==> #[trigger] final(self).entry(s)
                    == old(self).entry(s),
            e == old(self)@[old(self).slots().index_of(slot)],
            final(self)@ == old(self)@.remove(old(self).slots().index_of(slot)),
    {
        let ghost a = self.nodes@;
        proof {
            lemma_chain_slot(a, self.order@, slot);
        }
        self.detach(slot);
        let ghost mid = self.nodes@;
        let ghost spare = self.free@;
        let ghost order = self.order@;
        proof {
            assert(payload_kept(a, mid, slot as int));
        }
        let mut taken = None;
        std::mem::swap(&mut self.nodes[slot], &mut taken);
        self.free.push(slot);
        proof {
            let b = self.nodes@;
            lemma_slot_released(mid, b, order, spare, slot);
            assert forall|s: usize| old(self).slots().contains(s) && s != slot implies #[trigger] self.entry(
                s,
            ) == old(self).entry(s) by {
                lemma_chain_slot(a, old(self).order@, s);
                assert(payload_kept(a, mid, s as int));
            }
            let before = old(self).order@;
            let p = before.index_of(slot);
            let rest = old(self)@.remove(p);
            assert forall|i: int| 0 <= i < rest.len() implies self@[i] == rest[i] by {
                let oi = if i < p { i } else { i + 1 };
                assert(order[i] == before[oi]);
                assert(before.contains(before[oi]));
                assert(before[oi] != before[p]);
            }
            assert(self@ =~= rest);
        }
        let node = taken.unwrap();
        (node.k, node.v)
    }

    /// Removes the head of the chain, the least recently used entry, and
    /// returns it; `None` when the chain is empty.
    pub fn pop_head(&mut self) -> (e: Option<(K, V)>)
        requires
            old(self).wf(),
        ensures
            final(self).wf(),
            old(self).slots().len() == 0 ==> e.is_none() && final(self).slots() == old(
                self,
            ).slots(),
            old(self).slots().len() > 0 ==> e == Some(old(self).entry(old(self).slots()[0]))
                && final(self).slots() == old(self).slots().drop_first(),
            forall|s: usize|
                final(self).slots().contains(s) ==> #[trigger] final(self).entry(s) == old(
                    self,
                ).entry(s),
            old(self)@.len() == 0 ==> e.is_none() && final(self)@ == old(self)@,
            old(self)@.len() > 0 ==> e == Some(old(self)@[0]) && final(self)@ == old(
                self,
            )@.drop_first(),
    {
        match self.head {
            None => None,
            Some(first) => {
                proof {
                    let order = self.order@;
                    assert(order[0] == first);
                    assert(order.index_of(first) == 0) by {
                        let i = order.index_of(first);
                        assert(order.contains(first));
                        assert(order[i] == first);
                    }
                    assert(order.remove(0) =~= order.drop_first());
                    assert(self@.remove(0) =~= self@.drop_first());
                    lemma_remove_keeps_rest(order, 0);
                }
                Some(self.unlink(first))
            },
        }
    }

    /// Moves `slot` to the tail of the chain: its entry becomes the most
    /// recently used. The entry keeps its slot.
    pub fn move_to_tail(&mut self, slot: usize)
        requires
            old(self).wf(),
            old(self).slots().contains(slot),
        ensures
            final(self).wf(),
            final(self).slots() == old(self).slots().remove(
                old(self).slots().index_of(slot),
            ).push(slot),
            forall|s: usize|
                old(self).slots().contains(s) ==> #[trigger] final(self).entry(s) == old(
                    self,
                ).entry(s),
            final(self)@ == old(self)@.remove(old(self).slots().index_of(slot)).push(
                old(self)@[old(self).slots().index_of(slot)],
            ),
    {
        let ghost a = self.nodes@;
        self.detach(slot);
        let ghost mid = self.nodes@;
        self.attach(slot);
        proof {
            let b = self.nodes@;
            assert forall|s: usize| old(self).slots().contains(s) implies #[trigger] self.entry(s)
                == old(self).entry(s) by {
                lemma_chain_slot(a, old(self).order@, s);
                assert(payload_kept(a, mid, s as int));
                assert(payload_kept(mid, b, s as int));
            }
            let before = old(self).order@;
            let p = before.index_of(slot);
            lemma_chain_slot(a, before, slot);
            let turned = old(self)@.remove(p).push(old(self)@[p]);
            assert forall|i: int| 0 <= i < turned.len() implies self@[i] == turned[i] by {
                let oi = if i == turned.len() - 1 { p } else if i < p { i } else { i + 1 };
                assert(self.order@[i] == before[oi]);
                assert(before.contains(before[oi]));
            }
            assert(self@ =~= turned);
        }
    }

    /// Puts `v` in place of the value that `slot` holds and returns the old
    /// value. The chain keeps its order.
    pub fn replace_value(&mut self, slot: usize, v: V) -> (old_v: V)
        requires
            old(self).wf(),
            old(self).slots().contains(slot),
        ensures
            final(self).wf(),
            final(self).slots() == old(self).slots(),
            old_v == old(self).entry(slot).1,
            final(self).entry(slot) == (old(self).entry(slot).0, v),
            forall|s: usize|
                old(self).slots().contains(s) && s != slot ==> #[trigger] final(self).entry(s)
                    == old(self).entry(s),
            old_v == old(self)@[old(self).slots().index_of(slot)].1,
            final(self)@ == old(self)@.update(
                old(self).slots().index_of(slot),
                (old(self)@[old(self).slots().index_of(slot)].0, v),
            ),
    {
        let ghost a = self.nodes@;
        let ghost order = self.order@;
        let mut held = v;
        proof {
            lemma_chain_slot(a, order, slot);
        }
        match &mut self.nodes[slot] {
            Some(n) => {
                std::mem::swap(&mut n.v, &mut held);
            },
            None => {},
        }
        proof {
            let b = self.nodes@;
            assert forall|q: int| 0 <= q < order.len() implies #[trigger] link_holds(
                b,
                order,
                q,
            ) by {
                assert(link_holds(a, order, q));
            }
            assert forall|s: usize| #[trigger] live(b, s) <==> order.contains(s) || None::<usize>
                == Some(s) by {
                assert(live(a, s) <==> order.contains(s) || None::<usize> == Some(s));
            }
            assert forall|s: usize| #[trigger] vacant(b, s) <==> self.free@.contains(s) by {
                assert(vacant(a, s) <==> self.free@.contains(s));
            }
            assert forall|s: usize| order.contains(s) && s != slot implies #[trigger] self.entry(s)
                == old(self).entry(s) by {
                lemma_chain_slot(a, order, s);
            }
            let p = order.index_of(slot);
            let changed = old(self)@.update(p, (old(self)@[p].0, v));
            assert forall|i: int| 0 <= i < changed.len() implies self@[i] == changed[i] by {
                assert(order.contains(order[i]));
                if i != p {
                    assert(order[i] != order[p]);
                }
            }
            assert(self@ =~= changed);
        }
        held
    }
}

} // verus!
