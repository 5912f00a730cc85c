use crate::map_like::{HashMapWrap, MapLike};
use vstd::prelude::*;

verus! {

/// An item that carries its own priority; smaller comes out first.
pub trait HasPriority: Sized {
    spec fn spec_priority(&self) -> int;

    /// The item with its priority replaced by `p`.
    spec fn spec_with_priority(&self, p: usize) -> Self;

    proof fn lemma_with_priority(&self, p: usize)
        ensures
            self.spec_with_priority(p).spec_priority() == p as int,
    ;

    fn priority(&self) -> (p: usize)
        ensures
            p as int == self.spec_priority(),
    ;

    fn set_priority(&mut self, p: usize)
        ensures
            *final(self) == old(self).spec_with_priority(p),
    ;
}

impl HasPriority for usize {
    open spec fn spec_priority(&self) -> int {
        *self as int
    }

    open spec fn spec_with_priority(&self, p: usize) -> usize {
        p
    }

    proof fn lemma_with_priority(&self, p: usize) {
    }

    fn priority(&self) -> (p: usize) {
        *self
    }

    fn set_priority(&mut self, p: usize) {
        *self = p;
    }
}

/// An entry of the queue: the item and the key it is filed under.
#[derive(Clone, Copy, Debug)]
pub struct HeapNode<V> {
    pub item: V,
    pub key: usize,
}

pub open spec fn parent(i: int) -> int {
    (i - 1) / 2
}

pub open spec fn prio<V: HasPriority>(s: Seq<HeapNode<V>>, i: int) -> int {
    s[i].item.spec_priority()
}

/// Every entry is no smaller than its parent.
pub open spec fn is_heap<V: HasPriority>(s: Seq<HeapNode<V>>) -> bool {
    forall|j: int| 0 < j < s.len() ==> prio(s, parent(j)) <= #[trigger] prio(s, j)
}

/// A heap but for the link between `ix` and its parent, whose children are no
/// smaller than that parent.
pub open spec fn heap_but_up<V: HasPriority>(s: Seq<HeapNode<V>>, ix: int) -> bool {
    &&& forall|j: int| 0 < j < s.len() && j != ix ==> prio(s, parent(j)) <= #[trigger] prio(s, j)
    &&& ix > 0 ==> forall|j: int|
        0 < j < s.len() && parent(j) == ix ==> prio(s, parent(ix)) <= #[trigger] prio(s, j)
}

/// A heap but for the links between `ix` and its children, which are no smaller
/// than the parent of `ix`.
pub open spec fn heap_but_down<V: HasPriority>(s: Seq<HeapNode<V>>, ix: int) -> bool {
    &&& forall|j: int|
        0 < j < s.len() && parent(j) != ix ==> prio(s, parent(j)) <= #[trigger] prio(s, j)
    &&& ix > 0 ==> forall|j: int|
        0 < j < s.len() && parent(j) == ix ==> prio(s, parent(ix)) <= #[trigger] prio(s, j)
}

/// `m` gives the position of each entry of `s`, and nothing else.
pub open spec fn positions_match<V>(s: Seq<HeapNode<V>>, m: Map<usize, usize>) -> bool {
    &&& forall|i: int| 0 <= i < s.len() ==> m.contains_key(#[trigger] s[i].key) && m[s[i].key] == i
    &&& forall|k: usize| #[trigger] m.contains_key(k) ==> m[k] < s.len() && s[m[k] as int].key == k
}

/// The items of a heap by key.
pub open spec fn items_of<V>(s: Seq<HeapNode<V>>, m: Map<usize, usize>) -> Map<usize, V> {
    Map::new(|k: usize| m.contains_key(k), |k: usize| s[m[k] as int].item)
}

/// A minimum priority queue over `usize` keys, as a binary heap of entries with
/// a map from each key to its entry's position.
pub struct PriorityQueue<V, M = HashMapWrap> {
    heap: Vec<HeapNode<V>>,
    positions: M,
}

impl<V: HasPriority + Copy, M: MapLike> View for PriorityQueue<V, M> {
    type V = Map<usize, V>;

    closed spec fn view(&self) -> Map<usize, V> {
        items_of(self.heap@, self.positions.map_view())
    }
}

/// The item under `key` is one of least priority in `m`.
pub open spec fn is_min_of<V: HasPriority>(m: Map<usize, V>, key: usize) -> bool {
    &&& m.contains_key(key)
    &&& forall|k: usize| #[trigger] m.contains_key(k) ==> m[key].spec_priority() <= m[k].spec_priority()
}

/// `node` may come out of a queue holding `before`, leaving `after`.
pub open spec fn pops<V: HasPriority>(before: Map<usize, V>, after: Map<usize, V>, node: HeapNode<V>) -> bool {
    &&& is_min_of(before, node.key)
    &&& before[node.key] == node.item
    &&& after == before.remove(node.key)
}

/// Two pops in a row come out in order of priority.
pub proof fn lemma_pop_order<V: HasPriority>(
    q0: Map<usize, V>,
    q1: Map<usize, V>,
    q2: Map<usize, V>,
    first: HeapNode<V>,
    second: HeapNode<V>,
)
    requires
        pops(q0, q1, first),
        pops(q1, q2, second),
    ensures
        first.item.spec_priority() <= second.item.spec_priority(),
{
    assert(q0.contains_key(second.key));
}

/// The queue state `i` pops into a queue that held each key below `n` under
/// itself: the keys from `i` up.
proof fn lemma_pop_states(qs: Seq<Map<usize, usize>>, nodes: Seq<HeapNode<usize>>, n: nat, i: nat)
    requires
        qs.len() == n + 1,
        nodes.len() == n,
        i <= n,
        forall|k: usize| #[trigger] qs[0].contains_key(k) <==> k < n,
        forall|k: usize| k < n ==> #[trigger] qs[0][k] == k,
        forall|j: int| 0 <= j < n ==> pops(#[trigger] qs[j], qs[j + 1], nodes[j]),
    ensures
        forall|k: usize| #[trigger] qs[i as int].contains_key(k) <==> i <= k < n,
        forall|k: usize| i <= k < n ==> #[trigger] qs[i as int][k] == k,
        i < n ==> nodes[i as int].key == i && nodes[i as int].item == i,
    decreases i,
{
    if i > 0 {
        lemma_pop_states(qs, nodes, n, (i - 1) as nat);
        let j = (i - 1) as int;
        assert(pops(qs[j], qs[j + 1], nodes[j]));
    }
    if i < n {
        let q = qs[i as int];
        let nd = nodes[i as int];
        assert(pops(q, qs[i as int + 1], nd));
        assert(q.contains_key(i as usize));
        assert(q[nd.key].spec_priority() <= q[i as usize].spec_priority());
    }
}

/// Pushing each key below `n` with itself as priority, in any order, and
/// popping `n` times gives the keys `0, 1, ..., n - 1` in turn.
pub proof fn lemma_pops_in_key_order(qs: Seq<Map<usize, usize>>, nodes: Seq<HeapNode<usize>>, n: nat)
    requires
        qs.len() == n + 1,
        nodes.len() == n,
        forall|k: usize| #[trigger] qs[0].contains_key(k) <==> k < n,
        forall|k: usize| k < n ==> #[trigger] qs[0][k] == k,
        forall|j: int| 0 <= j < n ==> pops(#[trigger] qs[j], qs[j + 1], nodes[j]),
    ensures
        forall|i: int| 0 <= i < n ==> (#[trigger] nodes[i]).key == i && nodes[i].item == i,
        qs[n as int].dom().is_empty(),
{
    assert forall|i: int| 0 <= i < n implies (#[trigger] nodes[i]).key == i && nodes[i].item == i by {
        lemma_pop_states(qs, nodes, n, i as nat);
    }
    lemma_pop_states(qs, nodes, n, n);
    assert(qs[n as int].dom() =~= Set::<usize>::empty());
}

proof fn lemma_root_is_min<V: HasPriority>(s: Seq<HeapNode<V>>, i: int)
    requires
        is_heap(s),
        0 <= i < s.len(),
    ensures
        prio(s, 0) <= prio(s, i),
    decreases i,
{
    if i > 0 {
        lemma_root_is_min(s, parent(i));
    }
}

impl<V: HasPriority + Copy, M: MapLike> PriorityQueue<V, M> {
    /// The internal invariant: a heap whose key map gives every position.
    pub closed spec fn wf(&self) -> bool {
        &&& self.positions.inv()
        &&& self.heap@.len() <= self.positions.value_limit()
        &&& forall|i: int| 0 <= i < self.heap@.len() ==> #[trigger] self.heap@[i].key < self.positions.key_limit()
        &&& positions_match(self.heap@, self.positions.map_view())
        &&& is_heap(self.heap@)
    }

    /// Keys below this bound can be filed.
    pub closed spec fn key_limit(&self) -> nat {
        self.positions.key_limit()
    }

    /// The queue can hold this many entries.
    pub closed spec fn size_limit(&self) -> nat {
        self.positions.value_limit()
    }

    pub fn len(&self) -> (r: usize)
        requires
            self.wf(),
        ensures
            r == self@.len(),
            self@.dom().finite(),
            forall|k: usize| #[trigger] self@.contains_key(k) ==> k < self.key_limit(),
    {
        proof {
            self.lemma_len();
        }
        self.heap.len()
    }

    pub fn is_empty(&self) -> (r: bool)
        requires
            self.wf(),
        ensures
            r == (self@.len() == 0),
    {
        self.len() == 0
    }

    /// How many entries the queue holds room for without reallocating.
    pub fn capacity(&self) -> (r: usize)
        requires
            self.wf(),
        ensures
            r >= self@.len(),
    {
        proof {
            self.lemma_len();
        }
        vec_capacity(&self.heap)
    }

    proof fn lemma_len(&self)
        requires
            self.wf(),
        ensures
            self@.len() == self.heap@.len(),
            self@.dom() == self.positions.map_view().dom(),
            self@.dom().finite(),
            forall|k: usize| #[trigger] self@.contains_key(k) ==> k < self.key_limit(),
    {
        let s = self.heap@;
        let m = self.positions.map_view();
        let idx = vstd::set_lib::set_int_range(0, s.len() as int);
        let f = |i: int| s[i].key;
        vstd::set_lib::lemma_int_range(0, s.len() as int);
        assert(self@.dom() =~= m.dom());
        assert(m.dom() =~= idx.map(f)) by {
            assert forall|k: usize| #[trigger] m.contains_key(k) implies idx.map(f).contains(k) by {
                assert(idx.contains(m[k] as int));
                assert(f(m[k] as int) == k);
            }
        }
        assert forall|a: int, b: int|
            idx.contains(a) && idx.contains(b) && #[trigger] f(a) == #[trigger] f(b) implies a == b by {
            assert(m[s[a].key] == a);
            assert(m[s[b].key] == b);
        }
        vstd::set_lib::lemma_map_size(idx, m.dom(), f);
        assert forall|k: usize| #[trigger] self@.contains_key(k) implies k < self.key_limit() by {
            assert(s[m[k] as int].key == k);
        }
    }

    /// A well-formed queue holds finitely many keys, each below `key_limit`.
    pub proof fn lemma_keys_bounded(&self)
        requires
            self.wf(),
        ensures
            self@.dom().finite(),
            forall|k: usize| #[trigger] self@.contains_key(k) ==> k < self.key_limit(),
    {
        self.lemma_len();
    }

    proof fn lemma_min(&self)
        requires
            self.wf(),
            self.heap@.len() > 0,
        ensures
            is_min_of(self@, self.heap@[0].key),
            self@[self.heap@[0].key] == self.heap@[0].item,
    {
        let s = self.heap@;
        let m = self.positions.map_view();
        assert forall|k: usize| #[trigger] self@.contains_key(k) implies self@[s[0].key].spec_priority()
            <= self@[k].spec_priority() by {
            lemma_root_is_min(s, m[k] as int);
        }
    }

    pub fn new_with_map(map: M) -> (r: Self)
        requires
            map.inv(),
            map.map_view() == Map::<usize, usize>::empty(),
        ensures
            r.wf(),
            r@ == Map::<usize, V>::empty(),
            r.key_limit() == map.key_limit(),
            r.size_limit() == map.value_limit(),
    {
        let r = PriorityQueue { heap: Vec::new(), positions: map };
        assert(r@ =~= Map::<usize, V>::empty());
        r
    }

    pub fn new_with_map_and_capacity(map: M, capacity: usize) -> (r: Self)
        requires
            map.inv(),
            map.map_view() == Map::<usize, usize>::empty(),
        ensures
            r.wf(),
            r@ == Map::<usize, V>::empty(),
            r.key_limit() == map.key_limit(),
            r.size_limit() == map.value_limit(),
    {
        let r = PriorityQueue { heap: Vec::with_capacity(capacity), positions: map };
        assert(r@ =~= Map::<usize, V>::empty());
        r
    }

    pub fn contains_key(&self, key: &usize) -> (r: bool)
        requires
            self.wf(),
            *key < self.key_limit(),
        ensures
            r == self@.contains_key(*key),
    {
        self.positions.contains_key(key)
    }

    /// The entry filed under `key`, if any.
    pub fn get(&self, key: &usize) -> (r: Option<HeapNode<V>>)
        requires
            self.wf(),
            *key < self.key_limit(),
        ensures
            r == (if self@.contains_key(*key) {
                Some(HeapNode { item: self@[*key], key: *key })
            } else {
                None
            }),
    {
        match self.positions.get(key) {
            Some(ix) => {
                let node = self.heap[ix];
                assert(node.key == *key);
                Some(node)
            },
            None => None,
        }
    }

    /// Exchanges the entries at `a` and `b` and records their new positions.
    fn swap_entries(&mut self, a: usize, b: usize)
        requires
            old(self).positions.inv(),
            a < old(self).heap@.len(),
            b < old(self).heap@.len(),
            old(self).heap@.len() <= old(self).positions.value_limit(),
            forall|i: int| 0 <= i < old(self).heap@.len() ==> #[trigger] old(self).heap@[i].key < old(self).positions.key_limit(),
            positions_match(old(self).heap@, old(self).positions.map_view()),
        ensures
            final(self).positions.inv(),
            final(self).heap@ == old(self).heap@.update(a as int, old(self).heap@[b as int]).update(
                b as int,
                old(self).heap@[a as int],
            ),
            final(self).positions.key_limit() == old(self).positions.key_limit(),
            final(self).positions.value_limit() == old(self).positions.value_limit(),
            positions_match(final(self).heap@, final(self).positions.map_view()),
            final(self)@ == old(self)@,
    {
        let ghost s = self.heap@;
        let ghost m = self.positions.map_view();
        let node_a = self.heap[a];
        let node_b = self.heap[b];
        self.heap[a] = node_b;
        self.heap[b] = node_a;
        self.positions.set(node_b.key, a);
        self.positions.set(node_a.key, b);
        proof {
            let s2 = self.heap@;
            let m2 = self.positions.map_view();
            assert(m[s[a as int].key] == a);
            assert(m[s[b as int].key] == b);
            assert forall|i: int| 0 <= i < s2.len() implies #[trigger] m2.contains_key(s2[i].key)
                && m2[s2[i].key] == i by {
                if i != a && i != b {
                    assert(m[s[i].key] == i);
                }
            }
            assert forall|k: usize| #[trigger] m2.contains_key(k) implies m2[k] < s2.len() by {
                if k != node_a.key && k != node_b.key {
                    assert(m.contains_key(k));
                }
            }
            assert(self@ =~= old(self)@);
        }
    }

    fn siftup(&mut self, ix: usize) -> (r: usize)
        requires
            old(self).positions.inv(),
            ix < old(self).heap@.len(),
            old(self).heap@.len() <= old(self).positions.value_limit(),
            forall|i: int| 0 <= i < old(self).heap@.len() ==> #[trigger] old(self).heap@[i].key < old(self).positions.key_limit(),
            positions_match(old(self).heap@, old(self).positions.map_view()),
            heap_but_up(old(self).heap@, ix as int),
        ensures
            final(self).wf(),
            final(self)@ == old(self)@,
            final(self).heap@.len() == old(self).heap@.len(),
            final(self).positions.key_limit() == old(self).positions.key_limit(),
            final(self).positions.value_limit() == old(self).positions.value_limit(),
            r < final(self).heap@.len(),
            final(self).heap@[r as int] == old(self).heap@[ix as int],
    {
        let mut ix = ix;
        let priority = self.heap[ix].item.priority();
        let ghost moving = self.heap@[ix as int];
        while ix > 0
            invariant
                self.positions.inv(),
                ix < self.heap@.len(),
                self.heap@.len() == old(self).heap@.len(),
                self.positions.key_limit() == old(self).positions.key_limit(),
                self.positions.value_limit() == old(self).positions.value_limit(),
                self.heap@.len() <= self.positions.value_limit(),
                forall|i: int| 0 <= i < self.heap@.len() ==> #[trigger] self.heap@[i].key < self.positions.key_limit(),
                positions_match(self.heap@, self.positions.map_view()),
                heap_but_up(self.heap@, ix as int),
                self.heap@[ix as int] == moving,
                priority as int == moving.item.spec_priority(),
                self@ == old(self)@,
            ensures
                is_heap(self.heap@),
            decreases ix,
        {
            let parent_ix = (ix - 1) / 2;
            if priority >= self.heap[parent_ix].item.priority() {
                proof {
                    let s = self.heap@;
                    assert forall|j: int| 0 < j < s.len() implies prio(s, parent(j)) <= #[trigger] prio(s, j) by {
                        if j == ix {
                        }
                    }
                }
                break;
            }
            let ghost s = self.heap@;
            self.swap_entries(ix, parent_ix);
            proof {
                let s2 = self.heap@;
                assert forall|j: int| 0 < j < s2.len() && j != parent_ix implies prio(s2, parent(j))
                    <= #[trigger] prio(s2, j) by {
                    if j == ix {
                    } else if parent(j) == ix {
                        assert(prio(s, parent(j)) <= prio(s, j));
                    } else if parent(j) == parent_ix {
                        assert(prio(s, parent_ix as int) <= prio(s, j));
                    } else {
                        assert(prio(s, parent(j)) <= prio(s, j));
                    }
                }
                if parent_ix > 0 {
                    assert forall|j: int| 0 < j < s2.len() && parent(j) == parent_ix implies prio(
                        s2,
                        parent(parent_ix as int),
                    ) <= #[trigger] prio(s2, j) by {
                        assert(prio(s, parent(parent_ix as int)) <= prio(s, parent_ix as int));
                        if j != ix {
                            assert(prio(s, parent(j)) <= prio(s, j));
                        }
                    }
                }
            }
            ix = parent_ix;
        }
        ix
    }

    fn siftdown(&mut self, ix: usize) -> (r: usize)
        requires
            old(self).positions.inv(),
            ix < old(self).heap@.len(),
            old(self).heap@.len() <= old(self).positions.value_limit(),
            forall|i: int| 0 <= i < old(self).heap@.len() ==> #[trigger] old(self).heap@[i].key < old(self).positions.key_limit(),
            positions_match(old(self).heap@, old(self).positions.map_view()),
            heap_but_down(old(self).heap@, ix as int),
        ensures
            final(self).wf(),
            final(self)@ == old(self)@,
            final(self).heap@.len() == old(self).heap@.len(),
            final(self).positions.key_limit() == old(self).positions.key_limit(),
            final(self).positions.value_limit() == old(self).positions.value_limit(),
            r < final(self).heap@.len(),
            final(self).heap@[r as int] == old(self).heap@[ix as int],
    {
        let mut ix = ix;
        let end_ix = self.heap.len();
        let priority = self.heap[ix].item.priority();
        let ghost moving = self.heap@[ix as int];
        while ix < end_ix / 2
            invariant
                self.positions.inv(),
                ix < self.heap@.len(),
                end_ix == self.heap@.len(),
                self.heap@.len() == old(self).heap@.len(),
                self.positions.key_limit() == old(self).positions.key_limit(),
                self.positions.value_limit() == old(self).positions.value_limit(),
                self.heap@.len() <= self.positions.value_limit(),
                forall|i: int| 0 <= i < self.heap@.len() ==> #[trigger] self.heap@[i].key < self.positions.key_limit(),
                positions_match(self.heap@, self.positions.map_view()),
                heap_but_down(self.heap@, ix as int),
                self.heap@[ix as int] == moving,
                priority as int == moving.item.spec_priority(),
                self@ == old(self)@,
            ensures
                is_heap(self.heap@),
            decreases end_ix - ix,
        {
            let mut child_ix = 2 * ix + 1;
            let right_ix = child_ix + 1;
            if right_ix < end_ix && self.heap[right_ix].item.priority()
                < self.heap[child_ix].item.priority() {
                child_ix = right_ix;
            }
            if self.heap[child_ix].item.priority() >= priority {
                proof {
                    let s = self.heap@;
                    assert forall|j: int| 0 < j < s.len() implies prio(s, parent(j)) <= #[trigger] prio(s, j) by {
                        if parent(j) == ix {
                            assert(j == 2 * ix + 1 || j == 2 * ix + 2);
                        }
                    }
                }
                break;
            }
            let ghost s = self.heap@;
            proof {
                assert(parent(2 * ix + 1) == ix);
                assert(parent(2 * ix + 2) == ix);
            }
            self.swap_entries(ix, child_ix);
            proof {
                let s2 = self.heap@;
                assert forall|j: int| 0 < j < s2.len() && parent(j) != child_ix implies prio(
                    s2,
                    parent(j),
                ) <= #[trigger] prio(s2, j) by {
                    if j == child_ix {
                    } else if j == ix {
                        assert(prio(s, parent(ix as int)) <= prio(s, child_ix as int));
                    } else if parent(j) == ix {
                        assert(j == 2 * ix + 1 || j == 2 * ix + 2);
                    } else {
                        assert(prio(s, parent(j)) <= prio(s, j));
                    }
                }
                assert forall|j: int| 0 < j < s2.len() && parent(j) == child_ix implies prio(
                    s2,
                    parent(child_ix as int),
                ) <= #[trigger] prio(s2, j) by {
                    assert(prio(s, parent(j)) <= prio(s, j));
                }
            }
            ix = child_ix;
        }
        ix
    }

    /// Files `item` under `key`, which must not be in the queue yet.
    pub fn push(&mut self, key: usize, item: V)
        requires
            old(self).wf(),
            !old(self)@.contains_key(key),
            key < old(self).key_limit(),
            old(self)@.len() < old(self).size_limit(),
        ensures
            final(self).wf(),
            final(self)@ == old(self)@.insert(key, item),
            final(self).key_limit() == old(self).key_limit(),
            final(self).size_limit() == old(self).size_limit(),
    {
        proof {
            self.lemma_len();
        }
        let ghost s = self.heap@;
        let ghost m = self.positions.map_view();
        self.heap.push(HeapNode { item, key });
        let ix = self.heap.len() - 1;
        self.positions.insert(key, ix);
        proof {
            let s2 = self.heap@;
            let m2 = self.positions.map_view();
            assert forall|i: int| 0 <= i < s2.len() implies #[trigger] m2.contains_key(s2[i].key)
                && m2[s2[i].key] == i by {
                if i < s.len() {
                    assert(m.contains_key(s[i].key));
                }
            }
            assert(self@ =~= old(self)@.insert(key, item)) by {
                assert forall|k: usize| #[trigger] m.contains_key(k) implies m[k] < s.len() by {}
            }
            assert forall|j: int| 0 < j < s2.len() && j != ix implies prio(s2, parent(j)) <= #[trigger] prio(s2, j) by {
                assert(prio(s, parent(j)) <= prio(s, j));
            }
            assert forall|j: int| 0 < j < s2.len() && parent(j) == ix implies prio(s2, parent(ix as int)) <= #[trigger] prio(s2, j) by {
            }
        }
        self.siftup(ix);
    }

    /// Sets the priority of the item under `key`, which must be in the queue,
    /// and returns the updated entry.
    pub fn update_priority(&mut self, key: usize, priority: usize) -> (r: HeapNode<V>)
        requires
            old(self).wf(),
            old(self)@.contains_key(key),
            key < old(self).key_limit(),
        ensures
            final(self).wf(),
            r.key == key,
            r.item == old(self)@[key].spec_with_priority(priority),
            final(self)@ == old(self)@.insert(key, r.item),
            final(self).key_limit() == old(self).key_limit(),
            final(self).size_limit() == old(self).size_limit(),
    {
        let ix = match self.positions.get(&key) {
            Some(ix) => ix,
            None => {
                proof {
                    assert(false);
                }
                0
            },
        };
        let ghost s = self.heap@;
        let mut node = self.heap[ix];
        let old_priority = node.item.priority();
        let ghost old_item = node.item;
        node.item.set_priority(priority);
        proof {
            old_item.lemma_with_priority(priority);
        }
        self.heap[ix] = node;
        proof {
            let s2 = self.heap@;
            let m = self.positions.map_view();
            assert(self@ =~= old(self)@.insert(key, node.item)) by {
                assert forall|k: usize| #[trigger] m.contains_key(k) && k != key implies m[k] != ix by {}
            }
            if old_priority > priority {
                assert forall|j: int| 0 < j < s2.len() && j != ix implies prio(s2, parent(j)) <= #[trigger] prio(s2, j) by {
                    assert(prio(s, parent(j)) <= prio(s, j));
                }
                if ix > 0 {
                    assert forall|j: int| 0 < j < s2.len() && parent(j) == ix implies prio(s2, parent(ix as int)) <= #[trigger] prio(s2, j) by {
                        assert(prio(s, parent(j)) <= prio(s, j));
                        assert(prio(s, parent(ix as int)) <= prio(s, ix as int));
                    }
                }
            } else {
                assert forall|j: int| 0 < j < s2.len() && parent(j) != ix implies prio(s2, parent(j)) <= #[trigger] prio(s2, j) by {
                    assert(prio(s, parent(j)) <= prio(s, j));
                }
                if ix > 0 {
                    assert forall|j: int| 0 < j < s2.len() && parent(j) == ix implies prio(s2, parent(ix as int)) <= #[trigger] prio(s2, j) by {
                        assert(prio(s, parent(j)) <= prio(s, j));
                        assert(prio(s, parent(ix as int)) <= prio(s, ix as int));
                    }
                }
            }
        }
        if old_priority > priority {
            self.siftup(ix);
        } else {
            self.siftdown(ix);
        }
        node
    }

    /// Lowers the priority of the item under `key`, which must be in the queue,
    /// to `priority` when that is strictly less than its current one. Returns the
    /// updated entry, or `None` when nothing changed.
    pub fn update_priority_if_less(&mut self, key: usize, priority: usize) -> (r: Option<HeapNode<V>>)
        requires
            old(self).wf(),
            old(self)@.contains_key(key),
            key < old(self).key_limit(),
        ensures
            final(self).wf(),
            final(self).key_limit() == old(self).key_limit(),
            final(self).size_limit() == old(self).size_limit(),
            priority < old(self)@[key].spec_priority() ==> r == Some(
                HeapNode { item: old(self)@[key].spec_with_priority(priority), key },
            ) && final(self)@ == old(self)@.insert(key, old(self)@[key].spec_with_priority(priority)),
            priority >= old(self)@[key].spec_priority() ==> r.is_none() && final(self)@ == old(self)@,
    {
        let ix = match self.positions.get(&key) {
            Some(ix) => ix,
            None => {
                proof {
                    assert(false);
                }
                0
            },
        };
        let old_priority = self.heap[ix].item.priority();
        if old_priority <= priority {
            return None;
        }
        Some(self.update_priority(key, priority))
    }

    /// Takes out an entry of least priority, or `None` when the queue is empty.
    pub fn pop(&mut self) -> (r: Option<HeapNode<V>>)
        requires
            old(self).wf(),
        ensures
            final(self).wf(),
            final(self).key_limit() == old(self).key_limit(),
            final(self).size_limit() == old(self).size_limit(),
            old(self)@.len() == 0 ==> r.is_none() && final(self)@ == old(self)@,
            old(self)@.len() > 0 ==> r.is_some() && pops(old(self)@, final(self)@, r.unwrap()),
    {
        proof {
            self.lemma_len();
        }
        let len = self.heap.len();
        if len == 0 {
            return None;
        }
        proof {
            self.lemma_min();
        }
        let ghost q0 = self@;
        self.swap_entries(0, len - 1);
        let ghost s = self.heap@;
        let ghost m = self.positions.map_view();
        let element = match self.heap.pop() {
            Some(e) => e,
            None => {
                proof {
                    assert(false);
                }
                return None;
            },
        };
        self.positions.remove_entry(&element.key);
        proof {
            let s2 = self.heap@;
            let m2 = self.positions.map_view();
            assert(m[element.key] == len - 1);
            assert forall|i: int| 0 <= i < s2.len() implies #[trigger] m2.contains_key(s2[i].key)
                && m2[s2[i].key] == i by {
                assert(m.contains_key(s[i].key) && m[s[i].key] == i);
            }
            assert forall|k: usize| #[trigger] m2.contains_key(k) implies m2[k] < s2.len() by {
                assert(m.contains_key(k));
                if m[k] == len - 1 {
                    assert(s[len - 1].key == k);
                }
            }
            assert(self@ =~= q0.remove(element.key));
        }
        if len == 1 {
            return Some(element);
        }
        proof {
            let s2 = self.heap@;
            assert forall|j: int| 0 < j < s2.len() && parent(j) != 0 implies prio(s2, parent(j)) <= #[trigger] prio(s2, j) by {
                assert(prio(old(self).heap@, parent(j)) <= prio(old(self).heap@, j));
            }
        }
        self.siftdown(0);
        Some(element)
    }

    /// The queue as a source of its entries in order of priority.
    pub fn into_iter(self) -> (r: PriorityQueueIterator<V, M>)
        requires
            self.wf(),
        ensures
            r.priority_queue == self,
    {
        PriorityQueueIterator { priority_queue: self }
    }
}

impl<V: HasPriority + Copy> PriorityQueue<V, HashMapWrap> {
    /// An empty queue keyed through a hash map.
    pub fn new() -> (r: Self)
        ensures
            r.wf(),
            r@ == Map::<usize, V>::empty(),
            r.key_limit() == usize::MAX as nat + 1,
            r.size_limit() == usize::MAX as nat + 1,
    {
        Self::new_with_map(HashMapWrap::new())
    }

    /// An empty queue keyed through a hash map, with room for `capacity`
    /// entries.
    pub fn new_with_capacity(capacity: usize) -> (r: Self)
        ensures
            r.wf(),
            r@ == Map::<usize, V>::empty(),
            r.key_limit() == usize::MAX as nat + 1,
            r.size_limit() == usize::MAX as nat + 1,
    {
        Self::new_with_map_and_capacity(HashMapWrap::new(), capacity)
    }
}

/// Relies on `Vec::capacity`: the room allocated, never less than the length.
#[verifier::external_body]
fn vec_capacity<T>(v: &Vec<T>) -> (r: usize)
    ensures
        r >= v@.len(),
{
    v.capacity()
}

/// Hands out the entries of a queue in order of priority.
pub struct PriorityQueueIterator<V, M = HashMapWrap> {
    pub priority_queue: PriorityQueue<V, M>,
}

impl<V: HasPriority + Copy, M: MapLike> PriorityQueueIterator<V, M> {
    pub fn next(&mut self) -> (r: Option<HeapNode<V>>)
        requires
            old(self).priority_queue.wf(),
        ensures
            final(self).priority_queue.wf(),
            old(self).priority_queue@.len() == 0 ==> r.is_none(),
            old(self).priority_queue@.len() > 0 ==> r.is_some() && pops(
                old(self).priority_queue@,
                final(self).priority_queue@,
                r.unwrap(),
            ),
    {
        self.priority_queue.pop()
    }
}

} // verus!
