use vstd::prelude::*;
use vstd::std_specs::iter::IteratorSpec;

verus! {

/// The characters of `s`, in order.
pub fn chars_of(s: &str) -> (r: Vec<char>)
    ensures
        r@ == s@,
{
    broadcast use vstd::string::axiom_spec_iter;

    let mut result: Vec<char> = Vec::new();
    for c in it: s.chars()
        invariant
            it.seq() == s@,
            result@ == it.seq().take(it.index() as int),
    {
        assert(result@.push(c) =~= it.seq().take(it.index() + 1));
        result.push(c);
    }
    assert(result@ =~= s@);
    result
}

/// A trie under construction: one node per prefix of an inserted word, each
/// holding the items inserted under exactly that word.
pub struct PrefixTrieBuilder<T> {
    children: Vec<Vec<(char, usize)>>,
    leafs: Vec<bool>,
    items: Vec<Vec<T>>,
    prefix: Ghost<Seq<Seq<char>>>,
    parent: Ghost<Seq<(int, int)>>,
    keys: Ghost<Map<Seq<char>, Seq<T>>>,
}

impl<T> View for PrefixTrieBuilder<T> {
    type V = Map<Seq<char>, Seq<T>>;

    /// Each inserted word with the items inserted under it, in order.
    closed spec fn view(&self) -> Map<Seq<char>, Seq<T>> {
        self.keys@
    }
}

impl<T> PrefixTrieBuilder<T> {
    /// The number of nodes: one per distinct prefix of the inserted words.
    pub closed spec fn node_count(&self) -> nat {
        self.children@.len()
    }

    pub closed spec fn wf(&self) -> bool {
        let n = self.children@.len();
        let pre = self.prefix@;
        &&& n >= 1
        &&& self.leafs@.len() == n
        &&& self.items@.len() == n
        &&& pre.len() == n
        &&& self.parent@.len() == n
        &&& pre[0] == Seq::<char>::empty()
        &&& forall|i: int, e: int|
            0 <= i < n && 0 <= e < self.children@[i]@.len() ==> {
                let (c, j) = #[trigger] self.children@[i]@[e];
                &&& i < j < n
                &&& pre[j as int] == pre[i].push(c)
            }
        &&& forall|j: int|
            0 < j < n ==> {
                let (p, e) = #[trigger] self.parent@[j];
                &&& 0 <= p < n
                &&& 0 <= e < self.children@[p]@.len()
                &&& self.children@[p]@[e].1 == j
            }
        &&& forall|a: int, b: int| 0 <= a < n && 0 <= b < n && #[trigger] pre[a] == #[trigger] pre[b] ==> a == b
        &&& forall|i: int, e1: int, e2: int|
            0 <= i < n && 0 <= e1 < self.children@[i]@.len() && 0 <= e2 < self.children@[i]@.len()
                && #[trigger] self.children@[i]@[e1].1 == #[trigger] self.children@[i]@[e2].1 ==> e1 == e2
        &&& forall|i: int| 0 <= i < n ==> (#[trigger] self.leafs@[i] <==> self.keys@.contains_key(pre[i]))
        &&& forall|i: int|
            0 <= i < n ==> #[trigger] self.items@[i]@ == (if self.keys@.contains_key(pre[i]) {
                self.keys@[pre[i]]
            } else {
                Seq::<T>::empty()
            })
        &&& forall|k: Seq<char>| #[trigger] self.keys@.contains_key(k) ==> exists|i: int| 0 <= i < n && pre[i] == k
    }

    /// The words spelled by the nodes, one node per word.
    pub closed spec fn node_words(&self) -> Set<Seq<char>> {
        Set::new(|p: Seq<char>| exists|i: int| 0 <= i < self.children@.len() && self.prefix@[i] == p)
    }

    /// There is one node per word in `node_words`.
    pub proof fn lemma_node_words(&self)
        requires
            self.wf(),
        ensures
            self.node_words().finite(),
            self.node_words().len() == self.node_count(),
    {
        let n = self.children@.len() as int;
        let pre = self.prefix@;
        let idx = vstd::set_lib::set_int_range(0, n);
        let f = |i: int| pre[i];
        vstd::set_lib::lemma_int_range(0, n);
        assert(self.node_words() =~= idx.map(f)) by {
            assert forall|p: Seq<char>| #[trigger] self.node_words().contains(p) implies idx.map(f).contains(p) by {
                let i = choose|i: int| 0 <= i < n && pre[i] == p;
                assert(idx.contains(i) && f(i) == p);
            }
        }
        assert forall|a: int, b: int| idx.contains(a) && idx.contains(b) && #[trigger] f(a) == #[trigger] f(b) implies a == b by {
        }
        vstd::set_lib::lemma_map_size(idx, self.node_words(), f);
    }

    /// An empty trie.
    pub fn new() -> (r: Self)
        ensures
            r.wf(),
            r@ == Map::<Seq<char>, Seq<T>>::empty(),
            r.node_count() == 1,
            r.node_words() == word_prefixes(Seq::<char>::empty()),
    {
        let mut items: Vec<Vec<T>> = Vec::new();
        items.push(Vec::new());
        let r = PrefixTrieBuilder {
            children: vec![Vec::new()],
            leafs: vec![false],
            items,
            prefix: Ghost(Seq::<Seq<char>>::empty().push(Seq::<char>::empty())),
            parent: Ghost(Seq::<(int, int)>::empty().push((0, 0))),
            keys: Ghost(Map::empty()),
        };
        proof {
            assert forall|p: Seq<char>| #[trigger] r.node_words().contains(p) <==> word_prefixes(Seq::<char>::empty()).contains(p) by {
                if word_prefixes(Seq::<char>::empty()).contains(p) {
                    assert(p =~= Seq::<char>::empty());
                    assert(r.prefix@[0] == p);
                }
                if r.node_words().contains(p) {
                    let i = choose|i: int| 0 <= i < r.children@.len() && r.prefix@[i] == p;
                    assert(i == 0);
                    assert(p.len() == 0);
                    assert(Seq::<char>::empty().take(0) =~= p);
                }
            }
            assert(r.node_words() =~= word_prefixes(Seq::<char>::empty()));
        }
        r
    }

    /// The number of nodes, one per distinct prefix of the inserted words.
    pub fn total_nodes(&self) -> (r: usize)
        requires
            self.wf(),
        ensures
            r >= 1,
            r == self.node_count(),
    {
        self.children.len()
    }

    /// The child of `node` reached by `c`, if there is one.
    fn find_child(&self, node: usize, c: char) -> (r: Option<usize>)
        requires
            self.wf(),
            node < self.children@.len(),
        ensures
            r matches Some(j) ==> j < self.children@.len() && self.prefix@[j as int] == self.prefix@[node as int].push(c),
            r is None ==> forall|j: int| 0 <= j < self.children@.len() ==> self.prefix@[j] != self.prefix@[node as int].push(c),
    {
        let kids = &self.children[node];
        let mut e: usize = 0;
        while e < kids.len()
            invariant
                self.wf(),
                node < self.children@.len(),
                kids@ == self.children@[node as int]@,
                e <= kids@.len(),
                forall|f: int| 0 <= f < e ==> (#[trigger] kids@[f]).0 != c,
            decreases kids@.len() - e,
        {
            if kids[e].0 == c {
                assert(self.children@[node as int]@[e as int] == kids@[e as int]);
                return Some(kids[e].1);
            }
            e = e + 1;
        }
        proof {
            let pre = self.prefix@;
            assert forall|j: int| 0 <= j < self.children@.len() implies pre[j] != pre[node as int].push(c) by {
                if pre[j] == pre[node as int].push(c) {
                    if j == 0 {
                        assert(pre[j].len() == 0);
                    } else {
                        let (p, f) = self.parent@[j];
                        let (c2, j2) = self.children@[p]@[f];
                        assert(pre[j] == pre[p].push(c2));
                        assert(pre[p] =~= pre[j].drop_last());
                        assert(pre[node as int] =~= pre[j].drop_last());
                        assert(p == node);
                        assert(c2 == pre[j].last());
                        assert(kids@[f] == (c2, j2));
                    }
                }
            }
        }
        None
    }

    /// Files `item` under `word`.
    pub fn insert(&mut self, word: &str, item: T)
        requires
            old(self).wf(),
            old(self).node_count() + word@.len() <= usize::MAX,
        ensures
            final(self).wf(),
            final(self)@ == old(self)@.insert(
                word@,
                if old(self)@.contains_key(word@) {
                    old(self)@[word@].push(item)
                } else {
                    seq![item]
                },
            ),
            final(self).node_count() <= old(self).node_count() + word@.len(),
            final(self).node_words() == old(self).node_words() + word_prefixes(word@),
    {
        let chars = chars_of(word);
        let mut current: usize = 0;
        let mut i: usize = 0;
        let ghost start_len = self.children@.len();
        proof {
            assert(self.node_words() + word_prefixes(word@.subrange(0, 0)) =~= self.node_words()) by {
                assert forall|p: Seq<char>| word_prefixes(word@.subrange(0, 0)).contains(p) implies self.node_words().contains(p) by {
                    assert(p =~= Seq::<char>::empty());
                    assert(self.prefix@[0] == p);
                }
            }
        }
        while i < chars.len()
            invariant
                self.wf(),
                chars@ == word@,
                i <= chars@.len(),
                current < self.children@.len(),
                self.prefix@[current as int] == word@.subrange(0, i as int),
                self.children@.len() <= start_len + i,
                start_len + word@.len() <= usize::MAX,
                self.keys@ == old(self).keys@,
                self.node_words() == old(self).node_words() + word_prefixes(word@.subrange(0, i as int)),
            decreases chars@.len() - i,
        {
            let c = chars[i];
            let ghost words0 = self.node_words();
            let ghost pre0 = self.prefix@;
            let ghost n0 = self.children@.len();
            match self.find_child(current, c) {
                Some(j) => {
                    current = j;
                },
                None => {
                    self.add_child(current, c);
                    current = self.children.len() - 1;
                },
            }
            proof {
                let t0 = word@.subrange(0, i as int);
                let t1 = word@.subrange(0, i + 1);
                assert(t1 =~= t0.push(c));
                lemma_word_prefixes_push(t0, c);
                assert(self.node_words() =~= words0.insert(t1)) by {
                    assert forall|p: Seq<char>| #[trigger] self.node_words().contains(p) implies words0.insert(t1).contains(p) by {
                        let a = choose|a: int| 0 <= a < self.children@.len() && self.prefix@[a] == p;
                        if a < n0 {
                            assert(pre0[a] == p);
                        }
                    }
                    assert forall|p: Seq<char>| words0.insert(t1).contains(p) implies #[trigger] self.node_words().contains(p) by {
                        if p == t1 {
                            assert(self.prefix@[current as int] == p);
                        } else {
                            let a = choose|a: int| 0 <= a < n0 && pre0[a] == p;
                            assert(self.prefix@[a] == p);
                        }
                    }
                }
                assert(self.node_words() =~= old(self).node_words() + word_prefixes(t1));
            }
            i = i + 1;
        }
        proof {
            assert(word@.subrange(0, i as int) =~= word@);
        }
        let ghost words1 = self.node_words();
        let ghost pre1 = self.prefix@;
        self.mark_leaf(current, item);
        proof {
            assert(self.prefix@ == pre1);
            assert(self.node_words() =~= words1);
        }
    }

    /// Appends a fresh node under `node`, reached by `c`.
    fn add_child(&mut self, node: usize, c: char)
        requires
            old(self).wf(),
            node < old(self).children@.len(),
            old(self).children@.len() < usize::MAX,
            forall|j: int| 0 <= j < old(self).children@.len() ==> old(self).prefix@[j] != old(self).prefix@[node as int].push(c),
        ensures
            final(self).wf(),
            final(self).children@.len() == old(self).children@.len() + 1,
            final(self).prefix@.last() == old(self).prefix@[node as int].push(c),
            forall|j: int| 0 <= j < old(self).children@.len() ==> final(self).prefix@[j] == old(self).prefix@[j],
            final(self).keys@ == old(self).keys@,
    {
        let ghost pre0 = self.prefix@;
        let ghost kids0 = self.children@;
        let j = self.children.len();
        let slot = self.children[node].len();
        self.children[node].push((c, j));
        self.children.push(Vec::new());
        self.leafs.push(false);
        self.items.push(Vec::new());
        let ghost newp = pre0[node as int].push(c);
        self.prefix = Ghost(pre0.push(newp));
        self.parent = Ghost(self.parent@.push((node as int, slot as int)));
        proof {
            let n = self.children@.len();
            let pre = self.prefix@;
            assert forall|i: int, e: int| 0 <= i < n && 0 <= e < self.children@[i]@.len() implies {
                let (c1, j1) = #[trigger] self.children@[i]@[e];
                &&& i < j1 < n
                &&& pre[j1 as int] == pre[i].push(c1)
            } by {
                if i != node || e != slot {
                    assert(self.children@[i]@[e] == kids0[i]@[e]);
                }
            }
            assert forall|q: int| 0 < q < n implies {
                let (p, e) = #[trigger] self.parent@[q];
                &&& 0 <= p < n
                &&& 0 <= e < self.children@[p]@.len()
                &&& self.children@[p]@[e].1 == q
            } by {
                if q < j {
                    let (p, e) = self.parent@[q];
                    assert(self.children@[p]@[e] == kids0[p]@[e]);
                }
            }
            assert forall|i: int| 0 <= i < n implies #[trigger] self.items@[i]@ == (if self.keys@.contains_key(pre[i]) {
                self.keys@[pre[i]]
            } else {
                Seq::<T>::empty()
            }) by {
                if i == j {
                    if self.keys@.contains_key(pre[i]) {
                        let w = choose|w: int| 0 <= w < j && pre0[w] == pre[i];
                        assert(pre0[w] == newp);
                    }
                }
            }
            assert forall|i: int| 0 <= i < n implies (#[trigger] self.leafs@[i] <==> self.keys@.contains_key(pre[i])) by {
                if i == j && self.keys@.contains_key(pre[i]) {
                    let w = choose|w: int| 0 <= w < j && pre0[w] == pre[i];
                    assert(pre0[w] == newp);
                }
            }
            assert forall|k: Seq<char>| #[trigger] self.keys@.contains_key(k) implies exists|i: int| 0 <= i < n && pre[i] == k by {
                let w = choose|w: int| 0 <= w < j && pre0[w] == k;
                assert(pre[w] == k);
            }
        }
    }

    /// Marks `node` as the end of a word and files `item` there.
    fn mark_leaf(&mut self, node: usize, item: T)
        requires
            old(self).wf(),
            node < old(self).children@.len(),
        ensures
            final(self).wf(),
            final(self).children@.len() == old(self).children@.len(),
            final(self).prefix@ == old(self).prefix@,
            final(self).keys@ == old(self).keys@.insert(
                old(self).prefix@[node as int],
                if old(self).keys@.contains_key(old(self).prefix@[node as int]) {
                    old(self).keys@[old(self).prefix@[node as int]].push(item)
                } else {
                    seq![item]
                },
            ),
    {
        let ghost w = self.prefix@[node as int];
        let ghost items0 = self.items@;
        let ghost old_items = if self.keys@.contains_key(w) { self.keys@[w] } else { Seq::<T>::empty() };
        self.leafs.set(node, true);
        self.items[node].push(item);
        self.keys = Ghost(self.keys@.insert(w, old_items.push(item)));
        proof {
            let n = self.children@.len();
            let pre = self.prefix@;
            assert(old_items.push(item) == (if old(self).keys@.contains_key(w) {
                old(self).keys@[w].push(item)
            } else {
                seq![item]
            }));
            assert forall|i: int| 0 <= i < n implies #[trigger] self.items@[i]@ == (if self.keys@.contains_key(pre[i]) {
                self.keys@[pre[i]]
            } else {
                Seq::<T>::empty()
            }) by {
                if i != node {
                    assert(self.items@[i] == items0[i]);
                    assert(pre[i] != w);
                }
            }
            assert forall|i: int| 0 <= i < n implies (#[trigger] self.leafs@[i] <==> self.keys@.contains_key(pre[i])) by {
                if i != node {
                    assert(pre[i] != w);
                }
            }
            assert forall|k: Seq<char>| #[trigger] self.keys@.contains_key(k) implies exists|i: int| 0 <= i < n && pre[i] == k by {
                if k == w {
                    assert(pre[node as int] == k);
                }
            }
        }
    }
}


/// Rows of values stored back to back: row `i` is
/// `data[indices[i]..indices[i + 1]]`.
pub struct VecOfVec<T> {
    pub data: Vec<T>,
    pub indices: Vec<usize>,
}

impl<T> VecOfVec<T> {
    /// Holds `n` rows.
    pub open spec fn wf(&self, n: nat) -> bool {
        &&& self.indices@.len() == n + 1
        &&& self.indices@[0] == 0
        &&& self.indices@[n as int] == self.data@.len()
        &&& forall|a: int, b: int| 0 <= a <= b <= n ==> self.indices@[a] <= self.indices@[b]
    }

    pub open spec fn row(&self, i: int) -> Seq<T> {
        self.data@.subrange(self.indices@[i] as int, self.indices@[i + 1] as int)
    }

    fn empty() -> (r: Self)
        ensures
            r.wf(0),
    {
        VecOfVec { data: Vec::new(), indices: vec![0] }
    }

    /// Appends `row` as a new last row.
    fn push_row(&mut self, row: &mut Vec<T>, Ghost(n): Ghost<nat>)
        requires
            old(self).wf(n),
        ensures
            final(self).wf(n + 1),
            final(self).row(n as int) == old(row)@,
            forall|i: int| 0 <= i < n ==> final(self).row(i) == old(self).row(i),
    {
        let ghost data0 = self.data@;
        self.data.append(row);
        let end = self.data.len();
        self.indices.push(end);
        proof {
            assert forall|i: int| 0 <= i < n implies self.row(i) == old(self).row(i) by {
                assert(self.row(i) =~= old(self).row(i));
            }
            assert(self.row(n as int) =~= old(row)@);
        }
    }
}

/// Relies on `String::push`: appends the character at the end.
#[verifier::external_body]
pub(crate) fn string_push(s: &mut String, c: char)
    ensures
        final(s)@ == old(s)@.push(c),
{
    s.push(c)
}

/// A read-only trie laid out flat: node `i` has the children
/// `children.row(i)`, the items `items.row(i)`, and is reached from its parent
/// by `characters[i]`.
pub struct PrefixTrie<T> {
    pub children: VecOfVec<usize>,
    pub items: VecOfVec<T>,
    leafs: Vec<bool>,
    characters: Vec<char>,
    heights: Vec<usize>,
    prefixes: Vec<String>,
    prefix: Ghost<Seq<Seq<char>>>,
    parent: Ghost<Seq<(int, int)>>,
    keys: Ghost<Map<Seq<char>, Seq<T>>>,
}

impl<T> View for PrefixTrie<T> {
    type V = Map<Seq<char>, Seq<T>>;

    /// Each word with the items filed under it.
    closed spec fn view(&self) -> Map<Seq<char>, Seq<T>> {
        self.keys@
    }
}

/// The least number of single-character insertions, deletions and
/// substitutions that turn `a` into `b`.
pub open spec fn edit_distance(a: Seq<char>, b: Seq<char>) -> nat
    decreases a.len() + b.len(),
{
    if a.len() == 0 {
        b.len()
    } else if b.len() == 0 {
        a.len()
    } else {
        let sub = edit_distance(a.drop_last(), b.drop_last()) + if a.last() == b.last() {
            0nat
        } else {
            1nat
        };
        let del = edit_distance(a, b.drop_last()) + 1;
        let ins = edit_distance(a.drop_last(), b) + 1;
        if sub <= del && sub <= ins {
            sub
        } else if del <= ins {
            del
        } else {
            ins
        }
    }
}

/// The least edit distance between `word` and a prefix of `key` (`key`
/// itself included).
pub open spec fn prefix_distance(key: Seq<char>, word: Seq<char>) -> nat
    decreases key.len(),
{
    if key.len() == 0 {
        edit_distance(key, word)
    } else {
        let rest = prefix_distance(key.drop_last(), word);
        let own = edit_distance(key, word);
        if rest <= own {
            rest
        } else {
            own
        }
    }
}

/// The distance at which the fuzzy search finds `key`: its edit distance from
/// `word`, or, with continuations, the least over its prefixes.
pub open spec fn match_distance(key: Seq<char>, word: Seq<char>, continuations: bool) -> nat {
    if continuations {
        prefix_distance(key, word)
    } else {
        edit_distance(key, word)
    }
}

/// `x`, capped at 255.
pub open spec fn capped(x: nat) -> nat {
    if x < 0xff {
        x
    } else {
        0xff
    }
}

/// One step of the edit-distance table: `a.push(c)` against the first `j`
/// characters of `w`, from the entries for `a` and for fewer characters.
proof fn lemma_row_step(a: Seq<char>, c: char, w: Seq<char>, j: int)
    requires
        0 < j <= w.len(),
    ensures
        ({
            let sub = edit_distance(a, w.take(j - 1)) + if c == w[j - 1] {
                0nat
            } else {
                1nat
            };
            let del = edit_distance(a.push(c), w.take(j - 1)) + 1;
            let ins = edit_distance(a, w.take(j)) + 1;
            edit_distance(a.push(c), w.take(j)) == if sub <= del && sub <= ins {
                sub
            } else if del <= ins {
                del
            } else {
                ins
            }
        }),
{
    assert(a.push(c).drop_last() =~= a);
    assert(w.take(j).drop_last() =~= w.take(j - 1));
    assert(w.take(j).last() == w[j - 1]);
}

impl<T> PrefixTrie<T> {
    /// The number of nodes.
    pub closed spec fn node_count(&self) -> nat {
        self.leafs@.len()
    }

    /// The word spelled on the way from the root to node `i`.
    pub closed spec fn word_of(&self, i: int) -> Seq<char> {
        self.prefix@[i]
    }

    /// The number of nodes at or below node `i`.
    pub closed spec fn subtree_size(&self, i: int) -> nat {
        Set::new(|b: int| 0 <= b < self.leafs@.len() && is_prefix_of(self.prefix@[i], self.prefix@[b])).len()
    }

    /// The number of children of node `a`.
    pub closed spec fn child_count(&self, a: int) -> nat {
        self.children.row(a).len()
    }

    /// The `e`-th child of node `a`, as stored.
    pub closed spec fn child(&self, a: int, e: int) -> int {
        self.children.row(a)[e] as int
    }

    /// Each node's children are stored largest subtree first.
    pub open spec fn children_ordered(&self) -> bool {
        forall|a: int, e1: int, e2: int|
            0 <= a < self.node_count() && 0 <= e1 < e2 < self.child_count(a) ==> self.subtree_size(
                #[trigger] self.child(a, e1),
            ) >= self.subtree_size(#[trigger] self.child(a, e2))
    }

    pub closed spec fn wf(&self) -> bool {
        let n = self.leafs@.len();
        let pre = self.prefix@;
        &&& n >= 1
        &&& self.characters@.len() == n
        &&& self.heights@.len() == n
        &&& self.prefixes@.len() == n
        &&& pre.len() == n
        &&& self.parent@.len() == n
        &&& pre[0] == Seq::<char>::empty()
        &&& self.children.wf(n)
        &&& self.items.wf(n)
        &&& forall|i: int, e: int|
            0 <= i < n && 0 <= e < self.children.row(i).len() ==> {
                let j = #[trigger] self.children.row(i)[e];
                &&& i < j < n
                &&& pre[j as int] == pre[i].push(self.characters@[j as int])
            }
        &&& forall|j: int|
            0 < j < n ==> {
                let (p, e) = #[trigger] self.parent@[j];
                &&& 0 <= p < n
                &&& 0 <= e < self.children.row(p).len()
                &&& self.children.row(p)[e] == j
            }
        &&& forall|a: int, b: int| 0 <= a < n && 0 <= b < n && #[trigger] pre[a] == #[trigger] pre[b] ==> a == b
        &&& forall|i: int, e1: int, e2: int|
            0 <= i < n && 0 <= e1 < self.children.row(i).len() && 0 <= e2 < self.children.row(i).len()
                && #[trigger] self.children.row(i)[e1] == #[trigger] self.children.row(i)[e2] ==> e1 == e2
        &&& forall|i: int| 0 <= i < n ==> (#[trigger] self.leafs@[i] <==> self.keys@.contains_key(pre[i]))
        &&& forall|i: int|
            0 <= i < n ==> #[trigger] self.items.row(i) == (if self.keys@.contains_key(pre[i]) {
                self.keys@[pre[i]]
            } else {
                Seq::<T>::empty()
            })
        &&& forall|k: Seq<char>| #[trigger] self.keys@.contains_key(k) ==> exists|i: int| 0 <= i < n && pre[i] == k
        &&& forall|i: int| 0 <= i < n ==> (#[trigger] self.prefixes@[i])@ == pre[i]
        &&& forall|a: int, b: int|
            #![trigger self.heights@[a], pre[b]]
            0 <= a < n && 0 <= b < n && is_prefix_of(pre[a], pre[b]) ==> self.heights@[a] >= pre[b].len() - pre[a].len()
    }

    /// Every prefix of a node's word is the word of some node.
    proof fn lemma_ancestor(&self, m: int, l: int)
        requires
            self.wf(),
            0 <= m < self.node_count(),
            0 <= l <= self.prefix@[m].len(),
        ensures
            exists|a: int| 0 <= a < self.node_count() && self.prefix@[a] == self.prefix@[m].take(l),
        decreases self.prefix@[m].len(),
    {
        let pre = self.prefix@;
        if l == pre[m].len() {
            assert(pre[m].take(l) =~= pre[m]);
        } else {
            assert(m != 0);
            let (p, e) = self.parent@[m];
            let j = self.children.row(p)[e];
            assert(pre[m] == pre[p].push(self.characters@[m]));
            assert(pre[p].take(l) =~= pre[m].take(l));
            self.lemma_ancestor(p, l);
        }
    }

    /// The child of `ix` reached by `c`, if there is one.
    pub fn get_child(&self, c: char, ix: usize) -> (r: Option<usize>)
        requires
            self.wf(),
            ix < self.node_count(),
        ensures
            r matches Some(j) ==> j < self.node_count() && self.word_of(j as int) == self.word_of(ix as int).push(c),
            r is None ==> forall|j: int| 0 <= j < self.node_count() ==> self.word_of(j) != self.word_of(ix as int).push(c),
    {
        let n_rows = self.children.indices.len();
        assert(ix + 1 < n_rows);
        let start = self.children.indices[ix];
        let end = self.children.indices[ix + 1];
        let mut k = start;
        let ghost row = self.children.row(ix as int);
        proof {
            assert(self.children.indices@[ix as int] <= self.children.indices@[ix + 1]);
            assert(self.children.indices@[ix + 1] <= self.children.indices@[self.node_count() as int]);
        }
        while k < end
            invariant
                self.wf(),
                ix < self.node_count(),
                start == self.children.indices@[ix as int],
                end == self.children.indices@[ix + 1],
                start <= k <= end <= self.children.data@.len(),
                row == self.children.row(ix as int),
                forall|f: int| 0 <= f < k - start ==> self.characters@[(#[trigger] row[f]) as int] != c,
            decreases end - k,
        {
            let child = self.children.data[k];
            assert(row[k - start] == child);
            if self.characters[child] == c {
                return Some(child);
            }
            k = k + 1;
        }
        proof {
            let pre = self.prefix@;
            assert forall|j: int| 0 <= j < self.node_count() implies pre[j] != pre[ix as int].push(c) by {
                if pre[j] == pre[ix as int].push(c) {
                    if j == 0 {
                        assert(pre[j].len() == 0);
                    } else {
                        let (p, f) = self.parent@[j];
                        assert(self.children.row(p)[f] == j);
                        assert(pre[j] == pre[p].push(self.characters@[j]));
                        assert(pre[p] =~= pre[j].drop_last());
                        assert(pre[ix as int] =~= pre[j].drop_last());
                        assert(p == ix);
                        assert(row[f] == j);
                        assert(pre[j].last() == c);
                        assert(self.characters@[row[f] as int] == c);
                    }
                }
            }
        }
        None
    }

    /// Whether `word` was inserted.
    pub fn search(&self, word: &str) -> (r: bool)
        requires
            self.wf(),
        ensures
            r == self@.contains_key(word@),
    {
        let chars = chars_of(word);
        let mut current: usize = 0;
        let mut i: usize = 0;
        while i < chars.len()
            invariant
                self.wf(),
                chars@ == word@,
                i <= chars@.len(),
                current < self.node_count(),
                self.prefix@[current as int] == word@.take(i as int),
            decreases chars@.len() - i,
        {
            proof {
                assert(word@.take(i + 1) =~= word@.take(i as int).push(chars@[i as int]));
            }
            match self.get_child(chars[i], current) {
                Some(child) => {
                    current = child;
                },
                None => {
                    proof {
                        if self.keys@.contains_key(word@) {
                            let m = choose|m: int| 0 <= m < self.node_count() && self.prefix@[m] == word@;
                            self.lemma_ancestor(m, i + 1);
                            let a = choose|a: int| 0 <= a < self.node_count() && self.prefix@[a] == self.prefix@[m].take(i + 1);
                            assert(self.prefix@[m].take(i + 1) == word@.take(i + 1));
                            assert(self.word_of(a) == self.word_of(current as int).push(chars@[i as int]));
                        }
                    }
                    return false;
                },
            }
            i = i + 1;
        }
        proof {
            assert(word@.take(i as int) =~= word@);
            if self.keys@.contains_key(word@) {
                let m = choose|m: int| 0 <= m < self.node_count() && self.prefix@[m] == word@;
            }
        }
        self.leafs[current]
    }
}


/// `x` is a prefix of `y`.
pub open spec fn is_prefix_of(x: Seq<char>, y: Seq<char>) -> bool {
    x.len() <= y.len() && y.take(x.len() as int) == x
}

/// `kids` in order of `sizes` of their nodes, largest first; equal sizes keep
/// their order.
fn sorted_by_size(kids: &Vec<(char, usize)>, sizes: &Vec<usize>) -> (r: Vec<(char, usize)>)
    requires
        forall|e: int| 0 <= e < kids@.len() ==> (#[trigger] kids@[e]).1 < sizes@.len(),
        forall|e1: int, e2: int|
            0 <= e1 < kids@.len() && 0 <= e2 < kids@.len() && #[trigger] kids@[e1].1 == #[trigger] kids@[e2].1 ==> e1 == e2,
    ensures
        r@.len() == kids@.len(),
        forall|x: (char, usize)| r@.contains(x) <==> kids@.contains(x),
        forall|e1: int, e2: int|
            0 <= e1 < r@.len() && 0 <= e2 < r@.len() && #[trigger] r@[e1].1 == #[trigger] r@[e2].1 ==> e1 == e2,
        forall|e1: int, e2: int|
            0 <= e1 < e2 < r@.len() ==> sizes@[(#[trigger] r@[e1]).1 as int] >= sizes@[(#[trigger] r@[e2]).1 as int],
{
    let mut r: Vec<(char, usize)> = Vec::new();
    let mut k: usize = 0;
    while k < kids.len()
        invariant
            k <= kids@.len(),
            r@.len() == k,
            forall|e: int| 0 <= e < kids@.len() ==> (#[trigger] kids@[e]).1 < sizes@.len(),
            forall|e: int| 0 <= e < r@.len() ==> (#[trigger] r@[e]).1 < sizes@.len(),
            forall|x: (char, usize)| r@.contains(x) <==> kids@.take(k as int).contains(x),
            forall|e1: int, e2: int|
                0 <= e1 < kids@.len() && 0 <= e2 < kids@.len() && #[trigger] kids@[e1].1 == #[trigger] kids@[e2].1 ==> e1 == e2,
            forall|e1: int, e2: int|
                0 <= e1 < r@.len() && 0 <= e2 < r@.len() && #[trigger] r@[e1].1 == #[trigger] r@[e2].1 ==> e1 == e2,
            forall|e1: int, e2: int|
                0 <= e1 < e2 < r@.len() ==> sizes@[(#[trigger] r@[e1]).1 as int] >= sizes@[(#[trigger] r@[e2]).1 as int],
        decreases kids@.len() - k,
    {
        let x = kids[k];
        let sx = sizes[x.1];
        let mut p: usize = 0;
        while p < r.len() && sizes[r[p].1] >= sx
            invariant
                p <= r@.len(),
                forall|e: int| 0 <= e < r@.len() ==> (#[trigger] r@[e]).1 < sizes@.len(),
                forall|e: int| 0 <= e < p ==> sizes@[(#[trigger] r@[e]).1 as int] >= sx,
            decreases r@.len() - p,
        {
            p = p + 1;
        }
        let ghost r0 = r@;
        proof {
            assert forall|e: int| 0 <= e < r0.len() implies (#[trigger] r0[e]).1 != x.1 by {
                assert(r0.contains(r0[e]));
                assert(kids@.take(k as int).contains(r0[e]));
                let j = choose|j: int| 0 <= j < k && kids@.take(k as int)[j] == r0[e];
                assert(kids@[j] == r0[e]);
            }
        }
        r.insert(p, x);
        proof {
            assert forall|e1: int, e2: int|
                0 <= e1 < e2 < r@.len() implies sizes@[(#[trigger] r@[e1]).1 as int] >= sizes@[(#[trigger] r@[e2]).1 as int] by {
                if e2 < p {
                    assert(r@[e1] == r0[e1] && r@[e2] == r0[e2]);
                } else if e2 == p {
                    assert(r@[e1] == r0[e1]);
                } else if e1 < p {
                    assert(r@[e1] == r0[e1] && r@[e2] == r0[e2 - 1]);
                } else if e1 == p {
                    assert(r@[e2] == r0[e2 - 1]);
                    assert(sizes@[r0[p as int].1 as int] < sx);
                    if e2 - 1 > p {
                        assert(sizes@[r0[p as int].1 as int] >= sizes@[r0[e2 - 1].1 as int]);
                    }
                } else {
                    assert(r@[e1] == r0[e1 - 1] && r@[e2] == r0[e2 - 1]);
                }
            }
            assert forall|e1: int, e2: int|
                0 <= e1 < r@.len() && 0 <= e2 < r@.len() && #[trigger] r@[e1].1 == #[trigger] r@[e2].1 implies e1 == e2 by {
                let i1 = if e1 < p { e1 } else if e1 == p { -1 } else { e1 - 1 };
                let i2 = if e2 < p { e2 } else if e2 == p { -1 } else { e2 - 1 };
                if i1 >= 0 && i2 >= 0 {
                    assert(r@[e1] == r0[i1]);
                    assert(r@[e2] == r0[i2]);
                } else if i1 >= 0 {
                    assert(r@[e1] == r0[i1]);
                } else if i2 >= 0 {
                    assert(r@[e2] == r0[i2]);
                }
            }
            let t0 = kids@.take(k as int);
            let t1 = kids@.take(k + 1);
            assert(t1 =~= t0.push(x));
            assert forall|y: (char, usize)| r@.contains(y) <==> t1.contains(y) by {
                if r@.contains(y) {
                    let i = choose|i: int| 0 <= i < r@.len() && r@[i] == y;
                    if i < p {
                        assert(r0[i] == y);
                        assert(r0.contains(y));
                        let j = choose|j: int| 0 <= j < t0.len() && t0[j] == y;
                        assert(t1[j] == y);
                    } else if i == p {
                        assert(t1[k as int] == y);
                    } else {
                        assert(r0[i - 1] == y);
                        assert(r0.contains(y));
                        let j = choose|j: int| 0 <= j < t0.len() && t0[j] == y;
                        assert(t1[j] == y);
                    }
                }
                if t1.contains(y) {
                    let j = choose|j: int| 0 <= j < t1.len() && t1[j] == y;
                    if j == k {
                        assert(r@[p as int] == y);
                    } else {
                        assert(t0[j] == y);
                        assert(t0.contains(y));
                        assert(r0.contains(y));
                        let i = choose|i: int| 0 <= i < r0.len() && r0[i] == y;
                        if i < p {
                            assert(r@[i] == y);
                        } else {
                            assert(r@[i + 1] == y);
                        }
                    }
                }
            }
        }
        k = k + 1;
    }
    assert(kids@.take(k as int) =~= kids@);
    r
}

/// Every prefix of `w`, `w` and the empty word included.
pub open spec fn word_prefixes(w: Seq<char>) -> Set<Seq<char>> {
    Set::new(|p: Seq<char>| is_prefix_of(p, w))
}

proof fn lemma_word_prefixes_push(t: Seq<char>, c: char)
    ensures
        word_prefixes(t.push(c)) == word_prefixes(t).insert(t.push(c)),
{
    assert forall|p: Seq<char>| #[trigger] word_prefixes(t.push(c)).contains(p) implies word_prefixes(t).insert(t.push(c)).contains(p) by {
        if p.len() == t.len() + 1 {
            assert(p =~= t.push(c).take(p.len() as int));
            assert(t.push(c).take(t.len() as int + 1) =~= t.push(c));
        } else {
            assert(t.push(c).take(p.len() as int) =~= t.take(p.len() as int));
        }
    }
    assert forall|p: Seq<char>| word_prefixes(t).insert(t.push(c)).contains(p) implies #[trigger] word_prefixes(t.push(c)).contains(p) by {
        if p == t.push(c) {
            assert(t.push(c).take(p.len() as int) =~= p);
        } else {
            assert(t.push(c).take(p.len() as int) =~= t.take(p.len() as int));
        }
    }
    assert(word_prefixes(t.push(c)) =~= word_prefixes(t).insert(t.push(c)));
}

/// The node ids of a builder's child list.
pub open spec fn child_ids(kids: Seq<(char, usize)>) -> Seq<usize> {
    kids.map_values(|p: (char, usize)| p.1)
}

impl<T> PrefixTrieBuilder<T> {
    /// Every prefix of a node's word is the word of some node.
    proof fn lemma_ancestor(&self, m: int, l: int)
        requires
            self.wf(),
            0 <= m < self.children@.len(),
            0 <= l <= self.prefix@[m].len(),
        ensures
            exists|a: int| 0 <= a < self.children@.len() && self.prefix@[a] == self.prefix@[m].take(l),
        decreases self.prefix@[m].len(),
    {
        let pre = self.prefix@;
        if l == pre[m].len() {
            assert(pre[m].take(l) =~= pre[m]);
        } else {
            assert(m != 0);
            let (p, e) = self.parent@[m];
            let (c, j) = self.children@[p]@[e];
            assert(pre[m] == pre[p].push(c));
            assert(pre[p].take(l) =~= pre[m].take(l));
            self.lemma_ancestor(p, l);
        }
    }

    /// A word below node `i` is below one of its children.
    proof fn lemma_child_towards(&self, i: int, b: int)
        requires
            self.wf(),
            0 <= i < self.children@.len(),
            0 <= b < self.children@.len(),
            is_prefix_of(self.prefix@[i], self.prefix@[b]),
            self.prefix@[i].len() < self.prefix@[b].len(),
        ensures
            exists|e: int|
                0 <= e < self.children@[i]@.len() && is_prefix_of(
                    self.prefix@[#[trigger] self.children@[i]@[e].1 as int],
                    self.prefix@[b],
                ) && self.prefix@[self.children@[i]@[e].1 as int].len() == self.prefix@[i].len() + 1,
    {
        let pre = self.prefix@;
        let l: int = pre[i].len() as int + 1;
        self.lemma_ancestor(b, l);
        let c = choose|a: int| 0 <= a < self.children@.len() && pre[a] == pre[b].take(l);
        assert(pre[c].len() == l);
        assert(c != 0);
        let (p, e) = self.parent@[c];
        let (ch, j) = self.children@[p]@[e];
        assert(pre[c] == pre[p].push(ch));
        assert(pre[p] =~= pre[c].drop_last());
        assert(pre[i] =~= pre[c].drop_last());
        assert(p == i);
        assert(pre[b].take(l).take(l - 1) =~= pre[b].take(l - 1));
        assert(pre[c].len() == l);
        assert(is_prefix_of(pre[c], pre[b]));
    }

    /// The longest word below each node, counted from that node.
    fn heights(&self) -> (r: Vec<usize>)
        requires
            self.wf(),
        ensures
            r@.len() == self.children@.len(),
            forall|a: int, b: int|
                #![trigger r@[a], self.prefix@[b]]
                0 <= a < r@.len() && 0 <= b < r@.len() && is_prefix_of(self.prefix@[a], self.prefix@[b]) ==> r@[a]
                    >= self.prefix@[b].len() - self.prefix@[a].len(),
    {
        let n = self.children.len();
        let mut heights: Vec<usize> = vec![0; n];
        let mut i = n;
        while i > 0
            invariant
                self.wf(),
                n == self.children@.len(),
                heights@.len() == n,
                i <= n,
                forall|k: int| i <= k < n ==> #[trigger] heights@[k] < n - k,
                forall|a: int, b: int|
                    #![trigger heights@[a], self.prefix@[b]]
                    i <= a < n && 0 <= b < n && is_prefix_of(self.prefix@[a], self.prefix@[b]) ==> heights@[a]
                        >= self.prefix@[b].len() - self.prefix@[a].len(),
            decreases i,
        {
            i = i - 1;
            let kids = &self.children[i];
            let mut h: usize = 0;
            let mut e: usize = 0;
            while e < kids.len()
                invariant
                    self.wf(),
                    n == self.children@.len(),
                    heights@.len() == n,
                    i < n,
                    kids@ == self.children@[i as int]@,
                    e <= kids@.len(),
                    h < n - i,
                    forall|k: int| i < k < n ==> #[trigger] heights@[k] < n - k,
                    forall|a: int, b: int|
                        #![trigger heights@[a], self.prefix@[b]]
                        i < a < n && 0 <= b < n && is_prefix_of(self.prefix@[a], self.prefix@[b]) ==> heights@[a]
                            >= self.prefix@[b].len() - self.prefix@[a].len(),
                    forall|f: int| 0 <= f < e ==> h >= heights@[(#[trigger] kids@[f]).1 as int] + 1,
                decreases kids@.len() - e,
            {
                let j = kids[e].1;
                assert(self.children@[i as int]@[e as int] == kids@[e as int]);
                if heights[j] + 1 > h {
                    h = heights[j] + 1;
                }
                e = e + 1;
            }
            let ghost before = heights@;
            heights.set(i, h);
            proof {
                let pre = self.prefix@;
                assert forall|a: int, b: int|
                    #![trigger heights@[a], self.prefix@[b]]
                    i <= a < n && 0 <= b < n && is_prefix_of(pre[a], pre[b]) implies heights@[a] >= pre[b].len()
                        - pre[a].len() by {
                    if a == i && pre[a].len() < pre[b].len() {
                        self.lemma_child_towards(i as int, b);
                        let e = choose|e: int|
                            0 <= e < self.children@[i as int]@.len() && is_prefix_of(
                                pre[#[trigger] self.children@[i as int]@[e].1 as int],
                                pre[b],
                            ) && pre[self.children@[i as int]@[e].1 as int].len() == pre[i as int].len() + 1;
                        let c = self.children@[i as int]@[e].1 as int;
                        assert(kids@[e] == self.children@[i as int]@[e]);
                        assert(before[c] >= pre[b].len() - pre[c].len());
                    } else if a != i {
                        assert(heights@[a] == before[a]);
                    }
                }
            }
        }
        heights
    }

    /// The read-only trie holding the same words and items, with each node's
    /// children ordered by the size of their subtrees, largest first.
    pub fn finalize(self) -> (r: PrefixTrie<T>)
        requires
            self.wf(),
        ensures
            r.wf(),
            r@ == self@,
            r.node_count() == self.node_count(),
            r.children_ordered(),
    {
        let mut builder = self;
        builder.order_children_by_size();
        builder.flatten()
    }

    /// The number of nodes in the subtree of each node (capped at the node
    /// count).
    /// The nodes at or below node `i`.
    pub closed spec fn below(&self, i: int) -> Set<int> {
        Set::new(|b: int| 0 <= b < self.children@.len() && is_prefix_of(self.prefix@[i], self.prefix@[b]))
    }

    /// The number of nodes at or below node `i`.
    pub closed spec fn subtree_size(&self, i: int) -> nat {
        self.below(i).len()
    }

    proof fn lemma_below_bounded(&self, i: int)
        requires
            self.wf(),
        ensures
            self.below(i).finite(),
            self.below(i).subset_of(vstd::set_lib::set_int_range(0, self.children@.len() as int)),
            self.below(i).len() <= self.children@.len(),
    {
        let range = vstd::set_lib::set_int_range(0, self.children@.len() as int);
        vstd::set_lib::lemma_int_range(0, self.children@.len() as int);
        vstd::set_lib::lemma_len_subset(self.below(i), range);
    }

    fn subtree_sizes(&self) -> (r: Vec<usize>)
        requires
            self.wf(),
        ensures
            r@.len() == self.children@.len(),
            forall|a: int| 0 <= a < r@.len() ==> #[trigger] r@[a] == self.subtree_size(a),
    {
        let n = self.children.len();
        let mut sizes: Vec<usize> = vec![1; n];
        let mut i = n;
        let ghost range = vstd::set_lib::set_int_range(0, n as int);
        proof {
            vstd::set_lib::lemma_int_range(0, n as int);
        }
        while i > 0
            invariant
                self.wf(),
                n == self.children@.len(),
                range == vstd::set_lib::set_int_range(0, n as int),
                range.finite(),
                range.len() == n,
                sizes@.len() == n,
                i <= n,
                forall|a: int| i <= a < n ==> #[trigger] sizes@[a] == self.subtree_size(a),
            decreases i,
        {
            i = i - 1;
            let kids = &self.children[i];
            let mut total: usize = 1;
            let mut e: usize = 0;
            let ghost pre = self.prefix@;
            let ghost mut acc: Set<int> = Set::empty().insert(i as int);
            proof {
                assert(pre[i as int].take(pre[i as int].len() as int) =~= pre[i as int]);
            }
            while e < kids.len()
                invariant
                    self.wf(),
                    n == self.children@.len(),
                    range == vstd::set_lib::set_int_range(0, n as int),
                    range.finite(),
                    range.len() == n,
                    pre == self.prefix@,
                    sizes@.len() == n,
                    i < n,
                    kids@ == self.children@[i as int]@,
                    e <= kids@.len(),
                    forall|a: int| i < a < n ==> #[trigger] sizes@[a] == self.subtree_size(a),
                    acc.finite(),
                    acc.subset_of(range),
                    total == acc.len(),
                    acc.contains(i as int),
                    acc.subset_of(self.below(i as int)),
                    forall|b: int|
                        #![trigger acc.contains(b)]
                        0 <= b < n && is_prefix_of(pre[i as int], pre[b]) && b != i && (exists|f: int|
                            0 <= f < e && is_prefix_of(pre[(#[trigger] kids@[f]).1 as int], pre[b])) ==> acc.contains(b),
                    forall|b: int|
                        #![trigger acc.contains(b)]
                        acc.contains(b) && b != i ==> exists|f: int|
                            0 <= f < e && is_prefix_of(pre[(#[trigger] kids@[f]).1 as int], pre[b]),
                decreases kids@.len() - e,
            {
                assert(self.children@[i as int]@[e as int] == kids@[e as int]);
                let c = kids[e].1;
                let sub = sizes[c];
                proof {
                    let bc = self.below(c as int);
                    self.lemma_below_bounded(c as int);
                    assert(pre[c as int] == pre[i as int].push(kids@[e as int].0));
                    assert(acc.disjoint(bc)) by {
                        assert forall|b: int| acc.contains(b) implies !bc.contains(b) by {
                            if b == i {
                            } else if bc.contains(b) {
                                let f = choose|f: int| 0 <= f < e && is_prefix_of(pre[(#[trigger] kids@[f]).1 as int], pre[b]);
                                let g = kids@[f].1 as int;
                                assert(self.children@[i as int]@[f] == kids@[f]);
                                assert(pre[g] == pre[i as int].push(kids@[f].0));
                                assert(pre[g] =~= pre[b].take(pre[i as int].len() as int + 1));
                                assert(pre[c as int] =~= pre[b].take(pre[i as int].len() as int + 1));
                                assert(g == c as int);
                                assert(self.children@[i as int]@[f].1 == self.children@[i as int]@[e as int].1);
                            }
                        }
                    }
                    vstd::set_lib::lemma_set_disjoint_lens(acc, bc);
                    assert((acc + bc).subset_of(range));
                    vstd::set_lib::lemma_len_subset(acc + bc, range);
                    assert(bc.subset_of(self.below(i as int))) by {
                        assert forall|b: int| bc.contains(b) implies self.below(i as int).contains(b) by {
                            assert(pre[b].take(pre[i as int].len() as int) =~= pre[b].take(pre[c as int].len() as int).take(
                                pre[i as int].len() as int,
                            ));
                            assert(pre[c as int].take(pre[i as int].len() as int) =~= pre[i as int]);
                        }
                    }
                }
                total = total + sub;
                proof {
                    let old_acc = acc;
                    acc = acc + self.below(c as int);
                    assert forall|b: int|
                        #![trigger acc.contains(b)]
                        0 <= b < n && is_prefix_of(pre[i as int], pre[b]) && b != i && (exists|f: int|
                            0 <= f < e + 1 && is_prefix_of(pre[(#[trigger] kids@[f]).1 as int], pre[b])) implies acc.contains(b) by {
                        let f = choose|f: int| 0 <= f < e + 1 && is_prefix_of(pre[(#[trigger] kids@[f]).1 as int], pre[b]);
                        if f < e {
                            assert(old_acc.contains(b));
                        } else {
                            assert(self.below(c as int).contains(b));
                        }
                    }
                    assert forall|b: int|
                        #![trigger acc.contains(b)]
                        acc.contains(b) && b != i implies exists|f: int|
                            0 <= f < e + 1 && is_prefix_of(pre[(#[trigger] kids@[f]).1 as int], pre[b]) by {
                        if old_acc.contains(b) {
                            let f = choose|f: int| 0 <= f < e && is_prefix_of(pre[(#[trigger] kids@[f]).1 as int], pre[b]);
                            assert(is_prefix_of(pre[kids@[f].1 as int], pre[b]));
                        } else {
                            assert(is_prefix_of(pre[kids@[e as int].1 as int], pre[b]));
                        }
                    }
                }
                e = e + 1;
            }
            proof {
                assert(acc =~= self.below(i as int)) by {
                    assert forall|b: int| self.below(i as int).contains(b) implies acc.contains(b) by {
                        if b != i {
                            if pre[b].len() == pre[i as int].len() {
                                assert(pre[b] =~= pre[b].take(pre[i as int].len() as int));
                            } else {
                                self.lemma_child_towards(i as int, b);
                                let f = choose|f: int|
                                    0 <= f < self.children@[i as int]@.len() && is_prefix_of(
                                        pre[#[trigger] self.children@[i as int]@[f].1 as int],
                                        pre[b],
                                    ) && pre[self.children@[i as int]@[f].1 as int].len() == pre[i as int].len() + 1;
                                assert(is_prefix_of(pre[kids@[f].1 as int], pre[b]));
                            }
                        }
                    }
                }
            }
            sizes.set(i, total);
        }
        sizes
    }

    /// Orders every child list by subtree size, largest first, keeping the
    /// order of insertion among equal sizes.
    fn order_children_by_size(&mut self)
        requires
            old(self).wf(),
        ensures
            final(self).wf(),
            final(self)@ == old(self)@,
            final(self).node_count() == old(self).node_count(),
            final(self).prefix@ == old(self).prefix@,
            final(self).children_ordered(),
    {
        let sizes = self.subtree_sizes();
        let n = self.children.len();
        let mut i: usize = 0;
        while i < n
            invariant
                self.wf(),
                n == self.children@.len(),
                sizes@.len() == n,
                self@ == old(self)@,
                self.prefix@ == old(self).prefix@,
                i <= n,
                forall|a: int| 0 <= a < n ==> #[trigger] sizes@[a] == self.subtree_size(a),
                forall|a: int, e1: int, e2: int|
                    0 <= a < i && 0 <= e1 < e2 < self.children@[a]@.len() ==> self.subtree_size(
                        (#[trigger] self.children@[a]@[e1]).1 as int,
                    ) >= self.subtree_size((#[trigger] self.children@[a]@[e2]).1 as int),
            decreases n - i,
        {
            let ghost below0 = Seq::new(n as nat, |a: int| self.below(a));
            let ghost kids0 = self.children@;
            let ghost par0 = self.parent@;
            proof {
                assert forall|e: int| 0 <= e < kids0[i as int]@.len() implies (#[trigger] kids0[i as int]@[e]).1 < sizes@.len() by {
                    let (c, j) = kids0[i as int]@[e];
                }
                assert forall|e1: int, e2: int|
                    0 <= e1 < kids0[i as int]@.len() && 0 <= e2 < kids0[i as int]@.len() && #[trigger] kids0[i as int]@[e1].1
                        == #[trigger] kids0[i as int]@[e2].1 implies e1 == e2 by {
                    assert(self.children@[i as int]@[e1].1 == self.children@[i as int]@[e2].1);
                }
            }
            let sorted = sorted_by_size(&self.children[i], &sizes);
            self.children.set(i, sorted);
            let ghost kids1 = self.children@;
            self.parent = Ghost(
                Seq::new(
                    n as nat,
                    |j: int|
                        if par0[j].0 == i {
                            (i as int, choose|f: int| 0 <= f < kids1[i as int]@.len() && kids1[i as int]@[f].1 == j)
                        } else {
                            par0[j]
                        },
                ),
            );
            proof {
                let pre = self.prefix@;
                assert forall|a: int, e: int|
                    0 <= a < n && 0 <= e < self.children@[a]@.len() implies {
                        let (c, j) = #[trigger] self.children@[a]@[e];
                        &&& a < j < n
                        &&& pre[j as int] == pre[a].push(c)
                    } by {
                    if a == i {
                        assert(kids0[a]@.contains(self.children@[a]@[e]));
                        let f = choose|f: int| 0 <= f < kids0[a]@.len() && kids0[a]@[f] == self.children@[a]@[e];
                        assert(kids0[a]@[f] == self.children@[a]@[e]);
                    } else {
                        assert(self.children@[a] == kids0[a]);
                    }
                }
                assert forall|j: int|
                    0 < j < n implies {
                        let (p, e) = #[trigger] self.parent@[j];
                        &&& 0 <= p < n
                        &&& 0 <= e < self.children@[p]@.len()
                        &&& self.children@[p]@[e].1 == j
                    } by {
                    let (p0, e0) = par0[j];
                    if p0 == i {
                        assert(kids0[i as int]@[e0].1 == j);
                        assert(kids1[i as int]@.contains(kids0[i as int]@[e0]));
                        let f = choose|f: int| 0 <= f < kids1[i as int]@.len() && kids1[i as int]@[f] == kids0[i as int]@[e0];
                        assert(kids1[i as int]@[f].1 == j);
                    } else {
                        assert(self.children@[p0] == kids0[p0]);
                    }
                }
            }
            proof {
                assert forall|a: int| 0 <= a < n implies self.below(a) == below0[a] by {
                    assert(self.below(a) =~= below0[a]);
                }
                assert forall|a: int, e1: int, e2: int|
                    0 <= a < i + 1 && 0 <= e1 < e2 < self.children@[a]@.len() implies self.subtree_size(
                        (#[trigger] self.children@[a]@[e1]).1 as int,
                    ) >= self.subtree_size((#[trigger] self.children@[a]@[e2]).1 as int) by {
                    let x1 = self.children@[a]@[e1].1 as int;
                    let x2 = self.children@[a]@[e2].1 as int;
                    assert(self.below(x1) == below0[x1]);
                    assert(self.below(x2) == below0[x2]);
                    if a < i {
                        assert(self.children@[a] == kids0[a]);
                    }
                }
            }
            i = i + 1;
        }
    }

    /// Each node's children come largest subtree first.
    pub closed spec fn children_ordered(&self) -> bool {
        forall|a: int, e1: int, e2: int|
            0 <= a < self.children@.len() && 0 <= e1 < e2 < self.children@[a]@.len() ==> self.subtree_size(
                (#[trigger] self.children@[a]@[e1]).1 as int,
            ) >= self.subtree_size((#[trigger] self.children@[a]@[e2]).1 as int)
    }

    fn flatten(self) -> (r: PrefixTrie<T>)
        requires
            self.wf(),
            self.children_ordered(),
        ensures
            r.wf(),
            r@ == self@,
            r.node_count() == self.node_count(),
            r.children_ordered(),
    {
        let heights = self.heights();
        let n = self.children.len();
        let ghost pre = self.prefix@;
        let ghost par = self.parent@;
        let ghost kids0 = self.children@;
        let mut children = VecOfVec::<usize>::empty();
        let mut characters: Vec<char> = vec!['\0'; n];
        let mut prefixes: Vec<String> = Vec::new();
        let mut z: usize = 0;
        while z < n
            invariant
                z <= n,
                prefixes@.len() == z,
                forall|k: int| 0 <= k < z ==> (#[trigger] prefixes@[k])@ == Seq::<char>::empty(),
            decreases n - z,
        {
            prefixes.push(String::new());
            z = z + 1;
        }
        let mut i: usize = 0;
        while i < n
            invariant
                self.wf(),
                n == self.children@.len(),
                kids0 == self.children@,
                pre == self.prefix@,
                par == self.parent@,
                i <= n,
                children.wf(i as nat),
                forall|k: int| 0 <= k < i ==> #[trigger] children.row(k) == child_ids(kids0[k]@),
                characters@.len() == n,
                prefixes@.len() == n,
                forall|k: int|
                    0 <= k < n && (k == 0 || par[k].0 < i) ==> (#[trigger] prefixes@[k])@ == pre[k],
                forall|k: int|
                    0 < k < n && par[k].0 < i ==> pre[k] == pre[par[k].0].push(#[trigger] characters@[k]),
            decreases n - i,
        {
            let kids = &self.children[i];
            let mut row: Vec<usize> = Vec::new();
            let mut e: usize = 0;
            proof {
                if i > 0 {
                    let (p, f) = par[i as int];
                    assert(kids0[p]@[f].1 == i);
                }
            }
            while e < kids.len()
                invariant
                    self.wf(),
                    n == self.children@.len(),
                    kids0 == self.children@,
                    pre == self.prefix@,
                    par == self.parent@,
                    i < n,
                    kids@ == kids0[i as int]@,
                    e <= kids@.len(),
                    row@ == child_ids(kids@.take(e as int)),
                    characters@.len() == n,
                    prefixes@.len() == n,
                    (prefixes@[i as int])@ == pre[i as int],
                    forall|k: int|
                        0 <= k < n && (k == 0 || par[k].0 < i || (par[k].0 == i && par[k].1 < e)) ==> (
                        #[trigger] prefixes@[k])@ == pre[k],
                    forall|k: int|
                        0 < k < n && (par[k].0 < i || (par[k].0 == i && par[k].1 < e)) ==> pre[k] == pre[par[k].0].push(
                            #[trigger] characters@[k],
                        ),
                decreases kids@.len() - e,
            {
                let (c, j) = kids[e];
                assert(kids0[i as int]@[e as int] == (c, j));
                row.push(j);
                characters.set(j, c);
                let mut word = prefixes[i].clone();
                string_push(&mut word, c);
                prefixes.set(j, word);
                proof {
                    assert(row@ =~= child_ids(kids@.take(e + 1)));
                    assert forall|k: int|
                        0 <= k < n && (k == 0 || par[k].0 < i || (par[k].0 == i && par[k].1 < e + 1)) implies (
                        #[trigger] prefixes@[k])@ == pre[k] by {
                        if k != j && k > 0 && par[k].0 == i && par[k].1 == e {
                            assert(self.parent@[k] == par[k]);
                            assert(kids0[i as int]@[e as int].1 == k);
                        }
                    }
                    assert forall|k: int|
                        0 < k < n && (par[k].0 < i || (par[k].0 == i && par[k].1 < e + 1)) implies pre[k] == pre[par[k].0].push(
                            #[trigger] characters@[k],
                        ) by {
                        if k == j {
                            let (p, f) = par[k];
                            let (c2, j2) = kids0[p]@[f];
                            assert(pre[k] == pre[p].push(c2));
                            assert(pre[p] =~= pre[k].drop_last());
                            assert(pre[i as int] =~= pre[k].drop_last());
                        } else if par[k].0 == i && par[k].1 == e {
                            assert(self.parent@[k] == par[k]);
                            assert(kids0[i as int]@[e as int].1 == k);
                        }
                    }
                }
                e = e + 1;
            }
            proof {
                assert(kids@.take(e as int) =~= kids@);
            }
            children.push_row(&mut row, Ghost(i as nat));
            i = i + 1;
        }
        let mut items = VecOfVec::<T>::empty();
        let mut source = self.items;
        let ghost items0 = source@;
        let mut i: usize = 0;
        while i < n
            invariant
                i <= n,
                source@.len() == n,
                items0.len() == n,
                items.wf(i as nat),
                forall|k: int| 0 <= k < i ==> #[trigger] items.row(k) == items0[k]@,
                forall|k: int| i <= k < n ==> #[trigger] source@[k] == items0[k],
            decreases n - i,
        {
            let mut row: Vec<T> = Vec::new();
            std::mem::swap(&mut row, &mut source[i]);
            items.push_row(&mut row, Ghost(i as nat));
            i = i + 1;
        }
        let trie = PrefixTrie {
            children,
            items,
            leafs: self.leafs,
            characters,
            heights,
            prefixes,
            prefix: self.prefix,
            parent: self.parent,
            keys: self.keys,
        };
        proof {
            assert forall|p: int, e: int| 0 <= p < n && 0 <= e < kids0[p]@.len() implies #[trigger] trie.children.row(p)[e] == kids0[p]@[e].1 by {
                assert(trie.children.row(p) == child_ids(kids0[p]@));
            }
            assert forall|a: int, e: int|
                0 <= a < n && 0 <= e < trie.children.row(a).len() implies {
                    let j = #[trigger] trie.children.row(a)[e];
                    &&& a < j < n
                    &&& pre[j as int] == pre[a].push(trie.characters@[j as int])
                } by {
                assert(trie.children.row(a) == child_ids(kids0[a]@));
                let (c, j) = kids0[a]@[e];
                assert(trie.children.row(a)[e] == j);
                assert(self.children@[a]@[e] == kids0[a]@[e]);
                let (p, f) = par[j as int];
                let (c2, j2) = kids0[p]@[f];
                assert(pre[j as int] == pre[p].push(c2));
                assert(pre[p] =~= pre[j as int].drop_last());
                assert(pre[a] =~= pre[j as int].drop_last());
            }
            assert forall|j: int|
                0 < j < n implies {
                    let (p, e) = #[trigger] par[j];
                    &&& 0 <= p < n
                    &&& 0 <= e < trie.children.row(p).len()
                    &&& trie.children.row(p)[e] == j
                } by {
                let (p, e) = par[j];
                assert(trie.children.row(p) == child_ids(kids0[p]@));
            }
            assert forall|a: int, e1: int, e2: int|
                0 <= a < n && 0 <= e1 < e2 < trie.child_count(a) implies trie.subtree_size(
                    #[trigger] trie.child(a, e1),
                ) >= trie.subtree_size(#[trigger] trie.child(a, e2)) by {
                assert(trie.children.row(a) == child_ids(kids0[a]@));
                let x1 = kids0[a]@[e1].1 as int;
                let x2 = kids0[a]@[e2].1 as int;
                assert(trie.children.row(a)[e1] == x1);
                assert(trie.children.row(a)[e2] == x2);
                assert(Set::new(|b: int| 0 <= b < trie.leafs@.len() && is_prefix_of(pre[x1], pre[b])) =~= self.below(x1));
                assert(Set::new(|b: int| 0 <= b < trie.leafs@.len() && is_prefix_of(pre[x2], pre[b])) =~= self.below(x2));
                assert(self.children@[a]@[e1] == kids0[a]@[e1]);
            }
            assert forall|a: int, b: int|
                #![trigger trie.heights@[a], pre[b]]
                0 <= a < n && 0 <= b < n && is_prefix_of(pre[a], pre[b]) implies trie.heights@[a] >= pre[b].len()
                    - pre[a].len() by {
                assert(heights@[a] >= self.prefix@[b].len() - self.prefix@[a].len());
            }
            assert forall|k: int| 0 <= k < n implies (#[trigger] trie.prefixes@[k])@ == pre[k] by {
                if k > 0 {
                    assert(self.parent@[k] == par[k]);
                }
            }
            assert forall|k: int| 0 <= k < n implies #[trigger] trie.items.row(k) == (if trie.keys@.contains_key(pre[k]) {
                trie.keys@[pre[k]]
            } else {
                Seq::<T>::empty()
            }) by {
                assert(items0[k] == self.items@[k]);
            }
        }
        trie
    }
}


impl<T> PrefixTrie<T> {
    /// Appends every item of `node`, paired with the node's word.
    fn push_items<'a>(&'a self, node: usize, out: &mut Vec<(String, &'a T)>)
        requires
            self.wf(),
            node < self.node_count(),
            self.leafs@[node as int],
        ensures
            final(out)@.len() == old(out)@.len() + self.items.row(node as int).len(),
            forall|q: int| 0 <= q < old(out)@.len() ==> #[trigger] final(out)@[q] == old(out)@[q],
            forall|q: int|
                old(out)@.len() <= q < final(out)@.len() ==> (#[trigger] final(out)@[q]).0@ == self.prefix@[node as int]
                    && self@.contains_key(final(out)@[q].0@) && self@[final(out)@[q].0@].contains(*final(out)@[q].1),
            forall|t: int|
                0 <= t < self.items.row(node as int).len() ==> *final(out)@[old(out)@.len() + t].1
                    == #[trigger] self.items.row(node as int)[t],
    {
        let n_rows = self.items.indices.len();
        assert(node + 1 < n_rows);
        let start = self.items.indices[node];
        let end = self.items.indices[node + 1];
        proof {
            assert(self.items.indices@[node as int] <= self.items.indices@[node + 1]);
            assert(self.items.indices@[node + 1] <= self.items.indices@[self.node_count() as int]);
        }
        let ghost row = self.items.row(node as int);
        let ghost key = self.prefix@[node as int];
        let ghost out0 = out@;
        let mut k = start;
        while k < end
            invariant
                self.wf(),
                node < self.node_count(),
                self.leafs@[node as int],
                start == self.items.indices@[node as int],
                end == self.items.indices@[node + 1],
                start <= k <= end <= self.items.data@.len(),
                row == self.items.row(node as int),
                key == self.prefix@[node as int],
                self@.contains_key(key),
                row == self@[key],
                out@.len() == out0.len() + (k - start),
                forall|q: int| 0 <= q < out0.len() ==> #[trigger] out@[q] == out0[q],
                forall|q: int|
                    out0.len() <= q < out@.len() ==> (#[trigger] out@[q]).0@ == key && self@[key].contains(*out@[q].1),
                forall|t: int| 0 <= t < k - start ==> *out@[out0.len() + t].1 == #[trigger] row[t],
            decreases end - k,
        {
            let word = self.prefixes[node].clone();
            let item = &self.items.data[k];
            assert(row[k - start] == *item);
            out.push((word, item));
            k = k + 1;
        }
    }

    /// What a search round at `distance` returns: each item filed under a
    /// word found at exactly that distance (see `match_distance`), paired with
    /// its word, every such item, and each word as many times as it has items.
    pub open spec fn round_result(
        &self,
        word: Seq<char>,
        distance: nat,
        continuations: bool,
        r: Seq<(String, &T)>,
    ) -> bool {
        &&& forall|q: int| 0 <= q < r.len() ==> {
            &&& self@.contains_key((#[trigger] r[q]).0@)
            &&& self@[r[q].0@].contains(*r[q].1)
            &&& match_distance(r[q].0@, word, continuations) == distance
        }
        &&& forall|k: Seq<char>, t: int|
            self@.contains_key(k) && match_distance(k, word, continuations) == distance && 0 <= t < self@[k].len()
                ==> #[trigger] lists(r, 0, k, self@[k][t])
        &&& forall|k: Seq<char>|
            #[trigger] word_count(r, k) == if self@.contains_key(k) && match_distance(k, word, continuations)
                == distance {
                self@[k].len()
            } else {
                0
            }
    }

    /// What a search within `distance` returns: the rounds at 0, 1, ...,
    /// `distance` one after another, so each filed word found within
    /// `distance` comes with all its items, once each, nearer words first.
    pub open spec fn search_result(
        &self,
        word: Seq<char>,
        distance: nat,
        continuations: bool,
        r: Seq<(String, &T)>,
    ) -> bool {
        &&& forall|q: int| 0 <= q < r.len() ==> {
            &&& self@.contains_key((#[trigger] r[q]).0@)
            &&& self@[r[q].0@].contains(*r[q].1)
            &&& match_distance(r[q].0@, word, continuations) <= distance
        }
        &&& forall|a: int, b: int|
            0 <= a <= b < r.len() ==> match_distance((#[trigger] r[a]).0@, word, continuations) <= match_distance(
                (#[trigger] r[b]).0@,
                word,
                continuations,
            )
        &&& forall|k: Seq<char>, t: int|
            self@.contains_key(k) && match_distance(k, word, continuations) <= distance && 0 <= t < self@[k].len()
                ==> #[trigger] lists(r, 0, k, self@[k][t])
        &&& forall|k: Seq<char>|
            #[trigger] word_count(r, k) == if self@.contains_key(k) && match_distance(k, word, continuations)
                <= distance {
                self@[k].len()
            } else {
                0
            }
    }

    /// The words below node `ix` that a round at `distance` finds.
    pub open spec fn round_count_below(
        &self,
        base: Seq<char>,
        word: Seq<char>,
        distance: nat,
        continuations: bool,
        k: Seq<char>,
    ) -> nat {
        if self@.contains_key(k) && is_prefix_of(base, k) && match_distance(k, word, continuations) == distance {
            self@[k].len()
        } else {
            0
        }
    }

    /// Walks the subtree of `node` for a round at `distance`. `row[j]` is the
    /// (capped) edit distance between the node's word and the first `j`
    /// characters of `word`, and `best` the least over its prefixes against
    /// the whole word.
    fn round_below<'a>(
        &'a self,
        node: usize,
        row: &Vec<usize>,
        best: usize,
        word: &Vec<char>,
        distance: u8,
        continuations: bool,
        out: &mut Vec<(String, &'a T)>,
    )
        requires
            self.wf(),
            node < self.node_count(),
            distance < 0xff,
            row@.len() == word@.len() + 1,
            forall|j: int| 0 <= j <= word@.len() ==> #[trigger] row@[j] == capped(edit_distance(self.prefix@[node as int], word@.take(j))),
            best == capped(prefix_distance(self.prefix@[node as int], word@)),
        ensures
            final(out)@.len() >= old(out)@.len(),
            forall|q: int| 0 <= q < old(out)@.len() ==> #[trigger] final(out)@[q] == old(out)@[q],
            forall|q: int| old(out)@.len() <= q < final(out)@.len() ==> {
                &&& self@.contains_key((#[trigger] final(out)@[q]).0@)
                &&& self@[final(out)@[q].0@].contains(*final(out)@[q].1)
                &&& match_distance(final(out)@[q].0@, word@, continuations) == distance
                &&& is_prefix_of(self.prefix@[node as int], final(out)@[q].0@)
            },
            forall|k: Seq<char>, t: int|
                self@.contains_key(k) && is_prefix_of(self.prefix@[node as int], k) && match_distance(k, word@, continuations)
                    == distance && 0 <= t < self@[k].len() ==> #[trigger] lists(final(out)@, old(out)@.len() as int, k, self@[k][t]),
            forall|k: Seq<char>|
                #[trigger] word_count(final(out)@.subrange(old(out)@.len() as int, final(out)@.len() as int), k)
                    == self.round_count_below(self.prefix@[node as int], word@, distance as nat, continuations, k),
        decreases self.node_count() - node,
    {
        let ghost w = word@;
        let ghost pre = self.prefix@;
        let ghost base = pre[node as int];
        let ghost out0 = out@;
        let wlen = word.len();
        let own = if continuations {
            best
        } else {
            row[wlen]
        };
        proof {
            assert(w.take(wlen as int) =~= w);
            assert(base.take(base.len() as int) =~= base);
            assert(own == capped(match_distance(base, w, continuations)));
        }
        if self.leafs[node] && own == distance as usize {
            self.push_items(node, out);
        }
        let ghost out1 = out@;
        proof {
            let blk = out1.subrange(out0.len() as int, out1.len() as int);
            assert forall|q: int| 0 <= q < blk.len() implies (#[trigger] blk[q]).0@ == base by {
                assert(blk[q] == out1[out0.len() + q]);
            }
            assert forall|q: int| out0.len() <= q < out1.len() implies {
                &&& self@.contains_key((#[trigger] out1[q]).0@)
                &&& self@[out1[q].0@].contains(*out1[q].1)
                &&& match_distance(out1[q].0@, w, continuations) == distance
                &&& is_prefix_of(base, out1[q].0@)
            } by {
            }
        }
        let n_rows = self.children.indices.len();
        assert(node + 1 < n_rows);
        let start = self.children.indices[node];
        let end = self.children.indices[node + 1];
        proof {
            assert(self.children.indices@[node as int] <= self.children.indices@[node + 1]);
            assert(self.children.indices@[node + 1] <= self.children.indices@[self.node_count() as int]);
        }
        let ghost kids = self.children.row(node as int);
        let mut k = start;
        while k < end
            invariant
                self.wf(),
                node < self.node_count(),
                distance < 0xff,
                w == word@,
                wlen == w.len(),
                pre == self.prefix@,
                base == pre[node as int],
                row@.len() == wlen + 1,
                forall|j: int| 0 <= j <= wlen ==> #[trigger] row@[j] == capped(edit_distance(base, w.take(j))),
                best == capped(prefix_distance(base, w)),
                start == self.children.indices@[node as int],
                end == self.children.indices@[node + 1],
                start <= k <= end <= self.children.data@.len(),
                kids == self.children.row(node as int),
                out0.len() <= out1.len() <= out@.len(),
                forall|q: int| 0 <= q < out1.len() ==> #[trigger] out@[q] == out1[q],
                forall|q: int| 0 <= q < out0.len() ==> #[trigger] out1[q] == out0[q],
                forall|q: int| out0.len() <= q < out@.len() ==> {
                    &&& self@.contains_key((#[trigger] out@[q]).0@)
                    &&& self@[out@[q].0@].contains(*out@[q].1)
                    &&& match_distance(out@[q].0@, w, continuations) == distance
                    &&& is_prefix_of(base, out@[q].0@)
                },
                forall|x: Seq<char>, t: int|
                    self@.contains_key(x) && (exists|f: int|
                        0 <= f < k - start && is_prefix_of(pre[#[trigger] kids[f] as int], x)) && match_distance(x, w, continuations)
                        == distance && 0 <= t < self@[x].len() ==> #[trigger] lists(out@, out0.len() as int, x, self@[x][t]),
                forall|x: Seq<char>|
                    #[trigger] word_count(out@.subrange(out1.len() as int, out@.len() as int), x) == if exists|f: int|
                        0 <= f < k - start && is_prefix_of(pre[#[trigger] kids[f] as int], x) {
                        self.round_count_below(base, w, distance as nat, continuations, x)
                    } else {
                        0
                    },
            decreases end - k,
        {
            let child = self.children.data[k];
            assert(kids[k - start] == child);
            let c = self.characters[child];
            let ghost cp = pre[child as int];
            proof {
                assert(cp == base.push(c));
                assert(node < child);
                assert(cp.drop_last() =~= base);
            }
            let mut child_row: Vec<usize> = Vec::new();
            child_row.push(if row[0] + 1 < 0xff { row[0] + 1 } else { 0xff });
            proof {
                assert(w.take(0) =~= Seq::<char>::empty());
                assert(edit_distance(cp, w.take(0)) == cp.len());
                assert(edit_distance(base, w.take(0)) == base.len());
            }
            let mut i: usize = 0;
            while i < wlen
                invariant
                    i <= wlen,
                    w == word@,
                    wlen == w.len(),
                    cp == base.push(c),
                    row@.len() == wlen + 1,
                    forall|i: int| 0 <= i <= wlen ==> #[trigger] row@[i] == capped(edit_distance(base, w.take(i))),
                    child_row@.len() == i + 1,
                    forall|x: int| 0 <= x <= i ==> #[trigger] child_row@[x] == capped(edit_distance(cp, w.take(x))),
                decreases wlen - i,
            {
                let j = i + 1;
                let sub = row[j - 1] + if c == word[j - 1] {
                    0
                } else {
                    1
                };
                let del = child_row[j - 1] + 1;
                let ins = row[j] + 1;
                let m = if sub <= del && sub <= ins {
                    sub
                } else if del <= ins {
                    del
                } else {
                    ins
                };
                proof {
                    lemma_row_step(base, c, w, j as int);
                }
                child_row.push(if m < 0xff { m } else { 0xff });
                i = i + 1;
            }
            let child_best = if child_row[wlen] < best {
                child_row[wlen]
            } else {
                best
            };
            proof {
                assert(cp.drop_last() =~= base);
                assert(w.take(wlen as int) =~= w);
            }
            let ghost at_head = out@;
            self.round_below(child, &child_row, child_best, word, distance, continuations, out);
            proof {
                let blk0 = at_head.subrange(out1.len() as int, at_head.len() as int);
                let sub = out@.subrange(at_head.len() as int, out@.len() as int);
                assert(out@.subrange(out1.len() as int, out@.len() as int) =~= blk0 + sub);
                let f0 = k - start;
                assert forall|q: int| 0 <= q < out1.len() implies #[trigger] out@[q] == out1[q] by {
                    assert(out@[q] == at_head[q]);
                }
                assert forall|q: int| out0.len() <= q < out@.len() implies {
                    &&& self@.contains_key((#[trigger] out@[q]).0@)
                    &&& self@[out@[q].0@].contains(*out@[q].1)
                    &&& match_distance(out@[q].0@, w, continuations) == distance
                    &&& is_prefix_of(base, out@[q].0@)
                } by {
                    if q < at_head.len() {
                        assert(out@[q] == at_head[q]);
                    } else {
                        let x = out@[q].0@;
                        assert(x.take(base.len() as int) =~= x.take(cp.len() as int).take(base.len() as int));
                        assert(cp.take(base.len() as int) =~= base);
                    }
                }
                assert forall|x: Seq<char>, t: int|
                    self@.contains_key(x) && (exists|f: int|
                        0 <= f < k + 1 - start && is_prefix_of(pre[#[trigger] kids[f] as int], x)) && match_distance(x, w, continuations)
                        == distance && 0 <= t < self@[x].len() implies #[trigger] lists(out@, out0.len() as int, x, self@[x][t]) by {
                    let f = choose|f: int| 0 <= f < k + 1 - start && is_prefix_of(pre[#[trigger] kids[f] as int], x);
                    if f < f0 {
                        assert(lists(at_head, out0.len() as int, x, self@[x][t]));
                        lemma_lists_grow(at_head, out@, out0.len() as int, x, self@[x][t]);
                    } else {
                        assert(kids[f] == child);
                        assert(lists(out@, at_head.len() as int, x, self@[x][t]));
                        lemma_lists_from(out@, at_head.len() as int, out0.len() as int, x, self@[x][t]);
                    }
                }
                assert forall|x: Seq<char>|
                    #[trigger] word_count(out@.subrange(out1.len() as int, out@.len() as int), x) == if exists|f: int|
                        0 <= f < k + 1 - start && is_prefix_of(pre[#[trigger] kids[f] as int], x) {
                        self.round_count_below(base, w, distance as nat, continuations, x)
                    } else {
                        0
                    } by {
                    lemma_word_count_append(blk0, sub, x);
                    assert(word_count(blk0, x) == if exists|f: int|
                        0 <= f < k - start && is_prefix_of(pre[#[trigger] kids[f] as int], x) {
                        self.round_count_below(base, w, distance as nat, continuations, x)
                    } else {
                        0
                    });
                    assert(word_count(sub, x) == self.round_count_below(cp, w, distance as nat, continuations, x));
                    if is_prefix_of(cp, x) {
                        assert(kids[f0] == child);
                        assert forall|f: int| 0 <= f < k - start && is_prefix_of(pre[#[trigger] kids[f] as int], x) implies false by {
                            let g = kids[f] as int;
                            assert(self.children.row(node as int)[f] == kids[f]);
                            assert(pre[g] == base.push(self.characters@[g]));
                            assert(pre[g] =~= x.take(base.len() as int + 1));
                            assert(cp =~= x.take(base.len() as int + 1));
                            assert(g == child as int);
                            assert(self.children.row(node as int)[f0] == kids[f0]);
                        }
                        assert(x.take(base.len() as int) =~= cp.take(base.len() as int));
                        assert(cp.take(base.len() as int) =~= base);
                    } else {
                        if exists|f: int| 0 <= f < k + 1 - start && is_prefix_of(pre[#[trigger] kids[f] as int], x) {
                            let f = choose|f: int| 0 <= f < k + 1 - start && is_prefix_of(pre[#[trigger] kids[f] as int], x);
                            assert(f != f0);
                        }
                    }
                }
            }
            k = k + 1;
        }
        proof {
            let blk_own = out1.subrange(out0.len() as int, out1.len() as int);
            let blk_kids = out@.subrange(out1.len() as int, out@.len() as int);
            assert(out@.subrange(out0.len() as int, out@.len() as int) =~= blk_own + blk_kids);
            assert forall|q: int| 0 <= q < out0.len() implies #[trigger] out@[q] == out0[q] by {
                assert(out@[q] == out1[q]);
            }
            assert forall|x: Seq<char>|
                #[trigger] word_count(out@.subrange(out0.len() as int, out@.len() as int), x) == self.round_count_below(
                    base,
                    w,
                    distance as nat,
                    continuations,
                    x,
                ) by {
                lemma_word_count_append(blk_own, blk_kids, x);
                assert forall|q: int| 0 <= q < blk_own.len() implies (#[trigger] blk_own[q]).0@ == base by {
                    assert(blk_own[q] == out1[out0.len() + q]);
                }
                lemma_word_count_uniform(blk_own, base, x);
                if self.leafs@[node as int] {
                    assert(self.items.row(node as int) == self@[base]);
                }
                if x == base {
                    assert forall|f: int| 0 <= f < k - start && is_prefix_of(pre[#[trigger] kids[f] as int], x) implies false by {
                        let g = kids[f] as int;
                        assert(self.children.row(node as int)[f] == kids[f]);
                        assert(pre[g] == base.push(self.characters@[g]));
                    }
                } else if self.round_count_below(base, w, distance as nat, continuations, x) > 0 {
                    let b = choose|b: int| 0 <= b < self.node_count() && pre[b] == x;
                    if pre[b].len() == base.len() {
                        assert(x =~= x.take(base.len() as int));
                    }
                    self.lemma_child_towards(node as int, b);
                    let e = choose|e: int|
                        0 <= e < self.children.row(node as int).len() && is_prefix_of(
                            pre[#[trigger] self.children.row(node as int)[e] as int],
                            pre[b],
                        );
                    assert(is_prefix_of(pre[kids[e] as int], x));
                } else {
                    if exists|f: int| 0 <= f < k - start && is_prefix_of(pre[#[trigger] kids[f] as int], x) {
                        let f = choose|f: int| 0 <= f < k - start && is_prefix_of(pre[#[trigger] kids[f] as int], x);
                        let g = kids[f] as int;
                        assert(self.children.row(node as int)[f] == kids[f]);
                        assert(pre[g] == base.push(self.characters@[g]));
                        assert(x.take(base.len() as int) =~= x.take(pre[g].len() as int).take(base.len() as int));
                        assert(pre[g].take(base.len() as int) =~= base);
                    }
                }
            }
            assert forall|x: Seq<char>, t: int|
                self@.contains_key(x) && is_prefix_of(base, x) && match_distance(x, w, continuations) == distance && 0 <= t
                    < self@[x].len() implies #[trigger] lists(out@, out0.len() as int, x, self@[x][t]) by {
                if x == base {
                    assert(self.leafs@[node as int]);
                    assert(self.items.row(node as int) == self@[base]);
                    let q = out0.len() + t;
                    assert(*out1[q].1 == self.items.row(node as int)[t]);
                    assert(out1[q].0@ == base);
                    assert(out@[q] == out1[q]);
                } else {
                    let b = choose|b: int| 0 <= b < self.node_count() && pre[b] == x;
                    if pre[b].len() == base.len() {
                        assert(x =~= x.take(base.len() as int));
                    }
                    self.lemma_child_towards(node as int, b);
                    let e = choose|e: int|
                        0 <= e < self.children.row(node as int).len() && is_prefix_of(
                            pre[#[trigger] self.children.row(node as int)[e] as int],
                            pre[b],
                        );
                    assert(is_prefix_of(pre[kids[e] as int], x));
                }
            }
        }
    }

    /// One round of the fuzzy search: the items of every filed word at exactly
    /// `distance` edits from `word` (with `continuations`, of every word with a
    /// prefix at that distance and none nearer), each with its word.
    pub fn find_with_exact_edit_distance_stack<'a>(&'a self, word: &str, distance: u8, continuations: bool) -> (r: Vec<
        (String, &'a T),
    >)
        requires
            self.wf(),
            distance < 0xff,
        ensures
            self.round_result(word@, distance as nat, continuations, r@),
    {
        let chars = chars_of(word);
        let mut out: Vec<(String, &'a T)> = Vec::new();
        self.round_from_root(&chars, distance, continuations, &mut out);
        proof {
            assert(out@.subrange(0, out@.len() as int) =~= out@);
            assert forall|k: Seq<char>| #[trigger] self.round_count_below(Seq::<char>::empty(), word@, distance as nat, continuations, k)
                == (if self@.contains_key(k) && match_distance(k, word@, continuations) == distance {
                self@[k].len()
            } else {
                0
            }) by {
                assert(k.take(0) =~= Seq::<char>::empty());
            }
            assert forall|k: Seq<char>| #[trigger] word_count(out@, k) == (if self@.contains_key(k) && match_distance(
                k,
                word@,
                continuations,
            ) == distance {
                self@[k].len()
            } else {
                0
            }) by {
                assert(word_count(out@.subrange(0, out@.len() as int), k) == self.round_count_below(Seq::<char>::empty(), word@, distance as nat, continuations, k));
            }
            assert forall|k: Seq<char>, t: int|
                self@.contains_key(k) && match_distance(k, word@, continuations) == distance && 0 <= t < self@[k].len()
                    implies #[trigger] lists(out@, 0, k, self@[k][t]) by {
                assert(k.take(0) =~= Seq::<char>::empty());
            }
        }
        out
    }

    /// Appends one round for `word` from the root.
    fn round_from_root<'a>(&'a self, word: &Vec<char>, distance: u8, continuations: bool, out: &mut Vec<(String, &'a T)>)
        requires
            self.wf(),
            distance < 0xff,
        ensures
            final(out)@.len() >= old(out)@.len(),
            forall|q: int| 0 <= q < old(out)@.len() ==> #[trigger] final(out)@[q] == old(out)@[q],
            forall|q: int| old(out)@.len() <= q < final(out)@.len() ==> {
                &&& self@.contains_key((#[trigger] final(out)@[q]).0@)
                &&& self@[final(out)@[q].0@].contains(*final(out)@[q].1)
                &&& match_distance(final(out)@[q].0@, word@, continuations) == distance
            },
            forall|k: Seq<char>, t: int|
                self@.contains_key(k) && match_distance(k, word@, continuations) == distance && 0 <= t < self@[k].len()
                    ==> #[trigger] lists(final(out)@, old(out)@.len() as int, k, self@[k][t]),
            forall|k: Seq<char>|
                #[trigger] word_count(final(out)@.subrange(old(out)@.len() as int, final(out)@.len() as int), k)
                    == self.round_count_below(Seq::<char>::empty(), word@, distance as nat, continuations, k),
    {
        let wlen = word.len();
        let mut row: Vec<usize> = Vec::new();
        row.push(0);
        let mut i: usize = 0;
        proof {
            assert(self.prefix@[0] == Seq::<char>::empty());
            assert(word@.take(0).len() == 0);
        }
        while i < wlen
            invariant
                i <= wlen,
                wlen == word@.len(),
                row@.len() == i + 1,
                forall|x: int| 0 <= x <= i ==> #[trigger] row@[x] == capped(edit_distance(Seq::<char>::empty(), word@.take(x))),
            decreases wlen - i,
        {
            let j = i + 1;
            proof {
                assert(word@.take(j as int).len() == j);
            }
            row.push(if j < 0xff { j } else { 0xff });
            i = i + 1;
        }
        let best = if wlen < 0xff { wlen } else { 0xff };
        proof {
            assert(word@.take(wlen as int) =~= word@);
            assert(prefix_distance(Seq::<char>::empty(), word@) == wlen);
        }
        self.round_below(0, &row, best, word, distance, continuations, out);
        proof {
            assert forall|k: Seq<char>, t: int|
                self@.contains_key(k) && match_distance(k, word@, continuations) == distance && 0 <= t < self@[k].len()
                    implies #[trigger] lists(out@, old(out)@.len() as int, k, self@[k][t]) by {
                assert(k.take(0) =~= Seq::<char>::empty());
            }
        }
    }

    /// The items of every filed word within `distance` edits of `word` (with
    /// `continuations`, of every word with a prefix that near), each with its
    /// word, by rounds of increasing distance.
    pub fn find_with_max_edit_distance<'a>(&'a self, word: &str, distance: u8, continuations: bool) -> (r: Vec<
        (String, &'a T),
    >)
        requires
            self.wf(),
            distance < 0xff,
        ensures
            self.search_result(word@, distance as nat, continuations, r@),
    {
        let chars = chars_of(word);
        let mut out: Vec<(String, &'a T)> = Vec::new();
        let mut current: u8 = 0;
        loop
            invariant_except_break
                current <= distance,
                forall|q: int| 0 <= q < out@.len() ==> match_distance((#[trigger] out@[q]).0@, word@, continuations) < current,
                forall|k: Seq<char>, t: int|
                    self@.contains_key(k) && match_distance(k, word@, continuations) < current && 0 <= t < self@[k].len()
                        ==> #[trigger] lists(out@, 0, k, self@[k][t]),
                forall|k: Seq<char>|
                    #[trigger] word_count(out@, k) == if self@.contains_key(k) && match_distance(k, word@, continuations)
                        < current {
                        self@[k].len()
                    } else {
                        0
                    },
            invariant
                self.wf(),
                chars@ == word@,
                distance < 0xff,
                forall|q: int| 0 <= q < out@.len() ==> {
                    &&& self@.contains_key((#[trigger] out@[q]).0@)
                    &&& self@[out@[q].0@].contains(*out@[q].1)
                },
                forall|a: int, b: int|
                    0 <= a <= b < out@.len() ==> match_distance((#[trigger] out@[a]).0@, word@, continuations) <= match_distance(
                        (#[trigger] out@[b]).0@,
                        word@,
                        continuations,
                    ),
            ensures
                self.search_result(word@, distance as nat, continuations, out@),
            decreases distance - current,
        {
            let ghost before = out@;
            self.round_from_root(&chars, current, continuations, &mut out);
            proof {
                let blk = out@.subrange(before.len() as int, out@.len() as int);
                assert(out@ =~= before + blk);
                assert forall|q: int| 0 <= q < out@.len() implies match_distance((#[trigger] out@[q]).0@, word@, continuations)
                    < current + 1 by {
                    if q < before.len() {
                        assert(out@[q] == before[q]);
                    }
                }
                assert forall|a: int, b: int|
                    0 <= a <= b < out@.len() implies match_distance((#[trigger] out@[a]).0@, word@, continuations)
                        <= match_distance((#[trigger] out@[b]).0@, word@, continuations) by {
                    if a < before.len() {
                        assert(out@[a] == before[a]);
                        if b < before.len() {
                            assert(out@[b] == before[b]);
                        }
                    }
                }
                assert forall|k: Seq<char>, t: int|
                    self@.contains_key(k) && match_distance(k, word@, continuations) < current + 1 && 0 <= t < self@[k].len()
                        implies #[trigger] lists(out@, 0, k, self@[k][t]) by {
                    if match_distance(k, word@, continuations) < current {
                        assert(lists(before, 0, k, self@[k][t]));
                        lemma_lists_grow(before, out@, 0, k, self@[k][t]);
                    } else {
                        lemma_lists_from(out@, before.len() as int, 0, k, self@[k][t]);
                    }
                }
                assert forall|k: Seq<char>|
                    #[trigger] word_count(out@, k) == if self@.contains_key(k) && match_distance(k, word@, continuations)
                        < current + 1 {
                        self@[k].len()
                    } else {
                        0
                    } by {
                    lemma_word_count_append(before, blk, k);
                    assert(word_count(blk, k) == self.round_count_below(Seq::<char>::empty(), word@, current as nat, continuations, k));
                    assert(k.take(0) =~= Seq::<char>::empty());
                }
            }
            if current == distance {
                break;
            }
            current = current + 1;
        }
        out
    }
}


/// `out`, from position `from` on, pairs the word `k` with `item`.
pub open spec fn lists<T>(out: Seq<(String, &T)>, from: int, k: Seq<char>, item: T) -> bool {
    exists|q: int| 0 <= q && from <= q < out.len() && (#[trigger] out[q]).0@ == k && *out[q].1 == item
}

proof fn lemma_lists_grow<T>(out: Seq<(String, &T)>, more: Seq<(String, &T)>, from: int, k: Seq<char>, item: T)
    requires
        lists(out, from, k, item),
        out.len() <= more.len(),
        forall|q: int| 0 <= q < out.len() ==> #[trigger] more[q] == out[q],
    ensures
        lists(more, from, k, item),
{
    let q = choose|q: int| 0 <= q && from <= q < out.len() && (#[trigger] out[q]).0@ == k && *out[q].1 == item;
    assert(more[q] == out[q]);
}

proof fn lemma_lists_from<T>(out: Seq<(String, &T)>, from: int, earlier: int, k: Seq<char>, item: T)
    requires
        lists(out, from, k, item),
        earlier <= from,
    ensures
        lists(out, earlier, k, item),
{
    let q = choose|q: int| 0 <= q && from <= q < out.len() && (#[trigger] out[q]).0@ == k && *out[q].1 == item;
    assert(out[q] == out[q]);
}

/// How many entries of `out` carry the word `k`.
pub open spec fn word_count<T>(out: Seq<(String, &T)>, k: Seq<char>) -> nat
    decreases out.len(),
{
    if out.len() == 0 {
        0
    } else {
        word_count(out.drop_last(), k) + if out.last().0@ == k {
            1nat
        } else {
            0nat
        }
    }
}

proof fn lemma_word_count_append<T>(a: Seq<(String, &T)>, b: Seq<(String, &T)>, k: Seq<char>)
    ensures
        word_count(a + b, k) == word_count(a, k) + word_count(b, k),
    decreases b.len(),
{
    if b.len() == 0 {
        assert(a + b =~= a);
    } else {
        assert((a + b).drop_last() =~= a + b.drop_last());
        lemma_word_count_append(a, b.drop_last(), k);
    }
}

proof fn lemma_word_count_uniform<T>(s: Seq<(String, &T)>, w: Seq<char>, k: Seq<char>)
    requires
        forall|q: int| 0 <= q < s.len() ==> (#[trigger] s[q]).0@ == w,
    ensures
        word_count(s, k) == if k == w {
            s.len()
        } else {
            0
        },
    decreases s.len(),
{
    if s.len() > 0 {
        assert(s.last() == s[s.len() - 1]);
        lemma_word_count_uniform(s.drop_last(), w, k);
    }
}

/// `r` is a filed word that extends `base` by exactly `extra` characters, with
/// one of its items.
pub open spec fn extends_by<T>(keys: Map<Seq<char>, Seq<T>>, base: Seq<char>, extra: nat, r: (String, &T)) -> bool {
    &&& keys.contains_key(r.0@)
    &&& keys[r.0@].contains(*r.1)
    &&& r.0@.len() == base.len() + extra
    &&& r.0@.take(base.len() as int) == base
}

impl<T> PrefixTrie<T> {
    /// A word below node `i` is below one of its children.
    proof fn lemma_child_towards(&self, i: int, b: int)
        requires
            self.wf(),
            0 <= i < self.node_count(),
            0 <= b < self.node_count(),
            is_prefix_of(self.prefix@[i], self.prefix@[b]),
            self.prefix@[i].len() < self.prefix@[b].len(),
        ensures
            exists|e: int|
                0 <= e < self.children.row(i).len() && is_prefix_of(
                    self.prefix@[#[trigger] self.children.row(i)[e] as int],
                    self.prefix@[b],
                ),
    {
        let pre = self.prefix@;
        let l: int = pre[i].len() as int + 1;
        self.lemma_ancestor(b, l);
        let c = choose|a: int| 0 <= a < self.node_count() && pre[a] == pre[b].take(l);
        assert(pre[c].len() == l);
        assert(c != 0);
        let (p, e) = self.parent@[c];
        assert(self.children.row(p)[e] == c);
        assert(pre[c] == pre[p].push(self.characters@[c]));
        assert(pre[p] =~= pre[c].drop_last());
        assert(pre[i] =~= pre[c].drop_last());
        assert(p == i);
        assert(is_prefix_of(pre[c], pre[b]));
    }

    /// What `continuations(prefix)` returns: each item filed under a word that
    /// starts with `prefix`, paired with its word, shorter words first, and each
    /// word as many times as it has items.
    pub open spec fn continuation_result(&self, prefix: Seq<char>, r: Seq<(String, &T)>) -> bool {
        &&& forall|q: int| 0 <= q < r.len() ==> {
            &&& self@.contains_key((#[trigger] r[q]).0@)
            &&& self@[r[q].0@].contains(*r[q].1)
            &&& is_prefix_of(prefix, r[q].0@)
        }
        &&& forall|a: int, b: int| 0 <= a <= b < r.len() ==> (#[trigger] r[a]).0@.len() <= (#[trigger] r[b]).0@.len()
        &&& forall|k: Seq<char>, t: int|
            self@.contains_key(k) && is_prefix_of(prefix, k) && 0 <= t < self@[k].len() ==> #[trigger] lists(
                r,
                0,
                k,
                self@[k][t],
            )
        &&& forall|k: Seq<char>|
            #[trigger] word_count(r, k) == if self@.contains_key(k) && is_prefix_of(prefix, k) {
                self@[k].len()
            } else {
                0
            }
    }

    /// How many items are filed under `k` when `k` extends `base` by exactly
    /// `length` characters, else zero.
    pub open spec fn below_count(&self, base: Seq<char>, length: nat, k: Seq<char>) -> nat {
        if self@.contains_key(k) && is_prefix_of(base, k) && k.len() == base.len() + length {
            self@[k].len()
        } else {
            0
        }
    }

    /// Appends the items of the words below node `ix` that are exactly `length`
    /// characters longer than its own, each with its word.
    pub fn childs_of_lengths<'a>(&'a self, ix: usize, length: usize, out: &mut Vec<(String, &'a T)>)
        requires
            self.wf(),
            ix < self.node_count(),
        ensures
            final(out)@.len() >= old(out)@.len(),
            forall|q: int| 0 <= q < old(out)@.len() ==> #[trigger] final(out)@[q] == old(out)@[q],
            forall|q: int|
                old(out)@.len() <= q < final(out)@.len() ==> extends_by(
                    self@,
                    self.word_of(ix as int),
                    length as nat,
                    #[trigger] final(out)@[q],
                ),
            forall|b: int, t: int|
                0 <= b < self.node_count() && self@.contains_key(self.word_of(b)) && is_prefix_of(
                    self.word_of(ix as int),
                    self.word_of(b),
                ) && self.word_of(b).len() == self.word_of(ix as int).len() + length && 0 <= t
                    < self@[self.word_of(b)].len() ==> #[trigger] lists(
                    final(out)@,
                    old(out)@.len() as int,
                    self.word_of(b),
                    self@[self.word_of(b)][t],
                ),
            forall|k: Seq<char>|
                #[trigger] word_count(final(out)@.subrange(old(out)@.len() as int, final(out)@.len() as int), k)
                    == self.below_count(self.word_of(ix as int), length as nat, k),
        decreases length,
    {
        let ghost base = self.prefix@[ix as int];
        let ghost out0 = out@;
        if length == 0 {
            if self.leafs[ix] {
                self.push_items(ix, out);
                proof {
                    assert(base.take(base.len() as int) =~= base);
                }
            }
            proof {
                let blk = out@.subrange(out0.len() as int, out@.len() as int);
                assert forall|q: int| 0 <= q < blk.len() implies (#[trigger] blk[q]).0@ == base by {
                    assert(blk[q] == out@[out0.len() + q]);
                }
                assert forall|k: Seq<char>|
                    #[trigger] word_count(out@.subrange(out0.len() as int, out@.len() as int), k) == self.below_count(
                        base,
                        length as nat,
                        k,
                    ) by {
                    lemma_word_count_uniform(blk, base, k);
                    if is_prefix_of(base, k) && k.len() == base.len() {
                        assert(k =~= k.take(base.len() as int));
                    }
                    if self.leafs@[ix as int] {
                        assert(self.items.row(ix as int) == self@[base]);
                    }
                }
            }
            proof {
                let pre = self.prefix@;
                assert forall|b: int, t: int|
                    0 <= b < self.node_count() && self@.contains_key(pre[b]) && is_prefix_of(base, pre[b])
                        && pre[b].len() == base.len() + length && 0 <= t < self@[pre[b]].len() implies #[trigger] lists(
                    out@,
                    out0.len() as int,
                    pre[b],
                    self@[pre[b]][t],
                ) by {
                    assert(pre[b] =~= base);
                    assert(b == ix);
                    assert(self.items.row(ix as int) == self@[base]);
                    let q = out0.len() + t;
                    assert(*out@[q].1 == self.items.row(ix as int)[t]);
                    assert(out@[q].0@ == base);
                }
            }
            return;
        }
        let n_rows = self.children.indices.len();
        assert(ix + 1 < n_rows);
        let start = self.children.indices[ix];
        let end = self.children.indices[ix + 1];
        proof {
            assert(self.children.indices@[ix as int] <= self.children.indices@[ix + 1]);
            assert(self.children.indices@[ix + 1] <= self.children.indices@[self.node_count() as int]);
        }
        let ghost row = self.children.row(ix as int);
        let mut k = start;
        while k < end
            invariant
                self.wf(),
                ix < self.node_count(),
                length > 0,
                base == self.prefix@[ix as int],
                start == self.children.indices@[ix as int],
                end == self.children.indices@[ix + 1],
                start <= k <= end <= self.children.data@.len(),
                row == self.children.row(ix as int),
                out@.len() >= out0.len(),
                forall|q: int| 0 <= q < out0.len() ==> #[trigger] out@[q] == out0[q],
                forall|q: int| out0.len() <= q < out@.len() ==> extends_by(self@, base, length as nat, #[trigger] out@[q]),
                forall|b: int, t: int|
                    0 <= b < self.node_count() && self@.contains_key(self.prefix@[b]) && (exists|f: int|
                        0 <= f < k - start && is_prefix_of(self.prefix@[#[trigger] row[f] as int], self.prefix@[b]))
                        && self.prefix@[b].len() == base.len() + length && 0 <= t < self@[self.prefix@[b]].len()
                        ==> #[trigger] lists(out@, out0.len() as int, self.prefix@[b], self@[self.prefix@[b]][t]),
                forall|w: Seq<char>|
                    #[trigger] word_count(out@.subrange(out0.len() as int, out@.len() as int), w) == if exists|f: int|
                        0 <= f < k - start && is_prefix_of(self.prefix@[#[trigger] row[f] as int], w) {
                        self.below_count(base, length as nat, w)
                    } else {
                        0
                    },
            decreases end - k,
        {
            let child = self.children.data[k];
            assert(row[k - start] == child);
            let ghost at_head = out@;
            let ghost f0 = k - start;
            proof {
                assert(self.prefix@[child as int] == base.push(self.characters@[child as int]));
            }
            if self.heights[child] >= length - 1 {
                let ghost before = out@;
                let ghost cp = self.prefix@[child as int];
                assert(cp == base.push(self.characters@[child as int]));
                self.childs_of_lengths(child, length - 1, out);
                proof {
                    assert forall|q: int| out0.len() <= q < out@.len() implies extends_by(self@, base, length as nat, #[trigger] out@[q]) by {
                        if q < before.len() {
                            assert(out@[q] == before[q]);
                        } else {
                            assert(extends_by(self@, cp, (length - 1) as nat, out@[q]));
                            assert(out@[q].0@.take(base.len() as int) =~= cp.take(cp.len() as int).take(base.len() as int));
                            assert(cp.take(cp.len() as int) =~= cp);
                            assert(cp.take(base.len() as int) =~= base);
                        }
                    }
                }
            }
            proof {
                let pre = self.prefix@;
                let f0 = k - start;
                assert forall|b: int, t: int|
                    0 <= b < self.node_count() && self@.contains_key(pre[b]) && (exists|f: int|
                        0 <= f < k + 1 - start && is_prefix_of(pre[#[trigger] row[f] as int], pre[b]))
                        && pre[b].len() == base.len() + length && 0 <= t < self@[pre[b]].len() implies #[trigger] lists(
                    out@,
                    out0.len() as int,
                    pre[b],
                    self@[pre[b]][t],
                ) by {
                    let f = choose|f: int| 0 <= f < k + 1 - start && is_prefix_of(pre[#[trigger] row[f] as int], pre[b]);
                    if f < f0 {
                        assert(lists(at_head, out0.len() as int, pre[b], self@[pre[b]][t]));
                        lemma_lists_grow(at_head, out@, out0.len() as int, pre[b], self@[pre[b]][t]);
                    } else {
                        assert(row[f] == child);
                        assert(self.heights@[child as int] >= pre[b].len() - pre[child as int].len());
                        assert(lists(out@, at_head.len() as int, self.word_of(b), self@[self.word_of(b)][t]));
                        lemma_lists_from(out@, at_head.len() as int, out0.len() as int, pre[b], self@[pre[b]][t]);
                    }
                }
            }
            proof {
                let pre = self.prefix@;
                let cp = pre[child as int];
                let blk0 = at_head.subrange(out0.len() as int, at_head.len() as int);
                let sub = out@.subrange(at_head.len() as int, out@.len() as int);
                assert(out@.subrange(out0.len() as int, out@.len() as int) =~= blk0 + sub);
                assert forall|w: Seq<char>|
                    #[trigger] word_count(out@.subrange(out0.len() as int, out@.len() as int), w) == if exists|f: int|
                        0 <= f < k + 1 - start && is_prefix_of(pre[#[trigger] row[f] as int], w) {
                        self.below_count(base, length as nat, w)
                    } else {
                        0
                    } by {
                    lemma_word_count_append(blk0, sub, w);
                    assert(word_count(blk0, w) == if exists|f: int|
                        0 <= f < k - start && is_prefix_of(pre[#[trigger] row[f] as int], w) {
                        self.below_count(base, length as nat, w)
                    } else {
                        0
                    });
                    if self.heights@[child as int] >= length - 1 {
                        assert(word_count(sub, w) == self.below_count(self.word_of(child as int), (length - 1) as nat, w));
                    } else {
                        assert(sub.len() == 0);
                    }
                    let on_child = is_prefix_of(cp, w);
                    if on_child {
                        assert(row[f0] == child);
                        assert forall|f: int| 0 <= f < k - start && is_prefix_of(pre[#[trigger] row[f] as int], w) implies false by {
                            let g = row[f] as int;
                            assert(self.children.row(ix as int)[f] == row[f]);
                            assert(pre[g] == base.push(self.characters@[g]));
                            assert(pre[g] =~= w.take(base.len() as int + 1));
                            assert(cp =~= w.take(base.len() as int + 1));
                            assert(g == child as int);
                            assert(self.children.row(ix as int)[f0] == row[f0]);
                        }
                        if self@.contains_key(w) && w.len() == base.len() + length {
                            assert(w.take(base.len() as int) =~= cp.take(base.len() as int));
                            assert(cp.take(base.len() as int) =~= base);
                            if self.heights@[child as int] < length - 1 {
                                let b = choose|b: int| 0 <= b < self.node_count() && pre[b] == w;
                                assert(self.heights@[child as int] >= pre[b].len() - cp.len());
                            }
                        } else {
                            if self.heights@[child as int] >= length - 1 {
                                assert(self.below_count(cp, (length - 1) as nat, w) == 0);
                            }
                            if is_prefix_of(base, w) && self@.contains_key(w) {
                            }
                        }
                    } else {
                        if self.heights@[child as int] >= length - 1 {
                            assert(self.below_count(cp, (length - 1) as nat, w) == 0);
                        }
                        if exists|f: int| 0 <= f < k + 1 - start && is_prefix_of(pre[#[trigger] row[f] as int], w) {
                            let f = choose|f: int| 0 <= f < k + 1 - start && is_prefix_of(pre[#[trigger] row[f] as int], w);
                            assert(f != f0);
                        }
                    }
                }
            }
            k = k + 1;
        }
        proof {
            let pre = self.prefix@;
            assert forall|w: Seq<char>|
                #[trigger] word_count(out@.subrange(out0.len() as int, out@.len() as int), w) == self.below_count(
                    base,
                    length as nat,
                    w,
                ) by {
                if self.below_count(base, length as nat, w) > 0 {
                    let b = choose|b: int| 0 <= b < self.node_count() && pre[b] == w;
                    self.lemma_child_towards(ix as int, b);
                    let e = choose|e: int|
                        0 <= e < self.children.row(ix as int).len() && is_prefix_of(
                            pre[#[trigger] self.children.row(ix as int)[e] as int],
                            pre[b],
                        );
                    assert(is_prefix_of(pre[row[e] as int], w));
                }
            }
            assert forall|b: int, t: int|
                0 <= b < self.node_count() && self@.contains_key(pre[b]) && is_prefix_of(base, pre[b]) && pre[b].len()
                    == base.len() + length && 0 <= t < self@[pre[b]].len() implies #[trigger] lists(
                out@,
                out0.len() as int,
                pre[b],
                self@[pre[b]][t],
            ) by {
                self.lemma_child_towards(ix as int, b);
                let e = choose|e: int|
                    0 <= e < self.children.row(ix as int).len() && is_prefix_of(
                        pre[#[trigger] self.children.row(ix as int)[e] as int],
                        pre[b],
                    );
                assert(is_prefix_of(pre[row[e] as int], pre[b]));
            }
        }
    }

    /// The items of every word that starts with `prefix`, each with its word,
    /// shorter words first.
    pub fn continuations<'a>(&'a self, prefix: &str) -> (r: Vec<(String, &'a T)>)
        requires
            self.wf(),
        ensures
            forall|q: int| 0 <= q < r@.len() ==> {
                &&& self@.contains_key((#[trigger] r@[q]).0@)
                &&& self@[r@[q].0@].contains(*r@[q].1)
                &&& r@[q].0@.len() >= prefix@.len()
                &&& r@[q].0@.take(prefix@.len() as int) == prefix@
            },
            forall|a: int, b: int| 0 <= a <= b < r@.len() ==> (#[trigger] r@[a]).0@.len() <= (#[trigger] r@[b]).0@.len(),
            forall|k: Seq<char>, t: int|
                self@.contains_key(k) && is_prefix_of(prefix@, k) && 0 <= t < self@[k].len() ==> #[trigger] lists(
                    r@,
                    0,
                    k,
                    self@[k][t],
                ),
            forall|k: Seq<char>|
                #[trigger] word_count(r@, k) == if self@.contains_key(k) && is_prefix_of(prefix@, k) {
                    self@[k].len()
                } else {
                    0
                },
            self.continuation_result(prefix@, r@),
    {
        let chars = chars_of(prefix);
        let mut current: usize = 0;
        let mut i: usize = 0;
        let mut out: Vec<(String, &'a T)> = Vec::new();
        while i < chars.len()
            invariant
                self.wf(),
                chars@ == prefix@,
                i <= chars@.len(),
                current < self.node_count(),
                self.prefix@[current as int] == prefix@.take(i as int),
                out@.len() == 0,
            decreases chars@.len() - i,
        {
            proof {
                assert(prefix@.take(i + 1) =~= prefix@.take(i as int).push(chars@[i as int]));
            }
            match self.get_child(chars[i], current) {
                Some(child) => {
                    current = child;
                },
                None => {
                    proof {
                        assert forall|k: Seq<char>, t: int|
                            self@.contains_key(k) && is_prefix_of(prefix@, k) && 0 <= t < self@[k].len() implies #[trigger] lists(
                            out@,
                            0,
                            k,
                            self@[k][t],
                        ) by {
                            let m = choose|m: int| 0 <= m < self.node_count() && self.prefix@[m] == k;
                            self.lemma_ancestor(m, i + 1);
                            let a = choose|a: int| 0 <= a < self.node_count() && self.prefix@[a] == self.prefix@[m].take(i + 1);
                            assert(k.take(i + 1) =~= prefix@.take(i + 1));
                            assert(self.word_of(a) == self.word_of(current as int).push(chars@[i as int]));
                        }
                        assert forall|k: Seq<char>|
                            #[trigger] word_count(out@, k) == if self@.contains_key(k) && is_prefix_of(prefix@, k) {
                                self@[k].len()
                            } else {
                                0
                            } by {
                            if self@.contains_key(k) && is_prefix_of(prefix@, k) {
                                let m = choose|m: int| 0 <= m < self.node_count() && self.prefix@[m] == k;
                                self.lemma_ancestor(m, i + 1);
                                let a = choose|a: int|
                                    0 <= a < self.node_count() && self.prefix@[a] == self.prefix@[m].take(i + 1);
                                assert(k.take(i + 1) =~= prefix@.take(i + 1));
                                assert(self.word_of(a) == self.word_of(current as int).push(chars@[i as int]));
                            }
                        }
                    }
                    return out;
                },
            }
            i = i + 1;
        }
        proof {
            assert(prefix@.take(i as int) =~= prefix@);
        }
        let top = self.heights[current];
        let mut length: usize = 0;
        loop
            invariant_except_break
                forall|k: Seq<char>|
                    #[trigger] word_count(out@, k) == if self@.contains_key(k) && is_prefix_of(prefix@, k) && k.len()
                        < prefix@.len() + length {
                        self@[k].len()
                    } else {
                        0
                    },
            invariant
                self.wf(),
                current < self.node_count(),
                self.prefix@[current as int] == prefix@,
                length <= top,
                top == self.heights@[current as int],
                forall|q: int| 0 <= q < out@.len() ==> extends_by(self@, prefix@, ((#[trigger] out@[q]).0@.len() - prefix@.len()) as nat, out@[q])
                    && out@[q].0@.len() < prefix@.len() + length + 1,
                forall|a: int, b: int| 0 <= a <= b < out@.len() ==> (#[trigger] out@[a]).0@.len() <= (#[trigger] out@[b]).0@.len(),
                forall|k: Seq<char>, t: int|
                    self@.contains_key(k) && is_prefix_of(prefix@, k) && k.len() < prefix@.len() + length && 0 <= t
                        < self@[k].len() ==> #[trigger] lists(out@, 0, k, self@[k][t]),
            ensures
                forall|k: Seq<char>|
                    #[trigger] word_count(out@, k) == if self@.contains_key(k) && is_prefix_of(prefix@, k) {
                        self@[k].len()
                    } else {
                        0
                    },
                forall|k: Seq<char>, t: int|
                    self@.contains_key(k) && is_prefix_of(prefix@, k) && 0 <= t < self@[k].len() ==> #[trigger] lists(
                        out@,
                        0,
                        k,
                        self@[k][t],
                    ),
                forall|q: int| 0 <= q < out@.len() ==> extends_by(self@, prefix@, ((#[trigger] out@[q]).0@.len() - prefix@.len()) as nat, out@[q]),
                forall|a: int, b: int| 0 <= a <= b < out@.len() ==> (#[trigger] out@[a]).0@.len() <= (#[trigger] out@[b]).0@.len(),
            decreases top - length,
        {
            let ghost before = out@;
            self.childs_of_lengths(current, length, &mut out);
            proof {
                assert(out@ =~= before + out@.subrange(before.len() as int, out@.len() as int));
                assert forall|k: Seq<char>|
                    #[trigger] word_count(out@, k) == if self@.contains_key(k) && is_prefix_of(prefix@, k) && k.len()
                        < prefix@.len() + length + 1 {
                        self@[k].len()
                    } else {
                        0
                    } by {
                    lemma_word_count_append(before, out@.subrange(before.len() as int, out@.len() as int), k);
                    assert(word_count(out@.subrange(before.len() as int, out@.len() as int), k) == self.below_count(
                        self.word_of(current as int),
                        length as nat,
                        k,
                    ));
                }
                assert forall|k: Seq<char>, t: int|
                    self@.contains_key(k) && is_prefix_of(prefix@, k) && k.len() < prefix@.len() + length + 1 && 0 <= t
                        < self@[k].len() implies #[trigger] lists(out@, 0, k, self@[k][t]) by {
                    if k.len() < prefix@.len() + length {
                        assert(lists(before, 0, k, self@[k][t]));
                        lemma_lists_grow(before, out@, 0, k, self@[k][t]);
                    } else {
                        let b = choose|b: int| 0 <= b < self.node_count() && self.prefix@[b] == k;
                        assert(self.word_of(b) == k);
                        assert(lists(out@, before.len() as int, self.word_of(b), self@[self.word_of(b)][t]));
                        lemma_lists_from(out@, before.len() as int, 0, k, self@[k][t]);
                    }
                }
                assert forall|q: int| 0 <= q < out@.len() implies extends_by(self@, prefix@, ((#[trigger] out@[q]).0@.len() - prefix@.len()) as nat, out@[q])
                    && out@[q].0@.len() < prefix@.len() + length + 1 by {
                    if q < before.len() {
                        assert(out@[q] == before[q]);
                    } else {
                        assert(extends_by(self@, prefix@, length as nat, out@[q]));
                    }
                }
                assert forall|a: int, b: int| 0 <= a <= b < out@.len() implies (#[trigger] out@[a]).0@.len() <= (#[trigger] out@[b]).0@.len() by {
                    if b >= before.len() {
                        assert(extends_by(self@, prefix@, length as nat, out@[b]));
                        if a < before.len() {
                            assert(out@[a] == before[a]);
                        } else {
                            assert(extends_by(self@, prefix@, length as nat, out@[a]));
                        }
                    } else {
                        assert(out@[a] == before[a]);
                        assert(out@[b] == before[b]);
                    }
                }
            }
            if length == top {
                proof {
                    assert forall|k: Seq<char>, t: int|
                        self@.contains_key(k) && is_prefix_of(prefix@, k) && 0 <= t < self@[k].len() implies #[trigger] lists(
                        out@,
                        0,
                        k,
                        self@[k][t],
                    ) by {
                        let b = choose|b: int| 0 <= b < self.node_count() && self.prefix@[b] == k;
                        assert(is_prefix_of(self.prefix@[current as int], self.prefix@[b]));
                        assert(self.heights@[current as int] >= self.prefix@[b].len() - self.prefix@[current as int].len());
                        assert(k.len() < prefix@.len() + length + 1);
                    }
                    assert forall|k: Seq<char>|
                        #[trigger] word_count(out@, k) == if self@.contains_key(k) && is_prefix_of(prefix@, k) {
                            self@[k].len()
                        } else {
                            0
                        } by {
                        if self@.contains_key(k) && is_prefix_of(prefix@, k) {
                            let b = choose|b: int| 0 <= b < self.node_count() && self.prefix@[b] == k;
                            assert(is_prefix_of(self.prefix@[current as int], self.prefix@[b]));
                            assert(self.heights@[current as int] >= self.prefix@[b].len() - self.prefix@[current as int].len());
                        }
                    }
                }
                break;
            }
            length = length + 1;
        }
        proof {
            assert forall|q: int| 0 <= q < out@.len() implies {
                &&& self@.contains_key((#[trigger] out@[q]).0@)
                &&& self@[out@[q].0@].contains(*out@[q].1)
                &&& out@[q].0@.len() >= prefix@.len()
                &&& out@[q].0@.take(prefix@.len() as int) == prefix@
            } by {
                assert(extends_by(self@, prefix@, (out@[q].0@.len() - prefix@.len()) as nat, out@[q]));
            }
        }
        out
    }
}

/// `item` is filed under some word that starts with `prefix`.
pub open spec fn filed_under_prefix<T>(keys: Map<Seq<char>, Seq<T>>, prefix: Seq<char>, item: T) -> bool {
    exists|k: Seq<char>|
        keys.contains_key(k) && k.len() >= prefix.len() && k.take(prefix.len() as int) == prefix
            && #[trigger] keys[k].contains(item)
}

/// One of `r` refers to `item`.
pub open spec fn holds_item<T>(r: Seq<&T>, item: T) -> bool {
    exists|q: int| 0 <= q < r.len() && *r[q] == item
}

/// A place-name index: a trie under construction, or a finished one.
pub struct SearchIndex<TrieType> {
    pub trie: TrieType,
}

impl<T> SearchIndex<PrefixTrieBuilder<T>> {
    pub fn new() -> (r: Self)
        ensures
            r.trie.wf(),
            r.trie@ == Map::<Seq<char>, Seq<T>>::empty(),
            r.trie.node_count() == 1,
    {
        SearchIndex { trie: PrefixTrieBuilder::new() }
    }

    /// Files `element` under `key`.
    pub fn insert(&mut self, key: &str, element: T)
        requires
            old(self).trie.wf(),
            old(self).trie.node_count() + key@.len() <= usize::MAX,
        ensures
            final(self).trie.wf(),
            final(self).trie@ == old(self).trie@.insert(
                key@,
                if old(self).trie@.contains_key(key@) {
                    old(self).trie@[key@].push(element)
                } else {
                    seq![element]
                },
            ),
            final(self).trie.node_count() <= old(self).trie.node_count() + key@.len(),
            final(self).trie.node_words() == old(self).trie.node_words() + word_prefixes(key@),
    {
        self.trie.insert(key, element);
    }

    /// The read-only index over the same words and items.
    pub fn finalize(self) -> (r: SearchIndex<PrefixTrie<T>>)
        requires
            self.trie.wf(),
        ensures
            r.trie.wf(),
            r.trie@ == self.trie@,
            r.trie.node_count() == self.trie.node_count(),
            r.trie.children_ordered(),
    {
        SearchIndex { trie: self.trie.finalize() }
    }
}

impl<T> SearchIndex<PrefixTrie<T>> {
    /// The items of every word that starts with `prefix`, shorter words first.
    pub fn continuations<'a>(&'a self, prefix: &str) -> (r: Vec<&'a T>)
        requires
            self.trie.wf(),
        ensures
            forall|q: int| 0 <= q < r@.len() ==> filed_under_prefix(self.trie@, prefix@, *#[trigger] r@[q]),
            forall|k: Seq<char>, t: int|
                self.trie@.contains_key(k) && is_prefix_of(prefix@, k) && 0 <= t < self.trie@[k].len()
                    ==> #[trigger] holds_item(r@, self.trie@[k][t]),
            exists|found: Seq<(String, &T)>|
                self.trie.continuation_result(prefix@, found) && found.len() == r@.len() && forall|q: int|
                    0 <= q < r@.len() ==> #[trigger] r@[q] == found[q].1,
    {
        let found = self.trie.continuations(prefix);
        let mut out: Vec<&'a T> = Vec::new();
        let mut i: usize = 0;
        while i < found.len()
            invariant
                self.trie.wf(),
                i <= found@.len(),
                out@.len() == i,
                forall|q: int| 0 <= q < found@.len() ==> {
                    &&& self.trie@.contains_key((#[trigger] found@[q]).0@)
                    &&& self.trie@[found@[q].0@].contains(*found@[q].1)
                    &&& found@[q].0@.len() >= prefix@.len()
                    &&& found@[q].0@.take(prefix@.len() as int) == prefix@
                },
                forall|q: int| 0 <= q < i ==> #[trigger] out@[q] == found@[q].1,
            decreases found@.len() - i,
        {
            out.push(found[i].1);
            i = i + 1;
        }
        proof {
            assert forall|q: int| 0 <= q < out@.len() implies filed_under_prefix(self.trie@, prefix@, *#[trigger] out@[q]) by {
                let k = found@[q].0@;
                assert(self.trie@.contains_key(k) && k.len() >= prefix@.len() && k.take(prefix@.len() as int) == prefix@
                    && self.trie@[k].contains(*out@[q]));
            }
            assert forall|k: Seq<char>, t: int|
                self.trie@.contains_key(k) && is_prefix_of(prefix@, k) && 0 <= t < self.trie@[k].len()
                    implies #[trigger] holds_item(out@, self.trie@[k][t]) by {
                assert(lists(found@, 0, k, self.trie@[k][t]));
                let q = choose|q: int| 0 <= q && 0 <= q < found@.len() && (#[trigger] found@[q]).0@ == k && *found@[q].1 == self.trie@[k][t];
                assert(out@[q] == found@[q].1);
            }
            assert(self.trie.continuation_result(prefix@, found@));
        }
        out
    }

    /// The items whose words are within `max_distance` edits of `key`, each with
    /// its word.
    pub fn find_with_max_edit_distance<'a>(&'a self, key: &str, max_distance: u8, continuations: bool) -> (r: Vec<
        (String, &'a T),
    >)
        requires
            self.trie.wf(),
            max_distance < 0xff,
        ensures
            self.trie.search_result(key@, max_distance as nat, continuations, r@),
    {
        self.trie.find_with_max_edit_distance(key, max_distance, continuations)
    }
}

} // verus!
