//! A character trie over a dictionary: exact lookup, insertion, and (see `search`) bounded
//! edit-distance search that shares the DP work across common prefixes.
use vstd::prelude::*;
use crate::spell::edit_distance::{
    lemma_osa_bound, lemma_osa_step, lemma_row_prefix, osa_distance, row_at_least,
};

verus! {

/// A character trie. Node 0 is the root; `children[n]` lists `n`'s outgoing edges as
/// `(edge char, child id)`, and `word[n]` is the value stored at the word ending at `n`.
pub struct DictTrie {
    children: Vec<Vec<(char, u32)>>,
    word: Vec<Option<usize>>,
    /// The string each node spells from the root.
    paths: Ghost<Seq<Seq<char>>>,
}

impl DictTrie {
    /// The string spelled by node `n`.
    pub closed spec fn path(&self, n: int) -> Seq<char> {
        self.paths@[n]
    }

    /// Number of nodes.
    pub closed spec fn size(&self) -> nat {
        self.children@.len()
    }

    /// Edge `k` out of node `m`.
    pub closed spec fn edge(&self, m: int, k: int) -> (char, u32) {
        self.children@[m]@[k]
    }

    /// Number of edges out of node `m`.
    pub closed spec fn degree(&self, m: int) -> nat {
        self.children@[m]@.len()
    }

    /// Value stored at node `n`, if a word ends there.
    pub closed spec fn value_at(&self, n: int) -> Option<usize> {
        self.word@[n]
    }

    /// Well-formed: a tree whose nodes spell distinct strings, each child spelling its
    /// parent's string plus the edge character, sibling edges carrying distinct characters.
    pub closed spec fn wf(&self) -> bool {
        let p = self.paths@;
        let len = self.children@.len();
        &&& self.word@.len() == len
        &&& p.len() == len
        &&& len >= 1
        &&& len <= u32::MAX
        &&& p[0] == Seq::<char>::empty()
        &&& forall|m: int, k: int|
            0 <= m < len && 0 <= k < self.children@[m]@.len() ==> {
                let e = #[trigger] self.children@[m]@[k];
                &&& e.1 < len
                &&& e.1 != 0
                &&& p[e.1 as int] == p[m].push(e.0)
            }
        &&& forall|m: int, k1: int, k2: int|
            0 <= m < len && 0 <= k1 < self.children@[m]@.len() && 0 <= k2 < self.children@[m]@.len()
                && k1 != k2 ==> (#[trigger] self.children@[m]@[k1]).0 != (#[trigger] self.children@[m]@[k2]).0
        &&& forall|n: int|
            0 < n < len ==> (#[trigger] p[n]).len() > 0 && exists|m: int, k: int|
                0 <= m < len && 0 <= k < self.children@[m]@.len() && self.children@[m]@[k] == (p[n].last(), n as u32)
        &&& forall|a: int, b: int| 0 <= a < len && 0 <= b < len && a != b ==> #[trigger] p[a] != #[trigger] p[b]
        &&& forall|n: int| 0 <= n < len ==> (#[trigger] p[n]).len() < len
    }

    /// The words stored, each mapped to its value.
    pub closed spec fn view(&self) -> Map<Seq<char>, usize> {
        Map::new(
            |w: Seq<char>| exists|n: int| 0 <= n < self.size() && self.path(n) == w && self.value_at(n) is Some,
            |w: Seq<char>| self.value_at(choose|n: int| 0 <= n < self.size() && self.path(n) == w && self.value_at(n) is Some).unwrap(),
        )
    }

    /// A node spelling `w` exists exactly when one spells each prefix of `w`.
    pub proof fn lemma_prefix_closed(&self, n: int, j: int)
        requires
            self.wf(),
            0 <= n < self.size(),
            0 <= j <= self.path(n).len(),
        ensures
            exists|m: int| 0 <= m < self.size() && #[trigger] self.path(m) == self.path(n).take(j),
        decreases self.path(n).len(),
    {
        if j == self.path(n).len() {
            assert(self.path(n).take(j) =~= self.path(n));
        } else {
            // n is not the root: step to its parent.
            assert(n != 0) by {
                if n == 0 {
                    assert(self.path(0).len() == 0);
                }
            }
            let (m, k) = choose|m: int, k: int| 0 <= m < self.size() && 0 <= k < self.children@[m]@.len() && self.children@[m]@[k] == (self.path(n).last(), n as u32);
            let e = self.children@[m]@[k];
            assert(self.path(n) == self.path(m).push(e.0));
            assert(self.path(n).take(j) =~= self.path(m).take(j));
            self.lemma_prefix_closed(m, j);
        }
    }

    /// An empty trie (root only).
    pub fn new() -> (t: DictTrie)
        ensures
            t.wf(),
            t@ == Map::<Seq<char>, usize>::empty(),
            t.size() == 1,
    {
        let mut children: Vec<Vec<(char, u32)>> = Vec::new();
        children.push(Vec::new());
        let mut word: Vec<Option<usize>> = Vec::new();
        word.push(None);
        let ghost p0 = seq![Seq::<char>::empty()];
        let t = DictTrie { children, word, paths: Ghost(p0) };
        assert(t@ =~= Map::<Seq<char>, usize>::empty());
        t
    }

    /// The child of `node` along character `c`, if any.
    fn child(&self, node: usize, c: char) -> (r: Option<usize>)
        requires
            self.wf(),
            node < self.size(),
        ensures
            r matches Some(n) ==> n < self.size() && self.path(n as int) == self.path(node as int).push(c),
            r is None ==> forall|n: int| 0 <= n < self.size() ==> #[trigger] self.path(n) != self.path(node as int).push(c),
    {
        let edges = &self.children[node];
        let mut k: usize = 0;
        while k < edges.len()
            invariant
                self.wf(),
                node < self.size(),
                edges@ == self.children@[node as int]@,
                k <= edges.len(),
                forall|x: int| 0 <= x < k ==> (#[trigger] edges@[x]).0 != c,
            decreases edges.len() - k,
        {
            if edges[k].0 == c {
                proof {
                    assert(self.children@[node as int]@[k as int] == edges@[k as int]);
                }
                return Some(edges[k].1 as usize);
            }
            k += 1;
        }
        proof {
            assert forall|n: int| 0 <= n < self.size() implies #[trigger] self.path(n) != self.path(node as int).push(c) by {
                if self.path(n) == self.path(node as int).push(c) {
                    assert(n != 0) by {
                        if n == 0 {
                            assert(self.path(0).len() == 0);
                        }
                    }
                    assert(self.paths@[n].len() > 0);
                    let (m, kk) = choose|m: int, kk: int| 0 <= m < self.size() && 0 <= kk < self.children@[m]@.len() && self.children@[m]@[kk] == (self.paths@[n].last(), n as u32);
                    let e = self.children@[m]@[kk];
                    assert(self.paths@[n] == self.paths@[m].push(e.0));
                    assert(self.paths@[m] =~= self.paths@[n].drop_last());
                    assert(self.paths@[node as int] =~= self.paths@[n].drop_last());
                    assert(m == node);
                    assert(edges@[kk].0 == c);
                }
            }
        }
        None
    }

    /// The node spelling `q`, if any.
    pub fn find_node(&self, q: &[char]) -> (r: Option<usize>)
        requires
            self.wf(),
        ensures
            r matches Some(n) ==> n < self.size() && self.path(n as int) == q@,
            r is None ==> forall|n: int| 0 <= n < self.size() ==> #[trigger] self.path(n) != q@,
    {
        let mut node: usize = 0;
        let mut i: usize = 0;
        while i < q.len()
            invariant
                self.wf(),
                i <= q.len(),
                node < self.size(),
                self.path(node as int) == q@.take(i as int),
            decreases q.len() - i,
        {
            match self.child(node, q[i]) {
                Some(n) => {
                    node = n;
                    assert(q@.take(i as int).push(q@[i as int]) =~= q@.take(i as int + 1));
                },
                None => {
                    proof {
                        assert(q@.take(i as int).push(q@[i as int]) =~= q@.take(i as int + 1));
                        assert forall|n: int| 0 <= n < self.size() implies #[trigger] self.path(n) != q@ by {
                            if self.path(n) == q@ {
                                self.lemma_prefix_closed(n, i as int + 1);
                                let m = choose|m: int| 0 <= m < self.size() && #[trigger] self.path(m) == self.path(n).take(i as int + 1);
                                assert(self.path(m) == self.path(node as int).push(q@[i as int]));
                            }
                        }
                    }
                    return None;
                },
            }
            i += 1;
        }
        assert(q@.take(q.len() as int) =~= q@);
        Some(node)
    }

    /// The value stored for `q`, if `q` is a word of the trie.
    pub fn get(&self, q: &[char]) -> (r: Option<usize>)
        requires
            self.wf(),
        ensures
            r matches Some(v) ==> self@.contains_key(q@) && self@[q@] == v,
            r is None ==> !self@.contains_key(q@),
    {
        match self.find_node(q) {
            Some(n) => {
                let v = self.word[n];
                proof {
                    if v is Some {
                        assert(self@.contains_key(q@));
                        let m = choose|m: int| 0 <= m < self.size() && self.path(m) == q@ && self.value_at(m) is Some;
                        if m != n {
                            assert(self.paths@[m] != self.paths@[n as int]);
                        }
                    } else {
                        if self@.contains_key(q@) {
                            let m = choose|m: int| 0 <= m < self.size() && self.path(m) == q@ && self.value_at(m) is Some;
                            if m != n {
                                assert(self.paths@[m] != self.paths@[n as int]);
                            }
                        }
                    }
                }
                v
            },
            None => None,
        }
    }

    /// Stores `value` for `q`, replacing any previous value.
    pub fn insert(&mut self, q: &[char], value: usize)
        requires
            old(self).wf(),
            old(self).size() + q.len() <= u32::MAX,
        ensures
            final(self).wf(),
            final(self)@ == old(self)@.insert(q@, value),
            final(self).size() <= old(self).size() + q.len(),
    {
        let ghost old_view = self@;
        let ghost old_size = self.size();
        let mut node: usize = 0;
        let mut i: usize = 0;
        while i < q.len()
            invariant
                self.wf(),
                i <= q.len(),
                node < self.size(),
                self.path(node as int) == q@.take(i as int),
                self.size() <= old_size + i,
                old_size + q.len() <= u32::MAX,
                self@ == old_view,
            decreases q.len() - i,
        {
            assert(q@.take(i as int).push(q@[i as int]) =~= q@.take(i as int + 1));
            match self.child(node, q[i]) {
                Some(n) => {
                    node = n;
                },
                None => {
                    let id = self.children.len();
                    let ghost old_t = *self;
                    let ghost np = self.paths@.push(q@.take(i as int + 1));
                    self.children.push(Vec::new());
                    self.word.push(None);
                    self.paths = Ghost(np);
                    self.children[node].push((q[i], id as u32));
                    proof {
                        self.lemma_add_child(old_t, node as int, q[i as int], id as int);
                    }
                    node = id;
                },
            }
            i += 1;
        }
        assert(q@.take(q.len() as int) =~= q@);
        let ghost before = *self;
        self.word.set(node, Some(value));
        proof {
            self.lemma_set_value(before, node as int, value);
        }
    }

    /// Adding a fresh child node along a character absent from its parent keeps the trie
    /// well-formed and its words unchanged.
    proof fn lemma_add_child(&self, old_t: DictTrie, node: int, c: char, id: int)
        requires
            old_t.wf(),
            0 <= node < old_t.size(),
            id == old_t.size(),
            id + 1 <= u32::MAX,
            forall|n: int| 0 <= n < old_t.size() ==> #[trigger] old_t.path(n) != old_t.path(node).push(c),
            self.children@.len() == id + 1,
            self.word@ == old_t.word@.push(None),
            self.paths@ == old_t.paths@.push(old_t.path(node).push(c)),
            self.children@[node]@ == old_t.children@[node]@.push((c, id as u32)),
            self.children@[id]@.len() == 0,
            forall|m: int| 0 <= m < id && m != node ==> #[trigger] self.children@[m] == old_t.children@[m],
        ensures
            self.wf(),
            self@ == old_t@,
            self.size() == old_t.size() + 1,
    {
        let p = self.paths@;
        let len = id + 1;
        assert forall|m: int, k: int| 0 <= m < len && 0 <= k < self.children@[m]@.len() implies {
            let e = #[trigger] self.children@[m]@[k];
            &&& e.1 < len
            &&& e.1 != 0
            &&& p[e.1 as int] == p[m].push(e.0)
        } by {
            if m == node && k == old_t.children@[node]@.len() {
            } else if m < id {
                assert(self.children@[m]@[k] == old_t.children@[m]@[k]);
            }
        }
        assert forall|m: int, k1: int, k2: int|
            0 <= m < len && 0 <= k1 < self.children@[m]@.len() && 0 <= k2 < self.children@[m]@.len()
                && k1 != k2 implies (#[trigger] self.children@[m]@[k1]).0 != (#[trigger] self.children@[m]@[k2]).0 by {
            if m == node {
                let ol = old_t.children@[node]@.len();
                if k1 < ol && k2 < ol {
                    assert(self.children@[m]@[k1] == old_t.children@[m]@[k1]);
                    assert(self.children@[m]@[k2] == old_t.children@[m]@[k2]);
                } else if k1 == ol {
                    let e2 = old_t.children@[m]@[k2];
                    assert(self.children@[m]@[k2] == e2);
                    if e2.0 == c {
                        assert(old_t.path(e2.1 as int) == old_t.path(node).push(c));
                    }
                } else {
                    let e1 = old_t.children@[m]@[k1];
                    assert(self.children@[m]@[k1] == e1);
                    if e1.0 == c {
                        assert(old_t.path(e1.1 as int) == old_t.path(node).push(c));
                    }
                }
            } else if m < id {
                assert(self.children@[m]@[k1] == old_t.children@[m]@[k1]);
                assert(self.children@[m]@[k2] == old_t.children@[m]@[k2]);
            }
        }
        assert forall|n: int| 0 < n < len implies (#[trigger] p[n]).len() > 0 && exists|m: int, k: int|
            0 <= m < len && 0 <= k < self.children@[m]@.len() && self.children@[m]@[k] == (p[n].last(), n as u32) by {
            if n == id {
                let k = old_t.children@[node]@.len() as int;
                assert(self.children@[node]@[k] == (c, id as u32));
                assert(p[n].last() == c);
            } else {
                assert(p[n] == old_t.paths@[n]);
                let (m, k) = choose|m: int, k: int| 0 <= m < old_t.size() && 0 <= k < old_t.children@[m]@.len() && old_t.children@[m]@[k] == (old_t.paths@[n].last(), n as u32);
                assert(self.children@[m]@[k] == old_t.children@[m]@[k]);
            }
        }
        assert forall|a: int, b: int| 0 <= a < len && 0 <= b < len && a != b implies #[trigger] p[a] != #[trigger] p[b] by {
            if a == id {
                assert(p[b] == old_t.paths@[b]);
                assert(old_t.path(b) != old_t.path(node).push(c));
            } else if b == id {
                assert(p[a] == old_t.paths@[a]);
                assert(old_t.path(a) != old_t.path(node).push(c));
            } else {
                assert(p[a] == old_t.paths@[a] && p[b] == old_t.paths@[b]);
            }
        }
        assert forall|n: int| 0 <= n < len implies (#[trigger] p[n]).len() < len by {
            if n < id {
                assert(p[n] == old_t.paths@[n]);
            }
        }
        assert(self.wf());
        assert forall|w: Seq<char>| #[trigger] self@.contains_key(w) == old_t@.contains_key(w) by {
            if self@.contains_key(w) {
                let n = choose|n: int| 0 <= n < self.size() && self.path(n) == w && self.value_at(n) is Some;
                assert(n < id);
                assert(old_t.path(n) == w && old_t.value_at(n) is Some);
            }
            if old_t@.contains_key(w) {
                let n = choose|n: int| 0 <= n < old_t.size() && old_t.path(n) == w && old_t.value_at(n) is Some;
                assert(self.path(n) == w && self.value_at(n) is Some);
            }
        }
        assert forall|w: Seq<char>| self@.contains_key(w) implies self@[w] == old_t@[w] by {
            let n1 = choose|n: int| 0 <= n < self.size() && self.path(n) == w && self.value_at(n) is Some;
            let n2 = choose|n: int| 0 <= n < old_t.size() && old_t.path(n) == w && old_t.value_at(n) is Some;
            assert(self.path(n2) == w);
            if n1 != n2 {
                assert(p[n1] != p[n2]);
            }
        }
        assert(self@ =~= old_t@);
    }

    /// Setting the value of the node spelling `w` stores `w`.
    proof fn lemma_set_value(&self, before: DictTrie, node: int, value: usize)
        requires
            before.wf(),
            0 <= node < before.size(),
            self.children == before.children,
            self.paths == before.paths,
            self.word@ == before.word@.update(node, Some(value)),
        ensures
            self.wf(),
            self@ == before@.insert(before.path(node), value),
            self.size() == before.size(),
    {
        let w0 = before.path(node);
        assert(self.wf());
        assert forall|w: Seq<char>| self@.contains_key(w) implies #[trigger] before@.insert(w0, value).contains_key(w) by {
            if w != w0 {
                let n = choose|n: int| 0 <= n < self.size() && self.path(n) == w && self.value_at(n) is Some;
                assert(n != node);
                assert(before.value_at(n) == self.value_at(n));
                assert(before.path(n) == w);
                assert(before@.contains_key(w));
            }
        }
        assert forall|w: Seq<char>| before@.insert(w0, value).contains_key(w) implies #[trigger] self@.contains_key(w) by {
            if w == w0 {
                assert(self.path(node) == w && self.value_at(node) is Some);
            } else {
                assert(before@.contains_key(w));
                let n = choose|n: int| 0 <= n < before.size() && before.path(n) == w && before.value_at(n) is Some;
                assert(n != node);
                assert(self.path(n) == w && self.value_at(n) is Some);
            }
        }
        assert forall|w: Seq<char>| self@.contains_key(w) implies self@[w] == before@.insert(w0, value)[w] by {
            let n1 = choose|n: int| 0 <= n < self.size() && self.path(n) == w && self.value_at(n) is Some;
            if w == w0 {
                if n1 != node {
                    assert(self.paths@[n1] != self.paths@[node]);
                }
            } else {
                assert(before@.insert(w0, value).contains_key(w));
                assert(before@.contains_key(w));
                let n2 = choose|n: int| 0 <= n < before.size() && before.path(n) == w && before.value_at(n) is Some;
                assert(n1 != node);
                assert(self.value_at(n1) == before.value_at(n1));
                if n1 != n2 {
                    assert(self.paths@[n1] != self.paths@[n2]);
                }
            }
        }
        assert(self@ =~= before@.insert(w0, value));
    }

    /// Node `n` is `m` or lies below it: what `m` spells is a prefix of what `n` spells.
    spec fn below(&self, m: int, n: int) -> bool {
        &&& 0 <= n < self.size()
        &&& self.path(m).len() <= self.path(n).len()
        &&& self.path(n).take(self.path(m).len() as int) == self.path(m)
    }

    /// Node `n` ends a word within `max` edits of `q`, and `e` is (its value, its distance).
    spec fn hit(&self, q: Seq<char>, max: usize, n: int, e: (usize, usize)) -> bool {
        &&& self.value_at(n) is Some
        &&& osa_distance(self.path(n), q) <= max
        &&& e == (self.value_at(n).unwrap(), osa_distance(self.path(n), q) as usize)
    }

    /// A node strictly below `node` lies at or below one of `node`'s children.
    proof fn lemma_below_child(&self, node: int, n: int)
        requires
            self.wf(),
            0 <= node < self.size(),
            self.below(node, n),
            n != node,
        ensures
            exists|k: int| 0 <= k < self.degree(node) && #[trigger] self.below(self.edge(node, k).1 as int, n),
    {
        let d = self.path(node).len() as int;
        if self.path(n).len() == d {
            assert(self.path(n).take(d) =~= self.path(n));
            assert(self.paths@[n] != self.paths@[node]);
        }
        self.lemma_prefix_closed(n, d + 1);
        let m = choose|m: int| 0 <= m < self.size() && #[trigger] self.path(m) == self.path(n).take(d + 1);
        assert(m != 0) by {
            if m == 0 {
                assert(self.path(0).len() == 0);
            }
        }
        assert(self.path(m).len() > 0 && self.paths@[m].len() > 0);
        let (mp, k) = choose|mp: int, k: int| 0 <= mp < self.size() && 0 <= k < self.children@[mp]@.len() && self.children@[mp]@[k] == (self.paths@[m].last(), m as u32);
        let e = self.children@[mp]@[k];
        assert(self.path(m) == self.path(mp).push(e.0));
        assert(self.path(mp) =~= self.path(m).drop_last());
        assert(self.path(n).take(d + 1).drop_last() =~= self.path(n).take(d));
        assert(mp == node) by {
            if mp != node {
                assert(self.paths@[mp] != self.paths@[node]);
            }
        }
        assert(self.edge(node, k).1 == m);
        assert(self.below(self.edge(node, k).1 as int, n));
    }

    /// Distinct nodes that end words hold distinct values.
    spec fn nodes_distinct_values(&self) -> bool {
        forall|n1: int, n2: int| 0 <= n1 < self.size() && 0 <= n2 < self.size() && n1 != n2
            && (#[trigger] self.value_at(n1)) is Some && (#[trigger] self.value_at(n2)) is Some
            ==> self.value_at(n1) != self.value_at(n2)
    }

    /// Distinct stored words carrying distinct values, distinct nodes carry distinct values.
    proof fn lemma_nodes_distinct_values(&self)
        requires
            self.wf(),
            injective_values(self@),
        ensures
            self.nodes_distinct_values(),
    {
        assert forall|n1: int, n2: int| 0 <= n1 < self.size() && 0 <= n2 < self.size() && n1 != n2
            && (#[trigger] self.value_at(n1)) is Some && (#[trigger] self.value_at(n2)) is Some
            implies self.value_at(n1) != self.value_at(n2) by {
            let w1 = self.path(n1);
            let w2 = self.path(n2);
            assert(self.paths@[n1] != self.paths@[n2]);
            assert(self@.contains_key(w1) && self@.contains_key(w2));
            let m1 = choose|n: int| 0 <= n < self.size() && self.path(n) == w1 && self.value_at(n) is Some;
            let m2 = choose|n: int| 0 <= n < self.size() && self.path(n) == w2 && self.value_at(n) is Some;
            if m1 != n1 {
                assert(self.paths@[m1] != self.paths@[n1]);
            }
            if m2 != n2 {
                assert(self.paths@[m2] != self.paths@[n2]);
            }
        }
    }

    /// No node lies below two different children of the same node.
    proof fn lemma_children_disjoint(&self, node: int, k1: int, k2: int, n: int)
        requires
            self.wf(),
            0 <= node < self.size(),
            0 <= k1 < self.degree(node),
            0 <= k2 < self.degree(node),
            k1 != k2,
            self.below(self.edge(node, k1).1 as int, n),
        ensures
            !self.below(self.edge(node, k2).1 as int, n),
    {
        let e1 = self.children@[node]@[k1];
        let e2 = self.children@[node]@[k2];
        let d = self.path(node).len() as int;
        assert(self.path(e1.1 as int) == self.path(node).push(e1.0));
        assert(self.path(e2.1 as int) == self.path(node).push(e2.0));
        if self.below(e2.1 as int, n) {
            assert(self.path(n)[d] == self.path(node).push(e1.0)[d]);
            assert(self.path(n)[d] == self.path(node).push(e2.0)[d]);
        }
    }

    /// Word `w1` comes before word `w2` in the trie's depth-first order: `w2` extends `w1`, or
    /// the two part at a node where `w1` takes the earlier child (a node keeps its children in
    /// the order they were first created).
    pub closed spec fn precedes(&self, w1: Seq<char>, w2: Seq<char>) -> bool {
        exists|n1: int, n2: int|
            0 <= n1 < self.size() && 0 <= n2 < self.size() && self.path(n1) == w1 && self.path(n2) == w2
                && #[trigger] self.node_before(n1, n2)
    }

    /// Entry `e1` comes before entry `e2`: their words can be taken so that `e1`'s precedes
    /// `e2`'s in depth-first order.
    pub open spec fn entry_precedes(&self, q: Seq<char>, max: usize, e1: (usize, usize), e2: (usize, usize)) -> bool {
        exists|w1: Seq<char>, w2: Seq<char>|
            edit_hit(self@, q, max, w1, e1) && edit_hit(self@, q, max, w2, e2) && #[trigger] self.precedes(w1, w2)
    }

    /// Each entry of `out` comes before every later one.
    pub open spec fn in_search_order(&self, q: Seq<char>, max: usize, out: Seq<(usize, usize)>) -> bool {
        forall|i: int, j: int| 0 <= i < j < out.len() ==> #[trigger] self.entry_precedes(q, max, out[i], out[j])
    }

    /// Entries in depth-first order of their nodes below the root are in search order.
    proof fn lemma_search_order(&self, q: Seq<char>, max: usize, out: Seq<(usize, usize)>)
        requires
            self.wf(),
            self.dfs_ordered(q, max, 0, out, 0),
        ensures
            self.in_search_order(q, max, out),
    {
        assert forall|i: int, j: int| 0 <= i < j < out.len() implies #[trigger] self.entry_precedes(q, max, out[i], out[j]) by {
            assert(self.entries_in_order(q, max, 0, out[i], out[j]));
            let (n1, n2) = choose|n1: int, n2: int|
                self.below(0, n1) && n1 != 0 && self.below(0, n2) && n2 != 0
                    && #[trigger] self.hit(q, max, n1, out[i]) && #[trigger] self.hit(q, max, n2, out[j]) && self.node_before(n1, n2);
            self.lemma_hit_edit_hit(q, max, n1, out[i]);
            self.lemma_hit_edit_hit(q, max, n2, out[j]);
            assert(self.precedes(self.path(n1), self.path(n2)));
            assert(edit_hit(self@, q, max, self.path(n1), out[i]) && edit_hit(self@, q, max, self.path(n2), out[j]));
        }
    }

    /// The hit of a node other than the root is an edit hit of the word it spells.
    proof fn lemma_hit_edit_hit(&self, q: Seq<char>, max: usize, n: int, e: (usize, usize))
        requires
            self.wf(),
            self.below(0, n),
            n != 0,
            self.hit(q, max, n, e),
        ensures
            edit_hit(self@, q, max, self.path(n), e),
    {
        let w = self.path(n);
        assert(w.len() > 0 && self.paths@[n].len() > 0);
        assert(self@.contains_key(w));
        let m = choose|m: int| 0 <= m < self.size() && self.path(m) == w && self.value_at(m) is Some;
        if m != n {
            assert(self.paths@[m] != self.paths@[n]);
        }
    }

    /// Words within `max` edits (optimal string alignment) of `query`, as (value, distance),
    /// in depth-first order of the trie. The empty word at the root is never reported.
    pub fn search(&self, query: &[char], max: usize) -> (out: Vec<(usize, usize)>)
        requires
            self.wf(),
            query@.len() < usize::MAX,
        ensures
            search_result(self@, query@, max, out@),
            self.in_search_order(query@, max, out@),
            injective_values(self@) ==> no_repeated_index(out@),
    {
        let qlen = query.len();
        let mut row0: Vec<usize> = Vec::new();
        let mut j: usize = 0;
        while j <= qlen
            invariant
                qlen == query@.len(),
                qlen < usize::MAX,
                j <= qlen + 1,
                row0@.len() == j,
                forall|k: int| 0 <= k < j ==> row0@[k] == osa_distance(Seq::<char>::empty(), #[trigger] query@.take(k)),
            decreases qlen + 1 - j,
        {
            proof {
                assert(query@.take(j as int).len() == j);
            }
            row0.push(j);
            j += 1;
        }
        let mut out: Vec<(usize, usize)> = Vec::new();
        proof {
            assert(self.path(0) =~= Seq::<char>::empty());
        }
        self.walk(0, None, &row0, &row0, query, max, &mut out);
        proof {
            if injective_values(self@) {
                self.lemma_nodes_distinct_values();
            }
            assert(self.sound_from(query@, max, 0, out@, 0));
            assert forall|i: int| 0 <= i < out.len() implies #[trigger] is_edit_hit(self@, query@, max, out@[i]) by {
                assert(self.entry_strictly_below(query@, max, 0, out@[i]));
                let n = choose|n: int| self.below(0, n) && n != 0 && #[trigger] self.hit(query@, max, n, out@[i]);
                self.lemma_hit_edit_hit(query@, max, n, out@[i]);
                assert(edit_hit(self@, query@, max, self.path(n), out@[i]));
            }
            self.lemma_search_order(query@, max, out@);
            assert forall|w: Seq<char>| #[trigger] self@.contains_key(w) && w.len() > 0 && osa_distance(w, query@) <= max
                implies exists|i: int| 0 <= i < out.len() && edit_hit(self@, query@, max, w, #[trigger] out@[i]) by {
                let n = choose|n: int| 0 <= n < self.size() && self.path(n) == w && self.value_at(n) is Some;
                assert(n != 0) by {
                    if n == 0 {
                        assert(self.path(0).len() == 0);
                    }
                }
                assert(self.path(n).take(0) =~= self.path(0));
                assert(self.below(0, n));
                let i = choose|i: int| 0 <= i < out.len() && #[trigger] self.hit(query@, max, n, out@[i]);
                assert(edit_hit(self@, query@, max, w, out@[i]));
            }
        }
        out
    }

    /// `e` is the entry of a hit at or below node `m`.
    spec fn entry_below(&self, q: Seq<char>, max: usize, m: int, e: (usize, usize)) -> bool {
        exists|n: int| self.below(m, n) && #[trigger] self.hit(q, max, n, e)
    }

    /// Node `a` comes before node `b` in depth-first order, children taken in their order: `b`
    /// lies strictly below `a`, or the two lie below two children of one node, `a` below the
    /// earlier child.
    spec fn node_before(&self, a: int, b: int) -> bool {
        ||| (self.below(a, b) && a != b)
        ||| exists|m: int, k1: int, k2: int|
            0 <= m < self.size() && 0 <= k1 < k2 < self.degree(m)
                && #[trigger] self.below(self.edge(m, k1).1 as int, a) && #[trigger] self.below(self.edge(m, k2).1 as int, b)
    }

    /// Entries `e1` and `e2` are hits of two nodes strictly below `node`, `e1`'s first in
    /// depth-first order.
    spec fn entries_in_order(&self, q: Seq<char>, max: usize, node: int, e1: (usize, usize), e2: (usize, usize)) -> bool {
        exists|n1: int, n2: int|
            self.below(node, n1) && n1 != node && self.below(node, n2) && n2 != node
                && #[trigger] self.hit(q, max, n1, e1) && #[trigger] self.hit(q, max, n2, e2) && self.node_before(n1, n2)
    }

    /// The entries of `o` from `start` on come in depth-first order of their nodes below `node`.
    spec fn dfs_ordered(&self, q: Seq<char>, max: usize, node: int, o: Seq<(usize, usize)>, start: int) -> bool {
        forall|i: int, j: int| start <= i < j < o.len() ==> #[trigger] self.entries_in_order(q, max, node, o[i], o[j])
    }

    /// `e` is the entry of a hit at or below one of the first `idx` children of `node`.
    spec fn entry_before(&self, q: Seq<char>, max: usize, node: int, idx: int, e: (usize, usize)) -> bool {
        exists|k: int| 0 <= k < idx && #[trigger] self.entry_below(q, max, self.edge(node, k).1 as int, e)
    }

    /// `e` is the entry of a hit strictly below node `m`.
    spec fn entry_strictly_below(&self, q: Seq<char>, max: usize, m: int, e: (usize, usize)) -> bool {
        exists|n: int| self.below(m, n) && n != m && #[trigger] self.hit(q, max, n, e)
    }

    /// The entries of `o` from `start` on are each a hit strictly below `node`.
    spec fn sound_from(&self, q: Seq<char>, max: usize, node: int, o: Seq<(usize, usize)>, start: int) -> bool {
        forall|i: int| start <= i < o.len() ==> #[trigger] self.entry_strictly_below(q, max, node, o[i])
    }

    /// Every hit at or below one of the first `idx` children of `node` has an entry in `o`
    /// from `start` on.
    spec fn complete_upto(&self, q: Seq<char>, max: usize, node: int, idx: int, o: Seq<(usize, usize)>, start: int) -> bool {
        forall|n: int| (exists|k: int| 0 <= k < idx && #[trigger] self.below(self.edge(node, k).1 as int, n)) && self.value_at(n) is Some && osa_distance(self.path(n), q) <= max
            ==> exists|i: int| start <= i < o.len() && #[trigger] self.hit(q, max, n, o[i])
    }

    /// Below a child is below its parent, and not the parent itself.
    proof fn lemma_below_child_trans(&self, node: int, k: int, n: int)
        requires
            self.wf(),
            0 <= node < self.size(),
            0 <= k < self.degree(node),
            self.below(self.edge(node, k).1 as int, n),
        ensures
            self.below(node, n),
            n != node,
    {
        let e = self.children@[node]@[k];
        let child = e.1 as int;
        let d = self.path(node).len() as int;
        assert(self.path(child) == self.path(node).push(e.0));
        assert(self.path(n).take(d) =~= self.path(n).take(d + 1).take(d));
        assert(self.path(node).push(e.0).take(d) =~= self.path(node));
        if n == node {
            assert(self.path(n).len() >= d + 1);
        }
    }

    /// Appending hits at or below child `idx` keeps the entries sound.
    proof fn lemma_walk_sound(&self, q: Seq<char>, max: usize, node: int, idx: int, start: int, o1: Seq<(usize, usize)>, o2: Seq<(usize, usize)>)
        requires
            self.wf(),
            0 <= node < self.size(),
            0 <= idx < self.degree(node),
            0 <= start <= o1.len() <= o2.len(),
            forall|i: int| 0 <= i < o1.len() ==> o2[i] == o1[i],
            self.sound_from(q, max, node, o1, start),
            forall|i: int| o1.len() <= i < o2.len() ==> #[trigger] self.entry_below(q, max, self.edge(node, idx).1 as int, o2[i]),
        ensures
            self.sound_from(q, max, node, o2, start),
    {
        assert forall|i: int| start <= i < o2.len() implies #[trigger] self.entry_strictly_below(q, max, node, o2[i]) by {
            self.lemma_walk_sound_at(q, max, node, idx, start, o1, o2, i);
        }
    }

    proof fn lemma_walk_sound_at(&self, q: Seq<char>, max: usize, node: int, idx: int, start: int, o1: Seq<(usize, usize)>, o2: Seq<(usize, usize)>, i: int)
        requires
            self.wf(),
            0 <= node < self.size(),
            0 <= idx < self.degree(node),
            0 <= start <= o1.len() <= o2.len(),
            start <= i < o2.len(),
            forall|i: int| 0 <= i < o1.len() ==> o2[i] == o1[i],
            self.sound_from(q, max, node, o1, start),
            forall|i: int| o1.len() <= i < o2.len() ==> #[trigger] self.entry_below(q, max, self.edge(node, idx).1 as int, o2[i]),
        ensures
            self.entry_strictly_below(q, max, node, o2[i]),
    {
        let child = self.edge(node, idx).1 as int;
        if i < o1.len() {
            assert(o2[i] == o1[i]);
            assert(self.entry_strictly_below(q, max, node, o1[i]));
            let n = choose|n: int| self.below(node, n) && n != node && #[trigger] self.hit(q, max, n, o1[i]);
            assert(self.hit(q, max, n, o2[i]));
        } else {
            assert(self.entry_below(q, max, child, o2[i]));
            let n = choose|n: int| self.below(child, n) && #[trigger] self.hit(q, max, n, o2[i]);
            self.lemma_below_child_trans(node, idx, n);
        }
    }

    /// Appending every hit at or below child `idx` extends completeness to that child.
    proof fn lemma_walk_complete(&self, q: Seq<char>, max: usize, node: int, idx: int, start: int, o1: Seq<(usize, usize)>, o2: Seq<(usize, usize)>)
        requires
            self.wf(),
            0 <= node < self.size(),
            0 <= idx < self.degree(node),
            0 <= start <= o1.len() <= o2.len(),
            forall|i: int| 0 <= i < o1.len() ==> o2[i] == o1[i],
            self.complete_upto(q, max, node, idx, o1, start),
            forall|n: int| #[trigger] self.below(self.edge(node, idx).1 as int, n) && self.value_at(n) is Some && osa_distance(self.path(n), q) <= max
                ==> exists|i: int| o1.len() <= i < o2.len() && #[trigger] self.hit(q, max, n, o2[i]),
        ensures
            self.complete_upto(q, max, node, idx + 1, o2, start),
    {
        let child = self.edge(node, idx).1 as int;
        assert forall|n: int| (exists|k: int| 0 <= k < idx + 1 && #[trigger] self.below(self.edge(node, k).1 as int, n)) && self.value_at(n) is Some && osa_distance(self.path(n), q) <= max
            implies exists|i: int| start <= i < o2.len() && #[trigger] self.hit(q, max, n, o2[i]) by {
            if self.below(child, n) {
                let i = choose|i: int| o1.len() <= i < o2.len() && #[trigger] self.hit(q, max, n, o2[i]);
            } else {
                let k = choose|k: int| 0 <= k < idx + 1 && #[trigger] self.below(self.edge(node, k).1 as int, n);
                assert(k < idx);
                let i = choose|i: int| start <= i < o1.len() && #[trigger] self.hit(q, max, n, o1[i]);
                assert(o2[i] == o1[i]);
            }
        }
    }

    /// Entries appended for child `idx` come from below it, so every entry from `start` on
    /// comes from below one of the first `idx + 1` children.
    proof fn lemma_walk_origin(&self, q: Seq<char>, max: usize, node: int, idx: int, start: int, o1: Seq<(usize, usize)>, o2: Seq<(usize, usize)>)
        requires
            self.wf(),
            0 <= node < self.size(),
            0 <= idx < self.degree(node),
            0 <= start <= o1.len() <= o2.len(),
            forall|i: int| 0 <= i < o1.len() ==> o2[i] == o1[i],
            forall|i: int| start <= i < o1.len() ==> #[trigger] self.entry_before(q, max, node, idx, o1[i]),
            forall|i: int| o1.len() <= i < o2.len() ==> #[trigger] self.entry_below(q, max, self.edge(node, idx).1 as int, o2[i]),
        ensures
            forall|i: int| start <= i < o2.len() ==> #[trigger] self.entry_before(q, max, node, idx + 1, o2[i]),
    {
        assert forall|i: int| start <= i < o2.len() implies #[trigger] self.entry_before(q, max, node, idx + 1, o2[i]) by {
            if i < o1.len() {
                assert(o2[i] == o1[i]);
                assert(self.entry_before(q, max, node, idx, o1[i]));
                let k = choose|k: int| 0 <= k < idx && #[trigger] self.entry_below(q, max, self.edge(node, k).1 as int, o1[i]);
                assert(self.entry_below(q, max, self.edge(node, k).1 as int, o2[i]));
            } else {
                assert(self.entry_below(q, max, self.edge(node, idx).1 as int, o2[i]));
            }
        }
    }

    /// The entries of the walk below child `idx` (the child's own, then those strictly below
    /// it, in depth-first order) follow those from earlier children in depth-first order.
    proof fn lemma_walk_order(&self, q: Seq<char>, max: usize, node: int, idx: int, start: int, o1: Seq<(usize, usize)>, mid: Seq<(usize, usize)>, o2: Seq<(usize, usize)>)
        requires
            self.wf(),
            0 <= node < self.size(),
            0 <= idx < self.degree(node),
            0 <= start <= o1.len() <= mid.len() <= o1.len() + 1,
            mid.len() <= o2.len(),
            forall|i: int| 0 <= i < o1.len() ==> mid[i] == o1[i],
            forall|i: int| 0 <= i < mid.len() ==> o2[i] == mid[i],
            forall|i: int| start <= i < o1.len() ==> #[trigger] self.entry_before(q, max, node, idx, o1[i]),
            self.dfs_ordered(q, max, node, o1, start),
            mid.len() == o1.len() + 1 ==> self.hit(q, max, self.edge(node, idx).1 as int, mid[o1.len() as int]),
            self.sound_from(q, max, self.edge(node, idx).1 as int, o2, mid.len() as int),
            self.dfs_ordered(q, max, self.edge(node, idx).1 as int, o2, mid.len() as int),
        ensures
            self.dfs_ordered(q, max, node, o2, start),
    {
        let child = self.edge(node, idx).1 as int;
        assert(self.path(child).take(self.path(child).len() as int) =~= self.path(child));
        assert forall|i: int, j: int| start <= i < j < o2.len() implies #[trigger] self.entries_in_order(q, max, node, o2[i], o2[j]) by {
            if j < o1.len() {
                assert(o2[i] == o1[i] && o2[j] == o1[j]);
                assert(self.entries_in_order(q, max, node, o1[i], o1[j]));
            } else if i >= mid.len() {
                assert(self.entries_in_order(q, max, child, o2[i], o2[j]));
                let (n1, n2) = choose|n1: int, n2: int|
                    self.below(child, n1) && n1 != child && self.below(child, n2) && n2 != child
                        && #[trigger] self.hit(q, max, n1, o2[i]) && #[trigger] self.hit(q, max, n2, o2[j]) && self.node_before(n1, n2);
                self.lemma_below_child_trans(node, idx, n1);
                self.lemma_below_child_trans(node, idx, n2);
                assert(self.hit(q, max, n1, o2[i]) && self.hit(q, max, n2, o2[j]));
            } else {
                // `n2`: the node of entry `j`, at or below the child.
                let n2 = if j < mid.len() {
                    assert(o2[j] == mid[j]);
                    child
                } else {
                    assert(self.entry_strictly_below(q, max, child, o2[j]));
                    choose|n: int| self.below(child, n) && n != child && #[trigger] self.hit(q, max, n, o2[j])
                };
                assert(self.below(child, n2) && self.hit(q, max, n2, o2[j]));
                self.lemma_below_child_trans(node, idx, n2);
                if i >= o1.len() {
                    // `i` is the child's own entry and `j` lies strictly below it.
                    assert(o2[i] == mid[i]);
                    assert(self.hit(q, max, child, o2[i]));
                    self.lemma_below_child_trans(node, idx, child);
                    assert(self.node_before(child, n2));
                    assert(self.hit(q, max, child, o2[i]) && self.hit(q, max, n2, o2[j]));
                } else {
                    assert(o2[i] == o1[i]);
                    assert(self.entry_before(q, max, node, idx, o1[i]));
                    let k = choose|k: int| 0 <= k < idx && #[trigger] self.entry_below(q, max, self.edge(node, k).1 as int, o1[i]);
                    let n1 = choose|n: int| self.below(self.edge(node, k).1 as int, n) && #[trigger] self.hit(q, max, n, o1[i]);
                    self.lemma_below_child_trans(node, k, n1);
                    assert(self.below(self.edge(node, k).1 as int, n1) && self.below(self.edge(node, idx).1 as int, n2));
                    assert(self.node_before(n1, n2));
                    assert(self.hit(q, max, n1, o2[i]) && self.hit(q, max, n2, o2[j]));
                }
            }
        }
    }

    /// With distinct values on distinct nodes, the entries of the walk below child `idx` (the
    /// child's own, then those strictly below it) never repeat a value of one another nor of
    /// the entries from earlier children.
    proof fn lemma_walk_distinct(&self, q: Seq<char>, max: usize, node: int, idx: int, start: int, o1: Seq<(usize, usize)>, mid: Seq<(usize, usize)>, o2: Seq<(usize, usize)>)
        requires
            self.wf(),
            self.nodes_distinct_values(),
            0 <= node < self.size(),
            0 <= idx < self.degree(node),
            0 <= start <= o1.len() <= mid.len() <= o1.len() + 1,
            mid.len() <= o2.len(),
            forall|i: int| 0 <= i < o1.len() ==> mid[i] == o1[i],
            forall|i: int| 0 <= i < mid.len() ==> o2[i] == mid[i],
            forall|i: int| start <= i < o1.len() ==> #[trigger] self.entry_before(q, max, node, idx, o1[i]),
            forall|i: int, j: int| start <= i < j < o1.len() ==> #[trigger] o1[i].0 != #[trigger] o1[j].0,
            mid.len() == o1.len() + 1 ==> self.hit(q, max, self.edge(node, idx).1 as int, mid[o1.len() as int]),
            self.sound_from(q, max, self.edge(node, idx).1 as int, o2, mid.len() as int),
            forall|i: int, j: int| mid.len() <= i < j < o2.len() ==> #[trigger] o2[i].0 != #[trigger] o2[j].0,
        ensures
            forall|i: int, j: int| start <= i < j < o2.len() ==> #[trigger] o2[i].0 != #[trigger] o2[j].0,
    {
        let child = self.edge(node, idx).1 as int;
        assert(self.path(child).take(self.path(child).len() as int) =~= self.path(child));
        assert forall|i: int, j: int| start <= i < j < o2.len() implies #[trigger] o2[i].0 != #[trigger] o2[j].0 by {
            if j < o1.len() {
                assert(o2[i] == o1[i] && o2[j] == o1[j]);
            } else if i >= mid.len() {
            } else {
                // `n2`: the node of entry `j`, at or below the child.
                let n2 = if j < mid.len() {
                    assert(o2[j] == mid[j]);
                    child
                } else {
                    assert(self.entry_strictly_below(q, max, child, o2[j]));
                    choose|n: int| self.below(child, n) && n != child && #[trigger] self.hit(q, max, n, o2[j])
                };
                assert(self.below(child, n2) && self.hit(q, max, n2, o2[j]));
                if i >= o1.len() {
                    // `i` is the child's own entry and `j` lies strictly below it.
                    assert(o2[i] == mid[i]);
                    assert(self.hit(q, max, child, o2[i]));
                    assert(n2 != child);
                    assert(self.value_at(child) != self.value_at(n2));
                } else {
                    assert(o2[i] == o1[i]);
                    assert(self.entry_before(q, max, node, idx, o1[i]));
                    let k = choose|k: int| 0 <= k < idx && #[trigger] self.entry_below(q, max, self.edge(node, k).1 as int, o1[i]);
                    let n1 = choose|n: int| self.below(self.edge(node, k).1 as int, n) && #[trigger] self.hit(q, max, n, o1[i]);
                    self.lemma_children_disjoint(node, k, idx, n1);
                    assert(n1 != n2);
                    assert(self.value_at(n1) != self.value_at(n2));
                }
            }
        }
    }

    /// The DP row of `a.push(c)` against the prefixes of `query`, from the rows of `a` and of
    /// `a` without its last character, with a lower bound on all its entries.
    fn next_row(
        prev2: &Vec<usize>,
        prev: &Vec<usize>,
        parent_char: Option<char>,
        c: char,
        query: &[char],
        Ghost(a): Ghost<Seq<char>>,
    ) -> (r: (Vec<usize>, usize))
        requires
            query@.len() < usize::MAX,
            a.len() + 1 < u32::MAX,
            is_row(prev@, a, query@),
            a.len() == 0 ==> parent_char is None,
            a.len() > 0 ==> parent_char == Some(a.last()),
            a.len() > 0 ==> is_row(prev2@, a.drop_last(), query@),
        ensures
            is_row(r.0@, a.push(c), query@),
            forall|k: int| 0 <= k < r.0@.len() ==> r.1 <= #[trigger] r.0@[k],
    {
        let ghost q = query@;
        let ghost aa = a.push(c);
        let qlen = query.len();
        let mut cur: Vec<usize> = Vec::new();
        proof {
            assert(q.take(0) =~= Seq::<char>::empty());
            assert(prev@[0] == osa_distance(a, q.take(0)));
            assert(osa_distance(aa, q.take(0)) == aa.len());
        }
        cur.push(prev[0] + 1);
        let mut row_min = cur[0];
        let mut j: usize = 1;
        while j <= qlen
            invariant
                aa == a.push(c),
                a.len() + 1 < u32::MAX,
                q == query@,
                qlen == q.len(),
                qlen < usize::MAX,
                1 <= j <= qlen + 1,
                is_row(prev@, a, q),
                a.len() == 0 ==> parent_char is None,
                a.len() > 0 ==> parent_char == Some(a.last()),
                a.len() > 0 ==> is_row(prev2@, a.drop_last(), q),
                cur@.len() == j,
                forall|k: int| 0 <= k < j ==> cur@[k] == osa_distance(aa, #[trigger] q.take(k)),
                forall|k: int| 0 <= k < j ==> row_min <= #[trigger] cur@[k],
            decreases qlen + 1 - j,
        {
            proof {
                lemma_osa_step(a, c, q, j as int);
                lemma_osa_bound(a, q.take(j as int));
                lemma_osa_bound(a, q.take(j as int - 1));
                lemma_osa_bound(aa, q.take(j as int - 1));
                assert(q.take(j as int).len() == j);
                assert(q.take(j as int - 1).len() == j - 1);
                assert(prev@[j as int] == osa_distance(a, q.take(j as int)));
                assert(prev@[j - 1] == osa_distance(a, q.take(j - 1)));
                assert(cur@[j - 1] == osa_distance(aa, q.take(j - 1)));
                if j >= 2 && a.len() > 0 {
                    lemma_osa_bound(a.drop_last(), q.take(j as int - 2));
                    assert(q.take(j as int - 2).len() == j - 2);
                    assert(prev2@[j - 2] == osa_distance(a.drop_last(), q.take(j - 2)));
                }
            }
            let cost: usize = if c == query[j - 1] { 0 } else { 1 };
            let mut v = prev[j] + 1;
            if cur[j - 1] + 1 < v {
                v = cur[j - 1] + 1;
            }
            if prev[j - 1] + cost < v {
                v = prev[j - 1] + cost;
            }
            let swapped = match parent_char {
                Some(p) => j >= 2 && c == query[j - 2] && p == query[j - 1],
                None => false,
            };
            if swapped {
                if prev2[j - 2] + 1 < v {
                    v = prev2[j - 2] + 1;
                }
            }
            assert(v == osa_distance(aa, q.take(j as int)));
            cur.push(v);
            if v < row_min {
                row_min = v;
            }
            j += 1;
        }
        (cur, row_min)
    }

    /// Reports the hits strictly below `node`. `prev` is the DP row of what `node` spells
    /// against the prefixes of `query`, `prev2` that of its parent, `parent_char` the character
    /// into `node`. A child whose row lies wholly above `max` is pruned with its subtree.
    fn walk(
        &self,
        node: usize,
        parent_char: Option<char>,
        prev2: &Vec<usize>,
        prev: &Vec<usize>,
        query: &[char],
        max: usize,
        out: &mut Vec<(usize, usize)>,
    )
        requires
            self.wf(),
            node < self.size(),
            query@.len() < usize::MAX,
            is_row(prev@, self.path(node as int), query@),
            self.path(node as int).len() == 0 ==> parent_char is None,
            self.path(node as int).len() > 0 ==> parent_char == Some(self.path(node as int).last()),
            self.path(node as int).len() > 0 ==> is_row(prev2@, self.path(node as int).drop_last(), query@),
        ensures
            final(out)@.len() >= old(out)@.len(),
            forall|i: int| 0 <= i < old(out)@.len() ==> final(out)@[i] == old(out)@[i],
            self.sound_from(query@, max, node as int, final(out)@, old(out)@.len() as int),
            self.dfs_ordered(query@, max, node as int, final(out)@, old(out)@.len() as int),
            forall|n: int| #[trigger] self.below(node as int, n) && n != node && self.value_at(n) is Some && osa_distance(self.path(n), query@) <= max
                ==> exists|i: int| old(out)@.len() <= i < final(out)@.len() && #[trigger] self.hit(query@, max, n, final(out)@[i]),
            self.nodes_distinct_values() ==> forall|i: int, j: int| old(out)@.len() <= i < j < final(out)@.len() ==> #[trigger] final(out)@[i].0 != #[trigger] final(out)@[j].0,
        decreases self.size() - self.path(node as int).len(),
    {
        let ghost a = self.path(node as int);
        let ghost q = query@;
        let ghost start = out@.len() as int;
        let ghost out0 = out@;
        let qlen = query.len();
        let mut idx: usize = 0;
        while idx < self.children[node].len()
            invariant
                self.wf(),
                node < self.size(),
                a == self.path(node as int),
                q == query@,
                qlen == q.len(),
                qlen < usize::MAX,
                is_row(prev@, a, q),
                a.len() == 0 ==> parent_char is None,
                a.len() > 0 ==> parent_char == Some(a.last()),
                a.len() > 0 ==> is_row(prev2@, a.drop_last(), q),
                idx <= self.degree(node as int),
                self.children@[node as int]@.len() == self.degree(node as int),
                out@.len() >= start,
                start == out0.len(),
                forall|i: int| 0 <= i < start ==> out@[i] == out0[i],
                self.sound_from(q, max, node as int, out@, start),
                self.dfs_ordered(q, max, node as int, out@, start),
                self.complete_upto(q, max, node as int, idx as int, out@, start),
                forall|i: int| start <= i < out@.len() ==> #[trigger] self.entry_before(q, max, node as int, idx as int, out@[i]),
                self.nodes_distinct_values() ==> forall|i: int, j: int| start <= i < j < out@.len() ==> #[trigger] out@[i].0 != #[trigger] out@[j].0,
            decreases self.degree(node as int) - idx,
        {
            let (c, child32) = self.children[node][idx];
            let child = child32 as usize;
            let ghost aa = a.push(c);
            let ghost o1 = out@;
            proof {
                assert(self.edge(node as int, idx as int) == (c, child32));
                assert(self.path(child as int) == aa);
                assert(aa.len() < self.size());
            }
            let (cur, row_min) = Self::next_row(prev2, prev, parent_char, c, query, Ghost(a));
            if row_min <= max {
                match self.word[child] {
                    Some(wi) => {
                        if cur[qlen] <= max {
                            out.push((wi, cur[qlen]));
                        }
                    },
                    None => {},
                }
                let ghost mid = out@;
                proof {
                    assert(q.take(qlen as int) =~= q);
                    assert(cur@[qlen as int] == osa_distance(aa, q));
                    assert(aa.len() > 0 && aa.last() == c && aa.drop_last() =~= a);
                }
                self.walk(child, Some(c), prev, &cur, query, max, out);
                proof {
                    let o2 = out@;
                    assert forall|i: int| o1.len() <= i < o2.len() implies #[trigger] self.entry_below(q, max, self.edge(node as int, idx as int).1 as int, o2[i]) by {
                        if i < mid.len() {
                            assert(o2[i] == mid[i]);
                            assert(self.path(child as int).take(aa.len() as int) =~= aa);
                            assert(self.hit(q, max, child as int, o2[i]));
                        } else {
                            assert(self.entry_strictly_below(q, max, child as int, o2[i]));
                            let n = choose|n: int| self.below(child as int, n) && n != child && #[trigger] self.hit(q, max, n, o2[i]);
                        }
                    }
                    assert forall|n: int| #[trigger] self.below(self.edge(node as int, idx as int).1 as int, n) && self.value_at(n) is Some && osa_distance(self.path(n), q) <= max
                        implies exists|i: int| o1.len() <= i < o2.len() && #[trigger] self.hit(q, max, n, o2[i]) by {
                        if n == child {
                            let i = o1.len() as int;
                            assert(o2[i] == mid[i]);
                            assert(self.hit(q, max, n, o2[i]));
                        } else {
                            let i = choose|i: int| mid.len() <= i < o2.len() && #[trigger] self.hit(q, max, n, o2[i]);
                        }
                    }
                    self.lemma_walk_sound(q, max, node as int, idx as int, start, o1, o2);
                    self.lemma_walk_complete(q, max, node as int, idx as int, start, o1, o2);
                    self.lemma_walk_order(q, max, node as int, idx as int, start, o1, mid, o2);
                    self.lemma_walk_origin(q, max, node as int, idx as int, start, o1, o2);
                    if self.nodes_distinct_values() {
                        self.lemma_walk_distinct(q, max, node as int, idx as int, start, o1, mid, o2);
                    }
                }
            } else {
                proof {
                    assert(row_at_least(aa, q, row_min as nat)) by {
                        assert forall|j: int| 0 <= j <= q.len() implies osa_distance(aa, #[trigger] q.take(j)) >= row_min as nat by {
                            assert(cur@[j] == osa_distance(aa, q.take(j)));
                        }
                    }
                    assert forall|n: int| #[trigger] self.below(self.edge(node as int, idx as int).1 as int, n) implies osa_distance(self.path(n), q) > max by {
                        lemma_row_prefix(aa, self.path(n), q, row_min as nat);
                    }
                    self.lemma_walk_sound(q, max, node as int, idx as int, start, o1, o1);
                    self.lemma_walk_complete(q, max, node as int, idx as int, start, o1, o1);
                    self.lemma_walk_origin(q, max, node as int, idx as int, start, o1, o1);
                }
            }
            idx += 1;
        }
        proof {
            assert forall|n: int| #[trigger] self.below(node as int, n) && n != node && self.value_at(n) is Some && osa_distance(self.path(n), q) <= max
                implies exists|i: int| start <= i < out@.len() && #[trigger] self.hit(q, max, n, out@[i]) by {
                self.lemma_below_child(node as int, n);
            }
        }
    }

    /// Builds the trie of `word_chars`, word `i` carrying value `i` (a repeated word keeps its
    /// last index).
    pub fn build(word_chars: &Vec<Vec<char>>) -> (t: DictTrie)
        requires
            total_chars(word_chars@) + 1 <= u32::MAX,
        ensures
            t.wf(),
            t@ == indexed_words(word_chars@.map_values(|w: Vec<char>| w@)),
    {
        let mut t = DictTrie::new();
        let ghost ws = word_chars@.map_values(|w: Vec<char>| w@);
        let mut wi: usize = 0;
        assert(word_chars@.take(0) =~= Seq::<Vec<char>>::empty());
        assert(ws.take(0) =~= Seq::<Seq<char>>::empty());
        while wi < word_chars.len()
            invariant
                ws == word_chars@.map_values(|w: Vec<char>| w@),
                wi <= word_chars.len(),
                t.wf(),
                t@ == indexed_words(ws.take(wi as int)),
                t.size() <= 1 + total_chars(word_chars@.take(wi as int)),
                total_chars(word_chars@) + 1 <= u32::MAX,
            decreases word_chars.len() - wi,
        {
            proof {
                lemma_total_chars_take(word_chars@, wi as int);
                assert(ws.take(wi as int + 1).drop_last() =~= ws.take(wi as int));
                assert(word_chars@.take(wi as int + 1).drop_last() =~= word_chars@.take(wi as int));
            }
            t.insert(word_chars[wi].as_slice(), wi);
            wi += 1;
        }
        assert(ws.take(word_chars.len() as int) =~= ws);
        t
    }
}

/// `row` is the DP row of `a`: entry `j` is the distance from `a` to the first `j` characters
/// of `q`.
pub open spec fn is_row(row: Seq<usize>, a: Seq<char>, q: Seq<char>) -> bool {
    &&& row.len() == q.len() + 1
    &&& forall|j: int| 0 <= j <= q.len() ==> row[j] == osa_distance(a, #[trigger] q.take(j))
}

/// `w` is a stored word within `max` edits of `q`, and `e` is (its value, its distance).
pub open spec fn edit_hit(words: Map<Seq<char>, usize>, q: Seq<char>, max: usize, w: Seq<char>, e: (usize, usize)) -> bool {
    &&& words.contains_key(w)
    &&& w.len() > 0
    &&& osa_distance(w, q) <= max
    &&& e == (words[w], osa_distance(w, q) as usize)
}

/// `e` is (value, distance) for some stored word within `max` edits of `q`.
pub open spec fn is_edit_hit(words: Map<Seq<char>, usize>, q: Seq<char>, max: usize, e: (usize, usize)) -> bool {
    exists|w: Seq<char>| #[trigger] edit_hit(words, q, max, w, e)
}

/// `out` lists, as (value, distance), exactly the stored non-empty words within `max` edits
/// of `q`: every entry is such a word's, and every such word has an entry.
/// Distinct stored words carry distinct values.
pub open spec fn injective_values(m: Map<Seq<char>, usize>) -> bool {
    forall|w1: Seq<char>, w2: Seq<char>| #[trigger] m.contains_key(w1) && #[trigger] m.contains_key(w2) && w1 != w2 ==> m[w1] != m[w2]
}

/// No value is reported twice.
pub open spec fn no_repeated_index(out: Seq<(usize, usize)>) -> bool {
    forall|i: int, j: int| 0 <= i < j < out.len() ==> #[trigger] out[i].0 != #[trigger] out[j].0
}

pub open spec fn search_result(words: Map<Seq<char>, usize>, q: Seq<char>, max: usize, out: Seq<(usize, usize)>) -> bool {
    &&& forall|i: int| 0 <= i < out.len() ==> #[trigger] is_edit_hit(words, q, max, out[i])
    &&& forall|w: Seq<char>| #[trigger] words.contains_key(w) && w.len() > 0 && osa_distance(w, q) <= max
        ==> exists|i: int| 0 <= i < out.len() && edit_hit(words, q, max, w, #[trigger] out[i])
}

/// Total number of characters over all words.
pub open spec fn total_chars(ws: Seq<Vec<char>>) -> nat
    decreases ws.len(),
{
    if ws.len() == 0 {
        0
    } else {
        total_chars(ws.drop_last()) + ws.last()@.len()
    }
}

proof fn lemma_total_chars_take(ws: Seq<Vec<char>>, i: int)
    requires
        0 <= i < ws.len(),
    ensures
        total_chars(ws.take(i + 1)) == total_chars(ws.take(i)) + ws[i]@.len(),
        total_chars(ws.take(i + 1)) <= total_chars(ws),
    decreases ws.len() - i,
{
    assert(ws.take(i + 1).drop_last() =~= ws.take(i));
    if i + 1 < ws.len() {
        lemma_total_chars_take(ws, i + 1);
    } else {
        assert(ws.take(i + 1) =~= ws);
    }
}

/// Each word mapped to its (last) index in `ws`.
pub open spec fn indexed_words(ws: Seq<Seq<char>>) -> Map<Seq<char>, usize>
    decreases ws.len(),
{
    if ws.len() == 0 {
        Map::empty()
    } else {
        indexed_words(ws.drop_last()).insert(ws.last(), (ws.len() - 1) as usize)
    }
}

/// A word is indexed exactly when it occurs, and its index is its last occurrence.
pub proof fn lemma_indexed_words(ws: Seq<Seq<char>>, w: Seq<char>)
    requires
        ws.len() <= usize::MAX,
    ensures
        indexed_words(ws).contains_key(w) <==> exists|i: int| 0 <= i < ws.len() && ws[i] == w,
        indexed_words(ws).contains_key(w) ==> {
            let i = indexed_words(ws)[w] as int;
            &&& 0 <= i < ws.len()
            &&& ws[i] == w
            &&& forall|j: int| i < j < ws.len() ==> ws[j] != w
        },
    decreases ws.len(),
{
    if ws.len() > 0 {
        let d = ws.drop_last();
        lemma_indexed_words(d, w);
        if exists|i: int| 0 <= i < d.len() && d[i] == w {
            let i = choose|i: int| 0 <= i < d.len() && d[i] == w;
            assert(ws[i] == w);
        }
        if exists|i: int| 0 <= i < ws.len() && ws[i] == w {
            let i = choose|i: int| 0 <= i < ws.len() && ws[i] == w;
            if i < d.len() {
                assert(d[i] == w);
            }
        }
        if w == ws.last() {
            assert(indexed_words(ws)[w] == ws.len() - 1);
            assert(ws[ws.len() - 1] == w);
        } else if indexed_words(ws).contains_key(w) {
            assert(indexed_words(ws)[w] == indexed_words(d)[w]);
            let i = indexed_words(d)[w] as int;
            assert(d[i] == w);
            assert forall|j: int| i < j < ws.len() implies ws[j] != w by {
                if j < d.len() {
                    assert(d[j] == ws[j]);
                }
            }
        }
    }
}

/// Indexing words by their last occurrence gives distinct words distinct indices.
pub proof fn lemma_indexed_words_injective(ws: Seq<Seq<char>>)
    requires
        ws.len() <= usize::MAX,
    ensures
        injective_values(indexed_words(ws)),
{
    let m = indexed_words(ws);
    assert forall|w1: Seq<char>, w2: Seq<char>| #[trigger] m.contains_key(w1) && #[trigger] m.contains_key(w2) && w1 != w2 implies m[w1] != m[w2] by {
        lemma_indexed_words(ws, w1);
        lemma_indexed_words(ws, w2);
    }
}

} // verus!
