//! A string-keyed table: entries listed once per key, indexed by a character trie, with
//! insertion that replaces the value of a key already present.
use vstd::prelude::*;
use crate::spell::dict_trie::DictTrie;
use crate::text::string_from_chars;

verus! {

/// No key is listed twice.
pub open spec fn distinct_keys<V>(e: Seq<(String, V)>) -> bool {
    forall|a: int, b: int| 0 <= a < e.len() && 0 <= b < e.len() && a != b ==> (#[trigger] e[a]).0@ != (#[trigger] e[b]).0@
}

/// The map an entry list stands for: each listed key to its value.
pub open spec fn entries_map<V>(e: Seq<(String, V)>) -> Map<Seq<char>, V> {
    Map::new(
        |k: Seq<char>| exists|i: int| 0 <= i < e.len() && e[i].0@ == k,
        |k: Seq<char>| e[choose|i: int| 0 <= i < e.len() && e[i].0@ == k].1,
    )
}

/// In a list without repeated keys, the value of a listed key is the one listed with it.
pub proof fn lemma_entries_map_at<V>(e: Seq<(String, V)>, i: int)
    requires
        distinct_keys(e),
        0 <= i < e.len(),
    ensures
        entries_map(e).contains_key(e[i].0@),
        entries_map(e)[e[i].0@] == e[i].1,
{
    let k = e[i].0@;
    assert(entries_map(e).contains_key(k));
    let j = choose|j: int| 0 <= j < e.len() && e[j].0@ == k;
    if j != i {
        assert(e[j].0@ != e[i].0@);
    }
}

/// Entries keyed by strings, each key once, in first-insertion order.
pub struct KeyedTable<V> {
    entries: Vec<(String, V)>,
    index: DictTrie,
}

impl<V> KeyedTable<V> {
    /// Keys listed once, and the trie maps each listed key to its position.
    pub closed spec fn wf(&self) -> bool {
        &&& self.index.wf()
        &&& distinct_keys(self.entries@)
        &&& forall|k: Seq<char>| #[trigger] self.index@.contains_key(k) <==> exists|i: int| 0 <= i < self.entries.len() && self.entries@[i].0@ == k
        &&& forall|k: Seq<char>| self.index@.contains_key(k) ==> #[trigger] self.index@[k] < self.entries.len() && self.entries@[self.index@[k] as int].0@ == k
    }

    /// The key → value map.
    pub closed spec fn view(&self) -> Map<Seq<char>, V> {
        entries_map(self.entries@)
    }

    /// Size of the index (it grows by at most a key's length per insertion).
    pub closed spec fn size(&self) -> nat {
        self.index.size()
    }

    /// An empty table.
    pub fn new() -> (t: Self)
        ensures
            t.wf(),
            t@ == Map::<Seq<char>, V>::empty(),
            t.size() == 1,
    {
        let t = KeyedTable { entries: Vec::new(), index: DictTrie::new() };
        assert(t@ =~= Map::<Seq<char>, V>::empty());
        t
    }

    /// The position of `key` among the entries, if listed.
    fn position(&self, key: &[char]) -> (r: Option<usize>)
        requires
            self.wf(),
        ensures
            r matches Some(i) ==> i < self.entries.len() && self.entries@[i as int].0@ == key@,
            r is None ==> !self@.contains_key(key@),
    {
        self.index.get(key)
    }

    /// The value stored for `key`, if any.
    pub fn get(&self, key: &[char]) -> (r: Option<&V>)
        requires
            self.wf(),
        ensures
            r matches Some(v) ==> self@.contains_key(key@) && self@[key@] == *v,
            r is None ==> !self@.contains_key(key@),
    {
        match self.position(key) {
            Some(i) => {
                proof {
                    lemma_entries_map_at(self.entries@, i as int);
                }
                Some(&self.entries[i].1)
            },
            None => None,
        }
    }

    /// Stores `v` for `key`, replacing the value of a key already present (its entry keeps
    /// its place); a new key is listed last.
    pub fn insert(&mut self, key: &[char], v: V)
        requires
            old(self).wf(),
            old(self).size() + key.len() <= u32::MAX,
        ensures
            final(self).wf(),
            final(self)@ == old(self)@.insert(key@, v),
            final(self).size() <= old(self).size() + key.len(),
    {
        let ghost e0 = self.entries@;
        match self.index.get(key) {
            Some(i) => {
                let s = string_from_chars(key);
                self.entries.set(i, (s, v));
                proof {
                    let e1 = self.entries@;
                    assert(distinct_keys(e1)) by {
                        assert forall|a: int, b: int| 0 <= a < e1.len() && 0 <= b < e1.len() && a != b implies (#[trigger] e1[a]).0@ != (#[trigger] e1[b]).0@ by {
                            if a != i && b != i {
                                assert(e1[a] == e0[a] && e1[b] == e0[b]);
                            } else if a == i {
                                assert(e1[b] == e0[b]);
                                assert(e0[i as int].0@ == key@);
                            } else {
                                assert(e1[a] == e0[a]);
                                assert(e0[i as int].0@ == key@);
                            }
                        }
                    }
                    assert forall|k: Seq<char>| #[trigger] self.index@.contains_key(k) <==> exists|j: int| 0 <= j < e1.len() && e1[j].0@ == k by {
                        if exists|j: int| 0 <= j < e1.len() && e1[j].0@ == k {
                            let j = choose|j: int| 0 <= j < e1.len() && e1[j].0@ == k;
                            if j != i {
                                assert(e0[j] == e1[j]);
                            } else {
                                assert(e0[j].0@ == k);
                            }
                        }
                        if self.index@.contains_key(k) {
                            let j = choose|j: int| 0 <= j < e0.len() && e0[j].0@ == k;
                            if j != i {
                                assert(e1[j] == e0[j]);
                            } else {
                                assert(e1[j].0@ == k);
                            }
                        }
                    }
                    assert forall|k: Seq<char>| self.index@.contains_key(k) implies #[trigger] self.index@[k] < e1.len() && e1[self.index@[k] as int].0@ == k by {
                        if self.index@[k] != i {
                            assert(e1[self.index@[k] as int] == e0[self.index@[k] as int]);
                        }
                    }
                    assert forall|k: Seq<char>| #[trigger] entries_map(e1).contains_key(k) == entries_map(e0).insert(key@, v).contains_key(k) by {
                        if entries_map(e1).contains_key(k) {
                            let j = choose|j: int| 0 <= j < e1.len() && e1[j].0@ == k;
                            if j != i {
                                assert(e0[j] == e1[j]);
                            }
                        }
                        if entries_map(e0).contains_key(k) {
                            let j = choose|j: int| 0 <= j < e0.len() && e0[j].0@ == k;
                            if j != i {
                                assert(e1[j] == e0[j]);
                            } else {
                                assert(e1[j].0@ == k);
                            }
                        }
                        if k == key@ {
                            assert(e1[i as int].0@ == k);
                        }
                    }
                    assert forall|k: Seq<char>| entries_map(e1).contains_key(k) implies entries_map(e1)[k] == entries_map(e0).insert(key@, v)[k] by {
                        let j = choose|j: int| 0 <= j < e1.len() && e1[j].0@ == k;
                        lemma_entries_map_at(e1, j);
                        if j != i {
                            assert(e0[j] == e1[j]);
                            lemma_entries_map_at(e0, j);
                        }
                    }
                    assert(entries_map(e1) =~= entries_map(e0).insert(key@, v));
                }
            },
            None => {
                let n = self.entries.len();
                let s = string_from_chars(key);
                self.entries.push((s, v));
                proof {
                    let e1 = self.entries@;
                    assert(!exists|j: int| 0 <= j < e0.len() && e0[j].0@ == key@);
                    assert(distinct_keys(e1)) by {
                        assert forall|a: int, b: int| 0 <= a < e1.len() && 0 <= b < e1.len() && a != b implies (#[trigger] e1[a]).0@ != (#[trigger] e1[b]).0@ by {
                            if a < n && b < n {
                                assert(e1[a] == e0[a] && e1[b] == e0[b]);
                            } else if a == n {
                                assert(e1[b] == e0[b]);
                            } else {
                                assert(e1[a] == e0[a]);
                            }
                        }
                    }
                }
                self.index.insert(key, n);
                proof {
                    let e1 = self.entries@;
                    assert forall|k: Seq<char>| #[trigger] self.index@.contains_key(k) <==> exists|j: int| 0 <= j < e1.len() && e1[j].0@ == k by {
                        if k != key@ {
                            if exists|j: int| 0 <= j < e1.len() && e1[j].0@ == k {
                                let j = choose|j: int| 0 <= j < e1.len() && e1[j].0@ == k;
                                assert(j < n);
                                assert(e0[j] == e1[j]);
                            }
                            if exists|j: int| 0 <= j < e0.len() && e0[j].0@ == k {
                                let j = choose|j: int| 0 <= j < e0.len() && e0[j].0@ == k;
                                assert(e1[j] == e0[j]);
                            }
                        } else {
                            assert(e1[n as int].0@ == k);
                        }
                    }
                    assert forall|k: Seq<char>| self.index@.contains_key(k) implies #[trigger] self.index@[k] < e1.len() && e1[self.index@[k] as int].0@ == k by {
                        if k != key@ {
                            assert(e1[self.index@[k] as int] == e0[self.index@[k] as int]);
                        }
                    }
                    assert forall|k: Seq<char>| #[trigger] entries_map(e1).contains_key(k) == entries_map(e0).insert(key@, v).contains_key(k) by {
                        if entries_map(e1).contains_key(k) && k != key@ {
                            let j = choose|j: int| 0 <= j < e1.len() && e1[j].0@ == k;
                            assert(j < n);
                            assert(e0[j] == e1[j]);
                        }
                        if entries_map(e0).contains_key(k) {
                            let j = choose|j: int| 0 <= j < e0.len() && e0[j].0@ == k;
                            assert(e1[j] == e0[j]);
                        }
                        if k == key@ {
                            assert(e1[n as int].0@ == k);
                        }
                    }
                    assert forall|k: Seq<char>| entries_map(e1).contains_key(k) implies entries_map(e1)[k] == entries_map(e0).insert(key@, v)[k] by {
                        let j = choose|j: int| 0 <= j < e1.len() && e1[j].0@ == k;
                        lemma_entries_map_at(e1, j);
                        if j != n {
                            assert(e0[j] == e1[j]);
                            lemma_entries_map_at(e0, j);
                        }
                    }
                    assert(entries_map(e1) =~= entries_map(e0).insert(key@, v));
                }
            },
        }
    }

    /// The entries, each key once.
    pub fn into_entries(self) -> (e: Vec<(String, V)>)
        requires
            self.wf(),
        ensures
            distinct_keys(e@),
            entries_map(e@) == self@,
    {
        self.entries
    }
}

} // verus!
