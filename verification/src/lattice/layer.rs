//! The runtime form of one language-model layer, rehydrated from its interned form: a token →
//! id index, the dense unigram table, the bigram counts keyed by packed id pairs, and for each
//! token the number of bigram entries it starts (the Kneser-Ney `N₁₊(w •)` term).
use vstd::prelude::*;
use std::collections::HashMap;
use crate::fields::total_len;
use crate::lm_format::{
    bi_keys, bigram_parts, distinct, first_index, id_in, interned_ok, is_interning,
    keys_have_tab, layer_tokens, lemma_dedup_contains, lemma_dedup_distinct, lemma_id_in_unique,
    lemma_key_split, lemma_layer_tokens_has_parts, lemma_layer_tokens_prefix, uni_keys, vocab_view,
    InternedLayer, LayerCounts,
};
use crate::table::distinct_keys;
use crate::spell::dict_trie::{indexed_words, DictTrie};
use crate::text::chars_of;

verus! {

broadcast use vstd::std_specs::hash::group_hash_axioms;

/// The bigram map of a packed list: each key to its count, a later entry replacing an earlier
/// one with the same key.
pub open spec fn packed_table(b: Seq<(u64, u32)>) -> Map<u64, u32>
    decreases b.len(),
{
    if b.len() == 0 {
        Map::empty()
    } else {
        packed_table(b.drop_last()).insert(b.last().0, b.last().1)
    }
}

/// How many entries of a packed list start with token `id` (their key's high 32 bits).
pub open spec fn follower_count(b: Seq<(u64, u32)>, id: int) -> nat
    decreases b.len(),
{
    if b.len() == 0 {
        0
    } else {
        follower_count(b.drop_last(), id) + (if (b.last().0 >> 32u64) == id {
            1nat
        } else {
            0nat
        })
    }
}

/// The id pair `(w1, w2)` packed as `w1 << 32 | w2`.
pub open spec fn pack_ids(w1: u32, w2: u32) -> u64 {
    ((w1 as u64) << 32u64) | (w2 as u64)
}

/// One language-model layer, ready for lookups.
pub struct RuntimeLayer {
    token_id: DictTrie,
    unigrams: Vec<(u32, u32)>,
    bigrams: HashMap<u64, u32>,
    followers: Vec<u32>,
}

impl RuntimeLayer {
    /// Token → id.
    pub closed spec fn ids(&self) -> Map<Seq<char>, usize> {
        self.token_id@
    }

    /// id → (count, preceding_contexts).
    pub closed spec fn unigram_table(&self) -> Seq<(u32, u32)> {
        self.unigrams@
    }

    /// Packed id pair → count.
    pub closed spec fn bigram_table(&self) -> Map<u64, u32> {
        self.bigrams@
    }

    /// id → number of bigram entries starting with it.
    pub closed spec fn follower_table(&self) -> Seq<u32> {
        self.followers@
    }

    /// The token index is well formed.
    pub closed spec fn wf(&self) -> bool {
        &&& self.token_id.wf()
        &&& forall|w: Seq<char>| #[trigger] self.token_id@.contains_key(w) ==> self.token_id@[w] <= u32::MAX
    }

    /// Rehydrates an interned layer: ids from the vocabulary order (a repeated token keeps its
    /// last id), the unigram table as it is, the bigram list as a map, and the follower tally.
    pub fn from_interned(layer: InternedLayer) -> (r: RuntimeLayer)
        requires
            total_len(vocab_view(&layer)) + 1 <= u32::MAX,
            layer.vocab.len() <= u32::MAX,
            forall|k: int| 0 <= k < layer.bigrams.len() ==> (#[trigger] layer.bigrams@[k]).0 >> 32u64 < layer.vocab.len(),
            layer.bigrams.len() < u32::MAX,
        ensures
            r.wf(),
            r.ids() == indexed_words(vocab_view(&layer)),
            r.unigram_table() == layer.unigrams@,
            r.bigram_table() == packed_table(layer.bigrams@),
            r.follower_table().len() == layer.vocab.len(),
            forall|id: int| 0 <= id < layer.vocab.len() ==> #[trigger] r.follower_table()[id] == follower_count(layer.bigrams@, id),
    {
        let n = layer.vocab.len();
        let ghost vv = vocab_view(&layer);
        let mut token_id = DictTrie::new();
        let mut i: usize = 0;
        proof {
            assert(vv.take(0) =~= Seq::<Seq<char>>::empty());
        }
        while i < n
            invariant
                n == layer.vocab.len(),
                vv == vocab_view(&layer),
                total_len(vv) + 1 <= u32::MAX,
                i <= n,
                token_id.wf(),
                token_id.size() <= 1 + total_len(vv.take(i as int)),
                token_id@ == indexed_words(vv.take(i as int)),
            decreases n - i,
        {
            let cs = chars_of(layer.vocab[i].as_str());
            proof {
                crate::fields::lemma_total_len_take(vv, i as int);
                assert(vv[i as int] == cs@);
                assert(vv.take(i + 1).drop_last() =~= vv.take(i as int));
                assert(vv.take(i + 1).last() == cs@);
            }
            token_id.insert(cs.as_slice(), i);
            i += 1;
        }
        proof {
            assert(vv.take(n as int) =~= vv);
            assert forall|w: Seq<char>| #[trigger] token_id@.contains_key(w) implies token_id@[w] <= u32::MAX by {
                crate::spell::dict_trie::lemma_indexed_words(vv, w);
            }
        }
        let mut followers: Vec<u32> = Vec::new();
        let mut j: usize = 0;
        while j < n
            invariant
                j <= n,
                followers.len() == j,
                forall|id: int| 0 <= id < j ==> #[trigger] followers@[id] == 0,
            decreases n - j,
        {
            followers.push(0);
            j += 1;
        }
        let mut bigrams: HashMap<u64, u32> = HashMap::new();
        let mut k: usize = 0;
        proof {
            assert(layer.bigrams@.take(0) =~= Seq::<(u64, u32)>::empty());
            assert(bigrams@ =~= packed_table(layer.bigrams@.take(0)));
        }
        while k < layer.bigrams.len()
            invariant
                n == layer.vocab.len(),
                k <= layer.bigrams.len(),
                layer.bigrams.len() < u32::MAX,
                forall|q: int| 0 <= q < layer.bigrams.len() ==> (#[trigger] layer.bigrams@[q]).0 >> 32u64 < n,
                followers.len() == n,
                forall|id: int| 0 <= id < n ==> #[trigger] followers@[id] == follower_count(layer.bigrams@.take(k as int), id),
                forall|id: int| 0 <= id < n ==> #[trigger] followers@[id] <= k,
                bigrams@ == packed_table(layer.bigrams@.take(k as int)),
            decreases layer.bigrams.len() - k,
        {
            let (key, count) = layer.bigrams[k];
            let w1 = (key >> 32u64) as usize;
            proof {
                assert(layer.bigrams@[k as int] == (key, count));
                assert(layer.bigrams@.take(k + 1).drop_last() =~= layer.bigrams@.take(k as int));
                assert(layer.bigrams@.take(k + 1).last() == (key, count));
            }
            let f = followers[w1];
            followers.set(w1, f + 1);
            bigrams.insert(key, count);
            proof {
                assert forall|id: int| 0 <= id < n implies #[trigger] followers@[id] == follower_count(layer.bigrams@.take(k + 1), id) by {
                    if id == w1 {
                        assert((key >> 32u64) == w1);
                    }
                }
            }
            k += 1;
        }
        proof {
            assert(layer.bigrams@.take(layer.bigrams.len() as int) =~= layer.bigrams@);
        }
        RuntimeLayer { token_id, unigrams: layer.unigrams, bigrams, followers }
    }

    /// The id of `tok`, if the layer knows it.
    pub fn token(&self, tok: &str) -> (r: Option<u32>)
        requires
            self.wf(),
        ensures
            r matches Some(i) ==> self.ids().contains_key(tok@) && self.ids()[tok@] == i,
            r is None ==> !self.ids().contains_key(tok@),
    {
        let cs = chars_of(tok);
        match self.token_id.get(cs.as_slice()) {
            Some(i) => Some(i as u32),
            None => None,
        }
    }

    /// (count, preceding_contexts) of token `id`.
    pub fn unigram(&self, id: u32) -> (r: (u32, u32))
        requires
            id < self.unigram_table().len(),
        ensures
            r == self.unigram_table()[id as int],
    {
        self.unigrams[id as usize]
    }

    /// The number of bigram entries that start with token `id`.
    pub fn followers(&self, id: u32) -> (r: u32)
        requires
            id < self.follower_table().len(),
        ensures
            r == self.follower_table()[id as int],
    {
        self.followers[id as usize]
    }

    /// The count of the bigram `(w1, w2)`, 0 if unseen.
    pub fn bigram(&self, w1: u32, w2: u32) -> (r: u32)
        ensures
            r == (if self.bigram_table().contains_key(pack_ids(w1, w2)) {
                self.bigram_table()[pack_ids(w1, w2)]
            } else {
                0
            }),
    {
        let key = ((w1 as u64) << 32u64) | (w2 as u64);
        match self.bigrams.get(&key) {
            Some(c) => *c,
            None => 0,
        }
    }

    /// The number of distinct bigram keys.
    pub fn bigram_types(&self) -> (r: usize)
        ensures
            r == self.bigram_table().len(),
    {
        self.bigrams.len()
    }
}

/// In a repeat-free vocabulary, the index built from it gives each token its position.
proof fn lemma_indexed_distinct(v: Seq<Seq<char>>, w: Seq<char>)
    requires
        distinct(v),
        v.contains(w),
        v.len() <= usize::MAX,
    ensures
        indexed_words(v).contains_key(w),
        indexed_words(v)[w] == id_in(v, w),
{
    crate::spell::dict_trie::lemma_indexed_words(v, w);
    let i = indexed_words(v)[w] as int;
    let j = choose|j: int| 0 <= j < v.len() && v[j] == w;
    lemma_id_in_unique(v, i, w);
}

/// The last entry listed for a key is what a packed map holds for it.
proof fn lemma_packed_table_at(b: Seq<(u64, u32)>, k: int)
    requires
        0 <= k < b.len(),
        forall|j: int| k < j < b.len() ==> (#[trigger] b[j]).0 != b[k].0,
    ensures
        packed_table(b).contains_key(b[k].0),
        packed_table(b)[b[k].0] == b[k].1,
    decreases b.len(),
{
    if k < b.len() - 1 {
        let d = b.drop_last();
        assert forall|j: int| k < j < d.len() implies (#[trigger] d[j]).0 != d[k].0 by {
            assert(d[j] == b[j]);
        }
        lemma_packed_table_at(d, k);
        assert(b[b.len() - 1].0 != b[k].0);
    }
}

/// Loading an interned layer gives its counts back: a unigram key's id leads to its counts,
/// and a bigram key's two token ids, packed, to its count (counts kept as `u32`).
pub proof fn lemma_load_gives_back_counts(layer: &LayerCounts, interned: &InternedLayer, runtime: &RuntimeLayer)
    requires
        interned_ok(layer),
        distinct_keys(layer.bigrams@),
        is_interning(layer, interned),
        runtime.ids() == indexed_words(vocab_view(interned)),
        runtime.unigram_table() == interned.unigrams@,
        runtime.bigram_table() == packed_table(interned.bigrams@),
    ensures
        forall|k: int| 0 <= k < layer.unigrams.len() ==> {
            let w = (#[trigger] layer.unigrams@[k]).0@;
            &&& runtime.ids().contains_key(w)
            &&& runtime.ids()[w] < runtime.unigram_table().len()
            &&& runtime.unigram_table()[runtime.ids()[w] as int] == (layer.unigrams@[k].1.0 as u32, layer.unigrams@[k].1.1 as u32)
        },
        forall|k: int| 0 <= k < layer.bigrams.len() ==> {
            let p = bigram_parts((#[trigger] layer.bigrams@[k]).0@);
            &&& runtime.ids().contains_key(p.0)
            &&& runtime.ids().contains_key(p.1)
            &&& runtime.ids()[p.0] <= u32::MAX
            &&& runtime.ids()[p.1] <= u32::MAX
            &&& runtime.bigram_table().contains_key(pack_ids(runtime.ids()[p.0] as u32, runtime.ids()[p.1] as u32))
            &&& runtime.bigram_table()[pack_ids(runtime.ids()[p.0] as u32, runtime.ids()[p.1] as u32)] == layer.bigrams@[k].1 as u32
        },
{
    let v = vocab_view(interned);
    let uk = uni_keys(layer.unigrams@);
    let bk = bi_keys(layer.bigrams@);
    let toks = layer_tokens(uk, bk);
    crate::lm_format::lemma_layer_tokens_len_exact(uk, bk);
    crate::lm_format::lemma_dedup_len(toks);
    lemma_dedup_distinct(toks);
    assert forall|k: int| 0 <= k < layer.unigrams.len() implies {
        let w = (#[trigger] layer.unigrams@[k]).0@;
        &&& runtime.ids().contains_key(w)
        &&& runtime.ids()[w] < runtime.unigram_table().len()
        &&& runtime.unigram_table()[runtime.ids()[w] as int] == (layer.unigrams@[k].1.0 as u32, layer.unigrams@[k].1.1 as u32)
    } by {
        let w = layer.unigrams@[k].0@;
        assert(uk[k] == w);
        lemma_layer_tokens_prefix(uk, bk, k);
        assert(toks[k] == w);
        lemma_dedup_contains(toks, w);
        lemma_indexed_distinct(v, w);
    }
    assert forall|k: int| 0 <= k < layer.bigrams.len() implies {
        let p = bigram_parts((#[trigger] layer.bigrams@[k]).0@);
        &&& runtime.ids().contains_key(p.0)
        &&& runtime.ids().contains_key(p.1)
        &&& runtime.ids()[p.0] <= u32::MAX
        &&& runtime.ids()[p.1] <= u32::MAX
        &&& runtime.bigram_table().contains_key(pack_ids(runtime.ids()[p.0] as u32, runtime.ids()[p.1] as u32))
        &&& runtime.bigram_table()[pack_ids(runtime.ids()[p.0] as u32, runtime.ids()[p.1] as u32)] == layer.bigrams@[k].1 as u32
    } by {
        let key = layer.bigrams@[k].0@;
        let p = bigram_parts(key);
        assert(bk[k] == key);
        lemma_layer_tokens_has_parts(uk, bk, k);
        lemma_dedup_contains(toks, p.0);
        lemma_dedup_contains(toks, p.1);
        lemma_indexed_distinct(v, p.0);
        lemma_indexed_distinct(v, p.1);
        let a = id_in(v, p.0);
        let b = id_in(v, p.1);
        assert(0 <= a < v.len() && 0 <= b < v.len());
        let b_list = interned.bigrams@;
        assert(b_list[k] == (pack_ids(a as u32, b as u32), layer.bigrams@[k].1 as u32));
        assert forall|j: int| k < j < b_list.len() implies (#[trigger] b_list[j]).0 != b_list[k].0 by {
            let key2 = layer.bigrams@[j].0@;
            let p2 = bigram_parts(key2);
            assert(bk[j] == key2);
            lemma_layer_tokens_has_parts(uk, bk, j);
            lemma_dedup_contains(toks, p2.0);
            lemma_dedup_contains(toks, p2.1);
            let a2 = id_in(v, p2.0);
            let b2 = id_in(v, p2.1);
            assert(b_list[j].0 == pack_ids(a2 as u32, b2 as u32));
            let x1 = a as u32;
            let y1 = b as u32;
            let x2 = a2 as u32;
            let y2 = b2 as u32;
            assert(pack_ids(x1, y1) == pack_ids(x2, y2) ==> x1 == x2 && y1 == y2) by (bit_vector);
            if b_list[j].0 == b_list[k].0 {
                assert(v[a] == p.0 && v[a2] == p2.0 && v[b] == p.1 && v[b2] == p2.1);
                assert(keys_have_tab(layer.bigrams@));
                assert(first_index(layer.bigrams@[k].0@, '\t') >= 0);
                assert(first_index(layer.bigrams@[j].0@, '\t') >= 0);
                lemma_key_split(key);
                lemma_key_split(key2);
                assert(layer.bigrams@[j].0@ != layer.bigrams@[k].0@);
            }
        }
        lemma_packed_table_at(b_list, k);
    }
}

} // verus!
