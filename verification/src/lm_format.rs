//! Language-model count formats: the String-keyed counts from the corpus pipeline and the
//! compact interned form (dense u32 ids, bigram keys packed `w1_id << 32 | w2_id`).
use vstd::prelude::*;
use crate::spell::dict_trie::DictTrie;
use crate::text::{chars_of, string_from_chars, strip_cr};
use crate::fields::{
    lemma_split_fields, lemma_split_len, lemma_total_len_take, parse_decimal, parse_unsigned,
    split_char, split_on, strip_cr_chars, total_len,
};
use crate::table::{distinct_keys, entries_map, KeyedTable};

verus! {

/// One layer's counts: token → (count, preceding_contexts), and "w1\tw2" → count. Entries are
/// listed once per key.
pub struct LayerCounts {
    pub unigrams: Vec<(String, (usize, usize))>,
    pub bigrams: Vec<(String, usize)>,
}

/// The three layers of the language model.
pub struct MasterLanguageModel {
    pub words: LayerCounts,
    pub syllables: LayerCounts,
    pub tccs: LayerCounts,
}

/// The compact shipped form of one layer: `vocab[id]` is the token with id `id`;
/// `unigrams[id]` its (count, preceding_contexts); bigrams as (packed key, count).
pub struct InternedLayer {
    pub vocab: Vec<String>,
    pub unigrams: Vec<(u32, u32)>,
    pub bigrams: Vec<(u64, u32)>,
}

/// The three interned layers.
pub struct InternedModel {
    pub words: InternedLayer,
    pub syllables: InternedLayer,
    pub tccs: InternedLayer,
}

/// The vocabulary of an interned layer as character sequences.
pub open spec fn vocab_view(r: &InternedLayer) -> Seq<Seq<char>> {
    r.vocab@.map_values(|s: String| s@)
}

/// Index of the first `c` in `s`, or -1.
pub open spec fn first_index(s: Seq<char>, c: char) -> int
    decreases s.len(),
{
    if s.len() == 0 {
        -1
    } else if s[0] == c {
        0
    } else {
        let r = first_index(s.drop_first(), c);
        if r < 0 {
            -1
        } else {
            r + 1
        }
    }
}

/// `first_index` is the first occurrence's index.
pub proof fn lemma_first_index(s: Seq<char>, c: char, j: int)
    requires
        0 <= j <= s.len(),
        forall|k: int| 0 <= k < j ==> s[k] != c,
    ensures
        j < s.len() && s[j] == c ==> first_index(s, c) == j,
        j == s.len() ==> first_index(s, c) == -1,
    decreases j,
{
    if j > 0 {
        lemma_first_index(s.drop_first(), c, j - 1);
    }
}

/// The two tokens of a bigram key `w1 \t w2`, split at its first tab.
pub open spec fn bigram_parts(key: Seq<char>) -> (Seq<char>, Seq<char>) {
    let t = first_index(key, '\t');
    (key.subrange(0, t), key.subrange(t + 1, key.len() as int))
}

/// The tokens in first-appearance order, each once.
pub open spec fn dedup(s: Seq<Seq<char>>) -> Seq<Seq<char>>
    decreases s.len(),
{
    if s.len() == 0 {
        seq![]
    } else {
        let d = dedup(s.drop_last());
        if d.contains(s.last()) {
            d
        } else {
            d.push(s.last())
        }
    }
}

/// The tokens of a layer in interning order: unigram keys, then each bigram's two tokens.
pub open spec fn layer_tokens(uni: Seq<Seq<char>>, bi: Seq<Seq<char>>) -> Seq<Seq<char>>
    decreases bi.len(),
{
    if bi.len() == 0 {
        uni
    } else {
        let p = bigram_parts(bi.last());
        layer_tokens(uni, bi.drop_last()).push(p.0).push(p.1)
    }
}

/// Position of `w` in `v` (its id), for a `w` that occurs.
pub open spec fn id_in(v: Seq<Seq<char>>, w: Seq<char>) -> int {
    choose|i: int| 0 <= i < v.len() && v[i] == w
}

/// No token repeats.
pub open spec fn distinct(v: Seq<Seq<char>>) -> bool {
    forall|a: int, b: int| 0 <= a < v.len() && 0 <= b < v.len() && a != b ==> #[trigger] v[a] != #[trigger] v[b]
}

/// The token's id under interning: a token already in the vocabulary keeps its id and
/// nothing changes; a new token gets the next id, is appended to the vocabulary and mapped to
/// that id. Either way the vocabulary stays free of repeats, the map stays consistent with it
/// (it holds exactly the vocabulary's tokens, each mapped to its position), and the token sits
/// at the returned id.
pub fn id(tok: &Vec<char>, id_of: &mut DictTrie, vocab: &mut Vec<String>) -> (r: u32)
    requires
        old(id_of).wf(),
        old(vocab).len() < u32::MAX,
        old(id_of).size() + tok.len() <= u32::MAX,
        distinct(old(vocab)@.map_values(|s: String| s@)),
        forall|w: Seq<char>| #[trigger] old(id_of)@.contains_key(w) <==> old(vocab)@.map_values(|s: String| s@).contains(w),
        forall|w: Seq<char>| old(id_of)@.contains_key(w) ==> #[trigger] old(id_of)@[w] < old(vocab).len() && old(vocab)@[old(id_of)@[w] as int]@ == w,
    ensures
        final(id_of).wf(),
        final(id_of).size() <= old(id_of).size() + tok.len(),
        final(vocab)@.map_values(|s: String| s@) == (if old(vocab)@.map_values(|s: String| s@).contains(tok@) {
            old(vocab)@.map_values(|s: String| s@)
        } else {
            old(vocab)@.map_values(|s: String| s@).push(tok@)
        }),
        distinct(final(vocab)@.map_values(|s: String| s@)),
        forall|w: Seq<char>| #[trigger] final(id_of)@.contains_key(w) <==> final(vocab)@.map_values(|s: String| s@).contains(w),
        forall|w: Seq<char>| final(id_of)@.contains_key(w) ==> #[trigger] final(id_of)@[w] < final(vocab).len() && final(vocab)@[final(id_of)@[w] as int]@ == w,
        r < final(vocab).len(),
        final(vocab)@[r as int]@ == tok@,
        old(id_of)@.contains_key(tok@) ==> r == old(id_of)@[tok@] && final(id_of)@ == old(id_of)@,
        !old(id_of)@.contains_key(tok@) ==> r == old(vocab).len() && final(id_of)@ == old(id_of)@.insert(tok@, r as usize),
{
    let ghost v0 = vocab@.map_values(|s: String| s@);
    match id_of.get(tok.as_slice()) {
        Some(i) => {
            proof {
                assert(v0.contains(tok@));
            }
            i as u32
        },
        None => {
            let i = vocab.len();
            vocab.push(string_from_chars(tok.as_slice()));
            id_of.insert(tok.as_slice(), i);
            proof {
                let v1 = vocab@.map_values(|s: String| s@);
                assert(!v0.contains(tok@));
                assert(v1 =~= v0.push(tok@));
                assert forall|a: int, b: int| 0 <= a < v1.len() && 0 <= b < v1.len() && a != b implies #[trigger] v1[a] != #[trigger] v1[b] by {
                    if a < v0.len() && b < v0.len() {
                        assert(v1[a] == v0[a] && v1[b] == v0[b]);
                    } else if a == v0.len() {
                        assert(v1[b] == v0[b]);
                    } else {
                        assert(v1[a] == v0[a]);
                    }
                }
                assert forall|w: Seq<char>| #[trigger] id_of@.contains_key(w) <==> v1.contains(w) by {
                    if w == tok@ {
                        assert(v1[i as int] == w);
                    } else {
                        if v1.contains(w) {
                            let k = choose|k: int| 0 <= k < v1.len() && v1[k] == w;
                            assert(v0[k] == w);
                        }
                        if v0.contains(w) {
                            let k = choose|k: int| 0 <= k < v0.len() && v0[k] == w;
                            assert(v1[k] == w);
                        }
                    }
                }
                assert forall|w: Seq<char>| id_of@.contains_key(w) implies #[trigger] id_of@[w] < vocab.len() && vocab@[id_of@[w] as int]@ == w by {
                    if w != tok@ {
                        assert(vocab@[id_of@[w] as int] == old(vocab)@[id_of@[w] as int]);
                    }
                }
            }
            i as u32
        },
    }
}


/// Total characters of the unigram keys.
pub open spec fn uni_chars(u: Seq<(String, (usize, usize))>) -> nat
    decreases u.len(),
{
    if u.len() == 0 {
        0
    } else {
        uni_chars(u.drop_last()) + u.last().0@.len()
    }
}

/// Total characters of the bigram keys.
pub open spec fn bi_chars(b: Seq<(String, usize)>) -> nat
    decreases b.len(),
{
    if b.len() == 0 {
        0
    } else {
        bi_chars(b.drop_last()) + b.last().0@.len()
    }
}

/// Every bigram key holds a tab.
pub open spec fn keys_have_tab(b: Seq<(String, usize)>) -> bool {
    forall|k: int| 0 <= k < b.len() ==> first_index((#[trigger] b[k]).0@, '\t') >= 0
}

/// The unigram keys.
pub open spec fn uni_keys(u: Seq<(String, (usize, usize))>) -> Seq<Seq<char>> {
    u.map_values(|e: (String, (usize, usize))| e.0@)
}

/// The bigram keys.
pub open spec fn bi_keys(b: Seq<(String, usize)>) -> Seq<Seq<char>> {
    b.map_values(|e: (String, usize)| e.0@)
}

/// `first_index` is -1 or the index of an occurrence.
pub proof fn lemma_first_index_bound(s: Seq<char>, c: char)
    ensures
        -1 <= first_index(s, c) < s.len(),
        first_index(s, c) >= 0 ==> s[first_index(s, c)] == c,
    decreases s.len(),
{
    if s.len() > 0 && s[0] != c {
        lemma_first_index_bound(s.drop_first(), c);
        let r = first_index(s.drop_first(), c);
        if r >= 0 {
            assert(s.drop_first()[r] == s[r + 1]);
        }
    }
}

/// Splits a bigram key at its first tab.
fn split_key(key: &String) -> (r: (Vec<char>, Vec<char>))
    requires
        first_index(key@, '\t') >= 0,
    ensures
        r.0@ == bigram_parts(key@).0,
        r.1@ == bigram_parts(key@).1,
        r.0.len() + r.1.len() < key@.len(),
{
    let cs = chars_of(key.as_str());
    let mut t: usize = 0;
    while t < cs.len() && cs[t] != '\t'
        invariant
            cs@ == key@,
            t <= cs.len(),
            forall|k: int| 0 <= k < t ==> cs@[k] != '\t',
            first_index(key@, '\t') >= 0,
        decreases cs.len() - t,
    {
        t += 1;
    }
    proof {
        lemma_first_index(key@, '\t', t as int);
    }
    let mut a: Vec<char> = Vec::new();
    let mut i: usize = 0;
    while i < t
        invariant
            t < cs.len(),
            i <= t,
            a@ == cs@.subrange(0, i as int),
        decreases t - i,
    {
        a.push(cs[i]);
        i += 1;
        assert(a@ =~= cs@.subrange(0, i as int));
    }
    let mut b: Vec<char> = Vec::new();
    let mut j: usize = t + 1;
    while j < cs.len()
        invariant
            t < cs.len(),
            t + 1 <= j <= cs.len(),
            b@ == cs@.subrange(t + 1, j as int),
        decreases cs.len() - j,
    {
        b.push(cs[j]);
        j += 1;
        assert(b@ =~= cs@.subrange(t + 1, j as int));
    }
    (a, b)
}

/// `r` is the interning of `layer`: its vocabulary is the layer's tokens in first-appearance
/// order (unigram keys first, then the two tokens of each bigram key), its unigram table is
/// dense and indexed by id (`(0, 0)` for bigram-only tokens), and each bigram is stored as
/// `(id(w1) << 32 | id(w2), count)` in the layer's order.
pub open spec fn is_interning(layer: &LayerCounts, r: &InternedLayer) -> bool {
    &&& vocab_view(r) == dedup(layer_tokens(uni_keys(layer.unigrams@), bi_keys(layer.bigrams@)))
    &&& r.unigrams.len() == r.vocab.len()
    &&& forall|k: int| 0 <= k < layer.unigrams.len() ==> #[trigger] r.unigrams@[id_in(vocab_view(r), layer.unigrams@[k].0@)] == (layer.unigrams@[k].1.0 as u32, layer.unigrams@[k].1.1 as u32)
    &&& forall|i: int| 0 <= i < r.vocab.len() && !uni_keys(layer.unigrams@).contains(#[trigger] vocab_view(r)[i]) ==> r.unigrams@[i] == (0u32, 0u32)
    &&& r.bigrams.len() == layer.bigrams.len()
    &&& forall|k: int| 0 <= k < r.bigrams.len() ==> #[trigger] r.bigrams@[k] == ((((id_in(vocab_view(r), bigram_parts(layer.bigrams@[k].0@).0) as u64) << 32u64) | (id_in(vocab_view(r), bigram_parts(layer.bigrams@[k].0@).1) as u64)), layer.bigrams@[k].1 as u32)
}

/// Lossless re-encode of one layer: dense ids (unigram tokens first, in order, then tokens
/// first seen in bigrams), bigram keys packed to `w1_id << 32 | w2_id`, and a dense unigram
/// table indexed by id (`(0, 0)` for bigram-only tokens). Counts are stored as `u32`.
#[verifier::spinoff_prover]
pub fn intern_layer(layer: &LayerCounts) -> (r: InternedLayer)
    requires
        keys_have_tab(layer.bigrams@),
        distinct(uni_keys(layer.unigrams@)),
        uni_chars(layer.unigrams@) + bi_chars(layer.bigrams@) + 1 <= u32::MAX,
        layer.unigrams.len() + 2 * layer.bigrams.len() < u32::MAX,
    ensures
        is_interning(layer, &r),
{
    let ghost uk = uni_keys(layer.unigrams@);
    let ghost bk = bi_keys(layer.bigrams@);
    let mut id_of = DictTrie::new();
    let mut vocab: Vec<String> = Vec::new();
    proof {
        assert(uk.take(0) =~= Seq::<Seq<char>>::empty());
        assert(layer.unigrams@.take(0) =~= Seq::<(String, (usize, usize))>::empty());
        assert(vocab@.map_values(|s: String| s@) =~= Seq::<Seq<char>>::empty());
    }
    // Unigram tokens first, in order.
    let mut i: usize = 0;
    while i < layer.unigrams.len()
        invariant
            uk == uni_keys(layer.unigrams@),
            uni_chars(layer.unigrams@) + bi_chars(layer.bigrams@) + 1 <= u32::MAX,
            layer.unigrams.len() + 2 * layer.bigrams.len() < u32::MAX,
            i <= layer.unigrams.len(),
            id_of.wf(),
            id_of.size() <= 1 + uni_chars(layer.unigrams@.take(i as int)),
            vocab.len() <= i,
            vocab@.map_values(|s: String| s@) == dedup(uk.take(i as int)),
            distinct(vocab@.map_values(|s: String| s@)),
            forall|w: Seq<char>| #[trigger] id_of@.contains_key(w) <==> vocab@.map_values(|s: String| s@).contains(w),
            forall|w: Seq<char>| id_of@.contains_key(w) ==> #[trigger] id_of@[w] < vocab.len() && vocab@[id_of@[w] as int]@ == w,
        decreases layer.unigrams.len() - i,
    {
        let key = chars_of(layer.unigrams[i].0.as_str());
        proof {
            lemma_uni_chars_take(layer.unigrams@, i as int);
            assert(uk.take(i as int + 1).drop_last() =~= uk.take(i as int));
            assert(uk.take(i as int + 1).last() == key@);
        }
        let ghost lv = vocab.len();
        id(&key, &mut id_of, &mut vocab);
        proof {
            assert(vocab@.map_values(|s: String| s@).len() == vocab.len());
            assert(vocab.len() <= lv + 1);
        }
        i += 1;
    }
    assert(uk.take(layer.unigrams.len() as int) =~= uk);
    assert(layer.unigrams@.take(layer.unigrams.len() as int) =~= layer.unigrams@);
    // Then bigram tokens, packing each key.
    let mut bigrams: Vec<(u64, u32)> = Vec::new();
    let mut k: usize = 0;
    proof {
        assert(bk.take(0) =~= Seq::<Seq<char>>::empty());
        assert(layer.bigrams@.take(0) =~= Seq::<(String, usize)>::empty());
    }
    while k < layer.bigrams.len()
        invariant
            uk == uni_keys(layer.unigrams@),
            bk == bi_keys(layer.bigrams@),
            keys_have_tab(layer.bigrams@),
            uni_chars(layer.unigrams@) + bi_chars(layer.bigrams@) + 1 <= u32::MAX,
            layer.unigrams.len() + 2 * layer.bigrams.len() < u32::MAX,
            k <= layer.bigrams.len(),
            id_of.wf(),
            id_of.size() <= 1 + uni_chars(layer.unigrams@) + bi_chars(layer.bigrams@.take(k as int)),
            vocab.len() <= layer.unigrams.len() + 2 * k,
            vocab@.map_values(|s: String| s@) == dedup(layer_tokens(uk, bk.take(k as int))),
            distinct(vocab@.map_values(|s: String| s@)),
            forall|w: Seq<char>| #[trigger] id_of@.contains_key(w) <==> vocab@.map_values(|s: String| s@).contains(w),
            forall|w: Seq<char>| id_of@.contains_key(w) ==> #[trigger] id_of@[w] < vocab.len() && vocab@[id_of@[w] as int]@ == w,
            bigrams.len() == k,
            forall|x: int| 0 <= x < k ==> #[trigger] bigrams@[x] == ((((id_in(vocab@.map_values(|s: String| s@), bigram_parts(layer.bigrams@[x].0@).0) as u64) << 32u64) | (id_in(vocab@.map_values(|s: String| s@), bigram_parts(layer.bigrams@[x].0@).1) as u64)), layer.bigrams@[x].1 as u32),
            forall|x: int| 0 <= x < k ==> vocab@.map_values(|s: String| s@).contains(#[trigger] bigram_parts(layer.bigrams@[x].0@).0) && vocab@.map_values(|s: String| s@).contains(bigram_parts(layer.bigrams@[x].0@).1),
        decreases layer.bigrams.len() - k,
    {
        proof {
            lemma_bi_chars_take(layer.bigrams@, k as int);
            assert(keys_have_tab(layer.bigrams@));
            assert(first_index(layer.bigrams@[k as int].0@, '\t') >= 0);
        }
        let (w1, w2) = split_key(&layer.bigrams[k].0);
        let ghost v0 = vocab@.map_values(|s: String| s@);
        let i1 = id(&w1, &mut id_of, &mut vocab);
        let ghost v1 = vocab@.map_values(|s: String| s@);
        proof {
            assert(v1.len() == vocab.len());
            assert(v0.len() <= layer.unigrams.len() + 2 * k);
        }
        let i2 = id(&w2, &mut id_of, &mut vocab);
        let ghost v2 = vocab@.map_values(|s: String| s@);
        let packed_key = ((i1 as u64) << 32u64) | (i2 as u64);
        bigrams.push((packed_key, layer.bigrams[k].1 as u32));
        proof {
            assert(bk.take(k as int + 1).drop_last() =~= bk.take(k as int));
            assert(bk.take(k as int + 1).last() == layer.bigrams@[k as int].0@);
            let t0 = layer_tokens(uk, bk.take(k as int));
            assert(t0.push(w1@).drop_last() =~= t0);
            assert(t0.push(w1@).push(w2@).drop_last() =~= t0.push(w1@));
            assert(dedup(t0.push(w1@)) == v1);
            assert(v2.len() == vocab.len());
            assert(layer_tokens(uk, bk.take(k as int + 1)) == layer_tokens(uk, bk.take(k as int)).push(w1@).push(w2@));
            lemma_id_in_unique(v2, i1 as int, w1@);
            lemma_id_in_unique(v2, i2 as int, w2@);
            assert forall|x: int| 0 <= x < k + 1 implies vocab@.map_values(|s: String| s@).contains(#[trigger] bigram_parts(layer.bigrams@[x].0@).0) && vocab@.map_values(|s: String| s@).contains(bigram_parts(layer.bigrams@[x].0@).1) by {
                if x < k {
                    lemma_contains_grows(v0, v2, bigram_parts(layer.bigrams@[x].0@).0);
                    lemma_contains_grows(v0, v2, bigram_parts(layer.bigrams@[x].0@).1);
                } else {
                    assert(v2[i1 as int] == w1@ && v2[i2 as int] == w2@);
                }
            }
            assert forall|x: int| 0 <= x < k + 1 implies #[trigger] bigrams@[x] == ((((id_in(v2, bigram_parts(layer.bigrams@[x].0@).0) as u64) << 32u64) | (id_in(v2, bigram_parts(layer.bigrams@[x].0@).1) as u64)), layer.bigrams@[x].1 as u32) by {
                if x < k {
                    let a = bigram_parts(layer.bigrams@[x].0@).0;
                    let b = bigram_parts(layer.bigrams@[x].0@).1;
                    lemma_id_stable(v0, v2, a);
                    lemma_id_stable(v0, v2, b);
                }
            }
        }
        k += 1;
    }
    assert(bk.take(layer.bigrams.len() as int) =~= bk);
    // Dense unigram table indexed by id.
    let mut unigrams: Vec<(u32, u32)> = Vec::new();
    let mut x: usize = 0;
    while x < vocab.len()
        invariant
            x <= vocab.len(),
            unigrams.len() == x,
            forall|y: int| 0 <= y < x ==> #[trigger] unigrams@[y] == (0u32, 0u32),
        decreases vocab.len() - x,
    {
        unigrams.push((0u32, 0u32));
        x += 1;
    }
    let ghost v = vocab@.map_values(|s: String| s@);
    proof {
        assert forall|q: int| 0 <= q < uk.len() implies #[trigger] layer_tokens(uk, bk)[q] == uk[q] by {
            lemma_layer_tokens_prefix(uk, bk, q);
        }
        if uk.len() > 0 {
            lemma_layer_tokens_prefix(uk, bk, 0);
        } else {
            lemma_layer_tokens_len(uk, bk);
        }
        lemma_uni_keys_in_vocab(uk, layer_tokens(uk, bk), v);
    }
    let mut j: usize = 0;
    while j < layer.unigrams.len()
        invariant
            uk == uni_keys(layer.unigrams@),
            distinct(uk),
            v == vocab@.map_values(|s: String| s@),
            distinct(v),
            id_of.wf(),
            forall|w: Seq<char>| #[trigger] id_of@.contains_key(w) <==> v.contains(w),
            forall|w: Seq<char>| id_of@.contains_key(w) ==> #[trigger] id_of@[w] < vocab.len() && vocab@[id_of@[w] as int]@ == w,
            forall|q: int| 0 <= q < uk.len() ==> v.contains(#[trigger] uk[q]),
            unigrams.len() == v.len(),
            j <= layer.unigrams.len(),
            forall|q: int| 0 <= q < j ==> #[trigger] unigrams@[id_in(v, uk[q])] == (layer.unigrams@[q].1.0 as u32, layer.unigrams@[q].1.1 as u32),
            forall|y: int| 0 <= y < v.len() && (forall|q: int| 0 <= q < j ==> #[trigger] uk[q] != v[y]) ==> unigrams@[y] == (0u32, 0u32),
        decreases layer.unigrams.len() - j,
    {
        let key = chars_of(layer.unigrams[j].0.as_str());
        proof {
            assert(key@ == uk[j as int]);
            assert(v.contains(uk[j as int]));
        }
        let slot = id_of.get(key.as_slice()).unwrap();
        proof {
            lemma_id_in_unique(v, slot as int, key@);
        }
        let ghost old_u = unigrams@;
        unigrams.set(slot, (layer.unigrams[j].1.0 as u32, layer.unigrams[j].1.1 as u32));
        proof {
            assert forall|q: int| 0 <= q < j + 1 implies #[trigger] unigrams@[id_in(v, uk[q])] == (layer.unigrams@[q].1.0 as u32, layer.unigrams@[q].1.1 as u32) by {
                if q < j {
                    let iq = choose|i: int| 0 <= i < v.len() && v[i] == uk[q];
                    assert(v.contains(uk[q]));
                    lemma_id_in_unique(v, iq, uk[q]);
                    assert(uk[q] != uk[j as int]);
                    assert(id_in(v, uk[q]) != slot);
                }
            }
            assert forall|y: int| 0 <= y < v.len() && (forall|q: int| 0 <= q < j + 1 ==> #[trigger] uk[q] != v[y]) implies unigrams@[y] == (0u32, 0u32) by {
                assert(uk[j as int] != v[y]);
                assert(y != slot);
            }
        }
        j += 1;
    }
    proof {
        assert forall|k: int| 0 <= k < layer.unigrams.len() implies #[trigger] unigrams@[id_in(v, layer.unigrams@[k].0@)] == (layer.unigrams@[k].1.0 as u32, layer.unigrams@[k].1.1 as u32) by {
            assert(uk[k] == layer.unigrams@[k].0@);
        }
        assert forall|i: int| 0 <= i < v.len() && !uk.contains(#[trigger] v[i]) implies unigrams@[i] == (0u32, 0u32) by {
            assert forall|q: int| 0 <= q < layer.unigrams.len() implies #[trigger] uk[q] != v[i] by {
                if uk[q] == v[i] {
                    assert(uk.contains(v[i]));
                }
            }
        }
    }
    InternedLayer { vocab, unigrams, bigrams }
}

/// In a sequence without repeats, the position of an element is its id.
pub proof fn lemma_id_in_unique(v: Seq<Seq<char>>, i: int, w: Seq<char>)
    requires
        distinct(v),
        0 <= i < v.len(),
        v[i] == w,
    ensures
        id_in(v, w) == i,
{
    let j = id_in(v, w);
    if j != i {
        assert(v[j] != v[i]);
    }
}

/// Extending a repeat-free sequence keeps the ids of its elements.
proof fn lemma_id_stable(v: Seq<Seq<char>>, u: Seq<Seq<char>>, w: Seq<char>)
    requires
        distinct(u),
        v.len() <= u.len(),
        forall|i: int| 0 <= i < v.len() ==> #[trigger] u[i] == v[i],
        v.contains(w),
        distinct(v),
    ensures
        id_in(u, w) == id_in(v, w),
{
    let i = choose|i: int| 0 <= i < v.len() && v[i] == w;
    lemma_id_in_unique(v, i, w);
    lemma_id_in_unique(u, i, w);
}

/// An element of a sequence is still one after it is extended.
proof fn lemma_contains_grows(v: Seq<Seq<char>>, u: Seq<Seq<char>>, w: Seq<char>)
    requires
        v.len() <= u.len(),
        forall|i: int| 0 <= i < v.len() ==> #[trigger] u[i] == v[i],
        v.contains(w),
    ensures
        u.contains(w),
{
    let i = choose|i: int| 0 <= i < v.len() && v[i] == w;
    assert(u[i] == w);
}

/// Every element of `s` is in `dedup(s)`.
pub proof fn lemma_dedup_contains(s: Seq<Seq<char>>, w: Seq<char>)
    requires
        s.contains(w),
    ensures
        dedup(s).contains(w),
    decreases s.len(),
{
    let d = s.drop_last();
    if w == s.last() {
        if !dedup(d).contains(w) {
            assert(dedup(s).last() == w);
        }
    } else {
        let i = choose|i: int| 0 <= i < s.len() && s[i] == w;
        assert(d[i] == w);
        lemma_dedup_contains(d, w);
        let j = choose|j: int| 0 <= j < dedup(d).len() && dedup(d)[j] == w;
        if !dedup(d).contains(s.last()) {
            assert(dedup(s)[j] == w);
        }
    }
}

/// The unigram keys lead the layer's tokens.
pub proof fn lemma_layer_tokens_prefix(uk: Seq<Seq<char>>, bk: Seq<Seq<char>>, q: int)
    requires
        0 <= q < uk.len(),
    ensures
        layer_tokens(uk, bk).len() >= uk.len(),
        layer_tokens(uk, bk)[q] == uk[q],
    decreases bk.len(),
{
    if bk.len() > 0 {
        lemma_layer_tokens_prefix(uk, bk.drop_last(), q);
    }
}

proof fn lemma_layer_tokens_len(uk: Seq<Seq<char>>, bk: Seq<Seq<char>>)
    ensures
        layer_tokens(uk, bk).len() >= uk.len(),
    decreases bk.len(),
{
    if bk.len() > 0 {
        lemma_layer_tokens_len(uk, bk.drop_last());
    }
}

/// Deduplicating leaves no repeats.
pub proof fn lemma_dedup_distinct(s: Seq<Seq<char>>)
    ensures
        distinct(dedup(s)),
    decreases s.len(),
{
    if s.len() > 0 {
        let d = dedup(s.drop_last());
        lemma_dedup_distinct(s.drop_last());
        if !d.contains(s.last()) {
            let e = d.push(s.last());
            assert forall|a: int, b: int| 0 <= a < e.len() && 0 <= b < e.len() && a != b implies #[trigger] e[a] != #[trigger] e[b] by {
                if a < d.len() && b < d.len() {
                    assert(e[a] == d[a] && e[b] == d[b]);
                } else if a == d.len() {
                    assert(e[b] == d[b]);
                    assert(!d.contains(s.last()));
                } else {
                    assert(e[a] == d[a]);
                    assert(!d.contains(s.last()));
                }
            }
        }
    }
}

/// Every unigram key is in the deduplicated vocabulary.
proof fn lemma_uni_keys_in_vocab(uk: Seq<Seq<char>>, toks: Seq<Seq<char>>, v: Seq<Seq<char>>)
    requires
        toks.len() >= uk.len(),
        forall|q: int| 0 <= q < uk.len() ==> #[trigger] toks[q] == uk[q],
        v == dedup(toks),
    ensures
        forall|q: int| 0 <= q < uk.len() ==> v.contains(#[trigger] uk[q]),
{
    assert forall|q: int| 0 <= q < uk.len() implies v.contains(#[trigger] uk[q]) by {
        assert(toks[q] == uk[q]);
        lemma_dedup_contains(toks, uk[q]);
    }
}

proof fn lemma_uni_chars_take(u: Seq<(String, (usize, usize))>, i: int)
    requires
        0 <= i < u.len(),
    ensures
        uni_chars(u.take(i + 1)) == uni_chars(u.take(i)) + u[i].0@.len(),
        uni_chars(u.take(i + 1)) <= uni_chars(u),
    decreases u.len() - i,
{
    assert(u.take(i + 1).drop_last() =~= u.take(i));
    if i + 1 < u.len() {
        lemma_uni_chars_take(u, i + 1);
    } else {
        assert(u.take(i + 1) =~= u);
    }
}

proof fn lemma_bi_chars_take(b: Seq<(String, usize)>, i: int)
    requires
        0 <= i < b.len(),
    ensures
        bi_chars(b.take(i + 1)) == bi_chars(b.take(i)) + b[i].0@.len(),
        bi_chars(b.take(i + 1)) <= bi_chars(b),
    decreases b.len() - i,
{
    assert(b.take(i + 1).drop_last() =~= b.take(i));
    if i + 1 < b.len() {
        lemma_bi_chars_take(b, i + 1);
    } else {
        assert(b.take(i + 1) =~= b);
    }
}

/// Interning is lossless: every unigram key sits in the vocabulary at the id under which its
/// counts are stored, and each stored bigram gives its key back — the token at the high 32 bits
/// of the packed key, a tab, and the token at the low 32 bits — with its count. (Counts are
/// kept as `u32`.)
pub proof fn lemma_interning_lossless(layer: &LayerCounts, r: &InternedLayer)
    requires
        interned_ok(layer),
        is_interning(layer, r),
    ensures
        forall|k: int| 0 <= k < layer.unigrams.len() ==> {
            let i = #[trigger] id_in(vocab_view(r), layer.unigrams@[k].0@);
            &&& 0 <= i < r.vocab.len()
            &&& r.vocab@[i]@ == layer.unigrams@[k].0@
            &&& r.unigrams@[i] == (layer.unigrams@[k].1.0 as u32, layer.unigrams@[k].1.1 as u32)
        },
        forall|k: int| 0 <= k < layer.bigrams.len() ==> {
            let p = (#[trigger] r.bigrams@[k]).0;
            &&& (p >> 32u64) < r.vocab.len()
            &&& (p & 0xFFFF_FFFFu64) < r.vocab.len()
            &&& r.vocab@[(p >> 32u64) as int]@ + seq!['\t'] + r.vocab@[(p & 0xFFFF_FFFFu64) as int]@ == layer.bigrams@[k].0@
            &&& r.bigrams@[k].1 == layer.bigrams@[k].1 as u32
        },
{
    let v = vocab_view(r);
    let uk = uni_keys(layer.unigrams@);
    let bk = bi_keys(layer.bigrams@);
    let toks = layer_tokens(uk, bk);
    lemma_layer_tokens_len_exact(uk, bk);
    lemma_dedup_len(toks);
    assert forall|k: int| 0 <= k < layer.unigrams.len() implies {
        let i = #[trigger] id_in(v, layer.unigrams@[k].0@);
        &&& 0 <= i < r.vocab.len()
        &&& r.vocab@[i]@ == layer.unigrams@[k].0@
        &&& r.unigrams@[i] == (layer.unigrams@[k].1.0 as u32, layer.unigrams@[k].1.1 as u32)
    } by {
        assert(uk[k] == layer.unigrams@[k].0@);
        lemma_layer_tokens_prefix(uk, bk, k);
        assert(toks.contains(uk[k]));
        lemma_dedup_contains(toks, uk[k]);
    }
    assert forall|k: int| 0 <= k < layer.bigrams.len() implies {
        let p = (#[trigger] r.bigrams@[k]).0;
        &&& (p >> 32u64) < r.vocab.len()
        &&& (p & 0xFFFF_FFFFu64) < r.vocab.len()
        &&& r.vocab@[(p >> 32u64) as int]@ + seq!['\t'] + r.vocab@[(p & 0xFFFF_FFFFu64) as int]@ == layer.bigrams@[k].0@
        &&& r.bigrams@[k].1 == layer.bigrams@[k].1 as u32
    } by {
        let key = layer.bigrams@[k].0@;
        assert(bk[k] == key);
        let parts = bigram_parts(key);
        lemma_layer_tokens_has_parts(uk, bk, k);
        lemma_dedup_contains(toks, parts.0);
        lemma_dedup_contains(toks, parts.1);
        let a = id_in(v, parts.0);
        let b = id_in(v, parts.1);
        assert(0 <= a < v.len() && v[a] == parts.0);
        assert(0 <= b < v.len() && v[b] == parts.1);
        let a64 = a as u64;
        let b64 = b as u64;
        assert(a64 < 0x1_0000_0000u64 && b64 < 0x1_0000_0000u64 ==> (((a64 << 32u64) | b64) >> 32u64) == a64
            && (((a64 << 32u64) | b64) & 0xFFFF_FFFFu64) == b64) by (bit_vector);
        assert(layer.bigrams@[k] == layer.bigrams@[k]);
        assert(keys_have_tab(layer.bigrams@));
        assert(first_index(layer.bigrams@[k].0@, '\t') >= 0);
        lemma_key_split(key);
    }
}

/// A key with a tab is its two parts joined by that tab.
pub proof fn lemma_key_split(key: Seq<char>)
    requires
        first_index(key, '\t') >= 0,
    ensures
        bigram_parts(key).0 + seq!['\t'] + bigram_parts(key).1 == key,
{
    lemma_first_index_bound(key, '\t');
    let t = first_index(key, '\t');
    assert(bigram_parts(key).0 + seq!['\t'] + bigram_parts(key).1 =~= key);
}

/// Deduplicating never lengthens a sequence.
pub proof fn lemma_dedup_len(s: Seq<Seq<char>>)
    ensures
        dedup(s).len() <= s.len(),
    decreases s.len(),
{
    if s.len() > 0 {
        lemma_dedup_len(s.drop_last());
    }
}

/// A layer's token list holds its unigram keys and two tokens per bigram key.
pub proof fn lemma_layer_tokens_len_exact(uk: Seq<Seq<char>>, bk: Seq<Seq<char>>)
    ensures
        layer_tokens(uk, bk).len() == uk.len() + 2 * bk.len(),
    decreases bk.len(),
{
    if bk.len() > 0 {
        lemma_layer_tokens_len_exact(uk, bk.drop_last());
    }
}

/// Both tokens of every bigram key are among the layer's tokens.
pub proof fn lemma_layer_tokens_has_parts(uk: Seq<Seq<char>>, bk: Seq<Seq<char>>, k: int)
    requires
        0 <= k < bk.len(),
    ensures
        layer_tokens(uk, bk).contains(bigram_parts(bk[k]).0),
        layer_tokens(uk, bk).contains(bigram_parts(bk[k]).1),
    decreases bk.len(),
{
    let t = layer_tokens(uk, bk);
    let d = layer_tokens(uk, bk.drop_last());
    if k == bk.len() - 1 {
        assert(t[t.len() - 2] == bigram_parts(bk[k]).0);
        assert(t[t.len() - 1] == bigram_parts(bk[k]).1);
    } else {
        lemma_layer_tokens_has_parts(uk, bk.drop_last(), k);
        assert(bk.drop_last()[k] == bk[k]);
        let i = choose|i: int| 0 <= i < d.len() && d[i] == bigram_parts(bk[k]).0;
        let j = choose|j: int| 0 <= j < d.len() && d[j] == bigram_parts(bk[k]).1;
        assert(t[i] == d[i]);
        assert(t[j] == d[j]);
    }
}

/// The entry a unigram count line gives, if it parses: `token \t count \t contexts` (a
/// trailing carriage return dropped, further fields ignored), both numbers unsigned decimals.
pub open spec fn unigram_entry(line: Seq<char>) -> Option<(Seq<char>, (usize, usize))> {
    let f = split_on(strip_cr(line), '\t');
    if f.len() >= 3 {
        match (parse_unsigned(f[1], usize::MAX as nat), parse_unsigned(f[2], usize::MAX as nat)) {
            (Some(c), Some(p)) => Some((f[0], (c as usize, p as usize))),
            _ => None,
        }
    } else {
        None
    }
}

/// The entry a bigram count line gives, if it parses: `w1 \t w2 \t count`, keyed
/// `w1 \t w2`.
pub open spec fn bigram_entry(line: Seq<char>) -> Option<(Seq<char>, usize)> {
    let f = split_on(strip_cr(line), '\t');
    if f.len() >= 3 {
        match parse_unsigned(f[2], usize::MAX as nat) {
            Some(c) => Some((f[0] + seq!['\t'] + f[1], c as usize)),
            None => None,
        }
    } else {
        None
    }
}

/// The unigram table of the lines: each parsed line stored under its token, a later line
/// replacing an earlier one for the same token.
pub open spec fn unigram_table(lines: Seq<Seq<char>>) -> Map<Seq<char>, (usize, usize)>
    decreases lines.len(),
{
    if lines.len() == 0 {
        Map::empty()
    } else {
        let m = unigram_table(lines.drop_last());
        match unigram_entry(lines.last()) {
            Some(e) => m.insert(e.0, e.1),
            None => m,
        }
    }
}

/// The bigram table of the lines, a later line replacing an earlier one for the same pair.
pub open spec fn bigram_table(lines: Seq<Seq<char>>) -> Map<Seq<char>, usize>
    decreases lines.len(),
{
    if lines.len() == 0 {
        Map::empty()
    } else {
        let m = bigram_table(lines.drop_last());
        match bigram_entry(lines.last()) {
            Some(e) => m.insert(e.0, e.1),
            None => m,
        }
    }
}

/// Parses a unigram count file (`token \t count \t preceding_contexts` per line, split on
/// `'\n'` without trimming: the space token is significant). Lines that do not parse are
/// skipped; a repeated token keeps its last line.
pub fn parse_unigrams(text: &str) -> (r: Vec<(String, (usize, usize))>)
    requires
        text@.len() < u32::MAX,
    ensures
        distinct_keys(r@),
        entries_map(r@) == unigram_table(split_on(text@, '\n')),
{
    let cs = chars_of(text);
    let lines = split_char(&cs, '\n');
    let ghost ls = split_on(text@, '\n');
    let mut table: KeyedTable<(usize, usize)> = KeyedTable::new();
    let mut i: usize = 0;
    proof {
        lemma_split_len(text@, '\n');
        assert(ls.take(0) =~= Seq::<Seq<char>>::empty());
    }
    while i < lines.len()
        invariant
            ls == split_on(text@, '\n'),
            lines@.map_values(|f: Vec<char>| f@) == ls,
            total_len(ls) <= text@.len() + 1,
            text@.len() < u32::MAX,
            i <= lines.len(),
            table.wf(),
            table.size() <= 1 + total_len(ls.take(i as int)),
            table@ == unigram_table(ls.take(i as int)),
        decreases lines.len() - i,
    {
        proof {
            lemma_total_len_take(ls, i as int);
            assert(ls.take(i + 1).drop_last() =~= ls.take(i as int));
            assert(ls.take(i + 1).last() == ls[i as int]);
            assert(lines@[i as int]@ == ls[i as int]);
        }
        let line = strip_cr_chars(&lines[i]);
        let f = split_char(&line, '\t');
        let ghost fv = f@.map_values(|x: Vec<char>| x@);
        proof {
            lemma_split_fields(line@, '\t');
            assert(fv.len() == f.len());
        }
        if f.len() >= 3 {
            let c = parse_decimal(&f[1], usize::MAX as u64);
            let p = parse_decimal(&f[2], usize::MAX as u64);
            proof {
                assert(fv[1] == f@[1]@ && fv[2] == f@[2]@ && fv[0] == f@[0]@);
            }
            match (c, p) {
                (Some(c), Some(p)) => {
                    table.insert(f[0].as_slice(), (c as usize, p as usize));
                },
                _ => {},
            }
        }
        i += 1;
    }
    proof {
        assert(ls.take(lines.len() as int) =~= ls);
    }
    table.into_entries()
}

/// A sequence holding `c` has a first `c`.
proof fn lemma_first_index_found(s: Seq<char>, c: char, i: int)
    requires
        0 <= i < s.len(),
        s[i] == c,
    ensures
        first_index(s, c) >= 0,
    decreases i,
{
    if i > 0 && s[0] != c {
        lemma_first_index_found(s.drop_first(), c, i - 1);
    }
}

/// Every key of a bigram table holds a tab.
proof fn lemma_bigram_table_tabs(lines: Seq<Seq<char>>)
    ensures
        forall|k: Seq<char>| #[trigger] bigram_table(lines).contains_key(k) ==> first_index(k, '\t') >= 0,
    decreases lines.len(),
{
    if lines.len() > 0 {
        let m = bigram_table(lines.drop_last());
        lemma_bigram_table_tabs(lines.drop_last());
        match bigram_entry(lines.last()) {
            Some(e) => {
                let f = split_on(strip_cr(lines.last()), '\t');
                assert(f.len() >= 3);
                assert(e.0 == f[0] + seq!['\t'] + f[1]);
                assert(e.0[f[0].len() as int] == '\t');
                lemma_first_index_found(e.0, '\t', f[0].len() as int);
                assert(bigram_table(lines) == m.insert(e.0, e.1));
                assert forall|k: Seq<char>| #[trigger] bigram_table(lines).contains_key(k) implies first_index(k, '\t') >= 0 by {
                    if k != e.0 {
                        assert(m.contains_key(k));
                    }
                }
            },
            None => {
                assert(bigram_table(lines) == m);
            },
        }
    }
}

/// `a`, a tab, then `b`.
fn join_tab(a: &Vec<char>, b: &Vec<char>) -> (r: Vec<char>)
    ensures
        r@ == a@ + seq!['\t'] + b@,
{
    let mut key: Vec<char> = Vec::new();
    let mut k: usize = 0;
    while k < a.len()
        invariant
            k <= a.len(),
            key@ == a@.subrange(0, k as int),
        decreases a.len() - k,
    {
        key.push(a[k]);
        k += 1;
        assert(key@ =~= a@.subrange(0, k as int));
    }
    key.push('\t');
    let ghost mid = key@;
    let mut k: usize = 0;
    while k < b.len()
        invariant
            k <= b.len(),
            key@ == mid + b@.subrange(0, k as int),
        decreases b.len() - k,
    {
        key.push(b[k]);
        k += 1;
        assert(key@ =~= mid + b@.subrange(0, k as int));
    }
    assert(a@.subrange(0, a@.len() as int) =~= a@);
    assert(b@.subrange(0, b@.len() as int) =~= b@);
    assert(key@ =~= a@ + seq!['\t'] + b@);
    key
}

/// The entry of one bigram line, if it parses, as (key, count).
fn bigram_line(raw: &Vec<char>) -> (r: Option<(Vec<char>, usize)>)
    ensures
        match r {
            Some(e) => bigram_entry(raw@) == Some((e.0@, e.1)) && e.0.len() <= raw.len(),
            None => bigram_entry(raw@) is None,
        },
{
    let line = strip_cr_chars(raw);
    let f = split_char(&line, '\t');
    let ghost fv = f@.map_values(|x: Vec<char>| x@);
    proof {
        lemma_split_fields(line@, '\t');
        assert(fv.len() == f.len());
    }
    if f.len() >= 3 {
        let c = parse_decimal(&f[2], usize::MAX as u64);
        proof {
            assert(fv[1] == f@[1]@ && fv[2] == f@[2]@ && fv[0] == f@[0]@);
        }
        match c {
            Some(c) => {
                let key = join_tab(&f[0], &f[1]);
                Some((key, c as usize))
            },
            None => None,
        }
    } else {
        None
    }
}

/// Parses a bigram count file (`w1 \t w2 \t count` per line), keyed `w1 \t w2`. Lines that do
/// not parse are skipped; a repeated pair keeps its last line.
pub fn parse_bigrams(text: &str) -> (r: Vec<(String, usize)>)
    requires
        text@.len() < u32::MAX,
    ensures
        distinct_keys(r@),
        entries_map(r@) == bigram_table(split_on(text@, '\n')),
        keys_have_tab(r@),
{
    let cs = chars_of(text);
    let lines = split_char(&cs, '\n');
    let ghost ls = split_on(text@, '\n');
    let mut table: KeyedTable<usize> = KeyedTable::new();
    let mut i: usize = 0;
    proof {
        lemma_split_len(text@, '\n');
        assert(ls.take(0) =~= Seq::<Seq<char>>::empty());
    }
    while i < lines.len()
        invariant
            ls == split_on(text@, '\n'),
            lines@.map_values(|f: Vec<char>| f@) == ls,
            total_len(ls) + ls.len() == text@.len() + 1,
            text@.len() < u32::MAX,
            i <= lines.len(),
            table.wf(),
            table.size() <= 1 + total_len(ls.take(i as int)),
            table@ == bigram_table(ls.take(i as int)),
        decreases lines.len() - i,
    {
        proof {
            lemma_total_len_take(ls, i as int);
            assert(ls.take(i + 1).drop_last() =~= ls.take(i as int));
            assert(ls.take(i + 1).last() == ls[i as int]);
            assert(lines@[i as int]@ == ls[i as int]);
        }
        match bigram_line(&lines[i]) {
            Some((key, c)) => {
                table.insert(key.as_slice(), c);
            },
            None => {},
        }
        i += 1;
    }
    proof {
        assert(ls.take(lines.len() as int) =~= ls);
    }
    let r = table.into_entries();
    proof {
        lemma_bigram_table_tabs(ls);
        assert forall|k: int| 0 <= k < r.len() implies first_index((#[trigger] r@[k]).0@, '\t') >= 0 by {
            assert(entries_map(r@).contains_key(r@[k].0@));
        }
    }
    r
}

/// Interns the three layers of a language model.
pub fn intern_model(lm: &MasterLanguageModel) -> (r: InternedModel)
    requires
        interned_ok(&lm.words),
        interned_ok(&lm.syllables),
        interned_ok(&lm.tccs),
    ensures
        is_interning(&lm.words, &r.words),
        is_interning(&lm.syllables, &r.syllables),
        is_interning(&lm.tccs, &r.tccs),
{
    InternedModel {
        words: intern_layer(&lm.words),
        syllables: intern_layer(&lm.syllables),
        tccs: intern_layer(&lm.tccs),
    }
}

/// What `intern_layer` requires of a layer: a tab in every bigram key, distinct unigram
/// keys, and ids and trie nodes that fit in `u32`.
pub open spec fn interned_ok(layer: &LayerCounts) -> bool {
    &&& keys_have_tab(layer.bigrams@)
    &&& distinct(uni_keys(layer.unigrams@))
    &&& uni_chars(layer.unigrams@) + bi_chars(layer.bigrams@) + 1 <= u32::MAX
    &&& layer.unigrams.len() + 2 * layer.bigrams.len() < u32::MAX
}

} // verus!
