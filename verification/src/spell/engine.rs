//! The spelling engine: the dictionary with its trie, word frequencies, the aligned counts for
//! context scoring, and the decisions of lookup and candidate generation. Ranking by
//! frequency and the sentence-level choice compare logarithms, and are left to the caller.
use vstd::prelude::*;
use crate::fields::{lemma_text_lines_len, total_len};
use crate::normalize::{normalized, standard_head, standard_tail, all_compile, Normalizer};
use crate::spell::counts::{
    count_table, count_total, join_pair, pair_table, read_counts, read_pairs, PAIR_SEPARATOR,
};
use crate::spell::dict_trie::{indexed_words, lemma_indexed_words_injective, no_repeated_index, search_result, total_chars, DictTrie};
use crate::table::KeyedTable;
use crate::text::{chars_of, split_lines, string_from_chars, text_lines};

verus! {

/// The largest number of edits a candidate may be from its query by default.
pub const MAX_EDITS: usize = 2;

/// How many ranked candidates `suggest` returns by default, and a sentence position offers.
pub const SUGGEST_TOP_N: usize = 10;

/// A Thai letter, vowel, tone mark or sign (U+0E01 to U+0E4E).
pub open spec fn thai_char(c: char) -> bool {
    '\u{0E01}' <= c <= '\u{0E4E}'
}

/// A non-empty run of Thai characters: the shape of a word worth correcting.
pub open spec fn thai_word(s: Seq<char>) -> bool {
    s.len() > 0 && forall|i: int| 0 <= i < s.len() ==> thai_char(#[trigger] s[i])
}

/// The Thai block from ก (U+0E01) to the yamakkan sign (U+0E4E) is exactly what counts as a
/// Thai character: consonants, vowels (the leading ones U+0E40 to U+0E44 among them), tone
/// marks and signs, and nothing outside the block.
pub proof fn lemma_thai_char_block(c: char)
    ensures
        thai_char(c) <==> (0x0E01 <= c as u32 && c as u32 <= 0x0E4E),
        thai_char('\u{0E01}') && thai_char('\u{0E30}') && thai_char('\u{0E40}') && thai_char('\u{0E44}'),
        thai_char('\u{0E48}') && thai_char('\u{0E49}') && thai_char('\u{0E4C}') && thai_char('\u{0E4E}'),
        !thai_char('\u{0E00}') && !thai_char('\u{0E4F}') && !thai_char('\u{0E50}') && !thai_char('a'),
{
}

/// Every non-empty run of characters of the Thai block is Thai-shaped, and nothing else is.
pub proof fn lemma_thai_word_block(s: Seq<char>)
    ensures
        thai_word(s) <==> (s.len() > 0 && forall|i: int| 0 <= i < s.len() ==> 0x0E01 <= (#[trigger] s[i]) as u32 && s[i] as u32 <= 0x0E4E),
{
    if s.len() > 0 {
        assert((forall|i: int| 0 <= i < s.len() ==> thai_char(#[trigger] s[i])) <==> (forall|i: int| 0 <= i < s.len() ==> 0x0E01 <= (#[trigger] s[i]) as u32 && s[i] as u32 <= 0x0E4E)) by {
            assert forall|i: int| 0 <= i < s.len() implies (thai_char(#[trigger] s[i]) <==> (0x0E01 <= s[i] as u32 && s[i] as u32 <= 0x0E4E)) by {
                lemma_thai_char_block(s[i]);
            }
        }
    }
}

/// Whether `c` is a Thai letter, vowel, tone mark or sign.
pub fn is_thai_char(c: char) -> (r: bool)
    ensures
        r == thai_char(c),
{
    '\u{0E01}' <= c && c <= '\u{0E4E}'
}

/// Whether `s` is a non-empty run of Thai characters.
pub fn is_thai_word(s: &str) -> (r: bool)
    ensures
        r == thai_word(s@),
{
    let cs = chars_of(s);
    if cs.len() == 0 {
        return false;
    }
    let mut i: usize = 0;
    while i < cs.len()
        invariant
            cs@ == s@,
            i <= cs.len(),
            forall|k: int| 0 <= k < i ==> thai_char(#[trigger] cs@[k]),
        decreases cs.len() - i,
    {
        if !is_thai_char(cs[i]) {
            return false;
        }
        i += 1;
    }
    true
}

/// The lines that are not empty, in order.
pub open spec fn nonempty_lines(ls: Seq<Seq<char>>) -> Seq<Seq<char>>
    decreases ls.len(),
{
    if ls.len() == 0 {
        seq![]
    } else {
        let d = nonempty_lines(ls.drop_last());
        if ls.last().len() > 0 {
            d.push(ls.last())
        } else {
            d
        }
    }
}

proof fn lemma_nonempty_lines_len(ls: Seq<Seq<char>>)
    ensures
        total_len(nonempty_lines(ls)) <= total_len(ls),
        nonempty_lines(ls).len() <= ls.len(),
    decreases ls.len(),
{
    if ls.len() > 0 {
        lemma_nonempty_lines_len(ls.drop_last());
        let d = nonempty_lines(ls.drop_last());
        if ls.last().len() > 0 {
            assert(d.push(ls.last()).drop_last() =~= d);
        }
    }
}

proof fn lemma_total_chars(ws: Seq<Vec<char>>)
    ensures
        total_chars(ws) == total_len(ws.map_values(|w: Vec<char>| w@)),
    decreases ws.len(),
{
    if ws.len() > 0 {
        lemma_total_chars(ws.drop_last());
        assert(ws.map_values(|w: Vec<char>| w@).drop_last() =~= ws.drop_last().map_values(|w: Vec<char>| w@));
    }
}

/// The frequency `freqs` gives a word: its count, or 0 when absent.
pub open spec fn frequency_of(freqs: Map<Seq<char>, u32>, w: Seq<char>) -> u32 {
    if freqs.contains_key(w) {
        freqs[w]
    } else {
        0
    }
}

/// The counts behind the aligned bigram probability of `w2` after `w1`: the unigram counts
/// of both words (0 when absent), the pair count (0 when absent), and the unigram total.
pub struct PairCounts {
    pub w1: u32,
    pub w2: u32,
    pub pair: u32,
    pub total: u64,
}

/// What correction makes of a word: kept as normalized (empty, or a dictionary word), or, as
/// normalized, left to ranking among its suggestions (falling back to itself when there are
/// none).
pub enum Correction {
    Keep(String),
    Rank(String),
}

/// The spelling engine.
pub struct SpellEngine {
    words: Vec<String>,
    word_freq: Vec<u32>,
    trie: DictTrie,
    align_unigram: KeyedTable<u32>,
    align_total: u64,
    bigram: KeyedTable<u32>,
    normalizer: Normalizer,
}

impl SpellEngine {
    /// The dictionary words, in order.
    pub closed spec fn words(&self) -> Seq<Seq<char>> {
        self.words@.map_values(|w: String| w@)
    }

    /// Each dictionary word mapped to its (last) index.
    pub closed spec fn dictionary(&self) -> Map<Seq<char>, usize> {
        self.trie@
    }

    /// `out` lists its entries in the depth-first order of the dictionary trie, whose nodes
    /// keep their children in the order the words first created them.
    pub closed spec fn in_trie_order(&self, q: Seq<char>, max: usize, out: Seq<(usize, usize)>) -> bool {
        self.trie.in_search_order(q, max, out)
    }

    /// The ranking frequency of each dictionary word.
    pub closed spec fn frequencies(&self) -> Seq<u32> {
        self.word_freq@
    }

    /// The aligned unigram counts.
    pub closed spec fn unigram_counts(&self) -> Map<Seq<char>, u32> {
        self.align_unigram@
    }

    /// The sum of the aligned unigram counts, floored at 1.
    pub closed spec fn unigram_total(&self) -> u64 {
        self.align_total
    }

    /// The aligned bigram counts, keyed `w1 \u{1f} w2`.
    pub closed spec fn pair_counts(&self) -> Map<Seq<char>, u32> {
        self.bigram@
    }

    /// The tables are well formed and the normalizer is the standard one.
    pub closed spec fn wf(&self) -> bool {
        &&& self.trie.wf()
        &&& self.trie@ == indexed_words(self.words@.map_values(|w: String| w@))
        &&& self.word_freq.len() == self.words.len()
        &&& self.align_unigram.wf()
        &&& self.bigram.wf()
        &&& self.normalizer.head() == standard_head()
        &&& self.normalizer.tail() == standard_tail()
    }

    /// Builds the engine from its four files: the dictionary (one word per line, empty lines
    /// skipped), the ranking frequencies and the aligned unigram counts (`word \t count`), and
    /// the aligned bigram counts (`w1 \t w2 \t count`). `None` if the normalizer's patterns
    /// do not compile.
    pub fn bootstrap(words_text: &str, freq_text: &str, unigram_text: &str, bigram_text: &str) -> (r: Option<SpellEngine>)
        requires
            words_text@.len() < u32::MAX,
            freq_text@.len() < u32::MAX,
            unigram_text@.len() < u32::MAX,
            bigram_text@.len() < u32::MAX,
        ensures
            r is Some <==> all_compile(standard_head()) && all_compile(standard_tail()),
            r matches Some(e) ==> {
                &&& e.wf()
                &&& e.words() == nonempty_lines(text_lines(words_text@))
                &&& forall|i: int| 0 <= i < e.words().len() ==> #[trigger] e.frequencies()[i] == frequency_of(count_table(text_lines(freq_text@)), e.words()[i])
                &&& e.unigram_counts() == count_table(text_lines(unigram_text@))
                &&& e.unigram_total() == (if count_total(text_lines(unigram_text@)) == 0 { 1 } else { count_total(text_lines(unigram_text@)) })
                &&& e.pair_counts() == pair_table(text_lines(bigram_text@))
            },
    {
        let normalizer = match Normalizer::new() {
            Some(n) => n,
            None => return None,
        };
        let lines = split_lines(words_text);
        let ghost ls = text_lines(words_text@);
        let mut words: Vec<String> = Vec::new();
        let mut word_chars: Vec<Vec<char>> = Vec::new();
        let mut i: usize = 0;
        proof {
            assert(ls.take(0) =~= Seq::<Seq<char>>::empty());
        }
        while i < lines.len()
            invariant
                ls == text_lines(words_text@),
                lines@.map_values(|f: Vec<char>| f@) == ls,
                i <= lines.len(),
                words@.map_values(|w: String| w@) == nonempty_lines(ls.take(i as int)),
                word_chars@.map_values(|w: Vec<char>| w@) == nonempty_lines(ls.take(i as int)),
            decreases lines.len() - i,
        {
            proof {
                assert(ls.take(i + 1).drop_last() =~= ls.take(i as int));
                assert(ls.take(i + 1).last() == ls[i as int]);
                assert(lines@[i as int]@ == ls[i as int]);
            }
            if lines[i].len() > 0 {
                let ghost before_w = words@.map_values(|w: String| w@);
                let ghost before_c = word_chars@.map_values(|w: Vec<char>| w@);
                words.push(string_from_chars(lines[i].as_slice()));
                word_chars.push(lines[i].clone());
                proof {
                    assert(words@.map_values(|w: String| w@) =~= before_w.push(ls[i as int]));
                    assert(word_chars@.map_values(|w: Vec<char>| w@) =~= before_c.push(ls[i as int]));
                }
            }
            i += 1;
        }
        proof {
            assert(ls.take(lines.len() as int) =~= ls);
            lemma_text_lines_len(words_text@);
            lemma_nonempty_lines_len(ls);
            lemma_total_chars(word_chars@);
        }
        let trie = DictTrie::build(&word_chars);
        let (freq_of, _) = read_counts(freq_text);
        let mut word_freq: Vec<u32> = Vec::new();
        let mut k: usize = 0;
        while k < word_chars.len()
            invariant
                k <= word_chars.len(),
                freq_of.wf(),
                freq_of@ == count_table(text_lines(freq_text@)),
                word_freq.len() == k,
                forall|q: int| 0 <= q < k ==> #[trigger] word_freq@[q] == frequency_of(freq_of@, word_chars@[q]@),
            decreases word_chars.len() - k,
        {
            let f = match freq_of.get(word_chars[k].as_slice()) {
                Some(n) => *n,
                None => 0,
            };
            word_freq.push(f);
            k += 1;
        }
        let (align_unigram, raw_total) = read_counts(unigram_text);
        let align_total: u64 = if raw_total == 0 { 1 } else { raw_total };
        let bigram = read_pairs(bigram_text);
        let e = SpellEngine { words, word_freq, trie, align_unigram, align_total, bigram, normalizer };
        proof {
            assert forall|q: int| 0 <= q < e.words().len() implies #[trigger] e.frequencies()[q] == frequency_of(count_table(text_lines(freq_text@)), e.words()[q]) by {
                assert(e.words()[q] == nonempty_lines(ls)[q]);
                assert(word_chars@.map_values(|w: Vec<char>| w@)[q] == word_chars@[q]@);
            }
            assert(word_chars@.map_values(|w: Vec<char>| w@) == e.words@.map_values(|w: String| w@));
        }
        Some(e)
    }

    /// Number of dictionary words.
    pub fn word_count(&self) -> (r: usize)
        ensures
            r == self.words().len(),
    {
        self.words.len()
    }

    /// Dictionary word `i`.
    pub fn word(&self, i: usize) -> (r: &String)
        requires
            i < self.words().len(),
        ensures
            r@ == self.words()[i as int],
    {
        &self.words[i]
    }

    /// The ranking frequency of dictionary word `i`.
    pub fn frequency(&self, i: usize) -> (r: u32)
        requires
            self.wf(),
            i < self.words().len(),
        ensures
            r == self.frequencies()[i as int],
    {
        self.word_freq[i]
    }

    /// The standard normalization of `raw`, with the engine's compiled normalizer.
    pub fn normalize(&self, raw: &str) -> (r: Option<String>)
        requires
            self.wf(),
        ensures
            match r {
                Some(s) => normalized(standard_head(), standard_tail(), raw@) == Some(s@),
                None => normalized(standard_head(), standard_tail(), raw@) is None,
            },
    {
        self.normalizer.normalize(raw)
    }

    /// Whether the normalized `raw` is a (non-empty) dictionary word; `None` if
    /// normalization fails.
    pub fn is_word(&self, raw: &str) -> (r: Option<bool>)
        requires
            self.wf(),
        ensures
            match normalized(standard_head(), standard_tail(), raw@) {
                Some(n) => r == Some(n.len() > 0 && self.dictionary().contains_key(n)),
                None => r is None,
            },
    {
        match self.normalize(raw) {
            Some(norm) => {
                let q = chars_of(norm.as_str());
                if q.len() == 0 {
                    return Some(false);
                }
                Some(self.trie.get(q.as_slice()).is_some())
            },
            None => None,
        }
    }

    /// Dictionary words within `max` edits of `query`, as (word index, distance).
    pub fn candidates(&self, query: &Vec<char>, max: usize) -> (r: Vec<(usize, usize)>)
        requires
            self.wf(),
            query@.len() < usize::MAX,
        ensures
            search_result(self.dictionary(), query@, max, r@),
            self.in_trie_order(query@, max, r@),
            no_repeated_index(r@),
    {
        proof {
            lemma_indexed_words_injective(self.words@.map_values(|w: String| w@));
        }
        self.trie.search(query.as_slice(), max)
    }

    /// The candidates for `raw` before ranking: none for an empty normalization, otherwise the
    /// dictionary words within `max_edits` of it. `None` if normalization fails.
    pub fn suggest_candidates(&self, raw: &str, max_edits: usize) -> (r: Option<Vec<(usize, usize)>>)
        requires
            self.wf(),
        ensures
            match normalized(standard_head(), standard_tail(), raw@) {
                Some(n) => r matches Some(c) && (n.len() == 0 ==> c.len() == 0)
                    && (0 < n.len() < usize::MAX ==> search_result(self.dictionary(), n, max_edits, c@))
                    && self.in_trie_order(n, max_edits, c@)
                    && no_repeated_index(c@),
                None => r is None,
            },
    {
        match self.normalize(raw) {
            Some(norm) => {
                let q = chars_of(norm.as_str());
                if q.len() == 0 || q.len() == usize::MAX {
                    return Some(Vec::new());
                }
                Some(self.candidates(&q, max_edits))
            },
            None => None,
        }
    }

    /// What correction makes of `raw`: its normalization kept when it is empty or a
    /// dictionary word, otherwise handed on for ranking. `None` if normalization fails.
    pub fn correction(&self, raw: &str) -> (r: Option<Correction>)
        requires
            self.wf(),
        ensures
            match normalized(standard_head(), standard_tail(), raw@) {
                Some(n) => match r {
                    Some(Correction::Keep(s)) => s@ == n && (n.len() == 0 || self.dictionary().contains_key(n)),
                    Some(Correction::Rank(s)) => s@ == n && n.len() > 0 && !self.dictionary().contains_key(n),
                    None => false,
                },
                None => r is None,
            },
    {
        match self.normalize(raw) {
            Some(norm) => {
                let q = chars_of(norm.as_str());
                if q.len() == 0 || self.trie.get(q.as_slice()).is_some() {
                    Some(Correction::Keep(norm))
                } else {
                    Some(Correction::Rank(norm))
                }
            },
            None => None,
        }
    }

    /// The candidates a sentence token offers beside keeping itself: none when its
    /// normalization is empty, a dictionary word, or not Thai-shaped; otherwise the dictionary
    /// words within `max_edits` of the normalization. `None` if normalization fails.
    pub fn token_options(&self, token: &str, max_edits: usize) -> (r: Option<Vec<(usize, usize)>>)
        requires
            self.wf(),
        ensures
            match normalized(standard_head(), standard_tail(), token@) {
                Some(n) => r matches Some(c) && ((n.len() == 0 || self.dictionary().contains_key(n) || !thai_word(n)) ==> c.len() == 0)
                    && ((0 < n.len() < usize::MAX && !self.dictionary().contains_key(n) && thai_word(n))
                    ==> search_result(self.dictionary(), n, max_edits, c@))
                    && self.in_trie_order(n, max_edits, c@)
                    && no_repeated_index(c@),
                None => r is None,
            },
    {
        match self.normalize(token) {
            Some(norm) => {
                let q = chars_of(norm.as_str());
                if q.len() == 0 || q.len() == usize::MAX || self.trie.get(q.as_slice()).is_some() || !is_thai_word(norm.as_str()) {
                    return Some(Vec::new());
                }
                Some(self.candidates(&q, max_edits))
            },
            None => None,
        }
    }

    /// The aligned counts behind the bigram probability of `w2` after `w1`.
    pub fn pair_counts_of(&self, w1: &str, w2: &str) -> (r: PairCounts)
        requires
            self.wf(),
        ensures
            r.w1 == frequency_of(self.unigram_counts(), w1@),
            r.w2 == frequency_of(self.unigram_counts(), w2@),
            r.pair == frequency_of(self.pair_counts(), w1@ + seq![PAIR_SEPARATOR] + w2@),
            r.total == self.unigram_total(),
    {
        let a = chars_of(w1);
        let b = chars_of(w2);
        let c1 = match self.align_unigram.get(a.as_slice()) {
            Some(n) => *n,
            None => 0,
        };
        let c2 = match self.align_unigram.get(b.as_slice()) {
            Some(n) => *n,
            None => 0,
        };
        let key = join_pair(&a, &b);
        let cp = match self.bigram.get(key.as_slice()) {
            Some(n) => *n,
            None => 0,
        };
        PairCounts { w1: c1, w2: c2, pair: cp, total: self.align_total }
    }
}

} // verus!
