use thapthim::lattice::grid::PathScore;
use thapthim::spell::dict_trie::DictTrie;
use thapthim::spell::engine::{is_thai_char, is_thai_word, Correction, SpellEngine};
use thapthim::spell::sentence::{choose_candidates, SentenceScorer};

fn cs(s: &str) -> Vec<char> {
    s.chars().collect()
}

#[test]
fn trie_lookup_and_search() {
    let words = vec![cs("cat"), cs("cut"), cs("act"), cs("dog"), cs("cat")];
    let t = DictTrie::build(&words);
    assert_eq!(t.get(&cs("cat")), Some(4));
    assert_eq!(t.get(&cs("act")), Some(2));
    assert_eq!(t.get(&cs("ca")), None);
    assert_eq!(t.get(&cs("")), None);
    // cat 0 edits, cut 1 substitution, act 1 transposition; dog is 3 away.
    assert_eq!(t.search(&cs("cat"), 1), vec![(4, 0), (1, 1), (2, 1)]);
    assert_eq!(t.search(&cs("cat"), 0), vec![(4, 0)]);
    let mut all = t.search(&cs("cat"), 3);
    all.sort();
    assert_eq!(all, vec![(1, 1), (2, 1), (3, 3), (4, 0)]);
}

#[test]
fn search_counts_insertions_and_deletions() {
    let words = vec![cs("abc"), cs("ab"), cs("abcd")];
    let t = DictTrie::build(&words);
    let mut r = t.search(&cs("abc"), 1);
    r.sort();
    assert_eq!(r, vec![(0, 0), (1, 1), (2, 1)]);
    let mut r = t.search(&cs(""), 2);
    r.sort();
    assert_eq!(r, vec![(1, 2)]);
}

#[test]
fn thai_shape() {
    assert!(is_thai_char('ก'));
    assert!(!is_thai_char('a'));
    assert!(!is_thai_char('\u{0E50}'));
    assert!(is_thai_word("กิน"));
    assert!(!is_thai_word(""));
    assert!(!is_thai_word("กิน1"));
}

fn engine() -> SpellEngine {
    SpellEngine::bootstrap(
        "กา\nขา\n\nไก่\n",
        "กา\t10\nขา\t5\nขา\t7\n",
        "กา\t3\nขา\t4\nเสีย\tx\n",
        "กา\tขา\t2\nกา\tไก่\n",
    )
    .expect("normalizer compiles")
}

#[test]
fn spell_engine_tables() {
    let e = engine();
    assert_eq!(e.word_count(), 3);
    assert_eq!(e.word(2), "ไก่");
    assert_eq!(e.frequency(0), 10);
    assert_eq!(e.frequency(1), 7);
    assert_eq!(e.frequency(2), 0);
    let c = e.pair_counts_of("กา", "ขา");
    assert_eq!((c.w1, c.w2, c.pair, c.total), (3, 4, 2, 7));
    let c = e.pair_counts_of("ขา", "กา");
    assert_eq!((c.w1, c.w2, c.pair, c.total), (4, 3, 0, 7));
}

#[test]
fn is_word_after_normalization() {
    let e = engine();
    assert_eq!(e.is_word("กา"), Some(true));
    assert_eq!(e.is_word("  กา "), Some(true));
    assert_eq!(e.is_word("กข"), Some(false));
    assert_eq!(e.is_word(""), Some(false));
}

#[test]
fn valid_words_are_kept_and_others_ranked() {
    let e = engine();
    match e.correction("กา") {
        Some(Correction::Keep(s)) => assert_eq!(s, "กา"),
        _ => panic!("a dictionary word is kept"),
    }
    match e.correction(" กี") {
        Some(Correction::Rank(s)) => assert_eq!(s, "กี"),
        _ => panic!("an unknown word is ranked"),
    }
    match e.correction("") {
        Some(Correction::Keep(s)) => assert_eq!(s, ""),
        _ => panic!("the empty word is kept"),
    }
    let mut c = e.suggest_candidates("กี", 2).expect("normalizes");
    c.sort();
    assert_eq!(c, vec![(0, 1), (1, 2), (2, 2)]);
    assert_eq!(e.suggest_candidates("", 2), Some(vec![]));
}

#[test]
fn token_options_gate_on_shape_and_membership() {
    let e = engine();
    assert_eq!(e.token_options("กา", 2), Some(vec![]));
    assert_eq!(e.token_options(" ", 2), Some(vec![]));
    assert_eq!(e.token_options("abc", 2), Some(vec![]));
    assert_eq!(e.token_options("กี", 1), Some(vec![(0, 1)]));
}

#[derive(Clone, Copy)]
struct Lp(f64);

impl PathScore for Lp {
    fn sum(self, other: Self) -> Self {
        self.plus(other)
    }
    fn better(self, other: Self) -> bool {
        self.beats(other)
    }
    fn valid(self) -> bool {
        !self.0.is_nan() && self.0 <= 0.0
    }
    fn plus(self, other: Self) -> Self {
        Lp(self.0 + other.0)
    }
    fn beats(self, other: Self) -> bool {
        self.0 > other.0
    }
}

/// Over candidate lists: a bigram that likes "b" after "a", and one edit costs 3.
struct Toy<'c> {
    cands: &'c [Vec<(String, usize)>],
}

impl SentenceScorer for Toy<'_> {
    type Score = Lp;
    fn floor_spec(&self) -> Lp {
        self.floor()
    }
    fn step_score(&self, i: usize, p: usize, j: usize) -> Lp {
        self.bigram(i, p, j)
    }
    fn edit_score(&self, i: usize, j: usize) -> Lp {
        self.edit(i, j)
    }
    fn floor(&self) -> Lp {
        Lp(f64::NEG_INFINITY)
    }
    fn bigram(&self, i: usize, p: usize, j: usize) -> Lp {
        let prev = if i == 0 { "" } else { self.cands[i - 1][p].0.as_str() };
        if prev == "a" && self.cands[i][j].0 == "b" {
            Lp(0.0)
        } else {
            Lp(-5.0)
        }
    }
    fn edit(&self, i: usize, j: usize) -> Lp {
        Lp(-3.0 * self.cands[i][j].1 as f64)
    }
}

#[test]
fn sentence_choice_uses_context() {
    let cands = vec![
        vec![("a".to_string(), 0)],
        vec![("c".to_string(), 0), ("b".to_string(), 1)],
    ];
    assert_eq!(choose_candidates(&cands, &Toy { cands: &cands }), vec![0, 1]);
    let far = vec![
        vec![("a".to_string(), 0)],
        vec![("c".to_string(), 0), ("b".to_string(), 2)],
    ];
    assert_eq!(choose_candidates(&far, &Toy { cands: &far }), vec![0, 0]);
    let none: Vec<Vec<(String, usize)>> = Vec::new();
    assert_eq!(choose_candidates(&none, &Toy { cands: &none }), Vec::<usize>::new());
}

#[test]
fn readme_misspellings_find_their_words() {
    let e = SpellEngine::bootstrap("ผลไม้\nประเทศ\n", "ผลไม้\t5\nประเทศ\t9\n", "", "").expect("engine");
    assert_eq!(e.is_word("ประเทด"), Some(false));
    assert_eq!(e.suggest_candidates("ประเทด", 2), Some(vec![(1, 1)]));
    match e.correction("ผลไม") {
        Some(Correction::Rank(s)) => assert_eq!(s, "ผลไม"),
        _ => panic!("an unknown word goes to ranking"),
    }
    assert_eq!(e.suggest_candidates("ผลไม", 2), Some(vec![(0, 1)]));
    assert_eq!(e.word(0), "ผลไม้");
    // No unigram counts at all: the total is floored at 1.
    assert_eq!(e.pair_counts_of("ผลไม้", "ประเทศ").total, 1);
}

#[test]
fn search_reports_each_word_index_once() {
    // "a" is listed three times and keeps its last index; every hit names a distinct index.
    let words = vec![cs("a"), cs("a"), cs("ab"), cs("a")];
    let t = DictTrie::build(&words);
    let r = t.search(&cs("a"), 2);
    assert_eq!(r, vec![(3, 0), (2, 1)]);
    let mut idx: Vec<usize> = r.iter().map(|p| p.0).collect();
    idx.sort();
    idx.dedup();
    assert_eq!(idx.len(), r.len());
}

#[test]
fn sentence_choice_tie_keeps_the_last_final_candidate() {
    // "x" and "y" both score -5 after "a" at distance 0: the later one is kept.
    let tie = vec![
        vec![("a".to_string(), 0)],
        vec![("x".to_string(), 0), ("y".to_string(), 0)],
    ];
    assert_eq!(choose_candidates(&tie, &Toy { cands: &tie }), vec![0, 1]);
}

#[test]
fn sentence_choice_tie_keeps_the_first_predecessor() {
    // "x" and "y" tie at the first token and step into "z" alike: the first is kept.
    let tie = vec![
        vec![("x".to_string(), 0), ("y".to_string(), 0)],
        vec![("z".to_string(), 0)],
    ];
    assert_eq!(choose_candidates(&tie, &Toy { cands: &tie }), vec![0, 0]);
}
