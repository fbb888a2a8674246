use thapthim::lattice::layer::RuntimeLayer;
use thapthim::spell::dict_trie::DictTrie;
use thapthim::lm_format::{id, intern_layer, intern_model, parse_bigrams, parse_unigrams, LayerCounts, MasterLanguageModel};

fn layer() -> LayerCounts {
    LayerCounts {
        unigrams: vec![("a".to_string(), (3, 1)), ("b".to_string(), (2, 0))],
        bigrams: vec![("a\tb".to_string(), 5), ("a\tc".to_string(), 1), ("b\ta".to_string(), 2)],
    }
}

#[test]
fn interning_assigns_dense_ids() {
    let r = intern_layer(&layer());
    assert_eq!(r.vocab, vec!["a", "b", "c"]);
    assert_eq!(r.unigrams, vec![(3, 1), (2, 0), (0, 0)]);
    assert_eq!(r.bigrams, vec![((0u64 << 32) | 1, 5), ((0u64 << 32) | 2, 1), ((1u64 << 32) | 0, 2)]);
}

#[test]
fn interning_is_lossless() {
    let l = layer();
    let r = intern_layer(&l);
    for (key, count) in &l.bigrams {
        let i = l.bigrams.iter().position(|(k, _)| k == key).unwrap();
        let (packed, c) = r.bigrams[i];
        let w1 = &r.vocab[(packed >> 32) as usize];
        let w2 = &r.vocab[(packed & 0xFFFF_FFFF) as usize];
        assert_eq!(format!("{w1}\t{w2}"), *key);
        assert_eq!(c as usize, *count);
    }
    for (tok, counts) in &l.unigrams {
        let id = r.vocab.iter().position(|v| v == tok).unwrap();
        assert_eq!(r.unigrams[id], (counts.0 as u32, counts.1 as u32));
    }
}

#[test]
fn interning_a_model_interns_each_layer() {
    let m = MasterLanguageModel { words: layer(), syllables: layer(), tccs: LayerCounts { unigrams: vec![], bigrams: vec![] } };
    let r = intern_model(&m);
    assert_eq!(r.words.vocab.len(), 3);
    assert_eq!(r.syllables.bigrams.len(), 3);
    assert!(r.tccs.vocab.is_empty());
}

#[test]
fn loading_gives_counts_back() {
    let rt = RuntimeLayer::from_interned(intern_layer(&layer()));
    let a = rt.token("a").unwrap();
    let b = rt.token("b").unwrap();
    let c = rt.token("c").unwrap();
    assert_eq!((a, b, c), (0, 1, 2));
    assert_eq!(rt.token("z"), None);
    assert_eq!(rt.unigram(a), (3, 1));
    assert_eq!(rt.unigram(c), (0, 0));
    assert_eq!(rt.bigram(a, b), 5);
    assert_eq!(rt.bigram(b, a), 2);
    assert_eq!(rt.bigram(b, c), 0);
    assert_eq!(rt.followers(a), 2);
    assert_eq!(rt.followers(b), 1);
    assert_eq!(rt.followers(c), 0);
    assert_eq!(rt.bigram_types(), 3);
}

#[test]
fn unigram_file_parses_last_line_wins() {
    let text = "a\t3\t1\n \t9\t4\r\nbad\tx\t1\nb\t2\t0\t extra\na\t5\t2\n\n";
    let mut r = parse_unigrams(text);
    r.sort();
    assert_eq!(r, vec![(" ".to_string(), (9, 4)), ("a".to_string(), (5, 2)), ("b".to_string(), (2, 0))]);
}

#[test]
fn bigram_file_keys_pairs_with_a_tab() {
    let text = "a\tb\t5\na\tc\nx\ty\t+2\r\n";
    let mut r = parse_bigrams(text);
    r.sort();
    assert_eq!(r, vec![("a\tb".to_string(), 5), ("x\ty".to_string(), 2)]);
}

#[test]
fn interning_reuses_ids_and_appends_new_tokens() {
    let mut id_of = DictTrie::new();
    let mut vocab: Vec<String> = Vec::new();
    let a: Vec<char> = "ก".chars().collect();
    let b: Vec<char> = "ข".chars().collect();
    assert_eq!(id(&a, &mut id_of, &mut vocab), 0);
    assert_eq!(id(&b, &mut id_of, &mut vocab), 1);
    assert_eq!(id(&a, &mut id_of, &mut vocab), 0);
    assert_eq!(vocab, vec!["ก".to_string(), "ข".to_string()]);
    assert_eq!(id_of.get(&b), Some(1));
}
