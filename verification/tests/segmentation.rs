use thapthim::lattice::engine::{BoundaryCohesion, RuntimeEngine};
use thapthim::lattice::grid::{viterbi, Edge, LatticeModel, PathScore};
use thapthim::lattice::tokens::{pack, unpack, LatticeTier};
use thapthim::tcc::TccSegmenter;
use thapthim::lattice::context::{longest_prefix_value, longest_suffix_value};
use thapthim::spell::dict_trie::DictTrie;

#[derive(Clone, Copy, Debug, PartialEq)]
struct Pts(i64);

impl PathScore for Pts {
    fn sum(self, other: Self) -> Self {
        self.plus(other)
    }
    fn better(self, other: Self) -> bool {
        self.beats(other)
    }
    fn valid(self) -> bool {
        true
    }
    fn plus(self, other: Self) -> Self {
        Pts(self.0 + other.0)
    }
    fn beats(self, other: Self) -> bool {
        self.0 > other.0
    }
}

/// Rewards dictionary words over syllables over single clusters; transitions are free.
struct TierModel;

impl LatticeModel for TierModel {
    type Payload = LatticeTier;
    type Ctx = usize;
    type Score = Pts;
    fn start_spec(&self) -> usize {
        self.start_ctx()
    }
    fn context_of(&self, edge: Edge<LatticeTier>) -> usize {
        self.edge_context(&edge)
    }
    fn node_score(&self, edge: Edge<LatticeTier>) -> Pts {
        self.node_cost(&edge)
    }
    fn transition_score(&self, prev: usize, cur: usize) -> Pts {
        self.transition(prev, cur)
    }
    fn start_ctx(&self) -> usize {
        0
    }
    fn edge_context(&self, edge: &Edge<LatticeTier>) -> usize {
        edge.end
    }
    fn node_cost(&self, edge: &Edge<LatticeTier>) -> Pts {
        match edge.payload {
            LatticeTier::Word => Pts(10),
            LatticeTier::Syllable => Pts(4),
            LatticeTier::Tcc => Pts(-1),
        }
    }
    fn transition(&self, _prev: usize, _cur: usize) -> Pts {
        Pts(0)
    }
}

struct NeverCoheres;

impl BoundaryCohesion for NeverCoheres {
    fn coheres_spec(&self, text: &str, p: usize) -> bool {
        self.coheres(text, p)
    }
    fn coheres(&self, _text: &str, _p: usize) -> bool {
        false
    }
}

struct AlwaysCoheres;

impl BoundaryCohesion for AlwaysCoheres {
    fn coheres_spec(&self, text: &str, p: usize) -> bool {
        self.coheres(text, p)
    }
    fn coheres(&self, _text: &str, _p: usize) -> bool {
        true
    }
}

fn engine() -> RuntimeEngine {
    RuntimeEngine::bootstrap("ฉัน\nกิน\nข้าว\n", "ฉัน\nกิน\nข้า\nว\n", 2, 12).expect("engine")
}

fn surfaces(text: &str, toks: &[u64]) -> Vec<String> {
    toks.iter()
        .map(|&t| {
            let (s, l) = unpack(t);
            text[s..s + l].to_string()
        })
        .collect()
}

#[test]
fn tcc_clusters_of_a_sentence() {
    let seg = TccSegmenter::new().expect("pattern compiles");
    assert_eq!(seg.find_positions("ฉันกินข้าว"), vec![0, 2, 3, 5, 6, 9, 10]);
    assert_eq!(seg.find_byte_positions("ฉันกินข้าว"), vec![0, 6, 9, 15, 18, 27, 30]);
    assert_eq!(seg.find_byte_positions(""), vec![0]);
}

#[test]
fn tcc_segment_pieces() {
    let text = "ฉันกินข้าว";
    let seg = TccSegmenter::new().expect("pattern compiles");
    let p = seg.find_byte_positions(text);
    let pieces: Vec<&str> = p.windows(2).map(|w| &text[w[0]..w[1]]).collect();
    assert_eq!(pieces, vec!["ฉั", "น", "กิ", "น", "ข้า", "ว"]);
}

#[test]
fn word_segment_of_known_words() {
    let e = engine();
    let text = "ฉันกินข้าว";
    let toks = e.segment_words(text, &TierModel, &TierModel, None::<&NeverCoheres>);
    assert_eq!(toks, vec![pack(0, 9, 1), pack(9, 18, 1), pack(18, 30, 1)]);
    assert_eq!(surfaces(text, &toks), vec!["ฉัน", "กิน", "ข้าว"]);
}

#[test]
fn word_segment_tiles_input_with_whitespace_kept() {
    let e = engine();
    let text = "ฉัน กิน";
    let toks = e.segment_words(text, &TierModel, &TierModel, None::<&NeverCoheres>);
    assert_eq!(surfaces(text, &toks).concat(), text);
    assert_eq!(surfaces(text, &toks), vec!["ฉัน", " ", "กิน"]);
}

#[test]
fn empty_text_gives_no_tokens() {
    let e = engine();
    assert!(e.segment_words("", &TierModel, &TierModel, None::<&NeverCoheres>).is_empty());
    assert!(e.segment_syllables("", &TierModel).is_empty());
    assert!(e.segment_words_joint("", &TierModel).is_empty());
}

#[test]
fn oov_span_is_syllabified() {
    // The tail is out of the word vocabulary; the syllables ข้า + ว cover it.
    let e2 = RuntimeEngine::bootstrap("ฉัน\n", "ข้า\nว\n", 2, 12).expect("engine");
    let text = "ฉันข้าว";
    let toks = e2.segment_words(text, &TierModel, &TierModel, None::<&NeverCoheres>);
    assert_eq!(surfaces(text, &toks), vec!["ฉัน", "ข้า", "ว"]);
    assert_eq!(toks[0] & 0xFF, 1);
    assert_eq!(toks[1] & 0xFF, 2);
}

#[test]
fn cohesion_merges_short_oov_runs() {
    let e2 = RuntimeEngine::bootstrap("ฉัน\n", "ข้า\nว\n", 2, 12).expect("engine");
    let text = "ฉันข้าว";
    let toks = e2.segment_words(text, &TierModel, &TierModel, Some(&AlwaysCoheres));
    assert_eq!(surfaces(text, &toks), vec!["ฉันข้าว"]);
    assert_eq!(toks[0] & 0xFF, 1);
}

#[test]
fn syllable_segment_tiles_input() {
    let e = engine();
    let text = "ฉันกินข้าว";
    let toks = e.segment_syllables(text, &TierModel);
    assert_eq!(surfaces(text, &toks), vec!["ฉัน", "กิน", "ข้า", "ว"]);
}

#[test]
fn joint_segment_prefers_words() {
    let e = engine();
    let text = "ฉันกินข้าว";
    let toks = e.segment_words_joint(text, &TierModel);
    assert_eq!(surfaces(text, &toks), vec!["ฉัน", "กิน", "ข้าว"]);
}

#[test]
fn duplicate_vocabulary_entry_is_refused() {
    assert!(RuntimeEngine::bootstrap("ฉัน\nฉัน\n", "ข้า\n", 2, 12).is_none());
}

#[test]
fn viterbi_picks_the_best_chain() {
    // Grid 0..3 with unit steps, plus a long edge 0..3 that scores higher.
    let edges = vec![
        Edge { start: 0, end: 1, payload: LatticeTier::Tcc },
        Edge { start: 1, end: 2, payload: LatticeTier::Tcc },
        Edge { start: 2, end: 3, payload: LatticeTier::Tcc },
        Edge { start: 0, end: 3, payload: LatticeTier::Word },
    ];
    let ctx: Vec<usize> = edges.iter().map(|e| e.end).collect();
    let pos_idx: Vec<u32> = vec![0, 1, 2, 3];
    let path = viterbi(&edges, &ctx, 0, 3, &pos_idx, 4, &TierModel);
    assert_eq!(path, vec![3]);
    let chain = viterbi(&edges[..3], &ctx[..3], 0, 3, &pos_idx, 4, &TierModel);
    assert_eq!(chain, vec![0, 1, 2]);
    assert!(viterbi(&edges, &ctx, 2, 2, &pos_idx, 4, &TierModel).is_empty());
    // No chain reaches 3 without the last step.
    assert!(viterbi(&edges[..2], &ctx[..2], 0, 3, &pos_idx, 4, &TierModel).is_empty());
}

#[test]
fn bare_consonant_word_is_resegmented() {
    // "น" is in the word vocabulary but is a single bare consonant: it goes to the OOV pass,
    // where no syllable covers it, so it comes back as one TCC cluster.
    let e3 = RuntimeEngine::bootstrap("กิ\nน\n", "ข้า\n", 2, 12).expect("engine");
    let text = "กิน";
    let toks = e3.segment_words(text, &TierModel, &TierModel, None::<&NeverCoheres>);
    assert_eq!(surfaces(text, &toks), vec!["กิ", "น"]);
    assert_eq!(toks[0] & 0xFF, 1);
    assert_eq!(toks[1] & 0xFF, 3);
}

#[test]
fn syllable_segment_tags_tiers() {
    // "ว" is not a syllable here: it comes back as a TCC cluster.
    let e4 = RuntimeEngine::bootstrap("ฉัน\n", "ฉัน\nข้า\n", 2, 12).expect("engine");
    let text = "ฉันข้าว";
    let toks = e4.segment_syllables(text, &TierModel);
    assert_eq!(surfaces(text, &toks), vec!["ฉัน", "ข้า", "ว"]);
    let tiers: Vec<u64> = toks.iter().map(|t| t & 0xFF).collect();
    assert_eq!(tiers, vec![2, 2, 3]);
}

#[test]
fn isolated_one_letter_word_keeps_its_surface() {
    // "ณ" is a genuine one-letter word between two words: it is re-segmented on its own and
    // comes back as the same surface.
    let e5 = RuntimeEngine::bootstrap("ฉัน\nณ\nกิน\n", "ข้า\n", 2, 12).expect("engine");
    let text = "ฉันณกิน";
    let toks = e5.segment_words(text, &TierModel, &TierModel, None::<&NeverCoheres>);
    assert_eq!(surfaces(text, &toks), vec!["ฉัน", "ณ", "กิน"]);
}

#[test]
fn syllable_pass_is_independent_of_word_boundaries() {
    // The syllable "นข้า" straddles the word boundary after "ฉัน": the independent syllable
    // pass keeps it, so its boundaries need not include every word boundary.
    let e6 = RuntimeEngine::bootstrap("ฉัน\nข้าว\n", "นข้า\n", 2, 12).expect("engine");
    let text = "ฉันข้าว";
    let words = e6.segment_words(text, &TierModel, &TierModel, None::<&NeverCoheres>);
    assert_eq!(surfaces(text, &words), vec!["ฉัน", "ข้าว"]);
    let syllables = e6.segment_syllables(text, &TierModel);
    assert_eq!(surfaces(text, &syllables), vec!["ฉั", "นข้า", "ว"]);
}

#[test]
fn word_cap_drops_longer_dictionary_entries() {
    // With a cap of one cluster, no two-cluster word or syllable is a candidate: every
    // token falls back to a single cluster.
    let e7 = RuntimeEngine::bootstrap("ฉัน\nกิน\nข้าว\n", "ฉัน\nกิน\n", 2, 1).expect("engine");
    let text = "ฉันกินข้าว";
    let toks = e7.segment_words(text, &TierModel, &TierModel, None::<&NeverCoheres>);
    assert_eq!(surfaces(text, &toks), vec!["ฉั", "น", "กิ", "น", "ข้า", "ว"]);
    assert!(toks.iter().all(|t| t & 0xFF == 3));
}

#[test]
fn merge_only_glues_short_tokens() {
    // With a length gate of one cluster, "ฉัน" (two clusters) keeps its boundary; only the
    // one-cluster pieces "ข้า" and "ว" are glued.
    let e8 = RuntimeEngine::bootstrap("ฉัน\n", "ข้า\nว\n", 1, 12).expect("engine");
    let text = "ฉันข้าว";
    let toks = e8.segment_words(text, &TierModel, &TierModel, Some(&AlwaysCoheres));
    assert_eq!(surfaces(text, &toks), vec!["ฉัน", "ข้าว"]);
    assert_eq!(toks[1] & 0xFF, 1);
}

/// Scores every node and every transition zero.
struct Flat;

impl LatticeModel for Flat {
    type Payload = ();
    type Ctx = ();
    type Score = Pts;
    fn start_spec(&self) {
        self.start_ctx()
    }
    fn context_of(&self, edge: Edge<()>) {
        self.edge_context(&edge)
    }
    fn node_score(&self, edge: Edge<()>) -> Pts {
        self.node_cost(&edge)
    }
    fn transition_score(&self, prev: (), cur: ()) -> Pts {
        self.transition(prev, cur)
    }
    fn start_ctx(&self) {}
    fn edge_context(&self, _edge: &Edge<()>) {}
    fn node_cost(&self, _edge: &Edge<()>) -> Pts {
        Pts(0)
    }
    fn transition(&self, _prev: (), _cur: ()) -> Pts {
        Pts(0)
    }
}

#[test]
fn viterbi_ties_keep_the_earliest_end_edge() {
    // All three complete paths score zero; only a strictly better end edge would replace the
    // first one found, so the path ending at edge 0 wins.
    let edges = vec![
        Edge { start: 0, end: 2, payload: () },
        Edge { start: 0, end: 1, payload: () },
        Edge { start: 1, end: 2, payload: () },
        Edge { start: 0, end: 2, payload: () },
    ];
    let ctx = vec![(); 4];
    let pos_idx: Vec<u32> = vec![0, 1, 2];
    assert_eq!(viterbi(&edges, &ctx, 0, 2, &pos_idx, 3, &Flat), vec![0]);
    // Without edge 0, the path through edges 1 and 2 ends at the earlier end edge.
    assert_eq!(viterbi(&edges[1..], &ctx[1..], 0, 2, &pos_idx, 3, &Flat), vec![0, 1]);
}

#[test]
fn viterbi_ties_keep_the_first_predecessor() {
    // Edges 0 and 1 both lead from 0 to 1 and tie; edge 2 continues to 2 through the first.
    let edges = vec![
        Edge { start: 0, end: 1, payload: () },
        Edge { start: 0, end: 1, payload: () },
        Edge { start: 1, end: 2, payload: () },
    ];
    let ctx = vec![(); 3];
    let pos_idx: Vec<u32> = vec![0, 1, 2];
    assert_eq!(viterbi(&edges, &ctx, 0, 2, &pos_idx, 3, &Flat), vec![0, 2]);
}

#[test]
fn entropy_context_takes_the_longest_held_key() {
    let cs = |s: &str| s.chars().collect::<Vec<char>>();
    let keys = DictTrie::build(&vec![cs("ab"), cs("b"), cs("xyz")]);
    assert_eq!(longest_suffix_value(&keys, &cs("cab")), Some(0));
    assert_eq!(longest_suffix_value(&keys, &cs("zb")), Some(1));
    assert_eq!(longest_suffix_value(&keys, &cs("q")), None);
    assert_eq!(longest_suffix_value(&keys, &cs("")), None);
    assert_eq!(longest_prefix_value(&keys, &cs("abz")), Some(0));
    assert_eq!(longest_prefix_value(&keys, &cs("bq")), Some(1));
    assert_eq!(longest_prefix_value(&keys, &cs("xy")), None);
}
