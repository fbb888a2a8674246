use thapthim::lattice::grid::PathScore;
use thapthim::pos::{canon_surface, oov_shape_tag, Pos, NUM_TAGS};
use thapthim::pos_decode::{decode_tags, TagScorer};

#[test]
fn tag_ids_strings_round_trip() {
    for i in 0..NUM_TAGS {
        let t = Pos::from_idx(i);
        assert_eq!(t.idx(), i);
        assert_eq!(Pos::ALL[i], t);
        assert_eq!(Pos::from_str(t.as_str()), Some(t));
    }
    assert_eq!(Pos::NN.as_str(), "NN");
    assert_eq!(Pos::IJ.idx(), 15);
    assert_eq!(Pos::from_str("ZZ"), None);
    assert_eq!(Pos::from_str("nn"), None);
}

#[test]
fn canon_surface_maps_space_tokens() {
    assert_eq!(canon_surface("_"), " ");
    assert_eq!(canon_surface(" \t"), " ");
    assert_eq!(canon_surface(""), "");
    assert_eq!(canon_surface("กิน"), "กิน");
}

#[test]
fn oov_shapes_route_to_tags() {
    assert_eq!(oov_shape_tag("123"), Some(Pos::NU));
    assert_eq!(oov_shape_tag("๑๒"), Some(Pos::NU));
    assert_eq!(oov_shape_tag("?!"), Some(Pos::PU));
    assert_eq!(oov_shape_tag("Google"), Some(Pos::NN));
    assert_eq!(oov_shape_tag("ฟิล์ม"), Some(Pos::NN));
    assert_eq!(oov_shape_tag("การกิน"), Some(Pos::NN));
    assert_eq!(oov_shape_tag("การ"), None);
    assert_eq!(oov_shape_tag("กิน"), None);
}

#[derive(Clone, Copy)]
struct Lp(f64);

impl PathScore for Lp {
    fn sum(self, other: Self) -> Self {
        self.plus(other)
    }
    fn better(self, other: Self) -> bool {
        self.beats(other)
    }
    fn valid(self) -> bool {
        !self.0.is_nan() && self.0 <= 0.0
    }
    fn plus(self, other: Self) -> Self {
        Lp(self.0 + other.0)
    }
    fn beats(self, other: Self) -> bool {
        self.0 > other.0
    }
}

/// Token 0 prefers PR, token 1 VV, token 2 NN; VV is impossible for token 0.
struct Toy;

impl TagScorer for Toy {
    type Score = Lp;
    fn floor_spec(&self) -> Lp {
        self.floor()
    }
    fn is_floor_spec(&self, s: Lp) -> bool {
        self.is_floor(s)
    }
    fn init_score(&self, tag: usize) -> Lp {
        self.init(tag)
    }
    fn transition_score(&self, prev: usize, cur: usize) -> Lp {
        self.transition(prev, cur)
    }
    fn emission_score(&self, token: usize, tag: usize) -> Lp {
        self.emission(token, tag)
    }
    fn outranks_spec(&self, a: Lp, b: Lp) -> bool {
        self.outranks(a, b)
    }
    fn floor(&self) -> Lp {
        Lp(f64::NEG_INFINITY)
    }
    fn is_floor(&self, s: Lp) -> bool {
        s.0 == f64::NEG_INFINITY
    }
    fn init(&self, _tag: usize) -> Lp {
        Lp(0.0)
    }
    fn transition(&self, _prev: usize, _cur: usize) -> Lp {
        Lp(-1.0)
    }
    fn emission(&self, token: usize, tag: usize) -> Lp {
        let want = [Pos::PR.idx(), Pos::VV.idx(), Pos::NN.idx()][token];
        if token == 0 && tag == Pos::VV.idx() {
            Lp(f64::NEG_INFINITY)
        } else if tag == want {
            Lp(-0.1)
        } else {
            Lp(-5.0)
        }
    }
    fn outranks(&self, a: Lp, b: Lp) -> bool {
        a.0.total_cmp(&b.0) == std::cmp::Ordering::Greater
    }
}

#[test]
fn tag_decode_follows_the_scores() {
    assert_eq!(decode_tags(3, &Toy), vec![Pos::PR, Pos::VV, Pos::NN]);
    assert_eq!(decode_tags(0, &Toy), vec![]);
}

/// Every score zero: every tag sequence ties.
struct FlatTags;

impl TagScorer for FlatTags {
    type Score = Lp;
    fn floor_spec(&self) -> Lp {
        self.floor()
    }
    fn is_floor_spec(&self, s: Lp) -> bool {
        self.is_floor(s)
    }
    fn init_score(&self, tag: usize) -> Lp {
        self.init(tag)
    }
    fn transition_score(&self, prev: usize, cur: usize) -> Lp {
        self.transition(prev, cur)
    }
    fn emission_score(&self, token: usize, tag: usize) -> Lp {
        self.emission(token, tag)
    }
    fn outranks_spec(&self, a: Lp, b: Lp) -> bool {
        self.outranks(a, b)
    }
    fn floor(&self) -> Lp {
        Lp(f64::NEG_INFINITY)
    }
    fn is_floor(&self, s: Lp) -> bool {
        s.0 == f64::NEG_INFINITY
    }
    fn init(&self, _tag: usize) -> Lp {
        Lp(0.0)
    }
    fn transition(&self, _prev: usize, _cur: usize) -> Lp {
        Lp(0.0)
    }
    fn emission(&self, _token: usize, _tag: usize) -> Lp {
        Lp(0.0)
    }
    fn outranks(&self, a: Lp, b: Lp) -> bool {
        a.0.total_cmp(&b.0) == std::cmp::Ordering::Greater
    }
}

#[test]
fn tag_decode_ties_keep_first_predecessor_and_last_final_tag() {
    let last = Pos::ALL[Pos::ALL.len() - 1];
    assert_eq!(decode_tags(1, &FlatTags), vec![last]);
    assert_eq!(decode_tags(3, &FlatTags), vec![Pos::NN, Pos::NN, last]);
}
