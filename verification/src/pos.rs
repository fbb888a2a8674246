//! Part-of-speech tagset (LST20, 16 tags) and the token-shape rules of the tagger.
//!
//! The HMM decode itself runs on natural-log probabilities; what is independent of those —
//! the tagset, surface canonicalization, and the orthographic routing of unknown words —
//! lives here.
use vstd::prelude::*;
use crate::text::{
    all_white_space, all_whitespace, chars_of, has_prefix, has_suffix, is_alphabetic_char,
    is_alphanumeric_char, is_prefix, is_suffix, str_eq, unicode_alphabetic, unicode_alphanumeric,
};

verus! {

/// The LST20 POS tagset. Declaration order is each tag's dense id.
#[derive(Clone, Copy, PartialEq, Eq, Debug, Structural)]
pub enum Pos {
    NN,
    VV,
    PU,
    CC,
    PS,
    AX,
    AV,
    FX,
    NU,
    AJ,
    CL,
    PR,
    NG,
    PA,
    XX,
    IJ,
}

/// Total tag count — the width of every DP row and of the transition matrix.
pub const NUM_TAGS: usize = 16;

/// Dense id of a tag (its declaration position).
pub open spec fn tag_index(t: Pos) -> nat {
    match t {
        Pos::NN => 0,
        Pos::VV => 1,
        Pos::PU => 2,
        Pos::CC => 3,
        Pos::PS => 4,
        Pos::AX => 5,
        Pos::AV => 6,
        Pos::FX => 7,
        Pos::NU => 8,
        Pos::AJ => 9,
        Pos::CL => 10,
        Pos::PR => 11,
        Pos::NG => 12,
        Pos::PA => 13,
        Pos::XX => 14,
        Pos::IJ => 15,
    }
}

/// The tag whose dense id is `i`.
pub open spec fn tag_at(i: int) -> Pos {
    if i == 0 {
        Pos::NN
    } else if i == 1 {
        Pos::VV
    } else if i == 2 {
        Pos::PU
    } else if i == 3 {
        Pos::CC
    } else if i == 4 {
        Pos::PS
    } else if i == 5 {
        Pos::AX
    } else if i == 6 {
        Pos::AV
    } else if i == 7 {
        Pos::FX
    } else if i == 8 {
        Pos::NU
    } else if i == 9 {
        Pos::AJ
    } else if i == 10 {
        Pos::CL
    } else if i == 11 {
        Pos::PR
    } else if i == 12 {
        Pos::NG
    } else if i == 13 {
        Pos::PA
    } else if i == 14 {
        Pos::XX
    } else {
        Pos::IJ
    }
}

/// The LST20 surface string of a tag.
pub open spec fn tag_name(t: Pos) -> Seq<char> {
    match t {
        Pos::NN => seq!['N', 'N'],
        Pos::VV => seq!['V', 'V'],
        Pos::PU => seq!['P', 'U'],
        Pos::CC => seq!['C', 'C'],
        Pos::PS => seq!['P', 'S'],
        Pos::AX => seq!['A', 'X'],
        Pos::AV => seq!['A', 'V'],
        Pos::FX => seq!['F', 'X'],
        Pos::NU => seq!['N', 'U'],
        Pos::AJ => seq!['A', 'J'],
        Pos::CL => seq!['C', 'L'],
        Pos::PR => seq!['P', 'R'],
        Pos::NG => seq!['N', 'G'],
        Pos::PA => seq!['P', 'A'],
        Pos::XX => seq!['X', 'X'],
        Pos::IJ => seq!['I', 'J'],
    }
}

/// Every id below `NUM_TAGS` names a tag, and each tag's id names it back.
pub proof fn lemma_tag_index_roundtrip(i: int, t: Pos)
    ensures
        0 <= i < 16 ==> tag_index(tag_at(i)) == i,
        tag_at(tag_index(t) as int) == t,
        tag_index(t) < 16,
{
}

/// Distinct tags have distinct names, so a name determines its tag.
pub proof fn lemma_tag_names_distinct(a: Pos, b: Pos)
    ensures
        tag_name(a) == tag_name(b) ==> a == b,
{
    if tag_name(a) == tag_name(b) {
        assert(tag_name(a)[0] == tag_name(b)[0]);
        assert(tag_name(a)[1] == tag_name(b)[1]);
    }
}

impl Pos {
    /// Tags in dense-id order; `ALL[i].idx() == i`.
    pub const ALL: [Pos; NUM_TAGS] = [
        Pos::NN,
        Pos::VV,
        Pos::PU,
        Pos::CC,
        Pos::PS,
        Pos::AX,
        Pos::AV,
        Pos::FX,
        Pos::NU,
        Pos::AJ,
        Pos::CL,
        Pos::PR,
        Pos::NG,
        Pos::PA,
        Pos::XX,
        Pos::IJ,
    ];

    /// Dense id (0..NUM_TAGS) — the row/column index into every probability table.
    pub fn idx(self) -> (r: usize)
        ensures
            r == tag_index(self),
            r < NUM_TAGS,
    {
        match self {
            Pos::NN => 0,
            Pos::VV => 1,
            Pos::PU => 2,
            Pos::CC => 3,
            Pos::PS => 4,
            Pos::AX => 5,
            Pos::AV => 6,
            Pos::FX => 7,
            Pos::NU => 8,
            Pos::AJ => 9,
            Pos::CL => 10,
            Pos::PR => 11,
            Pos::NG => 12,
            Pos::PA => 13,
            Pos::XX => 14,
            Pos::IJ => 15,
        }
    }

    /// The tag with dense id `i`.
    pub fn from_idx(i: usize) -> (r: Pos)
        requires
            i < NUM_TAGS,
        ensures
            r == tag_at(i as int),
            tag_index(r) == i,
    {
        if i == 0 {
            Pos::NN
        } else if i == 1 {
            Pos::VV
        } else if i == 2 {
            Pos::PU
        } else if i == 3 {
            Pos::CC
        } else if i == 4 {
            Pos::PS
        } else if i == 5 {
            Pos::AX
        } else if i == 6 {
            Pos::AV
        } else if i == 7 {
            Pos::FX
        } else if i == 8 {
            Pos::NU
        } else if i == 9 {
            Pos::AJ
        } else if i == 10 {
            Pos::CL
        } else if i == 11 {
            Pos::PR
        } else if i == 12 {
            Pos::NG
        } else if i == 13 {
            Pos::PA
        } else if i == 14 {
            Pos::XX
        } else {
            Pos::IJ
        }
    }

    /// The LST20 surface string, e.g. `Pos::NN => "NN"`.
    pub fn as_str(self) -> (r: &'static str)
        ensures
            r@ == tag_name(self),
    {
        let r = match self {
            Pos::NN => "NN",
            Pos::VV => "VV",
            Pos::PU => "PU",
            Pos::CC => "CC",
            Pos::PS => "PS",
            Pos::AX => "AX",
            Pos::AV => "AV",
            Pos::FX => "FX",
            Pos::NU => "NU",
            Pos::AJ => "AJ",
            Pos::CL => "CL",
            Pos::PR => "PR",
            Pos::NG => "NG",
            Pos::PA => "PA",
            Pos::XX => "XX",
            Pos::IJ => "IJ",
        };
        proof {
            reveal_strlit("NN");
            reveal_strlit("VV");
            reveal_strlit("PU");
            reveal_strlit("CC");
            reveal_strlit("PS");
            reveal_strlit("AX");
            reveal_strlit("AV");
            reveal_strlit("FX");
            reveal_strlit("NU");
            reveal_strlit("AJ");
            reveal_strlit("CL");
            reveal_strlit("PR");
            reveal_strlit("NG");
            reveal_strlit("PA");
            reveal_strlit("XX");
            reveal_strlit("IJ");
        }
        r
    }

    /// Parse an LST20 POS string; `None` for anything outside the 16-tag set.
    pub fn from_str(s: &str) -> (r: Option<Pos>)
        ensures
            match r {
                Some(t) => tag_name(t) == s@,
                None => forall|t: Pos| tag_name(t) != s@,
            },
    {
        let mut i: usize = 0;
        while i < NUM_TAGS
            invariant
                i <= NUM_TAGS,
                forall|k: int| 0 <= k < i ==> tag_name(#[trigger] tag_at(k)) != s@,
            decreases NUM_TAGS - i,
        {
            let t = Pos::from_idx(i);
            if str_eq(t.as_str(), s) {
                return Some(t);
            }
            i += 1;
        }
        assert forall|t: Pos| tag_name(t) != s@ by {
            lemma_tag_index_roundtrip(0, t);
            assert(tag_name(tag_at(tag_index(t) as int)) != s@);
        }
        None
    }
}

/// `s` is the LST20 space token `_`.
pub open spec fn is_underscore(s: Seq<char>) -> bool {
    s == seq!['_']
}

/// The canonical emission key of a surface token: `_` and any non-empty all-white-space run
/// fold to a single ASCII space; everything else is unchanged.
pub open spec fn canonical_surface(s: Seq<char>) -> Seq<char> {
    if is_underscore(s) || (s.len() > 0 && all_white_space(s)) {
        seq![' ']
    } else {
        s
    }
}

/// Surface canonicalization shared by training and runtime: LST20's `_` space token and real
/// whitespace runs both become one ASCII space, so "space" is one vocabulary entry.
pub fn canon_surface(s: &str) -> (r: &str)
    ensures
        r@ == canonical_surface(s@),
{
    let cs = chars_of(s);
    let is_us = cs.len() == 1 && cs[0] == '_';
    assert(is_us == is_underscore(s@)) by {
        if cs.len() == 1 && cs@[0] == '_' {
            assert(s@ =~= seq!['_']);
        }
    }
    if is_us || (cs.len() > 0 && all_whitespace(&cs)) {
        let sp = " ";
        proof {
            reveal_strlit(" ");
        }
        sp
    } else {
        s
    }
}


/// An Arabic (0-9) or Thai (U+0E50..U+0E59) digit.
pub open spec fn is_digit_char(c: char) -> bool {
    ('0' <= c && c <= '9') || ('\u{0E50}' <= c && c <= '\u{0E59}')
}

/// A character of the Thai block U+0E00..U+0E7F.
pub open spec fn in_thai_block(c: char) -> bool {
    '\u{0E00}' <= c && c <= '\u{0E7F}'
}

/// Non-empty, and every character an Arabic or Thai digit.
pub open spec fn spec_all_digits(s: Seq<char>) -> bool {
    s.len() > 0 && forall|i: int| 0 <= i < s.len() ==> is_digit_char(#[trigger] s[i])
}

/// No Thai character, and at least one letter: a token of any non-Thai script.
pub open spec fn spec_foreign(s: Seq<char>) -> bool {
    &&& forall|i: int| 0 <= i < s.len() ==> !in_thai_block(#[trigger] s[i])
    &&& exists|i: int| 0 <= i < s.len() && unicode_alphabetic(#[trigger] s[i])
}

/// Carries the thanthakhat (karan) mark U+0E4C.
pub open spec fn spec_has_karan(s: Seq<char>) -> bool {
    exists|i: int| 0 <= i < s.len() && s[i] == '\u{0E4C}'
}

/// Non-empty with no letter and no digit: pure punctuation or symbols.
pub open spec fn spec_all_symbol(s: Seq<char>) -> bool {
    s.len() > 0 && forall|i: int| 0 <= i < s.len() ==> !unicode_alphanumeric(#[trigger] s[i])
}

/// The nominalizing prefix การ.
pub open spec fn prefix_kan() -> Seq<char> {
    seq!['\u{0E01}', '\u{0E32}', '\u{0E23}']
}

/// The nominalizing prefix ความ.
pub open spec fn prefix_khwam() -> Seq<char> {
    seq!['\u{0E04}', '\u{0E27}', '\u{0E32}', '\u{0E21}']
}

/// The agentive prefix ผู้.
pub open spec fn prefix_phu() -> Seq<char> {
    seq!['\u{0E1C}', '\u{0E39}', '\u{0E49}']
}

/// The suffix ศาสตร์ ("-ology").
pub open spec fn suffix_sat() -> Seq<char> {
    seq!['\u{0E28}', '\u{0E32}', '\u{0E2A}', '\u{0E15}', '\u{0E23}', '\u{0E4C}']
}

/// `s` is strictly longer than `p` and begins with it.
pub open spec fn proper_prefix(p: Seq<char>, s: Seq<char>) -> bool {
    s.len() > p.len() && is_prefix(p, s)
}

/// `s` is strictly longer than `p` and ends with it.
pub open spec fn proper_suffix(p: Seq<char>, s: Seq<char>) -> bool {
    s.len() > p.len() && is_suffix(p, s)
}

/// Productive Thai noun morphology: longer than, and starting with, การ / ความ / ผู้, or ending
/// with ศาสตร์.
pub open spec fn spec_noun_affix(s: Seq<char>) -> bool {
    proper_prefix(prefix_kan(), s) || proper_prefix(prefix_khwam(), s) || proper_prefix(
        prefix_phu(),
        s,
    ) || proper_suffix(suffix_sat(), s)
}

/// The tag an unknown token is routed to by its shape alone, if any: all-digit tokens to NU,
/// pure-symbol tokens to PU, foreign-script, karan-marked and noun-affixed tokens to NN.
pub open spec fn shape_tag(s: Seq<char>) -> Option<Pos> {
    if spec_all_digits(s) {
        Some(Pos::NU)
    } else if spec_all_symbol(s) {
        Some(Pos::PU)
    } else if spec_foreign(s) || spec_has_karan(s) || spec_noun_affix(s) {
        Some(Pos::NN)
    } else {
        None
    }
}

fn is_all_digits(s: &Vec<char>) -> (r: bool)
    ensures
        r == spec_all_digits(s@),
{
    if s.len() == 0 {
        return false;
    }
    let mut i: usize = 0;
    while i < s.len()
        invariant
            i <= s.len(),
            forall|k: int| 0 <= k < i ==> is_digit_char(#[trigger] s@[k]),
        decreases s.len() - i,
    {
        let c = s[i];
        if !(('0' <= c && c <= '9') || ('\u{0E50}' <= c && c <= '\u{0E59}')) {
            return false;
        }
        i += 1;
    }
    true
}

fn is_foreign(s: &Vec<char>) -> (r: bool)
    ensures
        r == spec_foreign(s@),
{
    let mut has_letter = false;
    let mut i: usize = 0;
    while i < s.len()
        invariant
            i <= s.len(),
            forall|k: int| 0 <= k < i ==> !in_thai_block(#[trigger] s@[k]),
            has_letter == exists|k: int| 0 <= k < i && unicode_alphabetic(#[trigger] s@[k]),
        decreases s.len() - i,
    {
        let c = s[i];
        if '\u{0E00}' <= c && c <= '\u{0E7F}' {
            return false;
        }
        let a = is_alphabetic_char(c);
        proof {
            if a {
                assert(unicode_alphabetic(s@[i as int]));
            }
            if !has_letter && !a {
                assert forall|k: int| 0 <= k < i + 1 implies !unicode_alphabetic(#[trigger] s@[k]) by {
                    if k < i {
                    }
                }
            }
        }
        has_letter = has_letter || a;
        i += 1;
    }
    has_letter
}

fn has_karan(s: &Vec<char>) -> (r: bool)
    ensures
        r == spec_has_karan(s@),
{
    let mut i: usize = 0;
    while i < s.len()
        invariant
            i <= s.len(),
            forall|k: int| 0 <= k < i ==> s@[k] != '\u{0E4C}',
        decreases s.len() - i,
    {
        if s[i] == '\u{0E4C}' {
            return true;
        }
        i += 1;
    }
    false
}

fn is_all_symbol(s: &Vec<char>) -> (r: bool)
    ensures
        r == spec_all_symbol(s@),
{
    if s.len() == 0 {
        return false;
    }
    let mut i: usize = 0;
    while i < s.len()
        invariant
            i <= s.len(),
            forall|k: int| 0 <= k < i ==> !unicode_alphanumeric(#[trigger] s@[k]),
        decreases s.len() - i,
    {
        if is_alphanumeric_char(s[i]) {
            return false;
        }
        i += 1;
    }
    true
}

fn has_noun_affix(s: &Vec<char>) -> (r: bool)
    ensures
        r == spec_noun_affix(s@),
{
    let kan = vec!['\u{0E01}', '\u{0E32}', '\u{0E23}'];
    let khwam = vec!['\u{0E04}', '\u{0E27}', '\u{0E32}', '\u{0E21}'];
    let phu = vec!['\u{0E1C}', '\u{0E39}', '\u{0E49}'];
    let sat = vec!['\u{0E28}', '\u{0E32}', '\u{0E2A}', '\u{0E15}', '\u{0E23}', '\u{0E4C}'];
    assert(kan@ =~= prefix_kan());
    assert(khwam@ =~= prefix_khwam());
    assert(phu@ =~= prefix_phu());
    assert(sat@ =~= suffix_sat());
    (s.len() > kan.len() && has_prefix(s, &kan)) || (s.len() > khwam.len() && has_prefix(s, &khwam))
        || (s.len() > phu.len() && has_prefix(s, &phu)) || (s.len() > sat.len() && has_suffix(
        s,
        &sat,
    ))
}

/// The shape rule an out-of-vocabulary token falls under: the tag it is routed to outright,
/// or `None` when it is left to the statistical unknown-word model. Takes the canonicalized
/// surface.
pub fn oov_shape_tag(word: &str) -> (r: Option<Pos>)
    ensures
        r == shape_tag(word@),
{
    let s = chars_of(word);
    if is_all_digits(&s) {
        Some(Pos::NU)
    } else if is_all_symbol(&s) {
        Some(Pos::PU)
    } else if is_foreign(&s) || has_karan(&s) || has_noun_affix(&s) {
        Some(Pos::NN)
    } else {
        None
    }
}

} // verus!
