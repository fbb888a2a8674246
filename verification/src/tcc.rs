//! Thai Character Cluster (TCC) segmentation: the atomic, deterministic grid that every
//! word and syllable boundary snaps to.
use vstd::prelude::*;
use crate::text::{byte_len, byte_offset, char_index_table, chars_of, is_boundary,
    lemma_byte_offset_mono, byte_length};
use regex::Regex;

verus! {

#[verifier::external_type_specification]
#[verifier::external_body]
pub struct ExRegex(Regex);

/// The TCC master pattern: `<tag>` markup, non-Thai runs (letters, marks, ASCII digits, with
/// anchored connector punctuation), Thai-numeral runs, the Thai cluster rules, and a
/// single-character fallback that matches anything, so the clusters tile any input.
pub const TCC_PATTERN: &'static str = "<[^<>]*>|[@#]?[\\p{L}\\p{M}0-9_--\\p{Thai}]+(?:[.,@:/#-]+[\\p{L}\\p{M}0-9_--\\p{Thai}]+)*|[\u{0E50}-\u{0E59}]+(?:[.,:][\u{0E50}-\u{0E59}]+)*|[\u{0E01}-\u{0E2E}][\u{0E31}]([\u{0E48}-\u{0E4B}][\u{0E01}-\u{0E2E}])?|[\u{0E01}-\u{0E2E}][\u{0E31}]([\u{0E48}-\u{0E4B}][\u{0E01}-\u{0E2E}])?([\u{0E01}-\u{0E2E}][\u{0E01}-\u{0E2E}]?(\u{0E38}|\u{0E39}|\u{0E34})?[\u{0E4C}])?|\u{0E40}[\u{0E01}-\u{0E2E}]\u{0E47}[\u{0E01}-\u{0E2E}]([\u{0E01}-\u{0E2E}][\u{0E01}-\u{0E2E}]?(\u{0E38}|\u{0E39}|\u{0E34})?[\u{0E4C}])?|\u{0E40}[\u{0E01}-\u{0E2E}][\u{0E01}-\u{0E2E}][\u{0E48}-\u{0E4B}]?\u{0E32}\u{0E30}([\u{0E01}-\u{0E2E}][\u{0E01}-\u{0E2E}]?(\u{0E38}|\u{0E39}|\u{0E34})?[\u{0E4C}])?|\u{0E40}[\u{0E01}-\u{0E2E}][\u{0E01}-\u{0E2E}]\u{0E35}[\u{0E48}-\u{0E4B}]?\u{0E22}\u{0E30}([\u{0E01}-\u{0E2E}][\u{0E01}-\u{0E2E}]?(\u{0E38}|\u{0E39}|\u{0E34})?[\u{0E4C}])?|\u{0E40}[\u{0E01}-\u{0E2E}][\u{0E01}-\u{0E2E}]\u{0E35}[\u{0E48}-\u{0E4B}]?\u{0E22}|\u{0E40}[\u{0E01}-\u{0E2E}][\u{0E34}\u{0E35}\u{0E38}\u{0E39}][\u{0E48}-\u{0E4B}]?\u{0E22}|\u{0E40}[\u{0E01}-\u{0E2E}][\u{0E01}-\u{0E2E}]\u{0E47}[\u{0E01}-\u{0E2E}]([\u{0E01}-\u{0E2E}][\u{0E01}-\u{0E2E}]?(\u{0E38}|\u{0E39}|\u{0E34})?[\u{0E4C}])?|\u{0E40}[\u{0E01}-\u{0E2E}]\u{0E34}[\u{0E01}-\u{0E2E}]\u{0E4C}[\u{0E01}-\u{0E2E}]([\u{0E01}-\u{0E2E}][\u{0E01}-\u{0E2E}]?(\u{0E38}|\u{0E39}|\u{0E34})?[\u{0E4C}])?|\u{0E40}[\u{0E01}-\u{0E2E}]\u{0E34}[\u{0E48}-\u{0E4B}]?[\u{0E01}-\u{0E2E}]([\u{0E01}-\u{0E2E}][\u{0E01}-\u{0E2E}]?(\u{0E38}|\u{0E39}|\u{0E34})?[\u{0E4C}])?|\u{0E40}[\u{0E01}-\u{0E2E}]\u{0E35}[\u{0E48}-\u{0E4B}]?\u{0E22}\u{0E30}?|\u{0E40}[\u{0E01}-\u{0E2E}]\u{0E37}[\u{0E48}-\u{0E4B}]?\u{0E2D}\u{0E30}([\u{0E01}-\u{0E2E}][\u{0E01}-\u{0E2E}]?(\u{0E38}|\u{0E39}|\u{0E34})?[\u{0E4C}])?|\u{0E40}[\u{0E01}-\u{0E2E}]\u{0E37}|\u{0E40}[\u{0E01}-\u{0E2E}][\u{0E48}-\u{0E4B}]?\u{0E32}?\u{0E30}?|[\u{0E01}-\u{0E2E}][\u{0E36}\u{0E37}][\u{0E48}-\u{0E4B}]?[\u{0E01}-\u{0E2E}]([\u{0E01}-\u{0E2E}][\u{0E01}-\u{0E2E}]?(\u{0E38}|\u{0E39}|\u{0E34})?[\u{0E4C}])?|[\u{0E01}-\u{0E2E}][\u{0E30}-\u{0E39}][\u{0E48}-\u{0E4B}]?([\u{0E01}-\u{0E2E}][\u{0E01}-\u{0E2E}]?(\u{0E38}|\u{0E39}|\u{0E34})?[\u{0E4C}])?|[\u{0E01}-\u{0E2E}][\u{0E34}\u{0E38}\u{0E39}]\u{0E4C}|[\u{0E01}-\u{0E2E}]\u{0E23}\u{0E23}[\u{0E01}-\u{0E2E}]\u{0E4C}|[\u{0E01}-\u{0E2E}]\u{0E47}|[\u{0E01}-\u{0E2E}][\u{0E48}-\u{0E4B}]?[\u{0E30}\u{0E32}\u{0E33}]?|\u{0E41}[\u{0E01}-\u{0E2E}]\u{0E47}[\u{0E01}-\u{0E2E}]([\u{0E01}-\u{0E2E}][\u{0E01}-\u{0E2E}]?(\u{0E38}|\u{0E39}|\u{0E34})?[\u{0E4C}])?|\u{0E41}[\u{0E01}-\u{0E2E}][\u{0E01}-\u{0E2E}]\u{0E4C}([\u{0E01}-\u{0E2E}][\u{0E01}-\u{0E2E}]?(\u{0E38}|\u{0E39}|\u{0E34})?[\u{0E4C}])?|\u{0E41}[\u{0E01}-\u{0E2E}][\u{0E48}-\u{0E4B}]?\u{0E30}([\u{0E01}-\u{0E2E}][\u{0E01}-\u{0E2E}]?(\u{0E38}|\u{0E39}|\u{0E34})?[\u{0E4C}])?|\u{0E41}[\u{0E01}-\u{0E2E}][\u{0E01}-\u{0E2E}]\u{0E47}[\u{0E01}-\u{0E2E}]([\u{0E01}-\u{0E2E}][\u{0E01}-\u{0E2E}]?(\u{0E38}|\u{0E39}|\u{0E34})?[\u{0E4C}])?|\u{0E41}[\u{0E01}-\u{0E2E}][\u{0E01}-\u{0E2E}][\u{0E01}-\u{0E2E}]\u{0E4C}([\u{0E01}-\u{0E2E}][\u{0E01}-\u{0E2E}]?(\u{0E38}|\u{0E39}|\u{0E34})?[\u{0E4C}])?|\u{0E42}[\u{0E01}-\u{0E2E}][\u{0E48}-\u{0E4B}]?\u{0E30}([\u{0E01}-\u{0E2E}][\u{0E01}-\u{0E2E}]?(\u{0E38}|\u{0E39}|\u{0E34})?[\u{0E4C}])?|[\u{0E40}-\u{0E44}][\u{0E01}-\u{0E2E}][\u{0E48}-\u{0E4B}]?([\u{0E01}-\u{0E2E}][\u{0E01}-\u{0E2E}]?(\u{0E38}|\u{0E39}|\u{0E34})?[\u{0E4C}])?|\u{0E01}\u{0E47}|\u{0E2D}\u{0E36}|\u{0E2B}\u{0E36}|[\\s\\S]";

/// A grid of cluster boundaries over `text`: byte offsets that start at 0, strictly increase,
/// fall between characters, and end at the text's byte length.
pub open spec fn is_grid(text: Seq<char>, positions: Seq<usize>) -> bool {
    &&& positions.len() >= 1
    &&& positions[0] == 0
    &&& forall|k: int| 0 < k < positions.len() ==> positions[k - 1] < #[trigger] positions[k]
    &&& forall|k: int| 0 <= k < positions.len() ==> is_boundary(text, #[trigger] positions[k] as int)
    &&& positions.last() == byte_len(text)
}

/// Name for the byte offsets at which the successive leftmost-first, non-overlapping matches
/// of `TCC_PATTERN` end when it is searched over `text`.
pub uninterp spec fn tcc_match_ends(text: Seq<char>) -> Seq<usize>;

/// Rule-based TCC segmenter; the compiled master pattern is built once and reused.
pub struct TccSegmenter {
    tcc_regex: Regex,
}

/// Name for whether `regex::Regex::new` accepts `pattern`.
pub uninterp spec fn regex_compiles(pattern: Seq<char>) -> bool;

/// Calls `regex::Regex::new` on `pattern`. Trusted: it succeeds exactly when the named
/// predicate holds of the pattern.
#[verifier::external_body]
fn compile_pattern(pattern: &str) -> (r: Option<Regex>)
    ensures
        r is Some <==> regex_compiles(pattern@),
{
    Regex::new(pattern).ok()
}

/// Calls `regex::Regex::find_iter` with the segmenter's regex (compiled from `TCC_PATTERN`,
/// its only constructor being `TccSegmenter::new`) and collects each match's
/// `end()`. Trusted: the result is the named sequence of match ends. The regex crate documents
/// `find_iter` as returning successive non-overlapping leftmost-first matches with offsets on
/// UTF-8 boundaries; because no alternative of `TCC_PATTERN` matches the empty string and its
/// last alternative `[\\s\\S]` matches any character, each search finds a non-empty match that
/// starts where the previous one ended. Hence the ends strictly increase, lie between characters,
/// and the last is the text's byte length (no match at all for empty text).
#[verifier::external_body]
fn cluster_ends(seg: &TccSegmenter, text: &str) -> (r: Vec<usize>)
    ensures
        r@ == tcc_match_ends(text@),
        r.len() == 0 <==> text@.len() == 0,
        r.len() > 0 ==> r@[0] > 0,
        forall|k: int| 0 < k < r.len() ==> r@[k - 1] < #[trigger] r@[k],
        forall|k: int| 0 <= k < r.len() ==> is_boundary(text@, #[trigger] r@[k] as int),
        r.len() > 0 ==> r@.last() == byte_len(text@),
{
    seg.tcc_regex.find_iter(text).map(|m| m.end()).collect()
}

impl TccSegmenter {
    /// Compiles the master pattern; `None` if it fails to compile.
    pub fn new() -> (r: Option<TccSegmenter>)
        ensures
            r is Some <==> regex_compiles(TCC_PATTERN@),
    {
        match compile_pattern(TCC_PATTERN) {
            Some(tcc_regex) => Some(TccSegmenter { tcc_regex }),
            None => None,
        }
    }

    /// Unbreakable TCC boundaries as UTF-8 byte offsets: 0, then the end of each cluster.
    pub fn find_byte_positions(&self, text: &str) -> (r: Vec<usize>)
        ensures
            r@ == seq![0usize] + tcc_match_ends(text@),
            is_grid(text@, r@),
    {
        let ends = cluster_ends(self, text);
        let mut positions: Vec<usize> = Vec::new();
        positions.push(0);
        let mut i: usize = 0;
        while i < ends.len()
            invariant
                i <= ends.len(),
                positions@ == seq![0usize] + ends@.subrange(0, i as int),
            decreases ends.len() - i,
        {
            positions.push(ends[i]);
            i += 1;
            assert(positions@ =~= seq![0usize] + ends@.subrange(0, i as int));
        }
        assert(ends@.subrange(0, ends.len() as int) =~= ends@);
        proof {
            assert(is_boundary(text@, 0)) by {
                assert(byte_offset(text@, 0) == 0);
            }
            assert forall|k: int| 0 < k < positions.len() implies positions@[k - 1]
                < #[trigger] positions@[k] by {
                if k >= 2 {
                    assert(positions@[k - 1] == ends@[k - 2]);
                }
            }
            assert forall|k: int| 0 <= k < positions.len() implies is_boundary(
                text@,
                #[trigger] positions@[k] as int,
            ) by {
                if k >= 1 {
                    assert(positions@[k] == ends@[k - 1]);
                }
            }
            if ends.len() == 0 {
                assert(byte_len(text@) == 0);
            }
        }
        positions
    }

    /// Unbreakable TCC boundaries as Unicode character indices (what slicing by character
    /// expects): the character index of each byte boundary of `find_byte_positions`.
    pub fn find_positions(&self, text: &str) -> (r: Vec<i32>)
        requires
            text@.len() < 0x7fff_ffff,
        ensures
            ({
                let bytes = seq![0usize] + tcc_match_ends(text@);
                &&& r.len() == bytes.len()
                &&& forall|k: int|
                    0 <= k < r.len() ==> 0 <= #[trigger] r@[k] <= text@.len() && byte_offset(
                        text@,
                        r@[k] as int,
                    ) == bytes[k]
            }),
    {
        let chars = chars_of(text);
        let n = byte_length(text);
        proof {
            crate::text::lemma_offsets_bounded(text@);
        }
        let byte_to_char = char_index_table(text, &chars, n);
        let positions = self.find_byte_positions(text);
        let mut r: Vec<i32> = Vec::new();
        let mut k: usize = 0;
        while k < positions.len()
            invariant
                is_grid(text@, positions@),
                text@.len() < 0x7fff_ffff,
                n == byte_len(text@),
                forall|j: int| 0 <= j <= text@.len() ==> #[trigger] byte_offset(text@, j) <= n,
                byte_to_char.len() == n + 1,
                forall|j: int|
                    0 <= j <= text@.len() ==> #[trigger] byte_to_char@[byte_offset(text@, j) as int]
                        == j,
                k <= positions.len(),
                r.len() == k,
                forall|x: int|
                    0 <= x < k ==> 0 <= #[trigger] r@[x] <= text@.len() && byte_offset(
                        text@,
                        r@[x] as int,
                    ) == positions@[x],
            decreases positions.len() - k,
        {
            let p = positions[k];
            proof {
                assert(is_boundary(text@, positions@[k as int] as int));
                let j = choose|j: int| 0 <= j <= text@.len() && #[trigger] byte_offset(text@, j) == p;
                lemma_byte_offset_mono(text@, j, text@.len() as int);
                assert(byte_to_char@[byte_offset(text@, j) as int] == j);
            }
            r.push(byte_to_char[p] as i32);
            k += 1;
        }
        r
    }
}

} // verus!
