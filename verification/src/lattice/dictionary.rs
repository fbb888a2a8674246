//! Dictionary matching over text with a character-wise double-array Aho-Corasick automaton.
use vstd::prelude::*;
use crate::text::byte_offset;
use daachorse::CharwiseDoubleArrayAhoCorasick;

verus! {

#[verifier::external_type_specification]
#[verifier::external_body]
#[verifier::reject_recursive_types(V)]
pub struct ExCharwiseDoubleArrayAhoCorasick<V>(CharwiseDoubleArrayAhoCorasick<V>);

/// Name for the set of patterns an automaton was built from.
pub uninterp spec fn dictionary_words(d: CharwiseDoubleArrayAhoCorasick<usize>) -> Set<Seq<char>>;

/// Characters `[i, j)` of `text` spell a dictionary word and occupy bytes `[s, e)`.
pub open spec fn occurs_at(text: Seq<char>, words: Set<Seq<char>>, s: int, e: int, i: int, j: int) -> bool {
    &&& 0 <= i < j <= text.len()
    &&& byte_offset(text, i) == s
    &&& byte_offset(text, j) == e
    &&& words.contains(text.subrange(i, j))
}

/// Bytes `[s, e)` of `text` hold an occurrence of a dictionary word.
pub open spec fn occurrence(text: Seq<char>, words: Set<Seq<char>>, s: int, e: int) -> bool {
    exists|i: int, j: int| #[trigger] occurs_at(text, words, s, e, i, j)
}

/// Name for whether `CharwiseDoubleArrayAhoCorasick::with_values` succeeds on the given
/// pattern-value pairs.
pub uninterp spec fn dictionary_builds(patterns: Seq<(Seq<char>, usize)>) -> bool;

/// Name for whether an automaton was built with the standard match kind, the only kind on
/// which `find_overlapping_iter` runs (it panics on any other).
pub uninterp spec fn dictionary_standard(d: CharwiseDoubleArrayAhoCorasick<usize>) -> bool;

/// Calls `CharwiseDoubleArrayAhoCorasick::with_values` (standard match kind) on the
/// pattern-value pairs. Trusted: it succeeds exactly when the named predicate holds of the
/// pairs; daachorse documents that building fails when the list is empty, holds an empty
/// pattern or a duplicate pattern, or outgrows the automaton's 32-bit state space (a limit
/// that depends on the internal layout, so it is left unsaid); when it succeeds, the
/// automaton's patterns are exactly those given, none of them empty.
#[verifier::external_body]
pub(crate) fn build_dictionary(patterns: Vec<(String, usize)>) -> (r: Option<CharwiseDoubleArrayAhoCorasick<usize>>)
    ensures
        r is Some <==> dictionary_builds(patterns@.map_values(|p: (String, usize)| (p.0@, p.1))),
        r matches Some(d) ==> dictionary_standard(d),
        r matches Some(d) ==> dictionary_words(d) == Set::new(
            |p: Seq<char>| exists|k: int| 0 <= k < patterns.len() && patterns@[k].0@ == p,
        ),
        r matches Some(d) ==> forall|k: int| 0 <= k < patterns.len() ==> (#[trigger] patterns@[k]).0@.len() > 0,
        r is Some ==> patterns.len() > 0,
        r is Some ==> forall|a: int, b: int| 0 <= a < patterns.len() && 0 <= b < patterns.len() && a != b
            ==> (#[trigger] patterns@[a]).0@ != (#[trigger] patterns@[b]).0@,
{
    CharwiseDoubleArrayAhoCorasick::with_values(patterns).ok()
}

/// Calls `find_overlapping_iter` on `text` and collects each match's `(start(), end())` byte
/// offsets. Trusted: daachorse documents this iterator as yielding every (overlapping)
/// occurrence of every pattern, as UTF-8 byte offsets into `text`. The order in which they
/// come is not stated. The automaton must have the standard match kind: on any other,
/// `find_overlapping_iter` panics.
#[verifier::external_body]
pub(crate) fn find_matches(d: &CharwiseDoubleArrayAhoCorasick<usize>, text: &str) -> (r: Vec<(usize, usize)>)
    requires
        dictionary_standard(*d),
    ensures
        forall|k: int| 0 <= k < r.len() ==> occurrence(text@, dictionary_words(*d), (#[trigger] r@[k]).0 as int, r@[k].1 as int),
        forall|s: int, e: int| #[trigger] occurrence(text@, dictionary_words(*d), s, e) ==> exists|k: int|
            0 <= k < r.len() && r@[k].0 == s && r@[k].1 == e,
{
    d.find_overlapping_iter(text).map(|m| (m.start(), m.end())).collect()
}

} // verus!
