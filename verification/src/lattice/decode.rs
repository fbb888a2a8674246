//! Word/syllable segmentation as the first instantiation of the grid lattice: the TCC grid,
//! grid-aligned dictionary candidates, and the TCC fallback chain.
use vstd::prelude::*;
use crate::lattice::grid::{Edge, dense_grid_index};
use crate::lattice::tokens::LatticeTier;
use crate::lattice::dictionary::{dictionary_standard, dictionary_words, find_matches, occurrence};
use daachorse::CharwiseDoubleArrayAhoCorasick;

verus! {

/// Marks a byte offset that is not a grid boundary in the byte-to-grid-index table.
pub const NON_BOUNDARY: u32 = 0xFFFF_FFFF;

/// Grid positions strictly increase.
pub open spec fn strictly_increasing(p: Seq<usize>) -> bool {
    forall|a: int, b: int| 0 <= a < b < p.len() ==> #[trigger] p[a] < #[trigger] p[b]
}

/// `bti` maps each grid position `positions[k]` to `k` and every other offset to
/// `NON_BOUNDARY`.
pub open spec fn grid_table(bti: Seq<u32>, positions: Seq<usize>) -> bool {
    &&& forall|k: int| 0 <= k < positions.len() ==> #[trigger] positions[k] < bti.len() && bti[positions[k] as int] == k
    &&& forall|b: int| 0 <= b < bti.len() ==> (#[trigger] bti[b] == NON_BOUNDARY || (bti[b] < positions.len() && positions[bti[b] as int] == b))
}

/// A grid table numbers the grid points of strictly increasing positions in byte order.
pub proof fn lemma_grid_table_dense(bti: Seq<u32>, positions: Seq<usize>)
    requires
        grid_table(bti, positions),
        strictly_increasing(positions),
        positions.len() < NON_BOUNDARY,
    ensures
        dense_grid_index(bti, positions.len() as int),
{
    assert forall|x: int, y: int|
        0 <= x < y < bti.len() && bti[x] < positions.len() && bti[y] < positions.len() implies #[trigger] bti[x] < #[trigger] bti[y] by {
        assert(positions[bti[x] as int] == x);
        assert(positions[bti[y] as int] == y);
        if bti[x] >= bti[y] {
            if bti[x] > bti[y] {
                assert(positions[bti[y] as int] < positions[bti[x] as int]);
            }
        }
    }
}

/// The byte-to-grid-index table over a text of `text_len` bytes: `NON_BOUNDARY` everywhere but
/// at the grid positions, which map to their index. Its non-sentinel entries are the boundary
/// test.
pub fn grid_index(positions: &Vec<usize>, text_len: usize) -> (bti: Vec<u32>)
    requires
        strictly_increasing(positions@),
        forall|k: int| 0 <= k < positions.len() ==> #[trigger] positions@[k] <= text_len,
        positions.len() < NON_BOUNDARY,
        text_len < usize::MAX,
    ensures
        bti.len() == text_len + 1,
        grid_table(bti@, positions@),
{
    let mut bti: Vec<u32> = Vec::new();
    let mut b: usize = 0;
    while b <= text_len
        invariant
            b <= text_len + 1,
            text_len < usize::MAX,
            bti.len() == b,
            forall|x: int| 0 <= x < b ==> #[trigger] bti@[x] == NON_BOUNDARY,
        decreases text_len + 1 - b,
    {
        bti.push(NON_BOUNDARY);
        b += 1;
    }
    let mut k: usize = 0;
    while k < positions.len()
        invariant
            k <= positions.len(),
            positions.len() < NON_BOUNDARY,
            strictly_increasing(positions@),
            forall|m: int| 0 <= m < positions.len() ==> #[trigger] positions@[m] <= text_len,
            bti.len() == text_len + 1,
            forall|m: int| 0 <= m < k ==> #[trigger] bti@[positions@[m] as int] == m,
            forall|x: int| 0 <= x < bti.len() ==> (#[trigger] bti@[x] == NON_BOUNDARY || (bti@[x] < k && positions@[bti@[x] as int] == x)),
        decreases positions.len() - k,
    {
        let ghost old_b = bti@;
        bti.set(positions[k], k as u32);
        proof {
            assert forall|m: int| 0 <= m < k + 1 implies #[trigger] bti@[positions@[m] as int] == m by {
                if m < k {
                    assert(positions@[m] < positions@[k as int]);
                }
            }
        }
        k += 1;
    }
    bti
}

/// One node per TCC: edges `[positions[k], positions[k + 1])`, the fallback chain that
/// guarantees a complete path through any region between grid points.
pub fn tcc_fallback(positions: &Vec<usize>) -> (r: Vec<Edge<LatticeTier>>)
    ensures
        r.len() == if positions.len() == 0 { 0 } else { positions.len() - 1 },
        forall|k: int| 0 <= k < r.len() ==> (#[trigger] r@[k]).start == positions@[k] && r@[k].end == positions@[k + 1] && r@[k].payload == LatticeTier::Tcc,
{
    let mut r: Vec<Edge<LatticeTier>> = Vec::new();
    if positions.len() == 0 {
        return r;
    }
    let mut k: usize = 0;
    while k + 1 < positions.len()
        invariant
            positions.len() > 0,
            k + 1 <= positions.len(),
            r.len() == k,
            forall|m: int| 0 <= m < r.len() ==> (#[trigger] r@[m]).start == positions@[m] && r@[m].end == positions@[m + 1] && r@[m].payload == LatticeTier::Tcc,
        decreases positions.len() - k,
    {
        r.push(Edge { start: positions[k], end: positions[k + 1], payload: LatticeTier::Tcc });
        k += 1;
    }
    r
}

/// Bytes `[s, e)` lie on the grid and span between 1 and `cap` clusters (`cap == 0`: no cap).
pub open spec fn grid_span(bti: Seq<u32>, s: int, e: int, cap: usize) -> bool {
    &&& 0 <= s < bti.len()
    &&& 0 <= e < bti.len()
    &&& bti[s] != NON_BOUNDARY
    &&& bti[e] != NON_BOUNDARY
    &&& 1 <= bti[e] - bti[s]
    &&& (cap == 0 || bti[e] - bti[s] <= cap)
}

/// Overlapping dictionary matches, kept only when grid-aligned and within `max_word_tcc`
/// clusters (`0` disables the cap). Every grid-aligned dictionary occurrence within the cap
/// becomes a candidate of tier `tier`, and nothing else does.
pub(crate) fn dict_candidates(
    trie: &CharwiseDoubleArrayAhoCorasick<usize>,
    text: &str,
    tier: LatticeTier,
    byte_to_idx: &Vec<u32>,
    max_word_tcc: usize,
) -> (r: Vec<Edge<LatticeTier>>)
    requires
        dictionary_standard(*trie),
        byte_to_idx.len() == crate::text::byte_len(text@) + 1,
        dense_grid_index(byte_to_idx@, NON_BOUNDARY as int),
    ensures
        forall|k: int| 0 <= k < r.len() ==> {
            &&& (#[trigger] r@[k]).payload == tier
            &&& grid_span(byte_to_idx@, r@[k].start as int, r@[k].end as int, max_word_tcc)
            &&& occurrence(text@, dictionary_words(*trie), r@[k].start as int, r@[k].end as int)
        },
        forall|s: int, e: int| #[trigger] occurrence(text@, dictionary_words(*trie), s, e) && grid_span(byte_to_idx@, s, e, max_word_tcc) ==> exists|k: int|
            0 <= k < r.len() && r@[k].start == s && r@[k].end == e,
{
    let matches = find_matches(trie, text);
    let mut cands: Vec<Edge<LatticeTier>> = Vec::new();
    let mut m: usize = 0;
    while m < matches.len()
        invariant
            m <= matches.len(),
            byte_to_idx.len() == crate::text::byte_len(text@) + 1,
            dense_grid_index(byte_to_idx@, NON_BOUNDARY as int),
            forall|k: int| 0 <= k < matches.len() ==> occurrence(text@, dictionary_words(*trie), (#[trigger] matches@[k]).0 as int, matches@[k].1 as int),
            forall|k: int| 0 <= k < cands.len() ==> {
                &&& (#[trigger] cands@[k]).payload == tier
                &&& grid_span(byte_to_idx@, cands@[k].start as int, cands@[k].end as int, max_word_tcc)
                &&& occurrence(text@, dictionary_words(*trie), cands@[k].start as int, cands@[k].end as int)
            },
            forall|x: int| 0 <= x < m && grid_span(byte_to_idx@, matches@[x].0 as int, matches@[x].1 as int, max_word_tcc) ==> exists|k: int|
                0 <= k < cands.len() && cands@[k].start == (#[trigger] matches@[x]).0 && cands@[k].end == matches@[x].1,
        decreases matches.len() - m,
    {
        let (s, e) = matches[m];
        proof {
            let (i, j) = choose|i: int, j: int| #[trigger] crate::lattice::dictionary::occurs_at(text@, dictionary_words(*trie), s as int, e as int, i, j);
            crate::text::lemma_offsets_bounded(text@);
            crate::text::lemma_byte_offset_strict(text@, i, j);
        }
        let si = byte_to_idx[s];
        let ei = byte_to_idx[e];
        if si != NON_BOUNDARY && ei != NON_BOUNDARY {
            proof {
                assert(byte_to_idx@[s as int] < byte_to_idx@[e as int]);
            }
            let len_tcc = (ei - si) as usize;
            if len_tcc >= 1 && (max_word_tcc == 0 || len_tcc <= max_word_tcc) {
                let ghost old_c = cands@;
                cands.push(Edge { start: s, end: e, payload: tier });
                proof {
                    assert forall|x: int| 0 <= x < m + 1 && grid_span(byte_to_idx@, matches@[x].0 as int, matches@[x].1 as int, max_word_tcc) implies exists|k: int|
                        0 <= k < cands.len() && cands@[k].start == (#[trigger] matches@[x]).0 && cands@[k].end == matches@[x].1 by {
                        if x < m {
                            let k = choose|k: int| 0 <= k < old_c.len() && old_c[k].start == matches@[x].0 && old_c[k].end == matches@[x].1;
                            assert(cands@[k] == old_c[k]);
                        } else {
                            assert(cands@[old_c.len() as int].start == s);
                        }
                    }
                }
            }
        }
        m += 1;
    }
    proof {
        assert forall|s: int, e: int| #[trigger] occurrence(text@, dictionary_words(*trie), s, e) && grid_span(byte_to_idx@, s, e, max_word_tcc) implies exists|k: int|
            0 <= k < cands.len() && cands@[k].start == s && cands@[k].end == e by {
            let x = choose|x: int| 0 <= x < matches.len() && matches@[x].0 == s && matches@[x].1 == e;
            assert(grid_span(byte_to_idx@, matches@[x].0 as int, matches@[x].1 as int, max_word_tcc));
        }
    }
    cands
}

} // verus!
