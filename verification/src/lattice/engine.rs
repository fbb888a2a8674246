//! The segmentation engine: dictionaries and TCC grid, the word and syllable decodes, OOV
//! coalescing and the branching-entropy merge, returning packed token streams.
use vstd::prelude::*;
use crate::lattice::decode::{NON_BOUNDARY, dict_candidates, grid_index, grid_span, grid_table,
    lemma_grid_table_dense, strictly_increasing, tcc_fallback};
use crate::lattice::dictionary::{build_dictionary, dictionary_builds, dictionary_standard, dictionary_words, occurrence};
use crate::lattice::grid::{Edge, LatticeModel, PathScore, chain_score, lattice_laws, dense_grid_index, edges_on_grid, has_path,
    in_region, is_path, viterbi};
use crate::lattice::spans::{coalesce, coalesce_oov, lemma_merged_none, merged, lemma_coalesce_tiles, lemma_coalesce_words, lemma_merged_keeps, lemma_merged_tiles,
    lemma_tiles_concat, lemma_tiles_push, merge_short_runs, on_grid, tiles};
use crate::lattice::tokens::{LatticeTier, pack, packed, tier_code, tier_flag};
use crate::tcc::{TccSegmenter, is_grid, regex_compiles, tcc_match_ends, TCC_PATTERN};
use crate::text::{split_lines, string_from_chars, text_lines, byte_len, byte_length, byte_offset, char_index_table, chars_of, is_boundary,
    lemma_byte_offset_injective, lemma_byte_offset_mono, lemma_offsets_bounded, utf8_width};
use daachorse::CharwiseDoubleArrayAhoCorasick;

verus! {

/// Decides whether the two sides of a boundary inside an unknown run cohere into one word
/// (the branching-entropy test of the OOV merge).
pub trait BoundaryCohesion {
    /// Whether the boundary at byte `p` of `text` is word-internal.
    spec fn coheres_spec(&self, text: &str, p: usize) -> bool;

    /// Whether the boundary at byte `p` of `text` is word-internal.
    fn coheres(&self, text: &str, p: usize) -> (r: bool)
        ensures
            r == self.coheres_spec(text, p),
    ;
}

/// The context of every edge under `model`, in edge order.
pub fn contexts<M: LatticeModel>(model: &M, edges: &Vec<Edge<M::Payload>>) -> (r: Vec<M::Ctx>)
    ensures
        r.len() == edges.len(),
        forall|i: int| 0 <= i < edges.len() ==> #[trigger] r@[i] == model.context_of(edges@[i]),
{
    let mut r: Vec<M::Ctx> = Vec::new();
    let mut i: usize = 0;
    while i < edges.len()
        invariant
            i <= edges.len(),
            r.len() == i,
            forall|k: int| 0 <= k < i ==> #[trigger] r@[k] == model.context_of(edges@[k]),
        decreases edges.len() - i,
    {
        r.push(model.edge_context(&edges[i]));
        i += 1;
    }
    r
}

/// Consecutive increase makes a sequence strictly increasing.
pub proof fn lemma_increasing(p: Seq<usize>)
    requires
        forall|k: int| 0 < k < p.len() ==> p[k - 1] < #[trigger] p[k],
    ensures
        strictly_increasing(p),
        forall|k: int| 0 <= k < p.len() ==> p[0] + k <= #[trigger] p[k],
{
    assert forall|k: int| 0 <= k < p.len() implies p[0] + k <= #[trigger] p[k] by {
        lemma_increasing_step(p, k);
    }
    assert forall|a: int, b: int| 0 <= a < b < p.len() implies #[trigger] p[a] < #[trigger] p[b] by {
        lemma_increasing_between(p, a, b);
    }
}

proof fn lemma_increasing_step(p: Seq<usize>, k: int)
    requires
        forall|x: int| 0 < x < p.len() ==> p[x - 1] < #[trigger] p[x],
        0 <= k < p.len(),
    ensures
        p[0] + k <= p[k],
    decreases k,
{
    if k > 0 {
        lemma_increasing_step(p, k - 1);
    }
}

proof fn lemma_increasing_between(p: Seq<usize>, a: int, b: int)
    requires
        forall|x: int| 0 < x < p.len() ==> p[x - 1] < #[trigger] p[x],
        0 <= a < b < p.len(),
    ensures
        p[a] < p[b],
    decreases b - a,
{
    if b - 1 > a {
        lemma_increasing_between(p, a, b - 1);
    }
}

/// A TCC grid strictly increases, stays within the text, and has at most one position per byte
/// plus one.
pub proof fn lemma_grid_bounded(text: Seq<char>, positions: Seq<usize>)
    requires
        is_grid(text, positions),
    ensures
        strictly_increasing(positions),
        forall|k: int| 0 <= k < positions.len() ==> #[trigger] positions[k] <= byte_len(text),
        positions.len() <= byte_len(text) + 1,
{
    lemma_increasing(positions);
    let n = byte_len(text);
    assert(positions[positions.len() - 1] == n);
    assert forall|k: int| 0 <= k < positions.len() implies #[trigger] positions[k] <= n by {
        if k < positions.len() - 1 {
            assert(positions[k] < positions[positions.len() - 1]);
        }
    }
    assert(positions[0] + (positions.len() - 1) <= positions[positions.len() - 1]);
}

/// Candidates `extra ++ fallback` where `fallback` is the TCC chain over `positions`: between
/// any two grid positions `positions[a] < positions[b]`, the fallback chain is a complete path.
pub proof fn lemma_fallback_path(edges: Seq<Edge<LatticeTier>>, d: int, positions: Seq<usize>, a: int, b: int)
    requires
        0 <= d,
        0 <= a < b < positions.len(),
        strictly_increasing(positions),
        edges.len() == d + positions.len() - 1,
        edges.len() <= usize::MAX,
        forall|k: int| 0 <= k < positions.len() - 1 ==> (#[trigger] edges[d + k]).start == positions[k] && edges[d + k].end == positions[k + 1],
    ensures
        has_path(edges, positions[a] as int, positions[b] as int),
{
    let rs = positions[a] as int;
    let re = positions[b] as int;
    let c = Seq::new((b - a) as nat, |k: int| (d + a + k) as usize);
    assert forall|k: int| 0 <= k < c.len() implies #[trigger] c[k] < edges.len() && in_region(edges[c[k] as int], rs, re) by {
        assert(edges[d + (a + k)].start == positions[a + k]);
        if a < a + k {
            assert(positions[a] < positions[a + k]);
        }
        if a + k + 1 < b {
            assert(positions[a + k + 1] < positions[b]);
        }
    }
    assert forall|k: int| 0 <= k < c.len() - 1 implies edges[#[trigger] c[k] as int].end == edges[c[k + 1] as int].start by {
        assert(edges[d + (a + k)].end == positions[a + k + 1]);
        assert(edges[d + (a + k + 1)].start == positions[a + k + 1]);
    }
    assert(edges[c[0] as int].start == rs) by {
        assert(edges[d + a].start == positions[a]);
    }
    assert(edges[c.last() as int].end == re) by {
        assert(c.last() == d + (b - 1));
        assert(edges[d + (b - 1)].end == positions[b - 1 + 1]);
    }
    assert(is_path(edges, c, rs, re));
}

/// Edges whose both ends are grid positions with `start < end` lie on the grid table.
pub open spec fn grid_edges(edges: Seq<Edge<LatticeTier>>, positions: Seq<usize>) -> bool {
    forall|i: int| 0 <= i < edges.len() ==> {
        &&& (#[trigger] edges[i]).start < edges[i].end
        &&& positions.contains(edges[i].start)
        &&& positions.contains(edges[i].end)
    }
}

/// Grid edges satisfy the decode's grid requirement for any region.
pub proof fn lemma_grid_edges_on_grid(edges: Seq<Edge<LatticeTier>>, positions: Seq<usize>, bti: Seq<u32>, rs: int, re: int)
    requires
        grid_edges(edges, positions),
        grid_table(bti, positions),
    ensures
        edges_on_grid(edges, rs, re, bti, positions.len() as int),
{
    assert forall|i: int| 0 <= i < edges.len() && in_region(#[trigger] edges[i], rs, re) implies {
        &&& edges[i].start < edges[i].end
        &&& edges[i].end < bti.len()
        &&& bti[edges[i].start as int] < positions.len()
        &&& bti[edges[i].end as int] < positions.len()
    } by {
        let ks = choose|k: int| 0 <= k < positions.len() && positions[k] == edges[i].start;
        let ke = choose|k: int| 0 <= k < positions.len() && positions[k] == edges[i].end;
        assert(bti[positions[ks] as int] == ks);
        assert(bti[positions[ke] as int] == ke);
    }
}

/// A complete path's edges, read as `(start, end, payload)` spans, tile its region.
pub proof fn lemma_path_tiles<P>(edges: Seq<Edge<P>>, path: Seq<usize>, rs: int, re: int)
    requires
        is_path(edges, path, rs, re),
        forall|i: int| 0 <= i < edges.len() && in_region(#[trigger] edges[i], rs, re) ==> edges[i].start < edges[i].end,
    ensures
        tiles(path.map_values(|i: usize| (edges[i as int].start, edges[i as int].end, edges[i as int].payload)), rs, re),
{
    let sp = path.map_values(|i: usize| (edges[i as int].start, edges[i as int].end, edges[i as int].payload));
    assert forall|k: int| 0 <= k < sp.len() implies (#[trigger] sp[k]).0 < sp[k].1 by {
        assert(path[k] < edges.len() && in_region(edges[path[k] as int], rs, re));
    }
    assert forall|k: int| 0 <= k < sp.len() - 1 implies (#[trigger] sp[k]).1 == sp[k + 1].0 by {
        assert(edges[path[k] as int].end == edges[path[k + 1] as int].start);
    }
}

/// The segmentation engine: word and syllable dictionaries, the TCC grid segmenter, and the
/// length limits of the OOV merge and of dictionary candidates.
pub struct RuntimeEngine {
    word_trie: CharwiseDoubleArrayAhoCorasick<usize>,
    syllable_trie: CharwiseDoubleArrayAhoCorasick<usize>,
    tcc: TccSegmenter,
    /// Max TCC length of a token that may take part in an OOV merge.
    be_max_tcc: usize,
    /// Max length, in TCC clusters, of a dictionary candidate (`0` = no cap).
    max_word_tcc: usize,
}

/// The TCC grid of `text`: 0, then the end of each cluster.
pub open spec fn tcc_grid_of(text: Seq<char>) -> Seq<usize> {
    seq![0usize] + tcc_match_ends(text)
}

/// Bytes `[s, e)` are exactly one cluster of the grid: two consecutive grid points.
pub open spec fn single_cluster(grid: Seq<usize>, s: int, e: int) -> bool {
    exists|k: int| 0 <= k < grid.len() - 1 && #[trigger] grid[k] == s && grid[k + 1] == e
}

/// Bytes `[s, e)` run between two grid points at most `cap` clusters apart.
pub open spec fn within_clusters(grid: Seq<usize>, s: int, e: int, cap: int) -> bool {
    exists|a: int, b: int| 0 <= a <= b < grid.len() && #[trigger] grid[a] == s && #[trigger] grid[b] == e && b - a <= cap
}

/// A dictionary token spans at most `cap` clusters (`cap == 0`: no cap).
pub open spec fn capped(grid: Seq<usize>, cap: usize, s: int, e: int) -> bool {
    cap == 0 || within_clusters(grid, s, e, cap as int)
}

/// A token's text agrees with its tier: a `Word` token spells an entry of `words`, a
/// `Syllable` token an entry of `syllables` (either within the `cap` on dictionary candidates),
/// and a `Tcc` token is one cluster of `grid`.
pub open spec fn token_sound(
    text: Seq<char>,
    words: Set<Seq<char>>,
    syllables: Set<Seq<char>>,
    grid: Seq<usize>,
    cap: usize,
    t: (usize, usize, LatticeTier),
) -> bool {
    match t.2 {
        LatticeTier::Word => occurrence(text, words, t.0 as int, t.1 as int) && capped(grid, cap, t.0 as int, t.1 as int),
        LatticeTier::Syllable => occurrence(text, syllables, t.0 as int, t.1 as int) && capped(grid, cap, t.0 as int, t.1 as int),
        LatticeTier::Tcc => single_cluster(grid, t.0 as int, t.1 as int),
    }
}

/// A grid-aligned span within the cap on the table is within the cap on the grid.
proof fn lemma_span_capped(bti: Seq<u32>, positions: Seq<usize>, s: int, e: int, cap: usize)
    requires
        grid_table(bti, positions),
        grid_span(bti, s, e, cap),
    ensures
        capped(positions, cap, s, e),
{
    if cap != 0 {
        let a = bti[s] as int;
        let b = bti[e] as int;
        assert(positions[a] == s && positions[b] == e);
    }
}

/// An edge read as a `(start, end, tier)` token.
pub open spec fn edge_token(e: Edge<LatticeTier>) -> (usize, usize, LatticeTier) {
    (e.start, e.end, e.payload)
}

/// Every edge of `edges`, read as a token, is sound.
pub open spec fn edges_sound(
    text: Seq<char>,
    words: Set<Seq<char>>,
    syllables: Set<Seq<char>>,
    grid: Seq<usize>,
    cap: usize,
    edges: Seq<Edge<LatticeTier>>,
) -> bool {
    forall|i: int| 0 <= i < edges.len() ==> token_sound(text, words, syllables, grid, cap, edge_token(#[trigger] edges[i]))
}

/// Every token of `toks` is sound.
pub open spec fn tokens_sound(
    text: Seq<char>,
    words: Set<Seq<char>>,
    syllables: Set<Seq<char>>,
    grid: Seq<usize>,
    cap: usize,
    toks: Seq<(usize, usize, LatticeTier)>,
) -> bool {
    forall|k: int| 0 <= k < toks.len() ==> token_sound(text, words, syllables, grid, cap, #[trigger] toks[k])
}

/// `d` marks dissolved boundaries of `toks`: one flag per boundary between consecutive tokens,
/// and each marked boundary lies between two tokens of at most `cap` clusters each.
pub open spec fn dissolvable(grid: Seq<usize>, cap: usize, toks: Seq<(usize, usize, LatticeTier)>, d: Seq<bool>) -> bool {
    &&& (toks.len() > 0 ==> d.len() + 1 == toks.len())
    &&& forall|j: int| 0 <= j < d.len() && #[trigger] d[j] ==> within_clusters(grid, toks[j].0 as int, toks[j].1 as int, cap as int)
        && within_clusters(grid, toks[j + 1].0 as int, toks[j + 1].1 as int, cap as int)
}

/// No `Word` token of `toks` is a single bare consonant.
pub open spec fn no_bare_words(text: Seq<char>, toks: Seq<(usize, usize, LatticeTier)>) -> bool {
    forall|k: int| 0 <= k < toks.len() && (#[trigger] toks[k]).2 == LatticeTier::Word ==> !single_consonant(text, toks[k].0 as int, toks[k].1 as int)
}

/// Joining two token sequences keeps them on the grid, sound and free of bare-consonant words.
proof fn lemma_join_tokens(
    text: Seq<char>,
    words: Set<Seq<char>>,
    syllables: Set<Seq<char>>,
    grid: Seq<usize>,
    cap: usize,
    a: Seq<(usize, usize, LatticeTier)>,
    b: Seq<(usize, usize, LatticeTier)>,
)
    requires
        on_grid(a, grid),
        on_grid(b, grid),
        tokens_sound(text, words, syllables, grid, cap, a),
        tokens_sound(text, words, syllables, grid, cap, b),
        no_bare_words(text, a),
        no_bare_words(text, b),
    ensures
        on_grid(a + b, grid),
        tokens_sound(text, words, syllables, grid, cap, a + b),
        no_bare_words(text, a + b),
{
    let c = a + b;
    assert forall|k: int| 0 <= k < c.len() implies {
        &&& grid.contains((#[trigger] c[k]).0) && grid.contains(c[k].1)
        &&& token_sound(text, words, syllables, grid, cap, c[k])
        &&& (c[k].2 == LatticeTier::Word ==> !single_consonant(text, c[k].0 as int, c[k].1 as int))
    } by {
        if k < a.len() {
            assert(c[k] == a[k]);
        } else {
            assert(c[k] == b[k - a.len()]);
        }
    }
}

/// The fallback chain's edges are single clusters; sound dictionary edges followed by the
/// fallback chain are sound edges.
proof fn lemma_cands_sound(
    text: Seq<char>,
    words: Set<Seq<char>>,
    syllables: Set<Seq<char>>,
    dict_part: Seq<Edge<LatticeTier>>,
    fallback: Seq<Edge<LatticeTier>>,
    positions: Seq<usize>,
    cap: usize,
)
    requires
        edges_sound(text, words, syllables, positions, cap, dict_part),
        fallback.len() == positions.len() - 1,
        forall|k: int| 0 <= k < fallback.len() ==> (#[trigger] fallback[k]).start == positions[k] && fallback[k].end == positions[k + 1] && fallback[k].payload == LatticeTier::Tcc,
    ensures
        edges_sound(text, words, syllables, positions, cap, dict_part + fallback),
{
    let cands = dict_part + fallback;
    assert forall|i: int| 0 <= i < cands.len() implies token_sound(text, words, syllables, positions, cap, edge_token(#[trigger] cands[i])) by {
        if i < dict_part.len() {
            assert(cands[i] == dict_part[i]);
        } else {
            let k = i - dict_part.len();
            assert(cands[i] == fallback[k]);
            assert(positions[k] == fallback[k].start);
        }
    }
}

/// The tokens of a complete path through sound edges are sound.
proof fn lemma_path_sound(
    text: Seq<char>,
    words: Set<Seq<char>>,
    syllables: Set<Seq<char>>,
    grid: Seq<usize>,
    cap: usize,
    edges: Seq<Edge<LatticeTier>>,
    path: Seq<usize>,
    toks: Seq<(usize, usize, LatticeTier)>,
    rs: int,
    re: int,
)
    requires
        is_path(edges, path, rs, re),
        edges_sound(text, words, syllables, grid, cap, edges),
        toks.len() == path.len(),
        forall|k: int| 0 <= k < toks.len() ==> #[trigger] toks[k] == edge_token(edges[path[k] as int]),
    ensures
        tokens_sound(text, words, syllables, grid, cap, toks),
{
    assert forall|k: int| 0 <= k < toks.len() implies token_sound(text, words, syllables, grid, cap, #[trigger] toks[k]) by {
        assert(path[k] < edges.len());
        assert(toks[k] == edge_token(edges[path[k] as int]));
    }
}

/// In a tiling, span ends grow along the sequence.
proof fn lemma_tile_ends_grow<X>(sp: Seq<(usize, usize, X)>, a: int, b: int, i: int, j: int)
    requires
        tiles(sp, a, b),
        0 <= i <= j < sp.len(),
    ensures
        sp[i].1 <= sp[j].1,
    decreases j - i,
{
    if i < j {
        lemma_tile_ends_grow(sp, a, b, i, j - 1);
        assert(sp[j - 1].1 == sp[j].0);
        assert(sp[j].0 < sp[j].1);
    }
}

/// A tiling of one grid cluster by spans on the grid is that cluster alone: an OOV span of one
/// cluster comes back from re-segmentation as a single token with the same bounds.
pub proof fn lemma_cluster_tiling<X>(sp: Seq<(usize, usize, X)>, grid: Seq<usize>, s: int, e: int)
    requires
        strictly_increasing(grid),
        single_cluster(grid, s, e),
        tiles(sp, s, e),
        on_grid(sp, grid),
    ensures
        sp.len() == 1,
        sp[0].0 == s,
        sp[0].1 == e,
{
    let k = choose|k: int| 0 <= k < grid.len() - 1 && #[trigger] grid[k] == s && grid[k + 1] == e;
    assert(grid[k] < grid[k + 1]);
    assert(sp.len() > 0);
    let m = choose|m: int| 0 <= m < grid.len() && grid[m] == sp[0].1;
    assert(sp[0].0 < sp[0].1);
    if m <= k {
        if m < k {
            assert(grid[m] < grid[k]);
        }
    }
    if m > k + 1 {
        assert(grid[k + 1] < grid[m]);
    }
    assert(sp[0].1 >= e);
    lemma_tile_ends_grow(sp, s, e, 0, sp.len() - 1);
    if sp.len() > 1 {
        assert(sp[0].1 == sp[1].0);
        assert(sp[1].0 < sp[1].1);
        lemma_tile_ends_grow(sp, s, e, 1, sp.len() - 1);
    }
}

/// Bytes `[s, e)` that hold exactly one character and both lie on a cluster grid of the text are
/// one cluster of it: no grid point can fall inside a character.
pub proof fn lemma_one_char_one_cluster(text: Seq<char>, grid: Seq<usize>, i: int)
    requires
        is_grid(text, grid),
        0 <= i < text.len(),
        grid.contains(byte_offset(text, i) as usize),
        grid.contains(byte_offset(text, i + 1) as usize),
    ensures
        single_cluster(grid, byte_offset(text, i) as int, byte_offset(text, i + 1) as int),
{
    let n = text.len() as int;
    let s = byte_offset(text, i);
    let e = byte_offset(text, i + 1);
    lemma_byte_offset_mono(text, i + 1, n);
    crate::text::lemma_byte_offset_strict(text, i, i + 1);
    assert(grid[grid.len() - 1] == byte_len(text));
    lemma_increasing(grid);
    let a = choose|a: int| 0 <= a < grid.len() && grid[a] == s as usize;
    let b = choose|b: int| 0 <= b < grid.len() && grid[b] == e as usize;
    assert(grid[a] == s && grid[b] == e);
    if b <= a {
        if b < a {
            assert(grid[b] < grid[a]);
        }
    }
    if b > a + 1 {
        let g = grid[a + 1];
        assert(grid[a] < g && g < grid[b]);
        assert(is_boundary(text, g as int));
        let j = choose|j: int| 0 <= j <= text.len() && #[trigger] byte_offset(text, j) == g;
        if j <= i {
            lemma_byte_offset_mono(text, j, i);
        } else {
            lemma_byte_offset_mono(text, i + 1, j);
        }
    }
    assert(grid[a] == s && grid[a + 1] == e);
}

/// A token read as an edge.
pub open spec fn token_edge(t: (usize, usize, LatticeTier)) -> Edge<LatticeTier> {
    Edge { start: t.0, end: t.1, payload: t.2 }
}

/// The score `model` gives a token sequence: the transition from the start context into the
/// first token plus its score, then for each later token the transition from the previous
/// token's context plus its score, added left to right (each context and score as the model
/// gives them for the token read as an edge).
pub open spec fn tiling_score<M: LatticeModel<Payload = LatticeTier>>(model: M, sp: Seq<(usize, usize, LatticeTier)>) -> M::Score
    decreases sp.len(),
{
    if sp.len() <= 1 {
        model.transition_score(model.start_spec(), model.context_of(token_edge(sp[0]))).sum(model.node_score(token_edge(sp[0])))
    } else {
        tiling_score(model, sp.drop_last()).sum(
            model.transition_score(model.context_of(token_edge(sp[sp.len() - 2])), model.context_of(token_edge(sp.last()))),
        ).sum(model.node_score(token_edge(sp.last())))
    }
}

/// A chain's score is the tiling score of its edges read as tokens, when each edge's context
/// is the one the model gives it.
proof fn lemma_chain_tiling_score<M: LatticeModel<Payload = LatticeTier>>(
    model: M,
    edges: Seq<Edge<LatticeTier>>,
    ctx: Seq<M::Ctx>,
    c: Seq<usize>,
)
    requires
        c.len() > 0,
        ctx.len() == edges.len(),
        forall|i: int| 0 <= i < edges.len() ==> #[trigger] ctx[i] == model.context_of(edges[i]),
        forall|k: int| 0 <= k < c.len() ==> #[trigger] c[k] < edges.len(),
    ensures
        chain_score(model, edges, ctx, c) == tiling_score(model, c.map_values(|i: usize| edge_token(edges[i as int]))),
    decreases c.len(),
{
    let sp = c.map_values(|i: usize| edge_token(edges[i as int]));
    assert forall|k: int| 0 <= k < c.len() implies token_edge(#[trigger] sp[k]) == edges[c[k] as int] by {
        let e = edges[c[k] as int];
        assert(token_edge(sp[k]) == Edge { start: e.start, end: e.end, payload: e.payload });
    }
    if c.len() > 1 {
        lemma_chain_tiling_score(model, edges, ctx, c.drop_last());
        assert(c.drop_last().map_values(|i: usize| edge_token(edges[i as int])) =~= sp.drop_last());
        assert(token_edge(sp[sp.len() - 2]) == edges[c[c.len() - 2] as int]);
        assert(token_edge(sp.last()) == edges[c.last() as int]);
    } else {
        assert(token_edge(sp[0]) == edges[c[0] as int]);
    }
}

/// In a tiling of `[a, b)`, every token lies within `[a, b]`.
proof fn lemma_tiles_within<X>(sp: Seq<(usize, usize, X)>, a: int, b: int, k: int)
    requires
        tiles(sp, a, b),
        0 <= k < sp.len(),
    ensures
        a <= sp[k].0,
        sp[k].1 <= b,
    decreases k,
{
    lemma_tile_ends_grow(sp, a, b, k, sp.len() - 1);
    if k > 0 {
        lemma_tiles_within(sp, a, b, k - 1);
        assert(sp[k - 1].1 == sp[k].0);
        assert(sp[k - 1].0 < sp[k - 1].1);
    }
}

/// An edge that reads as token `k` of `sp`, if any.
spec fn edge_for(edges: Seq<Edge<LatticeTier>>, sp: Seq<(usize, usize, LatticeTier)>, k: int) -> usize {
    (choose|i: int| 0 <= i < edges.len() && edge_token(edges[i]) == sp[k]) as usize
}

/// A tiling of `[a, b)` whose every token is some edge read as a token is a complete path
/// through the edges, and reads back as the tiling.
proof fn lemma_tiling_path(edges: Seq<Edge<LatticeTier>>, sp: Seq<(usize, usize, LatticeTier)>, a: int, b: int) -> (c: Seq<usize>)
    requires
        a < b,
        edges.len() <= usize::MAX,
        tiles(sp, a, b),
        forall|k: int| 0 <= k < sp.len() ==> exists|i: int| 0 <= i < edges.len() && edge_token(edges[i]) == #[trigger] sp[k],
    ensures
        is_path(edges, c, a, b),
        c.map_values(|i: usize| edge_token(edges[i as int])) == sp,
{
    let c = Seq::new(sp.len(), |k: int| edge_for(edges, sp, k));
    assert forall|k: int| 0 <= k < c.len() implies #[trigger] c[k] < edges.len() && edge_token(edges[c[k] as int]) == sp[k] by {
        assert(exists|i: int| 0 <= i < edges.len() && edge_token(edges[i]) == sp[k]);
        assert(c[k] == edge_for(edges, sp, k));
    }
    assert(sp.len() > 0);
    assert forall|k: int| 0 <= k < c.len() implies #[trigger] c[k] < edges.len() && in_region(edges[c[k] as int], a, b) by {
        lemma_tiles_within(sp, a, b, k);
        assert(edge_token(edges[c[k] as int]) == sp[k]);
    }
    assert forall|k: int| 0 <= k < c.len() - 1 implies edges[#[trigger] c[k] as int].end == edges[c[k + 1] as int].start by {
        assert(edge_token(edges[c[k] as int]) == sp[k]);
        assert(edge_token(edges[c[k + 1] as int]) == sp[k + 1]);
    }
    assert(edge_token(edges[c[0] as int]) == sp[0]);
    assert(edge_token(edges[c[c.len() - 1] as int]) == sp[sp.len() - 1]);
    assert(c.map_values(|i: usize| edge_token(edges[i as int])) =~= sp);
    c
}

/// A token on the grid within the cap is a grid span of the byte-to-grid-index table.
proof fn lemma_capped_span(bti: Seq<u32>, positions: Seq<usize>, s: usize, e: usize, cap: usize)
    requires
        grid_table(bti, positions),
        strictly_increasing(positions),
        positions.len() < NON_BOUNDARY,
        positions.contains(s),
        positions.contains(e),
        s < e,
        capped(positions, cap, s as int, e as int),
    ensures
        grid_span(bti, s as int, e as int, cap),
{
    let a = choose|a: int| 0 <= a < positions.len() && positions[a] == s;
    let b = choose|b: int| 0 <= b < positions.len() && positions[b] == e;
    assert(bti[s as int] == a && bti[e as int] == b);
    if b <= a {
        if b < a {
            assert(positions[b] < positions[a]);
        }
    }
    if cap != 0 {
        let (a2, b2) = choose|a2: int, b2: int| 0 <= a2 <= b2 < positions.len() && #[trigger] positions[a2] == s as int && #[trigger] positions[b2] == e as int && b2 - a2 <= cap as int;
        if a2 != a {
            if a2 < a { assert(positions[a2] < positions[a]); } else { assert(positions[a] < positions[a2]); }
        }
        if b2 != b {
            if b2 < b { assert(positions[b2] < positions[b]); } else { assert(positions[b] < positions[b2]); }
        }
    }
}

/// The tokens of an optimal path are an optimal tiling: no tiling of the region made of
/// candidate tokens scores better.
proof fn lemma_tiling_optimal<M: LatticeModel<Payload = LatticeTier>>(
    model: M,
    cands: Seq<Edge<LatticeTier>>,
    ctx: Seq<M::Ctx>,
    path: Seq<usize>,
    toks: Seq<(usize, usize, LatticeTier)>,
    o: Seq<(usize, usize, LatticeTier)>,
    a: int,
    b: int,
)
    requires
        a < b,
        cands.len() <= usize::MAX,
        ctx.len() == cands.len(),
        forall|i: int| 0 <= i < cands.len() ==> #[trigger] ctx[i] == model.context_of(cands[i]),
        is_path(cands, path, a, b),
        toks.len() == path.len(),
        forall|k: int| 0 <= k < toks.len() ==> #[trigger] toks[k] == edge_token(cands[path[k] as int]),
        forall|c: Seq<usize>| #[trigger] is_path(cands, c, a, b) ==> !chain_score(model, cands, ctx, c).better(chain_score(model, cands, ctx, path)),
        tiles(o, a, b),
        forall|k: int| 0 <= k < o.len() ==> exists|i: int| 0 <= i < cands.len() && edge_token(cands[i]) == #[trigger] o[k],
    ensures
        !tiling_score(model, o).better(tiling_score(model, toks)),
{
    assert forall|k: int| 0 <= k < path.len() implies #[trigger] path[k] < cands.len() by {}
    lemma_chain_tiling_score(model, cands, ctx, path);
    assert(path.map_values(|i: usize| edge_token(cands[i as int])) =~= toks);
    let c = lemma_tiling_path(cands, o, a, b);
    assert(is_path(cands, c, a, b));
    assert forall|k: int| 0 <= k < c.len() implies #[trigger] c[k] < cands.len() by {}
    lemma_chain_tiling_score(model, cands, ctx, c);
}

/// A dictionary token of tier `tier` on the grid, within the cap, is one of the dictionary
/// candidates.
proof fn lemma_dict_candidate(
    text: Seq<char>,
    dict_set: Set<Seq<char>>,
    bti: Seq<u32>,
    grid: Seq<usize>,
    cap: usize,
    dict_part: Seq<Edge<LatticeTier>>,
    tier: LatticeTier,
    t: (usize, usize, LatticeTier),
)
    requires
        grid_table(bti, grid),
        strictly_increasing(grid),
        grid.len() < NON_BOUNDARY,
        forall|s: int, e: int| #[trigger] occurrence(text, dict_set, s, e) && grid_span(bti, s, e, cap) ==> exists|k: int|
            0 <= k < dict_part.len() && dict_part[k].start == s && dict_part[k].end == e,
        forall|k: int| 0 <= k < dict_part.len() ==> (#[trigger] dict_part[k]).payload == tier,
        grid.contains(t.0),
        grid.contains(t.1),
        t.0 < t.1,
        t.2 == tier,
        occurrence(text, dict_set, t.0 as int, t.1 as int),
        capped(grid, cap, t.0 as int, t.1 as int),
    ensures
        exists|k: int| 0 <= k < dict_part.len() && edge_token(dict_part[k]) == t,
{
    lemma_capped_span(bti, grid, t.0, t.1, cap);
    let k = choose|k: int| 0 <= k < dict_part.len() && dict_part[k].start == t.0 && dict_part[k].end == t.1;
    assert(edge_token(dict_part[k]) == t);
}

/// A one-cluster `Tcc` token is one of the fallback edges.
proof fn lemma_cluster_candidate(grid: Seq<usize>, fallback: Seq<Edge<LatticeTier>>, t: (usize, usize, LatticeTier))
    requires
        fallback.len() == grid.len() - 1,
        forall|k: int| 0 <= k < fallback.len() ==> (#[trigger] fallback[k]).start == grid[k] && fallback[k].end == grid[k + 1] && fallback[k].payload == LatticeTier::Tcc,
        t.2 == LatticeTier::Tcc,
        single_cluster(grid, t.0 as int, t.1 as int),
    ensures
        exists|k: int| 0 <= k < fallback.len() && edge_token(fallback[k]) == t,
{
    let k = choose|k: int| 0 <= k < grid.len() - 1 && #[trigger] grid[k] == t.0 && grid[k + 1] == t.1;
    assert(edge_token(fallback[k]) == t);
}

/// The syllable decode's tokens score best among grid tilings of `[0, len)` by sound
/// syllables and clusters.
proof fn lemma_syllable_optimal<M: LatticeModel<Payload = LatticeTier>>(
    text: Seq<char>,
    words: Set<Seq<char>>,
    syllables: Set<Seq<char>>,
    cap: usize,
    model: M,
    bti: Seq<u32>,
    positions: Seq<usize>,
    dict_part: Seq<Edge<LatticeTier>>,
    fallback: Seq<Edge<LatticeTier>>,
    cands: Seq<Edge<LatticeTier>>,
    ctx: Seq<M::Ctx>,
    path: Seq<usize>,
    toks: Seq<(usize, usize, LatticeTier)>,
    len: int,
)
    requires
        0 < len,
        lattice_laws(model),
        grid_table(bti, positions),
        strictly_increasing(positions),
        positions.len() < NON_BOUNDARY,
        forall|s: int, e: int| #[trigger] occurrence(text, syllables, s, e) && grid_span(bti, s, e, cap) ==> exists|k: int|
            0 <= k < dict_part.len() && dict_part[k].start == s && dict_part[k].end == e,
        forall|k: int| 0 <= k < dict_part.len() ==> (#[trigger] dict_part[k]).payload == LatticeTier::Syllable,
        fallback.len() == positions.len() - 1,
        forall|k: int| 0 <= k < fallback.len() ==> (#[trigger] fallback[k]).start == positions[k] && fallback[k].end == positions[k + 1] && fallback[k].payload == LatticeTier::Tcc,
        cands == dict_part + fallback,
        cands.len() <= usize::MAX,
        ctx.len() == cands.len(),
        forall|i: int| 0 <= i < cands.len() ==> #[trigger] ctx[i] == model.context_of(cands[i]),
        is_path(cands, path, 0, len),
        toks.len() == path.len(),
        forall|k: int| 0 <= k < toks.len() ==> #[trigger] toks[k] == edge_token(cands[path[k] as int]),
        forall|c: Seq<usize>| #[trigger] is_path(cands, c, 0, len) ==> !chain_score(model, cands, ctx, c).better(chain_score(model, cands, ctx, path)),
    ensures
        forall|o: Seq<(usize, usize, LatticeTier)>| #[trigger] tiles(o, 0, len)
            && on_grid(o, positions)
            && tokens_sound(text, words, syllables, positions, cap, o)
            && (forall|k: int| 0 <= k < o.len() ==> (#[trigger] o[k]).2 != LatticeTier::Word)
            ==> !tiling_score(model, o).better(tiling_score(model, toks)),
{
    let d = dict_part.len() as int;
    assert forall|o: Seq<(usize, usize, LatticeTier)>| #[trigger] tiles(o, 0, len)
        && on_grid(o, positions)
        && tokens_sound(text, words, syllables, positions, cap, o)
        && (forall|k: int| 0 <= k < o.len() ==> (#[trigger] o[k]).2 != LatticeTier::Word)
        implies !tiling_score(model, o).better(tiling_score(model, toks)) by {
        assert forall|k: int| 0 <= k < o.len() implies exists|i: int| 0 <= i < cands.len() && edge_token(cands[i]) == #[trigger] o[k] by {
            let t = o[k];
            assert(token_sound(text, words, syllables, positions, cap, t));
            assert(t.0 < t.1);
            assert(positions.contains(t.0) && positions.contains(t.1));
            if t.2 == LatticeTier::Syllable {
                lemma_dict_candidate(text, syllables, bti, positions, cap, dict_part, LatticeTier::Syllable, t);
                let j = choose|j: int| 0 <= j < dict_part.len() && edge_token(dict_part[j]) == t;
                assert(cands[j] == dict_part[j]);
            } else {
                assert(t.2 == LatticeTier::Tcc);
                lemma_cluster_candidate(positions, fallback, t);
                let j = choose|j: int| 0 <= j < fallback.len() && edge_token(fallback[j]) == t;
                assert(cands[d + j] == fallback[j]);
            }
        }
        lemma_tiling_optimal(model, cands, ctx, path, toks, o, 0, len);
    }
}

/// A grid tiling of `[a, b)` by sound tokens of one dictionary tier and clusters that no other
/// such tiling beats under `model` (when its scores obey the laws).
#[verifier::opaque]
pub open spec fn best_tiling<M: LatticeModel<Payload = LatticeTier>>(
    model: M,
    text: Seq<char>,
    words: Set<Seq<char>>,
    syllables: Set<Seq<char>>,
    grid: Seq<usize>,
    cap: usize,
    tier: LatticeTier,
    a: int,
    b: int,
    sp: Seq<(usize, usize, LatticeTier)>,
) -> bool {
    &&& tiles(sp, a, b)
    &&& on_grid(sp, grid)
    &&& tokens_sound(text, words, syllables, grid, cap, sp)
    &&& forall|k: int| 0 <= k < sp.len() ==> (#[trigger] sp[k]).2 == tier || sp[k].2 == LatticeTier::Tcc
    &&& lattice_laws(model) ==> forall|o: Seq<(usize, usize, LatticeTier)>| #[trigger] tiles(o, a, b)
        && on_grid(o, grid)
        && tokens_sound(text, words, syllables, grid, cap, o)
        && (forall|k: int| 0 <= k < o.len() ==> (#[trigger] o[k]).2 == tier || o[k].2 == LatticeTier::Tcc)
        ==> !tiling_score(model, o).better(tiling_score(model, sp))
}

/// The word pass's tokens as coalescing items: a word span when the token is a `Word` token
/// that is not a bare consonant.
pub open spec fn word_items_of(text: Seq<char>, wp: Seq<(usize, usize, LatticeTier)>) -> Seq<(usize, usize, bool)> {
    wp.map_values(|t: (usize, usize, LatticeTier)| (t.0, t.1, t.2 == LatticeTier::Word && !single_consonant(text, t.0 as int, t.1 as int)))
}

/// The pieces joined in order.
pub open spec fn flatten(ps: Seq<Seq<(usize, usize, LatticeTier)>>) -> Seq<(usize, usize, LatticeTier)>
    decreases ps.len(),
{
    if ps.len() == 0 {
        seq![]
    } else {
        flatten(ps.drop_last()) + ps.last()
    }
}

/// The pieces re-segment the spans: a word span is kept as one `Word` token, and an OOV span is
/// a best syllable-model tiling of it by sound syllables and clusters.
#[verifier::opaque]
pub open spec fn resegments<S: LatticeModel<Payload = LatticeTier>>(
    syl_model: S,
    text: Seq<char>,
    words: Set<Seq<char>>,
    syllables: Set<Seq<char>>,
    grid: Seq<usize>,
    cap: usize,
    spans: Seq<(usize, usize, bool)>,
    pieces: Seq<Seq<(usize, usize, LatticeTier)>>,
) -> bool {
    &&& pieces.len() == spans.len()
    &&& forall|k: int| 0 <= k < spans.len() ==> {
        &&& (#[trigger] spans[k]).2 ==> pieces[k] == seq![(spans[k].0, spans[k].1, LatticeTier::Word)]
        &&& !spans[k].2 ==> best_tiling(syl_model, text, words, syllables, grid, cap, LatticeTier::Syllable, spans[k].0 as int, spans[k].1 as int, pieces[k])
    }
}

/// Syllable candidates: the dictionary syllables on the grid within the cap (all of them,
/// each once per occurrence) followed by the fallback chain, with their contexts.
pub open spec fn syllable_lattice<S: LatticeModel<Payload = LatticeTier>>(
    syl_model: S,
    text: Seq<char>,
    syllables: Set<Seq<char>>,
    cap: usize,
    bti: Seq<u32>,
    fallback: Seq<Edge<LatticeTier>>,
    cands: Seq<Edge<LatticeTier>>,
    ctx: Seq<S::Ctx>,
    sd: int,
) -> bool {
    &&& 0 <= sd <= cands.len()
    &&& cands == cands.take(sd) + fallback
    &&& forall|s: int, e: int| #[trigger] occurrence(text, syllables, s, e) && grid_span(bti, s, e, cap) ==> exists|k: int|
        0 <= k < sd && cands[k].start == s && cands[k].end == e
    &&& forall|k: int| 0 <= k < sd ==> (#[trigger] cands[k]).payload == LatticeTier::Syllable
    &&& ctx.len() == cands.len()
    &&& forall|i: int| 0 <= i < cands.len() ==> #[trigger] ctx[i] == syl_model.context_of(cands[i])
}

/// Adding the piece for span `i` extends the re-segmentation of the first `i` spans.
proof fn lemma_resegments_push<S: LatticeModel<Payload = LatticeTier>>(
    syl_model: S,
    text: Seq<char>,
    words: Set<Seq<char>>,
    syllables: Set<Seq<char>>,
    grid: Seq<usize>,
    cap: usize,
    spans: Seq<(usize, usize, bool)>,
    pieces: Seq<Seq<(usize, usize, LatticeTier)>>,
    i: int,
    piece: Seq<(usize, usize, LatticeTier)>,
)
    requires
        0 <= i < spans.len(),
        resegments(syl_model, text, words, syllables, grid, cap, spans.take(i), pieces),
        spans[i].2 ==> piece == seq![(spans[i].0, spans[i].1, LatticeTier::Word)],
        !spans[i].2 ==> best_tiling(syl_model, text, words, syllables, grid, cap, LatticeTier::Syllable, spans[i].0 as int, spans[i].1 as int, piece),
    ensures
        resegments(syl_model, text, words, syllables, grid, cap, spans.take(i + 1), pieces.push(piece)),
{
    reveal(resegments);
    let t = spans.take(i + 1);
    let q = pieces.push(piece);
    assert forall|k: int| 0 <= k < t.len() implies {
        &&& (#[trigger] t[k]).2 ==> q[k] == seq![(t[k].0, t[k].1, LatticeTier::Word)]
        &&& !t[k].2 ==> best_tiling(syl_model, text, words, syllables, grid, cap, LatticeTier::Syllable, t[k].0 as int, t[k].1 as int, q[k])
    } by {
        if k < i {
            assert(t[k] == spans.take(i)[k]);
            assert(q[k] == pieces[k]);
        } else {
            assert(t[k] == spans[i]);
            assert(q[k] == piece);
        }
    }
}

/// A decode over one dictionary tier's candidates and the fallback chain, restricted to the
/// region `[a, b)`, scores best among grid tilings of the region by sound tokens of that tier
/// and clusters.
proof fn lemma_region_optimal<M: LatticeModel<Payload = LatticeTier>>(
    text: Seq<char>,
    words: Set<Seq<char>>,
    syllables: Set<Seq<char>>,
    dict_set: Set<Seq<char>>,
    tier: LatticeTier,
    cap: usize,
    model: M,
    bti: Seq<u32>,
    positions: Seq<usize>,
    dict_part: Seq<Edge<LatticeTier>>,
    fallback: Seq<Edge<LatticeTier>>,
    cands: Seq<Edge<LatticeTier>>,
    ctx: Seq<M::Ctx>,
    path: Seq<usize>,
    toks: Seq<(usize, usize, LatticeTier)>,
    a: int,
    b: int,
)
    requires
        a < b,
        lattice_laws(model),
        (tier == LatticeTier::Word && dict_set == words) || (tier == LatticeTier::Syllable && dict_set == syllables),
        grid_table(bti, positions),
        strictly_increasing(positions),
        positions.len() < NON_BOUNDARY,
        forall|s: int, e: int| #[trigger] occurrence(text, dict_set, s, e) && grid_span(bti, s, e, cap) ==> exists|k: int|
            0 <= k < dict_part.len() && dict_part[k].start == s && dict_part[k].end == e,
        forall|k: int| 0 <= k < dict_part.len() ==> (#[trigger] dict_part[k]).payload == tier,
        fallback.len() == positions.len() - 1,
        forall|k: int| 0 <= k < fallback.len() ==> (#[trigger] fallback[k]).start == positions[k] && fallback[k].end == positions[k + 1] && fallback[k].payload == LatticeTier::Tcc,
        cands == dict_part + fallback,
        cands.len() <= usize::MAX,
        ctx.len() == cands.len(),
        forall|i: int| 0 <= i < cands.len() ==> #[trigger] ctx[i] == model.context_of(cands[i]),
        is_path(cands, path, a, b),
        toks.len() == path.len(),
        forall|k: int| 0 <= k < toks.len() ==> #[trigger] toks[k] == edge_token(cands[path[k] as int]),
        forall|c: Seq<usize>| #[trigger] is_path(cands, c, a, b) ==> !chain_score(model, cands, ctx, c).better(chain_score(model, cands, ctx, path)),
    ensures
        forall|o: Seq<(usize, usize, LatticeTier)>| #[trigger] tiles(o, a, b)
            && on_grid(o, positions)
            && tokens_sound(text, words, syllables, positions, cap, o)
            && (forall|k: int| 0 <= k < o.len() ==> (#[trigger] o[k]).2 == tier || o[k].2 == LatticeTier::Tcc)
            ==> !tiling_score(model, o).better(tiling_score(model, toks)),
{
    let d = dict_part.len() as int;
    assert forall|o: Seq<(usize, usize, LatticeTier)>| #[trigger] tiles(o, a, b)
        && on_grid(o, positions)
        && tokens_sound(text, words, syllables, positions, cap, o)
        && (forall|k: int| 0 <= k < o.len() ==> (#[trigger] o[k]).2 == tier || o[k].2 == LatticeTier::Tcc)
        implies !tiling_score(model, o).better(tiling_score(model, toks)) by {
        assert forall|k: int| 0 <= k < o.len() implies exists|i: int| 0 <= i < cands.len() && edge_token(cands[i]) == #[trigger] o[k] by {
            let t = o[k];
            assert(token_sound(text, words, syllables, positions, cap, t));
            assert(t.0 < t.1);
            assert(positions.contains(t.0) && positions.contains(t.1));
            if t.2 == tier {
                lemma_dict_candidate(text, dict_set, bti, positions, cap, dict_part, tier, t);
                let j = choose|j: int| 0 <= j < dict_part.len() && edge_token(dict_part[j]) == t;
                assert(cands[j] == dict_part[j]);
            } else {
                lemma_cluster_candidate(positions, fallback, t);
                let j = choose|j: int| 0 <= j < fallback.len() && edge_token(fallback[j]) == t;
                assert(cands[d + j] == fallback[j]);
            }
        }
        lemma_tiling_optimal(model, cands, ctx, path, toks, o, a, b);
    }
}

/// The joint decode's tokens score best among grid tilings of `[0, len)` by sound words,
/// syllables and clusters.
proof fn lemma_joint_optimal<M: LatticeModel<Payload = LatticeTier>>(
    text: Seq<char>,
    words: Set<Seq<char>>,
    syllables: Set<Seq<char>>,
    cap: usize,
    model: M,
    bti: Seq<u32>,
    positions: Seq<usize>,
    word_part: Seq<Edge<LatticeTier>>,
    syl_part: Seq<Edge<LatticeTier>>,
    fallback: Seq<Edge<LatticeTier>>,
    cands: Seq<Edge<LatticeTier>>,
    ctx: Seq<M::Ctx>,
    path: Seq<usize>,
    toks: Seq<(usize, usize, LatticeTier)>,
    len: int,
)
    requires
        0 < len,
        lattice_laws(model),
        grid_table(bti, positions),
        strictly_increasing(positions),
        positions.len() < NON_BOUNDARY,
        forall|s: int, e: int| #[trigger] occurrence(text, words, s, e) && grid_span(bti, s, e, cap) ==> exists|k: int|
            0 <= k < word_part.len() && word_part[k].start == s && word_part[k].end == e,
        forall|k: int| 0 <= k < word_part.len() ==> (#[trigger] word_part[k]).payload == LatticeTier::Word,
        forall|s: int, e: int| #[trigger] occurrence(text, syllables, s, e) && grid_span(bti, s, e, cap) ==> exists|k: int|
            0 <= k < syl_part.len() && syl_part[k].start == s && syl_part[k].end == e,
        forall|k: int| 0 <= k < syl_part.len() ==> (#[trigger] syl_part[k]).payload == LatticeTier::Syllable,
        fallback.len() == positions.len() - 1,
        forall|k: int| 0 <= k < fallback.len() ==> (#[trigger] fallback[k]).start == positions[k] && fallback[k].end == positions[k + 1] && fallback[k].payload == LatticeTier::Tcc,
        cands == word_part + syl_part + fallback,
        cands.len() <= usize::MAX,
        ctx.len() == cands.len(),
        forall|i: int| 0 <= i < cands.len() ==> #[trigger] ctx[i] == model.context_of(cands[i]),
        is_path(cands, path, 0, len),
        toks.len() == path.len(),
        forall|k: int| 0 <= k < toks.len() ==> #[trigger] toks[k] == edge_token(cands[path[k] as int]),
        forall|c: Seq<usize>| #[trigger] is_path(cands, c, 0, len) ==> !chain_score(model, cands, ctx, c).better(chain_score(model, cands, ctx, path)),
    ensures
        forall|o: Seq<(usize, usize, LatticeTier)>| #[trigger] tiles(o, 0, len)
            && on_grid(o, positions)
            && tokens_sound(text, words, syllables, positions, cap, o)
            ==> !tiling_score(model, o).better(tiling_score(model, toks)),
{
    let wl = word_part.len() as int;
    let d = wl + syl_part.len();
    assert forall|o: Seq<(usize, usize, LatticeTier)>| #[trigger] tiles(o, 0, len)
        && on_grid(o, positions)
        && tokens_sound(text, words, syllables, positions, cap, o)
        implies !tiling_score(model, o).better(tiling_score(model, toks)) by {
        assert forall|k: int| 0 <= k < o.len() implies exists|i: int| 0 <= i < cands.len() && edge_token(cands[i]) == #[trigger] o[k] by {
            let t = o[k];
            assert(token_sound(text, words, syllables, positions, cap, t));
            assert(t.0 < t.1);
            assert(positions.contains(t.0) && positions.contains(t.1));
            if t.2 == LatticeTier::Word {
                lemma_dict_candidate(text, words, bti, positions, cap, word_part, LatticeTier::Word, t);
                let j = choose|j: int| 0 <= j < word_part.len() && edge_token(word_part[j]) == t;
                assert(cands[j] == word_part[j]);
            } else if t.2 == LatticeTier::Syllable {
                lemma_dict_candidate(text, syllables, bti, positions, cap, syl_part, LatticeTier::Syllable, t);
                let j = choose|j: int| 0 <= j < syl_part.len() && edge_token(syl_part[j]) == t;
                assert(cands[wl + j] == syl_part[j]);
            } else {
                lemma_cluster_candidate(positions, fallback, t);
                let j = choose|j: int| 0 <= j < fallback.len() && edge_token(fallback[j]) == t;
                assert(cands[d + j] == fallback[j]);
            }
        }
        lemma_tiling_optimal(model, cands, ctx, path, toks, o, 0, len);
    }
}

impl RuntimeEngine {
    /// Both dictionaries were built with the standard match kind, so they can be searched.
    pub closed spec fn wf(&self) -> bool {
        dictionary_standard(self.word_trie) && dictionary_standard(self.syllable_trie)
    }

    /// The word dictionary's entries.
    pub closed spec fn words(&self) -> Set<Seq<char>> {
        dictionary_words(self.word_trie)
    }

    /// The syllable dictionary's entries.
    pub closed spec fn syllables(&self) -> Set<Seq<char>> {
        dictionary_words(self.syllable_trie)
    }

    /// Builds the engine from the word and syllable vocabularies (one entry per line; empty
    /// lines are skipped, each entry's value is its line number) and compiles the TCC
    /// segmenter. `None` exactly when a dictionary cannot be built from its entries (e.g. a
    /// duplicate entry) or the segmenter's pattern does not compile.
    pub fn bootstrap(words_raw: &str, syllables_raw: &str, be_max_tcc: usize, max_word_tcc: usize) -> (r: Option<RuntimeEngine>)
        ensures
            r is Some <==> regex_compiles(TCC_PATTERN@) && dictionary_builds(vocab_entries(text_lines(words_raw@)))
                && dictionary_builds(vocab_entries(text_lines(syllables_raw@))),
            r is Some ==> distinct_entries(text_lines(words_raw@)) && distinct_entries(text_lines(syllables_raw@)),
            r matches Some(e) ==> {
                &&& e.wf()
                &&& e.words() == Set::new(|p: Seq<char>| p.len() > 0 && text_lines(words_raw@).contains(p))
                &&& e.syllables() == Set::new(|p: Seq<char>| p.len() > 0 && text_lines(syllables_raw@).contains(p))
                &&& e.be_max_tcc() == be_max_tcc
                &&& e.max_word_tcc() == max_word_tcc
            },
    {
        let word_patterns = vocab_patterns(words_raw);
        let syllable_patterns = vocab_patterns(syllables_raw);
        let ghost wp = word_patterns@;
        let ghost sp = syllable_patterns@;
        let word_trie = match build_dictionary(word_patterns) {
            Some(t) => t,
            None => return None,
        };
        let syllable_trie = match build_dictionary(syllable_patterns) {
            Some(t) => t,
            None => return None,
        };
        let tcc = match TccSegmenter::new() {
            Some(t) => t,
            None => return None,
        };
        proof {
            lemma_distinct_patterns(words_raw@, wp);
            lemma_distinct_patterns(syllables_raw@, sp);
        }
        Some(RuntimeEngine { word_trie, syllable_trie, tcc, be_max_tcc, max_word_tcc })
    }

    /// Max TCC length of a token that may take part in an OOV merge.
    pub closed spec fn be_max_tcc(&self) -> usize {
        self.be_max_tcc
    }

    /// Max length, in TCC clusters, of a dictionary candidate (`0` = no cap).
    pub closed spec fn max_word_tcc(&self) -> usize {
        self.max_word_tcc
    }

    /// The TCC grid positions of `text` and its byte-to-grid-index table.
    fn tcc_grid(&self, text: &str) -> (r: (Vec<usize>, Vec<u32>))
        requires
            byte_len(text@) < NON_BOUNDARY - 1,
        ensures
            r.0@ == tcc_grid_of(text@),
            is_grid(text@, r.0@),
            strictly_increasing(r.0@),
            r.0.len() <= byte_len(text@) + 1,
            r.1.len() == byte_len(text@) + 1,
            grid_table(r.1@, r.0@),
            dense_grid_index(r.1@, r.0.len() as int),
            dense_grid_index(r.1@, NON_BOUNDARY as int),
    {
        let positions = self.tcc.find_byte_positions(text);
        let n = byte_length(text);
        proof {
            lemma_grid_bounded(text@, positions@);
        }
        let bti = grid_index(&positions, n);
        proof {
            lemma_grid_table_dense(bti@, positions@);
            assert forall|x: int, y: int|
                0 <= x < y < bti.len() && bti@[x] < NON_BOUNDARY && bti@[y] < NON_BOUNDARY implies #[trigger] bti@[x] < #[trigger] bti@[y] by {
                assert(bti@[x] < positions.len() && bti@[y] < positions.len());
            }
        }
        (positions, bti)
    }

    /// Syllable segmentation: one syllable-model Viterbi over the whole text, on candidates made
    /// of grid-aligned dictionary syllables plus the TCC fallback chain. Returns packed tokens
    /// that tile the text, each span between two TCC boundaries: a `Syllable` token spells a
    /// dictionary syllable of at most `max_word_tcc` clusters (when that cap is set), a `Tcc`
    /// token is one cluster, and no token is a `Word`. Under the lattice laws no other such
    /// tiling scores better under the syllable model.
    #[verifier::spinoff_prover]
    #[verifier::rlimit(30)]
    pub fn segment_syllables<S: LatticeModel<Payload = LatticeTier>>(&self, text: &str, syl_model: &S) -> (r: Vec<u64>)
        requires
            self.wf(),
            byte_len(text@) < NON_BOUNDARY - 1,
        ensures
            byte_len(text@) == 0 ==> r.len() == 0,
            byte_len(text@) > 0 ==> exists|sp: Seq<(usize, usize, LatticeTier)>| {
                &&& tiles(sp, 0, byte_len(text@) as int)
                &&& on_grid(sp, tcc_grid_of(text@))
                &&& r@ == sp.map_values(|t: (usize, usize, LatticeTier)| packed(t.0, t.1, tier_code(t.2)))
                &&& tokens_sound(text@, self.words(), self.syllables(), tcc_grid_of(text@), self.max_word_tcc(), sp)
                &&& forall|k: int| 0 <= k < sp.len() ==> (#[trigger] sp[k]).2 != LatticeTier::Word
                &&& lattice_laws(*syl_model) ==> forall|o: Seq<(usize, usize, LatticeTier)>| #[trigger] tiles(o, 0, byte_len(text@) as int)
                    && on_grid(o, tcc_grid_of(text@))
                    && tokens_sound(text@, self.words(), self.syllables(), tcc_grid_of(text@), self.max_word_tcc(), o)
                    && (forall|k: int| 0 <= k < o.len() ==> (#[trigger] o[k]).2 != LatticeTier::Word)
                    ==> !tiling_score(*syl_model, o).better(tiling_score(*syl_model, sp))
            },
    {
        let byte_len = byte_length(text);
        if byte_len == 0 {
            return Vec::new();
        }
        let (positions, byte_to_idx) = self.tcc_grid(text);
        let mut cands = dict_candidates(&self.syllable_trie, text, LatticeTier::Syllable, &byte_to_idx, self.max_word_tcc);
        let fallback = tcc_fallback(&positions);
        let d = cands.len();
        let ghost dict_part = cands@;
        append_edges(&mut cands, &fallback);
        let ctx = contexts(syl_model, &cands);
        proof {
            self.lemma_candidates_on_grid(text@, dict_part, fallback@, cands@, positions@, byte_to_idx@);
            lemma_grid_edges_on_grid(cands@, positions@, byte_to_idx@, 0, byte_len as int);
            lemma_fallback_path(cands@, d as int, positions@, 0, positions.len() - 1);
            assert(edges_sound(text@, self.words(), self.syllables(), positions@, self.max_word_tcc(), dict_part)) by {
                assert forall|k: int| 0 <= k < dict_part.len() implies token_sound(text@, self.words(), self.syllables(), positions@, self.max_word_tcc(), edge_token(#[trigger] dict_part[k])) by {
                    assert(dict_part[k].payload == LatticeTier::Syllable);
                }
            }
            lemma_cands_sound(text@, self.words(), self.syllables(), dict_part, fallback@, positions@, self.max_word_tcc());
        }
        let path = viterbi(&cands, &ctx, 0, byte_len, &byte_to_idx, positions.len(), syl_model);
        let toks = path_tokens(&cands, &path, 0, byte_len, &positions);
        proof {
            lemma_path_sound(text@, self.words(), self.syllables(), positions@, self.max_word_tcc(), cands@, path@, toks@, 0, byte_len as int);
            assert forall|k: int| 0 <= k < toks.len() implies (#[trigger] toks@[k]).2 != LatticeTier::Word by {
                let i = path@[k] as int;
                assert(path@[k] < cands.len());
                if i < d {
                    assert(cands@[i] == dict_part[i]);
                } else {
                    assert(cands@[i] == fallback@[i - d]);
                }
            }
            if lattice_laws(*syl_model) {
                lemma_syllable_optimal(text@, self.words(), self.syllables(), self.max_word_tcc, *syl_model, byte_to_idx@, positions@, dict_part, fallback@, cands@, ctx@, path@, toks@, byte_len as int);
            }
        }
        pack_tokens(&toks)
    }

    /// Word segmentation: one word-model Viterbi over dictionary words plus the TCC fallback
    /// chain. The fallback nodes on the best path — and dictionary "words" that are a single
    /// bare consonant — are coalesced into maximal OOV spans, each re-segmented by a
    /// syllable-model Viterbi (syllable candidates are built only if some span needs them).
    /// When `cohesion` is given, the branching-entropy merge then dissolves word-internal
    /// boundaries between short tokens. Returns packed tokens that tile the text, each span
    /// between two TCC boundaries: the tokens of the word pass — a `Word` token spells a
    /// dictionary word and is not a bare consonant, a `Syllable` token spells a dictionary
    /// syllable, a `Tcc` token is one cluster — with, when `cohesion` is given, exactly those
    /// boundaries dissolved that lie between two tokens of at most `be_max_tcc` clusters and
    /// that the cohesion model says cohere (glued runs are retagged `Word`); without it, the
    /// word-pass tokens unchanged. The word pass is a best tiling under the word model, and
    /// each OOV span is re-segmented into a best tiling under the syllable model.
    #[verifier::spinoff_prover]
    #[verifier::rlimit(50)]
    pub fn segment_words<W, S, C>(&self, text: &str, word_model: &W, syl_model: &S, cohesion: Option<&C>) -> (r: Vec<u64>)
        where
            W: LatticeModel<Payload = LatticeTier>,
            S: LatticeModel<Payload = LatticeTier>,
            C: BoundaryCohesion,
        requires
            self.wf(),
            byte_len(text@) < NON_BOUNDARY - 1,
        ensures
            byte_len(text@) == 0 ==> r.len() == 0,
            byte_len(text@) > 0 ==> exists|pass: Seq<(usize, usize, LatticeTier)>, d: Seq<bool>| {
                &&& tiles(pass, 0, byte_len(text@) as int)
                &&& on_grid(pass, tcc_grid_of(text@))
                &&& tokens_sound(text@, self.words(), self.syllables(), tcc_grid_of(text@), self.max_word_tcc(), pass)
                &&& no_bare_words(text@, pass)
                &&& dissolvable(tcc_grid_of(text@), self.be_max_tcc(), pass, d)
                &&& forall|j: int| 0 <= j < d.len() ==> #[trigger] d[j] == (cohesion matches Some(c)
                    && within_clusters(tcc_grid_of(text@), pass[j].0 as int, pass[j].1 as int, self.be_max_tcc() as int)
                    && within_clusters(tcc_grid_of(text@), pass[j + 1].0 as int, pass[j + 1].1 as int, self.be_max_tcc() as int)
                    && c.coheres_spec(text, pass[j].1))
                &&& (cohesion is None ==> #[trigger] merged(pass, d) == pass)
                &&& exists|wp: Seq<(usize, usize, LatticeTier)>, pieces: Seq<Seq<(usize, usize, LatticeTier)>>|
                    best_tiling(*word_model, text@, self.words(), self.syllables(), tcc_grid_of(text@), self.max_word_tcc(), LatticeTier::Word, 0, byte_len(text@) as int, wp)
                    && resegments(*syl_model, text@, self.words(), self.syllables(), tcc_grid_of(text@), self.max_word_tcc(), coalesce(word_items_of(text@, wp)), pieces)
                    && pass == flatten(pieces)
                &&& tiles(merged(pass, d), 0, byte_len(text@) as int)
                &&& on_grid(merged(pass, d), tcc_grid_of(text@))
                &&& r@ == merged(pass, d).map_values(|t: (usize, usize, LatticeTier)| packed(t.0, t.1, tier_code(t.2)))
            },
    {
        let byte_len = byte_length(text);
        if byte_len == 0 {
            return Vec::new();
        }
        let (positions, byte_to_idx) = self.tcc_grid(text);
        let pass = self.word_tokens(text, word_model, syl_model, &positions, &byte_to_idx);
        let ghost pv = pass@;
        let ghost mut d: Seq<bool> = Seq::new((pv.len() - 1) as nat, |j: int| false);

        // Branching-entropy merge over the full path.
        let toks = match cohesion {
            Some(c) => {
                let dissolve = self.dissolve_flags(text, &pass, &byte_to_idx, &positions, c);
                proof {
                    d = dissolve@;
                }
                merge_short_runs(&pass, &dissolve)
            },
            None => {
                proof {
                    lemma_merged_none(pv, d);
                }
                pass
            },
        };
        proof {
            lemma_merged_tiles(pv, d, 0, byte_len as int, positions@);
            assert forall|k: int| 0 <= k < toks.len() implies (#[trigger] toks@[k]).0 <= toks@[k].1 by {}
        }
        let r = pack_tokens(&toks);
        proof {
            assert(merged(pv, d) == toks@);
            let (wp, pieces) = choose|wp: Seq<(usize, usize, LatticeTier)>, pieces: Seq<Seq<(usize, usize, LatticeTier)>>|
                best_tiling(*word_model, text@, self.words(), self.syllables(), positions@, self.max_word_tcc(), LatticeTier::Word, 0, byte_len as int, wp)
                && resegments(*syl_model, text@, self.words(), self.syllables(), positions@, self.max_word_tcc(), coalesce(word_items_of(text@, wp)), pieces)
                && pv == flatten(pieces);
            assert(best_tiling(*word_model, text@, self.words(), self.syllables(), positions@, self.max_word_tcc(), LatticeTier::Word, 0, byte_len as int, wp)
                && resegments(*syl_model, text@, self.words(), self.syllables(), positions@, self.max_word_tcc(), coalesce(word_items_of(text@, wp)), pieces)
                && pv == flatten(pieces));
        }
        r
    }

    /// The word pass, its OOV runs coalesced and re-segmented by the syllable model: tokens
    /// that tile the text, each sound.
    #[verifier::spinoff_prover]
    #[verifier::rlimit(40)]
    fn word_tokens<W, S>(
        &self,
        text: &str,
        word_model: &W,
        syl_model: &S,
        positions: &Vec<usize>,
        byte_to_idx: &Vec<u32>,
    ) -> (r: Vec<(usize, usize, LatticeTier)>)
        where
            W: LatticeModel<Payload = LatticeTier>,
            S: LatticeModel<Payload = LatticeTier>,
        requires
            self.wf(),
            byte_len(text@) > 0,
            byte_len(text@) < NON_BOUNDARY - 1,
            positions@ == tcc_grid_of(text@),
            is_grid(text@, positions@),
            strictly_increasing(positions@),
            positions.len() <= byte_len(text@) + 1,
            byte_to_idx.len() == byte_len(text@) + 1,
            grid_table(byte_to_idx@, positions@),
            dense_grid_index(byte_to_idx@, positions.len() as int),
            dense_grid_index(byte_to_idx@, NON_BOUNDARY as int),
        ensures
            tiles(r@, 0, byte_len(text@) as int),
            on_grid(r@, positions@),
            tokens_sound(text@, self.words(), self.syllables(), positions@, self.max_word_tcc(), r@),
            no_bare_words(text@, r@),
            exists|wp: Seq<(usize, usize, LatticeTier)>, pieces: Seq<Seq<(usize, usize, LatticeTier)>>|
                best_tiling(*word_model, text@, self.words(), self.syllables(), positions@, self.max_word_tcc(), LatticeTier::Word, 0, byte_len(text@) as int, wp)
                && resegments(*syl_model, text@, self.words(), self.syllables(), positions@, self.max_word_tcc(), coalesce(word_items_of(text@, wp)), pieces)
                && r@ == flatten(pieces),
    {
        let byte_len = byte_length(text);
        let fallback = tcc_fallback(positions);
        let word_toks = self.word_pass(text, word_model, positions, byte_to_idx, &fallback);

        // Coalesce fallback nodes (and bare-consonant words) into maximal OOV spans.
        let chars = chars_of(text);
        proof {
            lemma_offsets_bounded(text@);
        }
        let table = char_index_table(text, &chars, byte_len);
        let items = word_items(text, &chars, &table, &word_toks, positions);
        proof {
            lemma_same_bounds(word_toks@, items@, 0, byte_len as int, positions@);
        }
        let spans = coalesce_oov(&items);
        proof {
            lemma_coalesce_tiles(items@, 0, byte_len as int, positions@);
            lemma_coalesce_words(items@);
            assert forall|k: int| 0 <= k < spans.len() && (#[trigger] spans@[k]).2
                implies occurrence(text@, self.words(), spans@[k].0 as int, spans@[k].1 as int)
                    && capped(positions@, self.max_word_tcc(), spans@[k].0 as int, spans@[k].1 as int)
                    && !single_consonant(text@, spans@[k].0 as int, spans@[k].1 as int) by {
                let j = choose|j: int| 0 <= j < items.len() && items@[j] == spans@[k];
                assert(word_toks@[j].2 == LatticeTier::Word);
                assert(token_sound(text@, self.words(), self.syllables(), positions@, self.max_word_tcc(), word_toks@[j]));
            }
        }
        let r = self.syllabify_oov(text, &spans, syl_model, positions, byte_to_idx, &fallback);
        proof {
            assert(items@ =~= word_items_of(text@, word_toks@));
            let pieces = choose|pieces: Seq<Seq<(usize, usize, LatticeTier)>>| resegments(*syl_model, text@, self.words(), self.syllables(), positions@, self.max_word_tcc(), spans@, pieces)
                && r@ == flatten(pieces);
            assert(best_tiling(*word_model, text@, self.words(), self.syllables(), positions@, self.max_word_tcc(), LatticeTier::Word, 0, byte_len as int, word_toks@)
                && resegments(*syl_model, text@, self.words(), self.syllables(), positions@, self.max_word_tcc(), coalesce(word_items_of(text@, word_toks@)), pieces)
                && r@ == flatten(pieces));
        }
        r
    }

    /// The word pass: the best word-model path over grid-aligned dictionary words and the
    /// fallback chain, as `(start, end, tier)` tokens tiling the text.
    fn word_pass<W: LatticeModel<Payload = LatticeTier>>(
        &self,
        text: &str,
        word_model: &W,
        positions: &Vec<usize>,
        byte_to_idx: &Vec<u32>,
        fallback: &Vec<Edge<LatticeTier>>,
    ) -> (r: Vec<(usize, usize, LatticeTier)>)
        requires
            positions.len() < NON_BOUNDARY,
            self.wf(),
            is_grid(text@, positions@),
            byte_len(text@) > 0,
            strictly_increasing(positions@),
            byte_to_idx.len() == byte_len(text@) + 1,
            grid_table(byte_to_idx@, positions@),
            dense_grid_index(byte_to_idx@, positions.len() as int),
            dense_grid_index(byte_to_idx@, NON_BOUNDARY as int),
            fallback.len() == positions.len() - 1,
            forall|k: int| 0 <= k < fallback.len() ==> (#[trigger] fallback@[k]).start == positions@[k] && fallback@[k].end == positions@[k + 1] && fallback@[k].payload == LatticeTier::Tcc,
        ensures
            tiles(r@, 0, byte_len(text@) as int),
            on_grid(r@, positions@),
            tokens_sound(text@, self.words(), self.syllables(), positions@, self.max_word_tcc(), r@),
            forall|k: int| 0 <= k < r.len() ==> (#[trigger] r@[k]).2 != LatticeTier::Syllable,
            best_tiling(*word_model, text@, self.words(), self.syllables(), positions@, self.max_word_tcc(), LatticeTier::Word, 0, byte_len(text@) as int, r@),
    {
        let byte_len = byte_length(text);
        let mut word_cands = dict_candidates(&self.word_trie, text, LatticeTier::Word, byte_to_idx, self.max_word_tcc);
        let wd = word_cands.len();
        let ghost word_dict = word_cands@;
        append_edges(&mut word_cands, fallback);
        let word_ctx = contexts(word_model, &word_cands);
        proof {
            self.lemma_candidates_on_grid(text@, word_dict, fallback@, word_cands@, positions@, byte_to_idx@);
            lemma_grid_edges_on_grid(word_cands@, positions@, byte_to_idx@, 0, byte_len as int);
            lemma_fallback_path(word_cands@, wd as int, positions@, 0, positions.len() - 1);
            assert(edges_sound(text@, self.words(), self.syllables(), positions@, self.max_word_tcc(), word_dict)) by {
                assert forall|k: int| 0 <= k < word_dict.len() implies token_sound(text@, self.words(), self.syllables(), positions@, self.max_word_tcc(), edge_token(#[trigger] word_dict[k])) by {
                    assert(word_dict[k].payload == LatticeTier::Word);
                }
            }
            lemma_cands_sound(text@, self.words(), self.syllables(), word_dict, fallback@, positions@, self.max_word_tcc());
        }
        let word_path = viterbi(&word_cands, &word_ctx, 0, byte_len, byte_to_idx, positions.len(), word_model);
        let toks = path_tokens(&word_cands, &word_path, 0, byte_len, positions);
        proof {
            lemma_path_sound(text@, self.words(), self.syllables(), positions@, self.max_word_tcc(), word_cands@, word_path@, toks@, 0, byte_len as int);
            assert forall|k: int| 0 <= k < toks.len() implies (#[trigger] toks@[k]).2 != LatticeTier::Syllable by {
                let i = word_path@[k] as int;
                assert(word_path@[k] < word_cands.len());
                if i < wd {
                    assert(word_cands@[i] == word_dict[i]);
                } else {
                    assert(word_cands@[i] == fallback@[i - wd]);
                }
            }
            reveal(best_tiling);
            assert forall|k: int| 0 <= k < toks.len() implies (#[trigger] toks@[k]).2 == LatticeTier::Word || toks@[k].2 == LatticeTier::Tcc by {
                assert(toks@[k].2 != LatticeTier::Syllable);
            }
            if lattice_laws(*word_model) {
                lemma_region_optimal(text@, self.words(), self.syllables(), self.words(), LatticeTier::Word, self.max_word_tcc, *word_model,
                    byte_to_idx@, positions@, word_dict, fallback@, word_cands@, word_ctx@, word_path@, toks@, 0, byte_len as int);
            }
        }
        toks
    }

    /// Keeps word spans as `Word` tokens and re-segments each OOV span with the syllable model.
    #[verifier::spinoff_prover]
    #[verifier::rlimit(40)]
    fn syllabify_oov<S: LatticeModel<Payload = LatticeTier>>(
        &self,
        text: &str,
        spans: &Vec<(usize, usize, bool)>,
        syl_model: &S,
        positions: &Vec<usize>,
        byte_to_idx: &Vec<u32>,
        fallback: &Vec<Edge<LatticeTier>>,
    ) -> (r: Vec<(usize, usize, LatticeTier)>)
        requires
            positions.len() < NON_BOUNDARY,
            self.wf(),
            tiles(spans@, 0, byte_len(text@) as int),
            on_grid(spans@, positions@),
            forall|k: int| 0 <= k < spans.len() && (#[trigger] spans@[k]).2 ==> occurrence(text@, self.words(), spans@[k].0 as int, spans@[k].1 as int)
                && capped(positions@, self.max_word_tcc(), spans@[k].0 as int, spans@[k].1 as int)
                && !single_consonant(text@, spans@[k].0 as int, spans@[k].1 as int),
            byte_len(text@) > 0,
            positions.len() >= 1,
            strictly_increasing(positions@),
            byte_to_idx.len() == byte_len(text@) + 1,
            grid_table(byte_to_idx@, positions@),
            dense_grid_index(byte_to_idx@, positions.len() as int),
            dense_grid_index(byte_to_idx@, NON_BOUNDARY as int),
            fallback.len() == positions.len() - 1,
            forall|k: int| 0 <= k < fallback.len() ==> (#[trigger] fallback@[k]).start == positions@[k] && fallback@[k].end == positions@[k + 1] && fallback@[k].payload == LatticeTier::Tcc,
        ensures
            tiles(r@, 0, byte_len(text@) as int),
            on_grid(r@, positions@),
            tokens_sound(text@, self.words(), self.syllables(), positions@, self.max_word_tcc(), r@),
            no_bare_words(text@, r@),
            exists|pieces: Seq<Seq<(usize, usize, LatticeTier)>>| resegments(*syl_model, text@, self.words(), self.syllables(), positions@, self.max_word_tcc(), spans@, pieces)
                && r@ == flatten(pieces),
    {
        let mut syl_cands: Vec<Edge<LatticeTier>> = Vec::new();
        let mut syl_ctx: Vec<S::Ctx> = Vec::new();
        let mut syl_built = false;
        let mut sd: usize = 0;
        let mut toks: Vec<(usize, usize, LatticeTier)> = Vec::new();
        let ghost mut pieces: Seq<Seq<(usize, usize, LatticeTier)>> = seq![];
        let mut i: usize = 0;
        proof {
            assert(toks@ =~= flatten(pieces));
            reveal(resegments);
            assert(spans@.take(0).len() == 0);
        }
        while i < spans.len()
            invariant
                self.wf(),
                tiles(spans@, 0, byte_len(text@) as int),
                on_grid(spans@, positions@),
                forall|k: int| 0 <= k < spans.len() && (#[trigger] spans@[k]).2 ==> occurrence(text@, self.words(), spans@[k].0 as int, spans@[k].1 as int)
                    && capped(positions@, self.max_word_tcc(), spans@[k].0 as int, spans@[k].1 as int)
                    && !single_consonant(text@, spans@[k].0 as int, spans@[k].1 as int),
                positions.len() >= 1,
                strictly_increasing(positions@),
                byte_to_idx.len() == byte_len(text@) + 1,
                grid_table(byte_to_idx@, positions@),
                dense_grid_index(byte_to_idx@, positions.len() as int),
                dense_grid_index(byte_to_idx@, NON_BOUNDARY as int),
                fallback.len() == positions.len() - 1,
                forall|k: int| 0 <= k < fallback.len() ==> (#[trigger] fallback@[k]).start == positions@[k] && fallback@[k].end == positions@[k + 1] && fallback@[k].payload == LatticeTier::Tcc,
                i <= spans.len(),
                tiles(toks@, 0, if i == 0 { 0 } else { spans@[i - 1].1 as int }),
                on_grid(toks@, positions@),
                tokens_sound(text@, self.words(), self.syllables(), positions@, self.max_word_tcc(), toks@),
                no_bare_words(text@, toks@),
                resegments(*syl_model, text@, self.words(), self.syllables(), positions@, self.max_word_tcc(), spans@.take(i as int), pieces),
                toks@ == flatten(pieces),
                positions.len() < NON_BOUNDARY,
                syl_built ==> {
                    &&& syllable_lattice(*syl_model, text@, self.syllables(), self.max_word_tcc, byte_to_idx@, fallback@, syl_cands@, syl_ctx@, sd as int)
                    &&& grid_edges(syl_cands@, positions@)
                    &&& forall|k: int| 0 <= k < syl_cands.len() ==> (#[trigger] syl_cands@[k]).payload != LatticeTier::Word
                    &&& edges_sound(text@, self.words(), self.syllables(), positions@, self.max_word_tcc(), syl_cands@)
                    &&& syl_ctx.len() == syl_cands.len()
                    &&& syl_cands.len() == sd + positions.len() - 1
                    &&& forall|k: int| 0 <= k < positions.len() - 1 ==> (#[trigger] syl_cands@[sd + k]).start == positions@[k] && syl_cands@[sd + k].end == positions@[k + 1]
                },
            decreases spans.len() - i,
        {
            let (s, e, is_word) = spans[i];
            proof {
                assert(spans@[i as int] == (s, e, is_word));
                if i > 0 {
                    assert(spans@[i - 1].1 == spans@[i as int].0);
                } else {
                    assert(spans@[0].0 == 0);
                }
                assert(s < e);
                assert(positions@.contains(s) && positions@.contains(e));
            }
            let ghost old_t = toks@;
            if is_word {
                toks.push((s, e, LatticeTier::Word));
                proof {
                    let one = seq![(s, e, LatticeTier::Word)];
                    assert(token_sound(text@, self.words(), self.syllables(), positions@, self.max_word_tcc(), one[0]));
                    lemma_join_tokens(text@, self.words(), self.syllables(), positions@, self.max_word_tcc(), old_t, one);
                    assert(toks@ =~= old_t + one);
                    lemma_tiles_push(old_t, 0, s as int, (s, e, LatticeTier::Word));
                    let old_p = pieces;
                    pieces = pieces.push(one);
                    assert(pieces.drop_last() =~= old_p);
                    lemma_resegments_push(*syl_model, text@, self.words(), self.syllables(), positions@, self.max_word_tcc(), spans@, old_p, i as int, one);
                }
            } else {
                if !syl_built {
                    let (c, cx, n) = self.syllable_candidates(text, syl_model, positions, byte_to_idx, fallback);
                    syl_cands = c;
                    syl_ctx = cx;
                    sd = n;
                    syl_built = true;
                }
                let piece = self.oov_piece(text, &syl_cands, &syl_ctx, sd, s, e, syl_model, positions, byte_to_idx, fallback);
                append_tokens(&mut toks, &piece);
                proof {
                    lemma_tiles_concat(old_t, piece@, 0, s as int, e as int);
                    lemma_join_tokens(text@, self.words(), self.syllables(), positions@, self.max_word_tcc(), old_t, piece@);
                    let old_p = pieces;
                    pieces = pieces.push(piece@);
                    assert(pieces.drop_last() =~= old_p);
                    lemma_resegments_push(*syl_model, text@, self.words(), self.syllables(), positions@, self.max_word_tcc(), spans@, old_p, i as int, piece@);
                }
            }
            i += 1;
        }
        proof {
            assert(spans@.take(spans.len() as int) =~= spans@);
            assert(resegments(*syl_model, text@, self.words(), self.syllables(), positions@, self.max_word_tcc(), spans@, pieces));
            assert(toks@ == flatten(pieces));
        }
        toks
    }

    /// The syllable candidates of the whole text (dictionary syllables, then the fallback
    /// chain from index `r.2` on) with their contexts.
    fn syllable_candidates<S: LatticeModel<Payload = LatticeTier>>(
        &self,
        text: &str,
        syl_model: &S,
        positions: &Vec<usize>,
        byte_to_idx: &Vec<u32>,
        fallback: &Vec<Edge<LatticeTier>>,
    ) -> (r: (Vec<Edge<LatticeTier>>, Vec<S::Ctx>, usize))
        requires
            self.wf(),
            positions.len() >= 1,
            strictly_increasing(positions@),
            byte_to_idx.len() == byte_len(text@) + 1,
            grid_table(byte_to_idx@, positions@),
            dense_grid_index(byte_to_idx@, NON_BOUNDARY as int),
            fallback.len() == positions.len() - 1,
            forall|k: int| 0 <= k < fallback.len() ==> (#[trigger] fallback@[k]).start == positions@[k] && fallback@[k].end == positions@[k + 1] && fallback@[k].payload == LatticeTier::Tcc,
        ensures
            syllable_lattice(*syl_model, text@, self.syllables(), self.max_word_tcc, byte_to_idx@, fallback@, r.0@, r.1@, r.2 as int),
            grid_edges(r.0@, positions@),
            edges_sound(text@, self.words(), self.syllables(), positions@, self.max_word_tcc(), r.0@),
            forall|k: int| 0 <= k < r.0.len() ==> (#[trigger] r.0@[k]).payload != LatticeTier::Word,
            r.1.len() == r.0.len(),
            r.0.len() == r.2 + positions.len() - 1,
            forall|k: int| 0 <= k < positions.len() - 1 ==> (#[trigger] r.0@[r.2 + k]).start == positions@[k] && r.0@[r.2 + k].end == positions@[k + 1],
    {
        let mut c = dict_candidates(&self.syllable_trie, text, LatticeTier::Syllable, byte_to_idx, self.max_word_tcc);
        let sd = c.len();
        let ghost syl_dict = c@;
        append_edges(&mut c, fallback);
        let cx = contexts(syl_model, &c);
        proof {
            self.lemma_candidates_on_grid(text@, syl_dict, fallback@, c@, positions@, byte_to_idx@);
            assert(edges_sound(text@, self.words(), self.syllables(), positions@, self.max_word_tcc(), syl_dict)) by {
                assert forall|k: int| 0 <= k < syl_dict.len() implies token_sound(text@, self.words(), self.syllables(), positions@, self.max_word_tcc(), edge_token(#[trigger] syl_dict[k])) by {
                    assert(syl_dict[k].payload == LatticeTier::Syllable);
                    lemma_span_capped(byte_to_idx@, positions@, syl_dict[k].start as int, syl_dict[k].end as int, self.max_word_tcc);
                }
            }
            lemma_cands_sound(text@, self.words(), self.syllables(), syl_dict, fallback@, positions@, self.max_word_tcc());
            assert(c@.take(sd as int) =~= syl_dict);
            assert forall|k: int| 0 <= k < c.len() implies (#[trigger] c@[k]).payload != LatticeTier::Word by {
                if k < syl_dict.len() {
                    assert(c@[k] == syl_dict[k]);
                } else {
                    assert(c@[k] == fallback@[k - syl_dict.len()]);
                }
            }
        }
        (c, cx, sd)
    }

    /// The syllable-model decode of one OOV span `[s, e)` over the syllable candidates and
    /// the fallback chain (which starts at index `sd`).
    fn oov_piece<S: LatticeModel<Payload = LatticeTier>>(
        &self,
        text: &str,
        syl_cands: &Vec<Edge<LatticeTier>>,
        syl_ctx: &Vec<S::Ctx>,
        sd: usize,
        s: usize,
        e: usize,
        syl_model: &S,
        positions: &Vec<usize>,
        byte_to_idx: &Vec<u32>,
        fallback: &Vec<Edge<LatticeTier>>,
    ) -> (r: Vec<(usize, usize, LatticeTier)>)
        requires
            syllable_lattice(*syl_model, text@, self.syllables(), self.max_word_tcc, byte_to_idx@, fallback@, syl_cands@, syl_ctx@, sd as int),
            fallback.len() == positions.len() - 1,
            forall|k: int| 0 <= k < fallback.len() ==> (#[trigger] fallback@[k]).start == positions@[k] && fallback@[k].end == positions@[k + 1] && fallback@[k].payload == LatticeTier::Tcc,
            positions.len() < NON_BOUNDARY,
            grid_edges(syl_cands@, positions@),
            edges_sound(text@, self.words(), self.syllables(), positions@, self.max_word_tcc(), syl_cands@),
            forall|k: int| 0 <= k < syl_cands.len() ==> (#[trigger] syl_cands@[k]).payload != LatticeTier::Word,
            syl_ctx.len() == syl_cands.len(),
            positions.len() >= 1,
            syl_cands.len() == sd + positions.len() - 1,
            forall|k: int| 0 <= k < positions.len() - 1 ==> (#[trigger] syl_cands@[sd + k]).start == positions@[k] && syl_cands@[sd + k].end == positions@[k + 1],
            positions@.contains(s),
            positions@.contains(e),
            s < e,
            strictly_increasing(positions@),
            grid_table(byte_to_idx@, positions@),
            dense_grid_index(byte_to_idx@, positions.len() as int),
        ensures
            tiles(r@, s as int, e as int),
            on_grid(r@, positions@),
            tokens_sound(text@, self.words(), self.syllables(), positions@, self.max_word_tcc(), r@),
            forall|k: int| 0 <= k < r.len() ==> (#[trigger] r@[k]).2 != LatticeTier::Word,
            no_bare_words(text@, r@),
            best_tiling(*syl_model, text@, self.words(), self.syllables(), positions@, self.max_word_tcc(), LatticeTier::Syllable, s as int, e as int, r@),
    {
        proof {
            let a = choose|a: int| 0 <= a < positions.len() && positions@[a] == s;
            let b = choose|b: int| 0 <= b < positions.len() && positions@[b] == e;
            if b <= a {
                if b < a {
                    assert(positions@[b] < positions@[a]);
                }
            }
            lemma_fallback_path(syl_cands@, sd as int, positions@, a, b);
            lemma_grid_edges_on_grid(syl_cands@, positions@, byte_to_idx@, s as int, e as int);
            assert(byte_to_idx@[positions@[b] as int] == b);
        }
        let path = viterbi(syl_cands, syl_ctx, s, e, byte_to_idx, positions.len(), syl_model);
        let piece = path_tokens(syl_cands, &path, s, e, positions);
        proof {
            lemma_path_sound(text@, self.words(), self.syllables(), positions@, self.max_word_tcc(), syl_cands@, path@, piece@, s as int, e as int);
            assert forall|k: int| 0 <= k < piece.len() implies (#[trigger] piece@[k]).2 != LatticeTier::Word by {
                assert(path@[k] < syl_cands.len());
            }
            reveal(best_tiling);
            assert forall|k: int| 0 <= k < piece.len() implies (#[trigger] piece@[k]).2 == LatticeTier::Syllable || piece@[k].2 == LatticeTier::Tcc by {
                assert(piece@[k].2 != LatticeTier::Word);
            }
            if lattice_laws(*syl_model) {
                lemma_region_optimal(text@, self.words(), self.syllables(), self.syllables(), LatticeTier::Syllable, self.max_word_tcc, *syl_model,
                    byte_to_idx@, positions@, syl_cands@.take(sd as int), fallback@, syl_cands@, syl_ctx@, path@, piece@, s as int, e as int);
            }
        }
        piece
    }

    /// Joint word segmentation: dictionary words, dictionary syllables and the TCC fallback
    /// chain are candidates of one lattice, all scored by the word model, so syllables can
    /// influence boundary placement. Returns packed tokens that tile the text, each span
    /// between two TCC boundaries, each spelling an entry of its tier's dictionary within the
    /// `max_word_tcc` cap (a `Tcc` token: one cluster). Under the lattice laws no other such
    /// tiling scores better under the word model.
    #[verifier::spinoff_prover]
    #[verifier::rlimit(30)]
    pub fn segment_words_joint<W: LatticeModel<Payload = LatticeTier>>(&self, text: &str, word_model: &W) -> (r: Vec<u64>)
        requires
            self.wf(),
            byte_len(text@) < NON_BOUNDARY - 1,
        ensures
            byte_len(text@) == 0 ==> r.len() == 0,
            byte_len(text@) > 0 ==> exists|sp: Seq<(usize, usize, LatticeTier)>| {
                &&& tiles(sp, 0, byte_len(text@) as int)
                &&& on_grid(sp, tcc_grid_of(text@))
                &&& r@ == sp.map_values(|t: (usize, usize, LatticeTier)| packed(t.0, t.1, tier_code(t.2)))
                &&& tokens_sound(text@, self.words(), self.syllables(), tcc_grid_of(text@), self.max_word_tcc(), sp)
                &&& lattice_laws(*word_model) ==> forall|o: Seq<(usize, usize, LatticeTier)>| #[trigger] tiles(o, 0, byte_len(text@) as int)
                    && on_grid(o, tcc_grid_of(text@))
                    && tokens_sound(text@, self.words(), self.syllables(), tcc_grid_of(text@), self.max_word_tcc(), o)
                    ==> !tiling_score(*word_model, o).better(tiling_score(*word_model, sp))
            },
    {
        let byte_len = byte_length(text);
        if byte_len == 0 {
            return Vec::new();
        }
        let (positions, byte_to_idx) = self.tcc_grid(text);
        let mut cands = dict_candidates(&self.word_trie, text, LatticeTier::Word, &byte_to_idx, self.max_word_tcc);
        let syl = dict_candidates(&self.syllable_trie, text, LatticeTier::Syllable, &byte_to_idx, self.max_word_tcc);
        let ghost word_part = cands@;
        append_edges(&mut cands, &syl);
        let fallback = tcc_fallback(&positions);
        let d = cands.len();
        let ghost dict_part = cands@;
        append_edges(&mut cands, &fallback);
        let ctx = contexts(word_model, &cands);
        proof {
            assert forall|k: int| 0 <= k < dict_part.len() implies grid_span(byte_to_idx@, (#[trigger] dict_part[k]).start as int, dict_part[k].end as int, self.max_word_tcc) by {}
            self.lemma_candidates_on_grid(text@, dict_part, fallback@, cands@, positions@, byte_to_idx@);
            lemma_grid_edges_on_grid(cands@, positions@, byte_to_idx@, 0, byte_len as int);
            lemma_fallback_path(cands@, d as int, positions@, 0, positions.len() - 1);
            assert(edges_sound(text@, self.words(), self.syllables(), positions@, self.max_word_tcc(), dict_part)) by {
                assert forall|k: int| 0 <= k < dict_part.len() implies token_sound(text@, self.words(), self.syllables(), positions@, self.max_word_tcc(), edge_token(#[trigger] dict_part[k])) by {
                    if k < word_part.len() {
                        assert(dict_part[k] == word_part[k]);
                        assert(word_part[k].payload == LatticeTier::Word);
                    } else {
                        assert(dict_part[k] == syl@[k - word_part.len()]);
                        assert(syl@[k - word_part.len()].payload == LatticeTier::Syllable);
                    }
                }
            }
            lemma_cands_sound(text@, self.words(), self.syllables(), dict_part, fallback@, positions@, self.max_word_tcc());
        }
        let path = viterbi(&cands, &ctx, 0, byte_len, &byte_to_idx, positions.len(), word_model);
        let toks = path_tokens(&cands, &path, 0, byte_len, &positions);
        proof {
            lemma_path_sound(text@, self.words(), self.syllables(), positions@, self.max_word_tcc(), cands@, path@, toks@, 0, byte_len as int);
            if lattice_laws(*word_model) {
                lemma_joint_optimal(text@, self.words(), self.syllables(), self.max_word_tcc, *word_model, byte_to_idx@, positions@, word_part, syl@, fallback@, cands@, ctx@, path@, toks@, byte_len as int);
            }
        }
        pack_tokens(&toks)
    }

    /// For each boundary between consecutive tokens: whether both neighbouring tokens are
    /// short (at most `be_max_tcc` clusters) and `cohesion` finds the boundary word-internal.
    fn dissolve_flags<C: BoundaryCohesion>(
        &self,
        text: &str,
        toks: &Vec<(usize, usize, LatticeTier)>,
        byte_to_idx: &Vec<u32>,
        positions: &Vec<usize>,
        cohesion: &C,
    ) -> (r: Vec<bool>)
        requires
            on_grid(toks@, positions@),
            forall|k: int| 0 <= k < toks.len() ==> (#[trigger] toks@[k]).0 < toks@[k].1,
            grid_table(byte_to_idx@, positions@),
            dense_grid_index(byte_to_idx@, positions.len() as int),
        ensures
            dissolvable(positions@, self.be_max_tcc(), toks@, r@),
            forall|j: int| 0 <= j < r.len() ==> #[trigger] r@[j] == (within_clusters(positions@, toks@[j].0 as int, toks@[j].1 as int, self.be_max_tcc() as int)
                && within_clusters(positions@, toks@[j + 1].0 as int, toks@[j + 1].1 as int, self.be_max_tcc() as int)
                && cohesion.coheres_spec(text, toks@[j].1)),
    {
        let mut r: Vec<bool> = Vec::new();
        if toks.len() == 0 {
            return r;
        }
        let mut j: usize = 0;
        while j < toks.len() - 1
            invariant
                toks.len() > 0,
                j <= toks.len() - 1,
                r.len() == j,
                on_grid(toks@, positions@),
                forall|k: int| 0 <= k < toks.len() ==> (#[trigger] toks@[k]).0 < toks@[k].1,
                grid_table(byte_to_idx@, positions@),
                dense_grid_index(byte_to_idx@, positions.len() as int),
                forall|x: int| 0 <= x < r.len() ==> #[trigger] r@[x] == (within_clusters(positions@, toks@[x].0 as int, toks@[x].1 as int, self.be_max_tcc() as int)
                    && within_clusters(positions@, toks@[x + 1].0 as int, toks@[x + 1].1 as int, self.be_max_tcc() as int)
                    && cohesion.coheres_spec(text, toks@[x].1)),
            decreases toks.len() - j,
        {
            let a = self.is_short(toks[j], byte_to_idx, positions);
            let b = self.is_short(toks[j + 1], byte_to_idx, positions);
            let f = a && b && cohesion.coheres(text, toks[j].1);
            r.push(f);
            j += 1;
        }
        r
    }

    /// Whether a grid token spans at most `be_max_tcc` clusters.
    fn is_short(&self, t: (usize, usize, LatticeTier), byte_to_idx: &Vec<u32>, positions: &Vec<usize>) -> (r: bool)
        requires
            positions@.contains(t.0),
            positions@.contains(t.1),
            t.0 < t.1,
            grid_table(byte_to_idx@, positions@),
            dense_grid_index(byte_to_idx@, positions.len() as int),
        ensures
            r == within_clusters(positions@, t.0 as int, t.1 as int, self.be_max_tcc() as int),
    {
        proof {
            let a = choose|a: int| 0 <= a < positions.len() && positions@[a] == t.0;
            let b = choose|b: int| 0 <= b < positions.len() && positions@[b] == t.1;
            assert(byte_to_idx@[t.0 as int] == a);
            assert(byte_to_idx@[t.1 as int] == b);
            assert(a < b);
            if within_clusters(positions@, t.0 as int, t.1 as int, self.be_max_tcc() as int) {
                let (a2, b2) = choose|a2: int, b2: int| 0 <= a2 <= b2 < positions.len() && #[trigger] positions@[a2] == t.0 as int
                    && #[trigger] positions@[b2] == t.1 as int && b2 - a2 <= self.be_max_tcc() as int;
                assert(byte_to_idx@[positions@[a2] as int] == a2);
                assert(byte_to_idx@[positions@[b2] as int] == b2);
            }
        }
        ((byte_to_idx[t.1] - byte_to_idx[t.0]) as usize) <= self.be_max_tcc
    }

    /// Dictionary candidates followed by the fallback chain are grid edges.
    proof fn lemma_candidates_on_grid(
        &self,
        text: Seq<char>,
        dict_part: Seq<Edge<LatticeTier>>,
        fallback: Seq<Edge<LatticeTier>>,
        cands: Seq<Edge<LatticeTier>>,
        positions: Seq<usize>,
        bti: Seq<u32>,
    )
        requires
            cands == dict_part + fallback,
            grid_table(bti, positions),
            dense_grid_index(bti, NON_BOUNDARY as int),
            strictly_increasing(positions),
            positions.len() >= 1,
            forall|k: int| 0 <= k < dict_part.len() ==> grid_span(bti, (#[trigger] dict_part[k]).start as int, dict_part[k].end as int, self.max_word_tcc),
            fallback.len() == positions.len() - 1,
            forall|k: int| 0 <= k < fallback.len() ==> (#[trigger] fallback[k]).start == positions[k] && fallback[k].end == positions[k + 1],
        ensures
            grid_edges(cands, positions),
            forall|k: int| 0 <= k < positions.len() - 1 ==> (#[trigger] cands[dict_part.len() + k]).start == positions[k] && cands[dict_part.len() + k].end == positions[k + 1],
    {
        assert forall|i: int| 0 <= i < cands.len() implies {
            &&& (#[trigger] cands[i]).start < cands[i].end
            &&& positions.contains(cands[i].start)
            &&& positions.contains(cands[i].end)
        } by {
            if i < dict_part.len() {
                let e = dict_part[i];
                assert(cands[i] == e);
                let s = e.start as int;
                let t = e.end as int;
                assert(positions[bti[s] as int] == s);
                assert(positions[bti[t] as int] == t);
                if t <= s {
                    if t < s {
                        assert(bti[t] < bti[s]);
                    }
                }
            } else {
                let k = i - dict_part.len();
                assert(cands[i] == fallback[k]);
                assert(positions[k] < positions[k + 1]);
                assert(positions[k + 1] == fallback[k].end);
            }
        }
        assert forall|k: int| 0 <= k < positions.len() - 1 implies (#[trigger] cands[dict_part.len() + k]).start == positions[k] && cands[dict_part.len() + k].end == positions[k + 1] by {
            assert(cands[dict_part.len() + k] == fallback[k]);
        }
    }
}

/// A vocabulary holds at least one entry and no entry twice (empty lines aside).
pub open spec fn distinct_entries(lines: Seq<Seq<char>>) -> bool {
    &&& exists|x: int| 0 <= x < lines.len() && (#[trigger] lines[x]).len() > 0
    &&& forall|x: int, y: int|
        0 <= x < lines.len() && 0 <= y < lines.len() && x != y && (#[trigger] lines[x]).len() > 0 ==> lines[x] != #[trigger] lines[y]
}

/// Distinct, non-empty vocabulary patterns come from distinct entries.
proof fn lemma_distinct_patterns(raw: Seq<char>, r: Seq<(String, usize)>)
    requires
        forall|k: int| 0 <= k < r.len() ==> (#[trigger] r[k]).1 < text_lines(raw).len() && r[k].0@ == text_lines(raw)[r[k].1 as int] && r[k].0@.len() > 0,
        forall|x: int| 0 <= x < text_lines(raw).len() && (#[trigger] text_lines(raw)[x]).len() > 0 ==> exists|k: int| 0 <= k < r.len() && r[k].1 == x,
        r.len() > 0,
        forall|a: int, b: int| 0 <= a < r.len() && 0 <= b < r.len() && a != b ==> (#[trigger] r[a]).0@ != (#[trigger] r[b]).0@,
    ensures
        distinct_entries(text_lines(raw)),
{
    let lines = text_lines(raw);
    assert(lines[r[0].1 as int].len() > 0);
    assert forall|x: int, y: int|
        0 <= x < lines.len() && 0 <= y < lines.len() && x != y && (#[trigger] lines[x]).len() > 0 implies lines[x] != #[trigger] lines[y] by {
        if lines[x] == lines[y] {
            let kx = choose|k: int| 0 <= k < r.len() && r[k].1 == x;
            let ky = choose|k: int| 0 <= k < r.len() && r[k].1 == y;
            assert(r[kx].0@ != r[ky].0@);
        }
    }
}

/// The entries of a vocabulary: its non-empty lines, each with its line number, in order.
pub open spec fn vocab_entries(lines: Seq<Seq<char>>) -> Seq<(Seq<char>, usize)>
    decreases lines.len(),
{
    if lines.len() == 0 {
        seq![]
    } else {
        let prev = vocab_entries(lines.drop_last());
        if lines.last().len() > 0 {
            prev.push((lines.last(), (lines.len() - 1) as usize))
        } else {
            prev
        }
    }
}

/// The non-empty lines of a vocabulary text, each with its line number.
pub fn vocab_patterns(raw: &str) -> (r: Vec<(String, usize)>)
    ensures
        r@.map_values(|p: (String, usize)| (p.0@, p.1)) == vocab_entries(text_lines(raw@)),
        forall|k: int| 0 <= k < r.len() ==> (#[trigger] r@[k]).1 < text_lines(raw@).len() && r@[k].0@ == text_lines(raw@)[r@[k].1 as int] && r@[k].0@.len() > 0,
        forall|k: int| 0 <= k < r.len() - 1 ==> (#[trigger] r@[k]).1 < r@[k + 1].1,
        forall|x: int| 0 <= x < text_lines(raw@).len() && (#[trigger] text_lines(raw@)[x]).len() > 0 ==> exists|k: int| 0 <= k < r.len() && r@[k].1 == x,
        Set::new(|p: Seq<char>| exists|k: int| 0 <= k < r.len() && r@[k].0@ == p) == Set::new(|p: Seq<char>| p.len() > 0 && text_lines(raw@).contains(p)),
{
    let lines = split_lines(raw);
    let ghost ls = text_lines(raw@);
    let mut r: Vec<(String, usize)> = Vec::new();
    let mut idx: usize = 0;
    while idx < lines.len()
        invariant
            lines@.map_values(|l: Vec<char>| l@) == ls,
            ls == text_lines(raw@),
            idx <= lines.len(),
            r@.map_values(|p: (String, usize)| (p.0@, p.1)) == vocab_entries(ls.take(idx as int)),
            forall|k: int| 0 <= k < r.len() ==> (#[trigger] r@[k]).1 < idx && r@[k].0@ == ls[r@[k].1 as int] && r@[k].0@.len() > 0,
            forall|k: int| 0 <= k < r.len() - 1 ==> (#[trigger] r@[k]).1 < r@[k + 1].1,
            forall|x: int| 0 <= x < idx && (#[trigger] ls[x]).len() > 0 ==> exists|k: int| 0 <= k < r.len() && r@[k].1 == x,
        decreases lines.len() - idx,
    {
        proof {
            assert(ls[idx as int] == lines@[idx as int]@);
            assert(ls.take(idx + 1).drop_last() =~= ls.take(idx as int));
            assert(ls.take(idx + 1).last() == ls[idx as int]);
        }
        if lines[idx].len() > 0 {
            let w = string_from_chars(lines[idx].as_slice());
            let ghost old_r = r@;
            r.push((w, idx));
            proof {
                assert(r@.map_values(|p: (String, usize)| (p.0@, p.1)) =~= old_r.map_values(|p: (String, usize)| (p.0@, p.1)).push((ls[idx as int], idx)));
                assert forall|x: int| 0 <= x < idx + 1 && (#[trigger] ls[x]).len() > 0 implies exists|k: int| 0 <= k < r.len() && r@[k].1 == x by {
                    if x < idx {
                        let k = choose|k: int| 0 <= k < old_r.len() && old_r[k].1 == x;
                        assert(r@[k] == old_r[k]);
                    } else {
                        assert(r@[old_r.len() as int].1 == x);
                    }
                }
                assert forall|k: int| 0 <= k < r.len() - 1 implies (#[trigger] r@[k]).1 < r@[k + 1].1 by {
                    if k < old_r.len() - 1 {
                        assert(r@[k] == old_r[k] && r@[k + 1] == old_r[k + 1]);
                    } else {
                        assert(r@[k] == old_r[k]);
                    }
                }
            }
        }
        idx += 1;
    }
    proof {
        assert(ls.take(lines.len() as int) =~= ls);
        assert forall|p: Seq<char>| (exists|k: int| 0 <= k < r.len() && r@[k].0@ == p) <==> (p.len() > 0 && ls.contains(p)) by {
            if exists|k: int| 0 <= k < r.len() && r@[k].0@ == p {
                let k = choose|k: int| 0 <= k < r.len() && r@[k].0@ == p;
                assert(ls[r@[k].1 as int] == p);
            }
            if p.len() > 0 && ls.contains(p) {
                let x = choose|x: int| 0 <= x < ls.len() && ls[x] == p;
                let k = choose|k: int| 0 <= k < r.len() && r@[k].1 == x;
                assert(r@[k].0@ == p);
            }
        }
        assert(Set::new(|p: Seq<char>| exists|k: int| 0 <= k < r.len() && r@[k].0@ == p) =~= Set::new(|p: Seq<char>| p.len() > 0 && ls.contains(p)));
    }
    r
}

/// Appends copies of `extra` to `edges`.
fn append_edges(edges: &mut Vec<Edge<LatticeTier>>, extra: &Vec<Edge<LatticeTier>>)
    ensures
        final(edges)@ == old(edges)@ + extra@,
{
    let ghost start = edges@;
    let mut i: usize = 0;
    while i < extra.len()
        invariant
            i <= extra.len(),
            edges@ == start + extra@.take(i as int),
        decreases extra.len() - i,
    {
        let e = Edge { start: extra[i].start, end: extra[i].end, payload: extra[i].payload };
        edges.push(e);
        i += 1;
        assert(edges@ =~= start + extra@.take(i as int));
    }
    assert(extra@.take(extra.len() as int) =~= extra@);
}

/// Two span sequences with the same bounds tile alike and sit on the same grid.
proof fn lemma_same_bounds<X, Y>(p: Seq<(usize, usize, X)>, q: Seq<(usize, usize, Y)>, a: int, b: int, grid: Seq<usize>)
    requires
        tiles(p, a, b),
        on_grid(p, grid),
        p.len() == q.len(),
        forall|k: int| 0 <= k < q.len() ==> (#[trigger] q[k]).0 == p[k].0 && q[k].1 == p[k].1,
    ensures
        tiles(q, a, b),
        on_grid(q, grid),
{
    if q.len() > 0 {
        assert(q[0].0 == p[0].0);
        assert(q.last().1 == p.last().1);
        assert forall|k: int| 0 <= k < q.len() - 1 implies (#[trigger] q[k]).1 == q[k + 1].0 by {
            assert(p[k].1 == p[k + 1].0);
        }
        assert forall|k: int| 0 <= k < q.len() implies (#[trigger] q[k]).0 < q[k].1 by {
            assert(p[k].0 < p[k].1);
        }
        assert forall|k: int| 0 <= k < q.len() implies grid.contains((#[trigger] q[k]).0) && grid.contains(q[k].1) by {
            assert(grid.contains(p[k].0) && grid.contains(p[k].1));
        }
    }
}

/// Appends `extra` to `toks`.
fn append_tokens(toks: &mut Vec<(usize, usize, LatticeTier)>, extra: &Vec<(usize, usize, LatticeTier)>)
    ensures
        final(toks)@ == old(toks)@ + extra@,
{
    let ghost start = toks@;
    let mut i: usize = 0;
    while i < extra.len()
        invariant
            i <= extra.len(),
            toks@ == start + extra@.take(i as int),
        decreases extra.len() - i,
    {
        toks.push(extra[i]);
        i += 1;
        assert(toks@ =~= start + extra@.take(i as int));
    }
    assert(extra@.take(extra.len() as int) =~= extra@);
}

/// A Thai consonant letter, U+0E01..U+0E2E.
pub open spec fn thai_consonant(c: char) -> bool {
    '\u{0E01}' <= c && c <= '\u{0E2E}'
}

/// Bytes `[s, e)` of `text` hold exactly one character, a Thai consonant.
pub open spec fn single_consonant(text: Seq<char>, s: int, e: int) -> bool {
    exists|i: int| 0 <= i < text.len() && #[trigger] byte_offset(text, i) == s && byte_offset(text, i + 1) == e && thai_consonant(text[i])
}

/// Whether bytes `[s, e)` hold a single bare consonant; `s` is a character boundary.
fn is_single_consonant(text: &str, chars: &Vec<char>, table: &Vec<usize>, s: usize, e: usize) -> (r: bool)
    requires
        chars@ == text@,
        table.len() == byte_len(text@) + 1,
        forall|j: int| 0 <= j <= text@.len() ==> #[trigger] table@[byte_offset(text@, j) as int] == j,
        is_boundary(text@, s as int),
    ensures
        r == single_consonant(text@, s as int, e as int),
{
    proof {
        lemma_offsets_bounded(text@);
    }
    let i = table[s];
    proof {
        let j = choose|j: int| 0 <= j <= text@.len() && #[trigger] byte_offset(text@, j) == s;
        assert(table@[byte_offset(text@, j) as int] == j);
        assert(i == j);
    }
    if i < chars.len() {
        let c = chars[i];
        let w = utf8_width(c);
        let r = e >= s && e - s == w && '\u{0E01}' <= c && c <= '\u{0E2E}';
        proof {
            assert(byte_offset(text@, i as int + 1) == s + w);
            if single_consonant(text@, s as int, e as int) {
                let k = choose|k: int| 0 <= k < text@.len() && #[trigger] byte_offset(text@, k) == s && byte_offset(text@, k + 1) == e && thai_consonant(text@[k]);
                lemma_byte_offset_injective(text@, k, i as int);
            }
        }
        r
    } else {
        proof {
            if single_consonant(text@, s as int, e as int) {
                let k = choose|k: int| 0 <= k < text@.len() && #[trigger] byte_offset(text@, k) == s && byte_offset(text@, k + 1) == e && thai_consonant(text@[k]);
                lemma_byte_offset_injective(text@, k, i as int);
            }
        }
        false
    }
}

/// The word pass's tokens as OOV-coalescing items: `true` for a dictionary word that is not a
/// single bare consonant, `false` for everything else (fallback clusters and bare consonants).
fn word_items(text: &str, chars: &Vec<char>, table: &Vec<usize>, toks: &Vec<(usize, usize, LatticeTier)>, positions: &Vec<usize>) -> (r: Vec<(usize, usize, bool)>)
    requires
        chars@ == text@,
        table.len() == byte_len(text@) + 1,
        forall|j: int| 0 <= j <= text@.len() ==> #[trigger] table@[byte_offset(text@, j) as int] == j,
        is_grid(text@, positions@),
        on_grid(toks@, positions@),
    ensures
        r.len() == toks.len(),
        forall|k: int| 0 <= k < r.len() ==> (#[trigger] r@[k]).0 == toks@[k].0 && r@[k].1 == toks@[k].1
            && r@[k].2 == (toks@[k].2 == LatticeTier::Word && !single_consonant(text@, toks@[k].0 as int, toks@[k].1 as int)),
{
    let mut r: Vec<(usize, usize, bool)> = Vec::new();
    let mut k: usize = 0;
    while k < toks.len()
        invariant
            chars@ == text@,
            table.len() == byte_len(text@) + 1,
            forall|j: int| 0 <= j <= text@.len() ==> #[trigger] table@[byte_offset(text@, j) as int] == j,
            is_grid(text@, positions@),
            on_grid(toks@, positions@),
            k <= toks.len(),
            r.len() == k,
            forall|x: int| 0 <= x < k ==> (#[trigger] r@[x]).0 == toks@[x].0 && r@[x].1 == toks@[x].1
                && r@[x].2 == (toks@[x].2 == LatticeTier::Word && !single_consonant(text@, toks@[x].0 as int, toks@[x].1 as int)),
        decreases toks.len() - k,
    {
        let (s, e, t) = toks[k];
        proof {
            assert(positions@.contains(s));
            let m = choose|m: int| 0 <= m < positions.len() && positions@[m] == s;
            assert(is_boundary(text@, positions@[m] as int));
        }
        let w = match t {
            LatticeTier::Word => !is_single_consonant(text, chars, table, s, e),
            _ => false,
        };
        r.push((s, e, w));
        k += 1;
    }
    r
}

/// The `(start, end, tier)` tokens of a decoded path.
fn path_tokens(edges: &Vec<Edge<LatticeTier>>, path: &Vec<usize>, rs: usize, re: usize, positions: &Vec<usize>) -> (r: Vec<(usize, usize, LatticeTier)>)
    requires
        is_path(edges@, path@, rs as int, re as int),
        grid_edges(edges@, positions@),
    ensures
        tiles(r@, rs as int, re as int),
        on_grid(r@, positions@),
        r.len() > 0,
        r.len() == path.len(),
        forall|k: int| 0 <= k < r.len() ==> #[trigger] r@[k] == edge_token(edges@[path@[k] as int]),
{
    proof {
        lemma_path_tiles(edges@, path@, rs as int, re as int);
    }
    let ghost sp = path@.map_values(|i: usize| (edges@[i as int].start, edges@[i as int].end, edges@[i as int].payload));
    let mut r: Vec<(usize, usize, LatticeTier)> = Vec::new();
    let mut k: usize = 0;
    while k < path.len()
        invariant
            is_path(edges@, path@, rs as int, re as int),
            sp == path@.map_values(|i: usize| (edges@[i as int].start, edges@[i as int].end, edges@[i as int].payload)),
            k <= path.len(),
            r@ == sp.take(k as int),
        decreases path.len() - k,
    {
        let e = &edges[path[k]];
        r.push((e.start, e.end, e.payload));
        k += 1;
        assert(r@ =~= sp.take(k as int));
    }
    assert(sp.take(path.len() as int) =~= sp);
    proof {
        assert forall|k: int| 0 <= k < r.len() implies positions@.contains((#[trigger] r@[k]).0) && positions@.contains(r@[k].1) by {
            assert(path@[k] < edges.len());
        }
    }
    r
}

/// Packs each `(start, end, tier)` token.
fn pack_tokens(toks: &Vec<(usize, usize, LatticeTier)>) -> (r: Vec<u64>)
    requires
        forall|k: int| 0 <= k < toks.len() ==> (#[trigger] toks@[k]).0 <= toks@[k].1,
    ensures
        r@ == toks@.map_values(|t: (usize, usize, LatticeTier)| packed(t.0, t.1, tier_code(t.2))),
{
    let mut r: Vec<u64> = Vec::new();
    let mut k: usize = 0;
    while k < toks.len()
        invariant
            forall|x: int| 0 <= x < toks.len() ==> (#[trigger] toks@[x]).0 <= toks@[x].1,
            k <= toks.len(),
            r@ == toks@.take(k as int).map_values(|t: (usize, usize, LatticeTier)| packed(t.0, t.1, tier_code(t.2))),
        decreases toks.len() - k,
    {
        let (s, e, t) = toks[k];
        let p = pack(s, e, tier_flag(&t));
        r.push(p);
        k += 1;
        assert(r@ =~= toks@.take(k as int).map_values(|t: (usize, usize, LatticeTier)| packed(t.0, t.1, tier_code(t.2))));
    }
    assert(toks@.take(toks.len() as int) =~= toks@);
    r
}

} // verus!
