//! Span sequences: tilings of a byte range, OOV coalescing and the branching-entropy merge.
use vstd::prelude::*;
use crate::lattice::tokens::LatticeTier;

verus! {

/// Non-empty spans, each starting where the previous ended, covering exactly `[a, b)`.
pub open spec fn tiles<X>(sp: Seq<(usize, usize, X)>, a: int, b: int) -> bool {
    if sp.len() == 0 {
        a == b
    } else {
        &&& sp[0].0 == a
        &&& sp.last().1 == b
        &&& forall|k: int| 0 <= k < sp.len() ==> (#[trigger] sp[k]).0 < sp[k].1
        &&& forall|k: int| 0 <= k < sp.len() - 1 ==> (#[trigger] sp[k]).1 == sp[k + 1].0
    }
}

/// Every span starts and ends on a grid position.
pub open spec fn on_grid<X>(sp: Seq<(usize, usize, X)>, grid: Seq<usize>) -> bool {
    forall|k: int| 0 <= k < sp.len() ==> grid.contains((#[trigger] sp[k]).0) && grid.contains(sp[k].1)
}

/// A tiling minus its last span tiles up to where that span starts.
pub proof fn lemma_tiles_drop_last<X>(sp: Seq<(usize, usize, X)>, a: int, b: int)
    requires
        tiles(sp, a, b),
        sp.len() > 0,
    ensures
        tiles(sp.drop_last(), a, sp.last().0 as int),
{
    let d = sp.drop_last();
    if d.len() > 0 {
        assert(d.last() == sp[sp.len() - 2]);
        assert forall|k: int| 0 <= k < d.len() - 1 implies (#[trigger] d[k]).1 == d[k + 1].0 by {
            assert(d[k] == sp[k] && d[k + 1] == sp[k + 1]);
        }
        assert forall|k: int| 0 <= k < d.len() implies (#[trigger] d[k]).0 < d[k].1 by {
            assert(d[k] == sp[k]);
        }
    }
}

/// Appending a span that starts where a tiling ends extends the tiling.
pub proof fn lemma_tiles_push<X>(sp: Seq<(usize, usize, X)>, a: int, b: int, t: (usize, usize, X))
    requires
        tiles(sp, a, b),
        t.0 == b,
        t.0 < t.1,
    ensures
        tiles(sp.push(t), a, t.1 as int),
{
    let q = sp.push(t);
    assert forall|k: int| 0 <= k < q.len() - 1 implies (#[trigger] q[k]).1 == q[k + 1].0 by {
        if k < sp.len() - 1 {
            assert(q[k] == sp[k] && q[k + 1] == sp[k + 1]);
        } else {
            assert(q[k] == sp.last());
        }
    }
    assert forall|k: int| 0 <= k < q.len() implies (#[trigger] q[k]).0 < q[k].1 by {
        if k < sp.len() {
            assert(q[k] == sp[k]);
        }
    }
}

/// Concatenating a tiling of `[a, b)` with one of `[b, c)` tiles `[a, c)`.
pub proof fn lemma_tiles_concat<X>(p: Seq<(usize, usize, X)>, q: Seq<(usize, usize, X)>, a: int, b: int, c: int)
    requires
        tiles(p, a, b),
        tiles(q, b, c),
    ensures
        tiles(p + q, a, c),
    decreases q.len(),
{
    if q.len() == 0 {
        assert(p + q =~= p);
    } else {
        lemma_tiles_drop_last(q, b, c);
        lemma_tiles_concat(p, q.drop_last(), a, b, q.last().0 as int);
        assert((p + q.drop_last()).push(q.last()) =~= p + q);
        lemma_tiles_push(p + q.drop_last(), a, q.last().0 as int, q.last());
    }
}

/// OOV coalescing: word items are kept as they are; consecutive non-word items that touch
/// are fused into one maximal non-word span. The flag is `true` for a word span.
pub open spec fn coalesce(items: Seq<(usize, usize, bool)>) -> Seq<(usize, usize, bool)>
    decreases items.len(),
{
    if items.len() == 0 {
        seq![]
    } else {
        let prev = coalesce(items.drop_last());
        let t = items.last();
        if t.2 {
            prev.push(t)
        } else if prev.len() > 0 && !prev.last().2 && prev.last().1 == t.0 {
            prev.drop_last().push((prev.last().0, t.1, false))
        } else {
            prev.push(t)
        }
    }
}

/// Coalescing keeps a tiling a tiling of the same range, on the same grid.
pub proof fn lemma_coalesce_tiles(items: Seq<(usize, usize, bool)>, a: int, b: int, grid: Seq<usize>)
    requires
        tiles(items, a, b),
        on_grid(items, grid),
    ensures
        tiles(coalesce(items), a, b),
        on_grid(coalesce(items), grid),
        items.len() > 0 ==> coalesce(items).len() > 0,
    decreases items.len(),
{
    if items.len() > 0 {
        let d = items.drop_last();
        let t = items.last();
        lemma_tiles_drop_last(items, a, b);
        assert(on_grid(d, grid)) by {
            assert forall|k: int| 0 <= k < d.len() implies grid.contains((#[trigger] d[k]).0) && grid.contains(d[k].1) by {
                assert(d[k] == items[k]);
            }
        }
        lemma_coalesce_tiles(d, a, t.0 as int, grid);
        let prev = coalesce(d);
        assert(t.0 < t.1 && grid.contains(t.0) && grid.contains(t.1)) by {
            assert(items[items.len() - 1] == t);
        }
        if t.2 || !(prev.len() > 0 && !prev.last().2 && prev.last().1 == t.0) {
            lemma_tiles_push(prev, a, t.0 as int, t);
            assert forall|k: int| 0 <= k < prev.push(t).len() implies grid.contains((#[trigger] prev.push(t)[k]).0) && grid.contains(prev.push(t)[k].1) by {
                if k < prev.len() {
                    assert(prev.push(t)[k] == prev[k]);
                }
            }
        } else {
            let pl = prev.last();
            let q = prev.drop_last();
            lemma_tiles_drop_last(prev, a, t.0 as int);
            assert(prev[prev.len() - 1] == pl);
            lemma_tiles_push(q, a, pl.0 as int, (pl.0, t.1, false));
            assert forall|k: int| 0 <= k < q.push((pl.0, t.1, false)).len() implies grid.contains((#[trigger] q.push((pl.0, t.1, false))[k]).0) && grid.contains(q.push((pl.0, t.1, false))[k].1) by {
                if k < q.len() {
                    assert(q.push((pl.0, t.1, false))[k] == prev[k]);
                }
            }
        }
    }
}

/// Every word span of the coalesced sequence is one of the items, unchanged.
pub proof fn lemma_coalesce_words(items: Seq<(usize, usize, bool)>)
    ensures
        forall|k: int| 0 <= k < coalesce(items).len() && (#[trigger] coalesce(items)[k]).2 ==> items.contains(coalesce(items)[k]),
    decreases items.len(),
{
    if items.len() > 0 {
        let d = items.drop_last();
        lemma_coalesce_words(d);
        let prev = coalesce(d);
        let t = items.last();
        let c = coalesce(items);
        assert forall|k: int| 0 <= k < c.len() && (#[trigger] c[k]).2 implies items.contains(c[k]) by {
            if k < prev.len() && (t.2 || !(prev.len() > 0 && !prev.last().2 && prev.last().1 == t.0) || k < prev.len() - 1) {
                assert(c[k] == prev[k]);
                let j = choose|j: int| 0 <= j < d.len() && d[j] == prev[k];
                assert(items[j] == d[j]);
            } else {
                assert(items[items.len() - 1] == t);
            }
        }
    }
}

/// Coalescing leaves no two neighbouring non-word spans that touch: every run of touching
/// non-word items is fused into one span.
pub proof fn lemma_coalesce_maximal(items: Seq<(usize, usize, bool)>)
    ensures
        forall|k: int| 0 <= k < coalesce(items).len() - 1 ==> !(!(#[trigger] coalesce(items)[k]).2
            && !coalesce(items)[k + 1].2 && coalesce(items)[k].1 == coalesce(items)[k + 1].0),
    decreases items.len(),
{
    if items.len() > 0 {
        let d = items.drop_last();
        lemma_coalesce_maximal(d);
        let prev = coalesce(d);
        let c = coalesce(items);
        let t = items.last();
        assert forall|k: int| 0 <= k < c.len() - 1 implies !(!(#[trigger] c[k]).2 && !c[k + 1].2 && c[k].1 == c[k + 1].0) by {
            if k < prev.len() - 1 {
                assert(c[k] == prev[k]);
                if k + 1 < prev.len() - 1 || c.len() > prev.len() {
                    assert(c[k + 1] == prev[k + 1]);
                } else {
                    // `k + 1` is the fused last span, which starts where `prev`'s last did.
                    assert(c[k + 1].0 == prev[k + 1].0 && !c[k + 1].2);
                }
            }
        }
    }
}

/// Over a tiling, coalescing leaves no two neighbouring non-word spans at all: every non-word
/// span is preceded and followed by a word span or the edge of the range.
pub proof fn lemma_coalesce_no_adjacent_oov(items: Seq<(usize, usize, bool)>, a: int, b: int, grid: Seq<usize>)
    requires
        tiles(items, a, b),
        on_grid(items, grid),
    ensures
        forall|k: int| 0 <= k < coalesce(items).len() - 1 ==> !(!(#[trigger] coalesce(items)[k]).2 && !coalesce(items)[k + 1].2),
{
    lemma_coalesce_tiles(items, a, b, grid);
    lemma_coalesce_maximal(items);
    let c = coalesce(items);
    assert forall|k: int| 0 <= k < c.len() - 1 implies !(!(#[trigger] c[k]).2 && !c[k + 1].2) by {
        assert(c[k].1 == c[k + 1].0);
    }
}

/// Fuses consecutive touching non-word items into maximal non-word spans.
pub fn coalesce_oov(items: &Vec<(usize, usize, bool)>) -> (r: Vec<(usize, usize, bool)>)
    ensures
        r@ == coalesce(items@),
        forall|k: int| 0 <= k < r.len() - 1 ==> !(!(#[trigger] r@[k]).2 && !r@[k + 1].2 && r@[k].1 == r@[k + 1].0),
{
    proof {
        lemma_coalesce_maximal(items@);
    }
    let mut spans: Vec<(usize, usize, bool)> = Vec::new();
    let mut i: usize = 0;
    while i < items.len()
        invariant
            i <= items.len(),
            spans@ == coalesce(items@.take(i as int)),
        decreases items.len() - i,
    {
        let (s, e, is_word) = items[i];
        proof {
            assert(items@.take(i as int + 1).drop_last() =~= items@.take(i as int));
            assert(items@.take(i as int + 1).last() == items@[i as int]);
        }
        if is_word {
            spans.push((s, e, true));
        } else {
            let n = spans.len();
            if n > 0 && !spans[n - 1].2 && spans[n - 1].1 == s {
                let first = spans[n - 1].0;
                let ghost prev = spans@;
                spans.pop();
                spans.push((first, e, false));
                proof {
                    assert(spans@ =~= prev.drop_last().push((prev.last().0, e, false)));
                }
            } else {
                spans.push((s, e, false));
            }
        }
        i += 1;
    }
    assert(items@.take(items.len() as int) =~= items@);
    spans
}

/// The branching-entropy merge: the boundary after token `j` is dissolved when `dissolve[j]`
/// holds; a token glued to its predecessor extends it, and a glued run is retagged `Word`
/// (singletons keep their tier).
pub open spec fn merged(toks: Seq<(usize, usize, LatticeTier)>, dissolve: Seq<bool>) -> Seq<(usize, usize, LatticeTier)>
    decreases toks.len(),
{
    if toks.len() == 0 {
        seq![]
    } else {
        let prev = merged(toks.drop_last(), dissolve);
        let t = toks.last();
        if toks.len() >= 2 && dissolve[toks.len() - 2] {
            prev.drop_last().push((prev.last().0, t.1, LatticeTier::Word))
        } else {
            prev.push(t)
        }
    }
}

/// Merging keeps a tiling a tiling of the same range, on the same grid.
pub proof fn lemma_merged_tiles(toks: Seq<(usize, usize, LatticeTier)>, dissolve: Seq<bool>, a: int, b: int, grid: Seq<usize>)
    requires
        tiles(toks, a, b),
        on_grid(toks, grid),
    ensures
        tiles(merged(toks, dissolve), a, b),
        on_grid(merged(toks, dissolve), grid),
        merged(toks, dissolve).len() <= toks.len(),
        toks.len() > 0 ==> merged(toks, dissolve).len() > 0,
    decreases toks.len(),
{
    if toks.len() > 0 {
        let d = toks.drop_last();
        let t = toks.last();
        lemma_tiles_drop_last(toks, a, b);
        assert(on_grid(d, grid)) by {
            assert forall|k: int| 0 <= k < d.len() implies grid.contains((#[trigger] d[k]).0) && grid.contains(d[k].1) by {
                assert(d[k] == toks[k]);
            }
        }
        lemma_merged_tiles(d, dissolve, a, t.0 as int, grid);
        let prev = merged(d, dissolve);
        assert(t.0 < t.1 && grid.contains(t.0) && grid.contains(t.1)) by {
            assert(toks[toks.len() - 1] == t);
        }
        if toks.len() >= 2 && dissolve[toks.len() - 2] {
            let pl = prev.last();
            let q = prev.drop_last();
            lemma_tiles_drop_last(prev, a, t.0 as int);
            assert(prev[prev.len() - 1] == pl);
            lemma_tiles_push(q, a, pl.0 as int, (pl.0, t.1, LatticeTier::Word));
            assert forall|k: int| 0 <= k < q.push((pl.0, t.1, LatticeTier::Word)).len() implies grid.contains((#[trigger] q.push((pl.0, t.1, LatticeTier::Word))[k]).0) && grid.contains(q.push((pl.0, t.1, LatticeTier::Word))[k].1) by {
                if k < q.len() {
                    assert(q.push((pl.0, t.1, LatticeTier::Word))[k] == prev[k]);
                }
            }
        } else {
            lemma_tiles_push(prev, a, t.0 as int, t);
            assert forall|k: int| 0 <= k < prev.push(t).len() implies grid.contains((#[trigger] prev.push(t)[k]).0) && grid.contains(prev.push(t)[k].1) by {
                if k < prev.len() {
                    assert(prev.push(t)[k] == prev[k]);
                }
            }
        }
    }
}

/// Every token of the merged sequence that is not a `Word` token is one of the input tokens,
/// unchanged.
pub proof fn lemma_merged_keeps(toks: Seq<(usize, usize, LatticeTier)>, dissolve: Seq<bool>)
    ensures
        forall|k: int| 0 <= k < merged(toks, dissolve).len() && (#[trigger] merged(toks, dissolve)[k]).2 != LatticeTier::Word
            ==> toks.contains(merged(toks, dissolve)[k]),
    decreases toks.len(),
{
    if toks.len() > 0 {
        let d = toks.drop_last();
        lemma_merged_keeps(d, dissolve);
        let prev = merged(d, dissolve);
        let t = toks.last();
        let m = merged(toks, dissolve);
        assert forall|k: int| 0 <= k < m.len() && (#[trigger] m[k]).2 != LatticeTier::Word implies toks.contains(m[k]) by {
            let glued = toks.len() >= 2 && dissolve[toks.len() - 2];
            if k < prev.len() && (!glued || k < prev.len() - 1) {
                assert(m[k] == prev[k]);
                let j = choose|j: int| 0 <= j < d.len() && d[j] == prev[k];
                assert(toks[j] == d[j]);
            } else {
                assert(toks[toks.len() - 1] == t);
            }
        }
    }
}

/// Merging with no boundary dissolved changes nothing.
pub proof fn lemma_merged_none(toks: Seq<(usize, usize, LatticeTier)>, dissolve: Seq<bool>)
    requires
        toks.len() <= dissolve.len() + 1,
        forall|j: int| 0 <= j < dissolve.len() ==> !#[trigger] dissolve[j],
    ensures
        merged(toks, dissolve) == toks,
    decreases toks.len(),
{
    if toks.len() > 0 {
        lemma_merged_none(toks.drop_last(), dissolve);
        if toks.len() >= 2 {
            assert(!dissolve[toks.len() - 2]);
        }
        assert(toks.drop_last().push(toks.last()) =~= toks);
    }
}

/// Dissolves the boundaries marked in `dissolve` (one flag per boundary between consecutive
/// tokens), fusing each run of glued tokens into one `Word` token.
pub fn merge_short_runs(toks: &Vec<(usize, usize, LatticeTier)>, dissolve: &Vec<bool>) -> (r: Vec<(usize, usize, LatticeTier)>)
    requires
        toks.len() > 0 ==> dissolve.len() + 1 >= toks.len(),
    ensures
        r@ == merged(toks@, dissolve@),
{
    let mut out: Vec<(usize, usize, LatticeTier)> = Vec::new();
    let mut i: usize = 0;
    while i < toks.len()
        invariant
            i <= toks.len(),
            toks.len() > 0 ==> dissolve.len() + 1 >= toks.len(),
            out@ == merged(toks@.take(i as int), dissolve@),
            i > 0 ==> out.len() > 0,
        decreases toks.len() - i,
    {
        let (s, e, t) = toks[i];
        proof {
            assert(toks@.take(i as int + 1).drop_last() =~= toks@.take(i as int));
            assert(toks@.take(i as int + 1).last() == toks@[i as int]);
        }
        if i >= 1 && dissolve[i - 1] {
            let n = out.len();
            let first = out[n - 1].0;
            let ghost prev = out@;
            out.pop();
            out.push((first, e, LatticeTier::Word));
            proof {
                assert(out@ =~= prev.drop_last().push((prev.last().0, e, LatticeTier::Word)));
            }
        } else {
            out.push((s, e, t));
        }
        i += 1;
    }
    assert(toks@.take(toks.len() as int) =~= toks@);
    out
}

} // verus!
