//! Task-agnostic grid Viterbi: first-order decoding over grid-aligned spans.
//!
//! An `Edge<P>` is a span `[start, end)` on the TCC grid carrying a task payload; a
//! `LatticeModel` supplies the per-node context and the first-order cost. `viterbi` returns a
//! maximum-score path through the edges confined to a region.
use vstd::prelude::*;

verus! {

/// A grid-aligned candidate: occupies byte span `[start, end)`, carrying a task payload.
#[derive(Clone)]
pub struct Edge<P> {
    pub start: usize,
    pub end: usize,
    pub payload: P,
}

/// The score a lattice model assigns: added along a path and compared between paths. `sum`
/// and `better` are the spec counterparts of `plus` and `beats`.
pub trait PathScore: Copy + Sized {
    /// The sum of two scores.
    spec fn sum(self, other: Self) -> Self;

    /// Whether `self` is strictly better than `other`.
    spec fn better(self, other: Self) -> bool;

    /// Whether `self` is a score the laws speak of: one a model can produce.
    spec fn valid(self) -> bool;

    /// The sum of two scores.
    fn plus(self, other: Self) -> (r: Self)
        ensures
            r == self.sum(other),
    ;

    /// Whether `self` is strictly better than `other`.
    fn beats(self, other: Self) -> (r: bool)
        ensures
            r == self.better(other),
    ;
}

/// The order laws on valid scores: no score is better than itself, of two scores at most one
/// is better, "not better" is transitive, and adding the same score to both sides keeps "not
/// better".
#[verifier::opaque]
pub open spec fn score_order_laws<S: PathScore>() -> bool {
    &&& forall|a: S| a.valid() ==> !#[trigger] a.better(a)
    &&& forall|a: S, b: S| a.valid() && b.valid() && #[trigger] a.better(b) ==> !b.better(a)
    &&& forall|a: S, b: S, c: S| #![trigger a.better(b), b.better(c)] a.valid() && b.valid() && c.valid()
        && !a.better(b) && !b.better(c) ==> !a.better(c)
    &&& forall|a: S, b: S, c: S| #![trigger a.sum(c), b.sum(c)] a.valid() && b.valid() && c.valid()
        && !a.better(b) ==> !a.sum(c).better(b.sum(c))
}

/// The laws under which "better" ranks scores: the order laws on valid scores, and the sum of
/// two valid scores is valid. They hold of floating-point log-probabilities (valid: not NaN and
/// at most 0) compared by `>`.
pub open spec fn score_laws<S: PathScore>() -> bool {
    &&& score_order_laws::<S>()
    &&& forall|a: S, b: S| a.valid() && b.valid() ==> (#[trigger] a.sum(b)).valid()
}

/// Under the score laws, no valid score is better than itself.
pub proof fn lemma_not_better_self<S: PathScore>(a: S)
    requires
        score_laws::<S>(),
        a.valid(),
    ensures
        !a.better(a),
{
    reveal(score_order_laws);
}

/// Under the score laws, a better valid score is not beaten back.
pub proof fn lemma_better_asym<S: PathScore>(a: S, b: S)
    requires
        score_laws::<S>(),
        a.valid(),
        b.valid(),
        a.better(b),
    ensures
        !b.better(a),
{
    reveal(score_order_laws);
}

/// Under the score laws, "not better" is transitive on valid scores.
pub proof fn lemma_not_better_trans<S: PathScore>(a: S, b: S, c: S)
    requires
        score_laws::<S>(),
        a.valid(),
        b.valid(),
        c.valid(),
        !a.better(b),
        !b.better(c),
    ensures
        !a.better(c),
{
    reveal(score_order_laws);
    assert(a.better(b) || !a.better(b));
}

/// Under the score laws, beating a score that another does not beat beats that other too.
pub proof fn lemma_better_over<S: PathScore>(a: S, b: S, c: S)
    requires
        score_laws::<S>(),
        a.valid(),
        b.valid(),
        c.valid(),
        a.better(b),
        !c.better(b),
    ensures
        a.better(c),
{
    if !a.better(c) {
        lemma_not_better_trans(a, c, b);
    }
}

/// Under the score laws, adding the same valid score keeps "not better".
pub proof fn lemma_not_better_sum<S: PathScore>(a: S, b: S, c: S)
    requires
        score_laws::<S>(),
        a.valid(),
        b.valid(),
        c.valid(),
        !a.better(b),
    ensures
        !a.sum(c).better(b.sum(c)),
{
    reveal(score_order_laws);
    assert(a.sum(c) == a.sum(c) && b.sum(c) == b.sum(c));
}

/// A first-order (bigram) cost over a grid lattice. `Ctx` is the per-node state a node exposes
/// as the "previous" token for the next transition. The spec functions are the counterparts of
/// the methods of the same role.
pub trait LatticeModel {
    type Payload;

    type Ctx: Copy;

    type Score: PathScore;

    /// Context active at a region's start.
    spec fn start_spec(&self) -> Self::Ctx;

    /// Context a node exposes to its successor.
    spec fn context_of(&self, edge: Edge<Self::Payload>) -> Self::Ctx;

    /// Local score of a node.
    spec fn node_score(&self, edge: Edge<Self::Payload>) -> Self::Score;

    /// Transition score from `prev` to `cur`.
    spec fn transition_score(&self, prev: Self::Ctx, cur: Self::Ctx) -> Self::Score;

    /// Context active at a region's start (the sentence-initial token).
    fn start_ctx(&self) -> (r: Self::Ctx)
        ensures
            r == self.start_spec(),
    ;

    /// Context a node exposes to its successor.
    fn edge_context(&self, edge: &Edge<Self::Payload>) -> (r: Self::Ctx)
        ensures
            r == self.context_of(*edge),
    ;

    /// Local (emission) score added once when a node is finalised.
    fn node_cost(&self, edge: &Edge<Self::Payload>) -> (r: Self::Score)
        ensures
            r == self.node_score(*edge),
    ;

    /// First-order transition score from `prev` to `cur` (higher is better).
    fn transition(&self, prev: Self::Ctx, cur: Self::Ctx) -> (r: Self::Score)
        ensures
            r == self.transition_score(prev, cur),
    ;
}

/// The laws for a lattice model: the score laws, and every node score and transition score
/// the model gives is valid.
pub open spec fn lattice_laws<M: LatticeModel>(model: M) -> bool {
    &&& score_laws::<M::Score>()
    &&& forall|e: Edge<M::Payload>| (#[trigger] model.node_score(e)).valid()
    &&& forall|p: M::Ctx, c: M::Ctx| (#[trigger] model.transition_score(p, c)).valid()
}

/// The score of the chain `c` of edges: the transition from the start context into its first
/// edge plus that edge's score, then for each further edge the transition from the previous
/// edge's context plus its score, added left to right.
pub open spec fn chain_score<M: LatticeModel>(model: M, edges: Seq<Edge<M::Payload>>, ctx: Seq<M::Ctx>, c: Seq<usize>) -> M::Score
    decreases c.len(),
{
    if c.len() <= 1 {
        model.transition_score(model.start_spec(), ctx[c[0] as int]).sum(model.node_score(edges[c[0] as int]))
    } else {
        chain_score(model, edges, ctx, c.drop_last()).sum(
            model.transition_score(ctx[c[c.len() - 2] as int], ctx[c.last() as int]),
        ).sum(model.node_score(edges[c.last() as int]))
    }
}

/// Under the lattice laws, every chain scores a valid score.
pub proof fn lemma_chain_valid<M: LatticeModel>(model: M, edges: Seq<Edge<M::Payload>>, ctx: Seq<M::Ctx>, c: Seq<usize>)
    requires
        lattice_laws(model),
        c.len() > 0,
    ensures
        chain_score(model, edges, ctx, c).valid(),
    decreases c.len(),
{
    if c.len() > 1 {
        lemma_chain_valid(model, edges, ctx, c.drop_last());
    }
}

/// Edge `e` lies inside the region `[rs, re)`.
pub open spec fn in_region<P>(e: Edge<P>, rs: int, re: int) -> bool {
    rs <= e.start && e.end <= re
}

/// `c` is a chain of adjacent in-region edges that starts at `rs`.
pub open spec fn is_chain<P>(edges: Seq<Edge<P>>, c: Seq<usize>, rs: int, re: int) -> bool {
    &&& c.len() > 0
    &&& forall|k: int| 0 <= k < c.len() ==> #[trigger] c[k] < edges.len() && in_region(
        edges[c[k] as int],
        rs,
        re,
    )
    &&& edges[c[0] as int].start == rs
    &&& forall|k: int|
        0 <= k < c.len() - 1 ==> edges[#[trigger] c[k] as int].end == edges[c[k + 1] as int].start
}

/// `c` is a complete path through the region: a chain from `rs` whose last edge ends at `re`.
pub open spec fn is_path<P>(edges: Seq<Edge<P>>, c: Seq<usize>, rs: int, re: int) -> bool {
    is_chain(edges, c, rs, re) && edges[c.last() as int].end == re
}

/// Edge `i` ends some chain from `rs`.
pub open spec fn reachable<P>(edges: Seq<Edge<P>>, i: int, rs: int, re: int) -> bool {
    exists|c: Seq<usize>| is_chain(edges, c, rs, re) && c.last() == i
}

/// Some complete path runs through the region.
pub open spec fn has_path<P>(edges: Seq<Edge<P>>, rs: int, re: int) -> bool {
    exists|c: Seq<usize>| is_path(edges, c, rs, re)
}

/// `pos_idx` is a dense grid index: the grid points (entries below `n_positions`) are numbered
/// in increasing byte order.
pub open spec fn dense_grid_index(pos_idx: Seq<u32>, n_positions: int) -> bool {
    forall|x: int, y: int|
        0 <= x < y < pos_idx.len() && pos_idx[x] < n_positions && pos_idx[y] < n_positions
            ==> #[trigger] pos_idx[x] < #[trigger] pos_idx[y]
}

/// Every in-region edge is non-empty and both its ends are grid points.
pub open spec fn edges_on_grid<P>(
    edges: Seq<Edge<P>>,
    rs: int,
    re: int,
    pos_idx: Seq<u32>,
    n_positions: int,
) -> bool {
    forall|i: int|
        0 <= i < edges.len() && in_region(#[trigger] edges[i], rs, re) ==> {
            &&& edges[i].start < edges[i].end
            &&& edges[i].end < pos_idx.len()
            &&& pos_idx[edges[i].start as int] < n_positions
            &&& pos_idx[edges[i].end as int] < n_positions
        }
}

/// A chain to `i` that does not start at `i` passes through a reachable predecessor ending
/// where `i` starts.
proof fn lemma_predecessor<P>(edges: Seq<Edge<P>>, c: Seq<usize>, rs: int, re: int) -> (p: usize)
    requires
        is_chain(edges, c, rs, re),
        c.len() >= 2,
    ensures
        p == c[c.len() - 2],
        is_chain(edges, c.drop_last(), rs, re),
        reachable(edges, p as int, rs, re),
        edges[p as int].end == edges[c.last() as int].start,
{
    let d = c.drop_last();
    assert forall|k: int| 0 <= k < d.len() - 1 implies edges[#[trigger] d[k] as int].end
        == edges[d[k + 1] as int].start by {
        assert(d[k] == c[k] && d[k + 1] == c[k + 1]);
    }
    assert forall|k: int| 0 <= k < d.len() implies #[trigger] d[k] < edges.len() && in_region(
        edges[d[k] as int],
        rs,
        re,
    ) by {
        assert(d[k] == c[k]);
    }
    assert(edges[c[c.len() - 2] as int].end == edges[c[c.len() - 1] as int].start);
    assert(d.last() == c[c.len() - 2]);
    c[c.len() - 2]
}

/// The grid byte offset an edge is bucketed by: its end or its start.
pub open spec fn edge_key<P>(e: Edge<P>, by_end: bool) -> usize {
    if by_end {
        e.end
    } else {
        e.start
    }
}

/// Every bucket entry is an in-region edge below `upto` whose grid index (of `start` or `end`,
/// per `by_end`) is the bucket's, and every such edge is listed in its bucket.
pub open spec fn buckets_exact<P>(
    buckets: Seq<Vec<usize>>,
    edges: Seq<Edge<P>>,
    rs: int,
    re: int,
    pos_idx: Seq<u32>,
    by_end: bool,
    upto: int,
) -> bool {
    &&& forall|bb: int, k: int|
        0 <= bb < buckets.len() && 0 <= k < buckets[bb]@.len() ==> {
            let i = #[trigger] buckets[bb]@[k];
            &&& i < upto
            &&& i < edges.len()
            &&& in_region(edges[i as int], rs, re)
            &&& pos_idx[edge_key(edges[i as int], by_end) as int] == bb
        }
    &&& forall|i: int|
        0 <= i < upto && in_region(#[trigger] edges[i], rs, re) ==> {
            &&& edge_key(edges[i], by_end) < pos_idx.len()
            &&& pos_idx[edge_key(edges[i], by_end) as int] < buckets.len()
            &&& exists|k: int|
                0 <= k < buckets[pos_idx[edge_key(edges[i], by_end) as int] as int]@.len()
                    && buckets[pos_idx[edge_key(edges[i], by_end) as int] as int]@[k] == i
        }
}

/// Adding the next edge `i` (in region, with grid key in range) to its bucket keeps the
/// buckets exact for edges below `i + 1`.
proof fn lemma_bucket_push<P>(
    old_b: Seq<Vec<usize>>,
    new_b: Seq<Vec<usize>>,
    edges: Seq<Edge<P>>,
    rs: int,
    re: int,
    pos_idx: Seq<u32>,
    by_end: bool,
    i: usize,
)
    requires
        buckets_exact(old_b, edges, rs, re, pos_idx, by_end, i as int),
        i < edges.len(),
        in_region(edges[i as int], rs, re),
        edge_key(edges[i as int], by_end) < pos_idx.len(),
        pos_idx[edge_key(edges[i as int], by_end) as int] < old_b.len(),
        new_b.len() == old_b.len(),
        forall|bb: int|
            0 <= bb < old_b.len() && bb != pos_idx[edge_key(edges[i as int], by_end) as int] ==> new_b[bb]
                == old_b[bb],
        new_b[pos_idx[edge_key(edges[i as int], by_end) as int] as int]@ == old_b[pos_idx[edge_key(
            edges[i as int],
            by_end,
        ) as int] as int]@.push(i),
    ensures
        buckets_exact(new_b, edges, rs, re, pos_idx, by_end, i + 1),
{
    let e = pos_idx[edge_key(edges[i as int], by_end) as int] as int;
    assert forall|bb: int, k: int| 0 <= bb < new_b.len() && 0 <= k < new_b[bb]@.len() implies {
        let j = #[trigger] new_b[bb]@[k];
        &&& j < i + 1
        &&& j < edges.len()
        &&& in_region(edges[j as int], rs, re)
        &&& pos_idx[edge_key(edges[j as int], by_end) as int] == bb
    } by {
        if bb != e {
            assert(new_b[bb]@ == old_b[bb]@);
            assert(new_b[bb]@[k] == old_b[bb]@[k]);
        } else if k < old_b[bb]@.len() {
            assert(new_b[bb]@ == old_b[bb]@.push(i));
            assert(new_b[bb]@[k] == old_b[bb]@[k]);
        } else {
            assert(new_b[bb]@ == old_b[bb]@.push(i));
            assert(new_b[bb]@[k] == i);
        }
    }
    assert forall|j: int| 0 <= j < i + 1 && in_region(#[trigger] edges[j], rs, re) implies {
        &&& edge_key(edges[j], by_end) < pos_idx.len()
        &&& pos_idx[edge_key(edges[j], by_end) as int] < new_b.len()
        &&& exists|k: int|
            0 <= k < new_b[pos_idx[edge_key(edges[j], by_end) as int] as int]@.len()
                && new_b[pos_idx[edge_key(edges[j], by_end) as int] as int]@[k] == j
    } by {
        let bb = pos_idx[edge_key(edges[j], by_end) as int] as int;
        if j < i {
            let k = choose|k: int| 0 <= k < old_b[bb]@.len() && old_b[bb]@[k] == j;
            if bb != e {
                assert(new_b[bb]@ == old_b[bb]@);
            } else {
                assert(new_b[bb]@ == old_b[bb]@.push(i));
            }
            assert(new_b[bb]@[k] == j);
        } else {
            assert(new_b[bb]@ == old_b[bb]@.push(i));
            assert(new_b[bb]@[old_b[bb]@.len() as int] == j);
        }
    }
}

/// Appends `i` to bucket `b`, leaving the others unchanged.
fn push_bucket(buckets: &mut Vec<Vec<usize>>, b: usize, i: usize)
    requires
        b < old(buckets).len(),
    ensures
        final(buckets).len() == old(buckets).len(),
        forall|bb: int|
            0 <= bb < old(buckets).len() && bb != b ==> final(buckets)@[bb] == old(buckets)@[bb],
        final(buckets)@[b as int]@ == old(buckets)@[b as int]@.push(i),
{
    buckets[b].push(i);
}

/// Each bucket lists its edge indices in increasing order.
pub open spec fn buckets_sorted(buckets: Seq<Vec<usize>>) -> bool {
    forall|bb: int, k1: int, k2: int|
        0 <= bb < buckets.len() && 0 <= k1 < k2 < buckets[bb]@.len() ==> #[trigger] buckets[bb]@[k1] < #[trigger] buckets[bb]@[k2]
}

/// Appending an index larger than every one already bucketed keeps the buckets sorted.
proof fn lemma_bucket_push_sorted(old_b: Seq<Vec<usize>>, new_b: Seq<Vec<usize>>, b: int, i: usize)
    requires
        buckets_sorted(old_b),
        0 <= b < old_b.len(),
        new_b.len() == old_b.len(),
        forall|bb: int| 0 <= bb < old_b.len() && bb != b ==> new_b[bb] == old_b[bb],
        new_b[b]@ == old_b[b]@.push(i),
        forall|k: int| 0 <= k < old_b[b]@.len() ==> #[trigger] old_b[b]@[k] < i,
    ensures
        buckets_sorted(new_b),
{
    assert forall|bb: int, k1: int, k2: int|
        0 <= bb < new_b.len() && 0 <= k1 < k2 < new_b[bb]@.len() implies #[trigger] new_b[bb]@[k1] < #[trigger] new_b[bb]@[k2] by {
        if bb != b {
            assert(new_b[bb] == old_b[bb]);
        } else if k2 < old_b[b]@.len() {
            assert(new_b[b]@[k1] == old_b[b]@[k1]);
            assert(new_b[b]@[k2] == old_b[b]@[k2]);
        } else {
            assert(new_b[b]@[k1] == old_b[b]@[k1]);
        }
    }
}

/// Scoring state: reached nodes carry a score and a back-pointer to an adjacent reached
/// predecessor, or none when they start the region.
pub open spec fn dp_sound<P, S>(
    edges: Seq<Edge<P>>,
    dp: Seq<Option<S>>,
    bp: Seq<Option<usize>>,
    rs: int,
    re: int,
) -> bool {
    &&& dp.len() == edges.len()
    &&& bp.len() == edges.len()
    &&& forall|i: int|
        0 <= i < edges.len() && (#[trigger] dp[i]) is Some ==> {
            &&& in_region(edges[i], rs, re)
            &&& match bp[i] {
                None => edges[i].start == rs,
                Some(p) => p < edges.len() && dp[p as int] is Some && edges[p as int].end
                    == edges[i].start,
            }
        }
}

/// A node's score through scored predecessor `p`: `p`'s score, the transition from `p`'s
/// context into `i`'s, and `i`'s local score `local`.
pub open spec fn via<M: LatticeModel>(model: M, ctx: Seq<M::Ctx>, dp: Seq<Option<M::Score>>, p: int, i: int, local: M::Score) -> M::Score {
    dp[p].unwrap().sum(model.transition_score(ctx[p], ctx[i])).sum(local)
}

/// Every score found is valid.
pub open spec fn dp_valid<S: PathScore>(dp: Seq<Option<S>>) -> bool {
    forall|i: int| 0 <= i < dp.len() && (#[trigger] dp[i]) is Some ==> dp[i].unwrap().valid()
}

/// Scores agree with back-pointers: a node starting the region scores the transition from the
/// start context plus its own score; any other, its predecessor's score extended into it.
pub open spec fn dp_exact<M: LatticeModel>(
    model: M,
    edges: Seq<Edge<M::Payload>>,
    ctx: Seq<M::Ctx>,
    dp: Seq<Option<M::Score>>,
    bp: Seq<Option<usize>>,
) -> bool {
    forall|i: int| 0 <= i < edges.len() && (#[trigger] dp[i]) is Some ==> match bp[i] {
        None => dp[i] == Some(model.transition_score(model.start_spec(), ctx[i]).sum(model.node_score(edges[i]))),
        Some(p) => dp[p as int] is Some && dp[i] == Some(via(model, ctx, dp, p as int, i, model.node_score(edges[i]))),
    }
}

/// Each scored node that has a back-pointer took the first best predecessor: every scored
/// in-region edge of lower index that ends where the node starts extends into it strictly worse.
pub open spec fn dp_first<M: LatticeModel>(
    model: M,
    edges: Seq<Edge<M::Payload>>,
    ctx: Seq<M::Ctx>,
    dp: Seq<Option<M::Score>>,
    bp: Seq<Option<usize>>,
    rs: int,
    re: int,
) -> bool {
    forall|i: int, p: int|
        0 <= i < edges.len() && 0 <= p < edges.len() && (#[trigger] dp[i]) is Some && bp[i] is Some && p < bp[i].unwrap()
            && in_region(edges[p], rs, re) && edges[p].end == edges[i].start && (#[trigger] dp[p]) is Some
            ==> via(model, ctx, dp, bp[i].unwrap() as int, i, model.node_score(edges[i])).better(
                via(model, ctx, dp, p, i, model.node_score(edges[i])))
}

/// No chain from the region start to a scored node scores better than the node.
pub open spec fn dp_best<M: LatticeModel>(
    model: M,
    edges: Seq<Edge<M::Payload>>,
    ctx: Seq<M::Ctx>,
    dp: Seq<Option<M::Score>>,
    rs: int,
    re: int,
) -> bool {
    forall|c: Seq<usize>| #[trigger] is_chain(edges, c, rs, re) && dp[c.last() as int] is Some
        ==> !chain_score(model, edges, ctx, c).better(dp[c.last() as int].unwrap())
}

/// A chain traced along back-pointers from a node that starts the region scores, at each
/// prefix, what its last node was scored.
proof fn lemma_traced_score<M: LatticeModel>(
    model: M,
    edges: Seq<Edge<M::Payload>>,
    ctx: Seq<M::Ctx>,
    dp: Seq<Option<M::Score>>,
    bp: Seq<Option<usize>>,
    path: Seq<usize>,
    k: int,
)
    requires
        dp_exact(model, edges, ctx, dp, bp),
        forall|m: int| 0 <= m < path.len() ==> #[trigger] path[m] < edges.len() && dp[path[m] as int] is Some,
        path.len() > 0,
        bp[path[0] as int] is None,
        forall|m: int| 0 <= m < path.len() - 1 ==> bp[#[trigger] path[m + 1] as int] == Some(path[m]),
        0 <= k < path.len(),
    ensures
        dp[path[k] as int].unwrap() == chain_score(model, edges, ctx, path.take(k + 1)),
    decreases k,
{
    let c = path.take(k + 1);
    assert(path[k] < edges.len() && dp[path[k] as int] is Some);
    if k > 0 {
        lemma_traced_score(model, edges, ctx, dp, bp, path, k - 1);
        assert(c.drop_last() =~= path.take(k));
        assert(bp[path[(k - 1) + 1] as int] == Some(path[k - 1]));
        assert(c[c.len() - 2] == path[k - 1]);
    }
}

/// Along a chain traced by back-pointers, a chain from the region start into the same node
/// through a lower-indexed predecessor scores strictly worse: each node took the first best
/// predecessor.
proof fn lemma_first_predecessor<M: LatticeModel>(
    model: M,
    edges: Seq<Edge<M::Payload>>,
    ctx: Seq<M::Ctx>,
    dp: Seq<Option<M::Score>>,
    bp: Seq<Option<usize>>,
    rs: int,
    re: int,
    path: Seq<usize>,
    k: int,
    c: Seq<usize>,
)
    requires
        lattice_laws(model),
        dp.len() == edges.len(),
        dp_exact(model, edges, ctx, dp, bp),
        dp_best(model, edges, ctx, dp, rs, re),
        dp_first(model, edges, ctx, dp, bp, rs, re),
        dp_valid(dp),
        forall|j: int| 0 <= j < edges.len() && in_region(#[trigger] edges[j], rs, re) && reachable(edges, j, rs, re) ==> dp[j] is Some,
        forall|m: int| 0 <= m < path.len() ==> #[trigger] path[m] < edges.len() && dp[path[m] as int] is Some,
        path.len() > 0,
        bp[path[0] as int] is None,
        forall|m: int| 0 <= m < path.len() - 1 ==> bp[#[trigger] path[m + 1] as int] == Some(path[m]),
        1 <= k < path.len(),
        is_chain(edges, c, rs, re),
        c.len() >= 2,
        c.last() == path[k],
        c[c.len() - 2] < path[k - 1],
    ensures
        chain_score(model, edges, ctx, path.take(k + 1)).better(chain_score(model, edges, ctx, c)),
{
    let i = path[k] as int;
    let b = path[k - 1] as int;
    let p = lemma_predecessor(edges, c, rs, re) as int;
    let d = c.drop_last();
    assert(d.last() == p);
    assert(c[c.len() - 2] == p);
    assert(p < edges.len() && in_region(edges[p], rs, re)) by {
        assert(c[c.len() - 2] < edges.len());
    }
    assert(dp[p] is Some);
    assert(bp[path[(k - 1) + 1] as int] == Some(path[k - 1]));
    assert(bp[i] == Some(b as usize));
    let local = model.node_score(edges[i]);
    let t = model.transition_score(ctx[p], ctx[i]);
    lemma_chain_valid(model, edges, ctx, d);
    lemma_chain_valid(model, edges, ctx, c);
    assert(dp[p].unwrap().valid() && dp[b] is Some && dp[b].unwrap().valid());
    // The chain through `p` scores no better than `p`'s best extended into `i`.
    assert(!chain_score(model, edges, ctx, d).better(dp[p].unwrap()));
    lemma_not_better_sum(chain_score(model, edges, ctx, d), dp[p].unwrap(), t);
    lemma_not_better_sum(chain_score(model, edges, ctx, d).sum(t), dp[p].unwrap().sum(t), local);
    assert(chain_score(model, edges, ctx, c) == chain_score(model, edges, ctx, d).sum(t).sum(local));
    // `i`'s back-pointer beats `p` strictly.
    assert(via(model, ctx, dp, b, i, local).better(via(model, ctx, dp, p, i, local)));
    lemma_traced_score(model, edges, ctx, dp, bp, path, k);
    assert(dp[i] == Some(via(model, ctx, dp, b, i, local)));
    lemma_better_over(via(model, ctx, dp, b, i, local), via(model, ctx, dp, p, i, local), chain_score(model, edges, ctx, c));
}

/// Exact first-order Viterbi over the edges confined to `[rs, re)`, returning a maximum-score
/// path as edge indices into `edges`. A node's predecessors are the edges ending at its start;
/// nodes are scored in ascending grid order of their start, so predecessors are scored first.
/// `ctx[i]` is `edges[i]`'s context; `pos_idx` maps a grid byte offset to its dense grid index
/// and `n_positions` is the grid size.
///
/// The result is empty when `rs >= re` or when no chain of adjacent edges leads from `rs` to
/// `re`; otherwise it is such a chain. When the model obeys the lattice laws, no complete chain
/// scores better, and one that ends at a lower-indexed edge scores strictly worse: among end
/// edges of equal score the first one is kept. Likewise each node of the path took the first
/// best predecessor: a chain reaching it through a lower-indexed predecessor scores strictly
/// worse than the path up to that node.
#[verifier::spinoff_prover]
#[verifier::rlimit(60)]
pub fn viterbi<M: LatticeModel>(
    edges: &[Edge<M::Payload>],
    ctx: &[M::Ctx],
    rs: usize,
    re: usize,
    pos_idx: &[u32],
    n_positions: usize,
    model: &M,
) -> (path: Vec<usize>)
    requires
        ctx.len() == edges.len(),
        rs < re ==> re < pos_idx.len() && pos_idx[re as int] < n_positions,
        dense_grid_index(pos_idx@, n_positions as int),
        edges_on_grid(edges@, rs as int, re as int, pos_idx@, n_positions as int),
    ensures
        rs >= re ==> path.len() == 0,
        rs < re ==> (path.len() > 0 <==> has_path(edges@, rs as int, re as int)),
        path.len() > 0 ==> is_path(edges@, path@, rs as int, re as int),
        path.len() > 0 && lattice_laws(*model) ==> forall|c: Seq<usize>| #[trigger] is_path(edges@, c, rs as int, re as int)
            ==> !chain_score(*model, edges@, ctx@, c).better(chain_score(*model, edges@, ctx@, path@)),
        path.len() > 0 && lattice_laws(*model) ==> forall|c: Seq<usize>| #[trigger] is_path(edges@, c, rs as int, re as int)
            && c.last() < path@.last() ==> chain_score(*model, edges@, ctx@, path@).better(chain_score(*model, edges@, ctx@, c)),
        path.len() > 0 && lattice_laws(*model) ==> forall|k: int, c: Seq<usize>|
            #![trigger is_chain(edges@, c, rs as int, re as int), path@.take(k + 1)]
            1 <= k < path.len() && is_chain(edges@, c, rs as int, re as int) && c.len() >= 2 && c.last() == path@[k]
                && c[c.len() - 2] < path@[k - 1]
                ==> chain_score(*model, edges@, ctx@, path@.take(k + 1)).better(chain_score(*model, edges@, ctx@, c)),
{
    if rs >= re {
        return Vec::new();
    }
    let n = edges.len();

    // Predecessor buckets (by dense end index) and processing buckets (by dense start index).
    let mut ending_at: Vec<Vec<usize>> = Vec::new();
    let mut starting_at: Vec<Vec<usize>> = Vec::new();
    let mut b: usize = 0;
    while b < n_positions
        invariant
            b <= n_positions,
            ending_at.len() == b,
            starting_at.len() == b,
            forall|x: int| 0 <= x < b ==> (#[trigger] ending_at@[x])@.len() == 0,
            forall|x: int| 0 <= x < b ==> (#[trigger] starting_at@[x])@.len() == 0,
        decreases n_positions - b,
    {
        ending_at.push(Vec::new());
        starting_at.push(Vec::new());
        b += 1;
    }
    let mut i: usize = 0;
    while i < n
        invariant
            n == edges.len(),
            i <= n,
            ending_at.len() == n_positions,
            starting_at.len() == n_positions,
            edges_on_grid(edges@, rs as int, re as int, pos_idx@, n_positions as int),
            buckets_exact(ending_at@, edges@, rs as int, re as int, pos_idx@, true, i as int),
            buckets_exact(starting_at@, edges@, rs as int, re as int, pos_idx@, false, i as int),
            buckets_sorted(ending_at@),
        decreases n - i,
    {
        if rs <= edges[i].start && edges[i].end <= re {
            let e = pos_idx[edges[i].end] as usize;
            let s = pos_idx[edges[i].start] as usize;
            let ghost old_end = ending_at@;
            let ghost old_start = starting_at@;
            push_bucket(&mut ending_at, e, i);
            push_bucket(&mut starting_at, s, i);
            proof {
                assert forall|k: int| 0 <= k < old_end[e as int]@.len() implies #[trigger] old_end[e as int]@[k] < i by {
                    let x = old_end[e as int]@[k];
                }
                lemma_bucket_push_sorted(old_end, ending_at@, e as int, i);
                lemma_bucket_push(old_end, ending_at@, edges@, rs as int, re as int, pos_idx@, true, i);
                lemma_bucket_push(old_start, starting_at@, edges@, rs as int, re as int, pos_idx@, false, i);
            }
        } else {
            proof {
                assert(buckets_exact(ending_at@, edges@, rs as int, re as int, pos_idx@, true, i + 1));
                assert(buckets_exact(starting_at@, edges@, rs as int, re as int, pos_idx@, false, i + 1));
            }
        }
        i += 1;
    }

    // Score nodes bucket by bucket, in ascending grid order of their start.
    let (dp, bp) = score_nodes(edges, ctx, rs, re, pos_idx, n_positions, model, &ending_at, &starting_at);

    // The best complete path ends at `re`.
    let ends = &ending_at[pos_idx[re] as usize];
    proof {
        assert forall|k1: int, k2: int| 0 <= k1 < k2 < ends.len() implies #[trigger] ends@[k1] < #[trigger] ends@[k2] by {
            assert(ending_at@[pos_idx@[re as int] as int]@[k1] < ending_at@[pos_idx@[re as int] as int]@[k2]);
        }
    }
    let mut best_end: Option<(M::Score, usize)> = None;
    let mut u: usize = 0;
    while u < ends.len()
        invariant
            n == edges.len(),
            u <= ends.len(),
            dp.len() == n,
            forall|k: int| 0 <= k < ends.len() ==> #[trigger] ends@[k] < n,
            forall|k1: int, k2: int| 0 <= k1 < k2 < ends.len() ==> #[trigger] ends@[k1] < #[trigger] ends@[k2],
            lattice_laws(*model) ==> dp_valid(dp@),
            match best_end {
                Some((s, j)) => j < n && dp@[j as int] == Some(s) && (exists|k: int|
                    0 <= k < u && ends@[k] == j)
                    && (lattice_laws(*model) ==> forall|k: int| 0 <= k < u && dp@[#[trigger] ends@[k] as int] is Some
                        ==> !dp@[ends@[k] as int].unwrap().better(s))
                    && (lattice_laws(*model) ==> forall|k: int| 0 <= k < u && ends@[k] < j && dp@[#[trigger] ends@[k] as int] is Some
                        ==> s.better(dp@[ends@[k] as int].unwrap())),
                None => forall|k: int| 0 <= k < u ==> dp@[#[trigger] ends@[k] as int] is None,
            },
        decreases ends.len() - u,
    {
        let j = ends[u];
        match dp[j] {
            Some(sc) => {
                let take = match best_end {
                    None => true,
                    Some((bs, _)) => sc.beats(bs),
                };
                let ghost old_best = best_end;
                if take {
                    best_end = Some((sc, j));
                }
                proof {
                    if lattice_laws(*model) {
                        assert(dp@[j as int] is Some);
                        lemma_not_better_self(sc);
                        match old_best {
                            Some((bs, _)) => {
                                if take {
                                    lemma_better_asym(sc, bs);
                                    assert forall|k: int| 0 <= k < u + 1 && dp@[#[trigger] ends@[k] as int] is Some
                                        implies !dp@[ends@[k] as int].unwrap().better(sc) by {
                                        if k < u {
                                            lemma_not_better_trans(dp@[ends@[k] as int].unwrap(), bs, sc);
                                        }
                                    }
                                    assert forall|k: int| 0 <= k < u + 1 && ends@[k] < j && dp@[#[trigger] ends@[k] as int] is Some
                                        implies sc.better(dp@[ends@[k] as int].unwrap()) by {
                                        lemma_better_over(sc, bs, dp@[ends@[k] as int].unwrap());
                                    }
                                } else {
                                    let bj = old_best.unwrap().1;
                                    let p = choose|k: int| 0 <= k < u && ends@[k] == bj;
                                    assert(ends@[p] < ends@[u as int]);
                                }
                            },
                            None => {},
                        }
                    }
                }
            },
            None => {},
        }
        u += 1;
    }
    let ghost key_re = pos_idx@[re as int] as int;
    proof {
        assert forall|k: int| 0 <= k < ends.len() implies edges@[#[trigger] ends@[k] as int].end == re by {
            let p = ends@[k];
            assert(ending_at@[key_re]@[k] == p);
            let e = edges@[p as int].end as int;
            if e < re {
                assert(pos_idx@[e] < pos_idx@[re as int]);
            } else if re < e {
                assert(pos_idx@[re as int] < pos_idx@[e]);
            }
        }
    }
    let last = match best_end {
        None => {
            proof {
                if has_path(edges@, rs as int, re as int) {
                    let c = choose|c: Seq<usize>| is_path(edges@, c, rs as int, re as int);
                    let l = c.last();
                    assert(c[c.len() - 1] == l);
                    assert(reachable(edges@, l as int, rs as int, re as int));
                    assert(dp@[l as int] is Some);
                    let k = choose|k: int| 0 <= k < ending_at@[key_re]@.len() && ending_at@[key_re]@[k] == l;
                    assert(dp@[ends@[k] as int] is Some);
                }
            }
            return Vec::new();
        },
        Some((_, j)) => j,
    };
    let ghost best_score = dp@[last as int].unwrap();
    proof {
        if lattice_laws(*model) {
            // Every complete path ends in `ends`, at a node scored no better than `last`.
            assert forall|c: Seq<usize>| #[trigger] is_path(edges@, c, rs as int, re as int)
                implies !chain_score(*model, edges@, ctx@, c).better(best_score) by {
                let l = c.last();
                assert(c[c.len() - 1] == l);
                assert(reachable(edges@, l as int, rs as int, re as int));
                assert(dp@[l as int] is Some);
                let k = choose|k: int| 0 <= k < ending_at@[key_re]@.len() && ending_at@[key_re]@[k] == l;
                assert(dp@[ends@[k] as int] is Some);
                assert(is_chain(edges@, c, rs as int, re as int));
                lemma_chain_valid(*model, edges@, ctx@, c);
                lemma_not_better_trans(chain_score(*model, edges@, ctx@, c), dp@[l as int].unwrap(), best_score);
            }
        }
    }

    let path = trace_path(edges, ctx, rs, re, pos_idx, n_positions, model, &dp, &bp, last);
    proof {
        if lattice_laws(*model) {
            // A complete path ending at an earlier end node scores strictly worse: only a
            // strictly better end node replaced the incumbent.
            assert forall|c: Seq<usize>| #[trigger] is_path(edges@, c, rs as int, re as int) && c.last() < path@.last()
                implies best_score.better(chain_score(*model, edges@, ctx@, c)) by {
                let l = c.last();
                assert(c[c.len() - 1] == l);
                assert(reachable(edges@, l as int, rs as int, re as int));
                assert(dp@[l as int] is Some);
                let k = choose|k: int| 0 <= k < ending_at@[key_re]@.len() && ending_at@[key_re]@[k] == l;
                assert(dp@[ends@[k] as int] is Some);
                assert(is_chain(edges@, c, rs as int, re as int));
                assert(!chain_score(*model, edges@, ctx@, c).better(dp@[l as int].unwrap()));
                assert(best_score.better(dp@[l as int].unwrap()));
                lemma_chain_valid(*model, edges@, ctx@, c);
                lemma_better_over(best_score, dp@[l as int].unwrap(), chain_score(*model, edges@, ctx@, c));
            }
            // Each node of the path took the first best predecessor.
            assert forall|k: int, c: Seq<usize>|
                #![trigger is_chain(edges@, c, rs as int, re as int), path@.take(k + 1)]
                1 <= k < path.len() && is_chain(edges@, c, rs as int, re as int) && c.len() >= 2 && c.last() == path@[k]
                    && c[c.len() - 2] < path@[k - 1]
                implies chain_score(*model, edges@, ctx@, path@.take(k + 1)).better(chain_score(*model, edges@, ctx@, c)) by {
                lemma_first_predecessor(*model, edges@, ctx@, dp@, bp@, rs as int, re as int, path@, k, c);
            }
        }
    }
    path
}

/// The chain traced back from `last` (which ends the region) along the back-pointers to a
/// node that starts the region; its score is the one `last` was given.
fn trace_path<M: LatticeModel>(
    edges: &[Edge<M::Payload>],
    ctx: &[M::Ctx],
    rs: usize,
    re: usize,
    pos_idx: &[u32],
    n_positions: usize,
    model: &M,
    dp: &Vec<Option<M::Score>>,
    bp: &Vec<Option<usize>>,
    last: usize,
) -> (path: Vec<usize>)
    requires
        dp_sound(edges@, dp@, bp@, rs as int, re as int),
        dp_exact(*model, edges@, ctx@, dp@, bp@),
        edges_on_grid(edges@, rs as int, re as int, pos_idx@, n_positions as int),
        last < edges.len(),
        dp@[last as int] is Some,
        edges@[last as int].end == re,
    ensures
        is_path(edges@, path@, rs as int, re as int),
        path.len() > 0,
        path@.last() == last,
        chain_score(*model, edges@, ctx@, path@) == dp@[last as int].unwrap(),
        forall|m: int| 0 <= m < path.len() ==> #[trigger] path@[m] < edges.len() && dp@[path@[m] as int] is Some,
        bp@[path@[0] as int] is None,
        forall|m: int| 0 <= m < path.len() - 1 ==> bp@[#[trigger] path@[m + 1] as int] == Some(path@[m]),
{
    let n = edges.len();
    // Walk the back-pointers from the last node to a node that starts the region.
    let mut rev: Vec<usize> = Vec::new();
    let mut cur: Option<usize> = Some(last);
    while cur.is_some()
        invariant
            n == edges.len(),
            dp_sound(edges@, dp@, bp@, rs as int, re as int),
            edges_on_grid(edges@, rs as int, re as int, pos_idx@, n_positions as int),
            last < n,
            dp@[last as int] is Some,
            edges@[last as int].end == re,
            rev.len() > 0 ==> rev@[0] == last,
            forall|k: int| 0 <= k < rev.len() ==> #[trigger] rev@[k] < n && dp@[rev@[k] as int] is Some,
            forall|k: int|
                0 <= k < rev.len() - 1 ==> edges@[rev@[k + 1] as int].end == edges@[#[trigger] rev@[k] as int].start,
            forall|k: int| 0 <= k < rev.len() - 1 ==> bp@[#[trigger] rev@[k] as int] == Some(rev@[k + 1]),
            match cur {
                Some(j) => j < n && dp@[j as int] is Some && (if rev.len() == 0 {
                    j == last
                } else {
                    bp@[rev@.last() as int] == Some(j) && edges@[j as int].end == edges@[rev@.last() as int].start
                }),
                None => rev.len() > 0 && bp@[rev@.last() as int] is None,
            },
        decreases (match cur {
            Some(j) => edges@[j as int].end as int + 1,
            None => 0int,
        }),
    {
        let j = cur.unwrap();
        let ghost old_rev = rev@;
        rev.push(j);
        cur = bp[j];
        proof {
            assert forall|k: int|
                0 <= k < rev.len() - 1 implies edges@[rev@[k + 1] as int].end == edges@[#[trigger] rev@[k] as int].start by {
                if k < old_rev.len() - 1 {
                    assert(rev@[k] == old_rev[k] && rev@[k + 1] == old_rev[k + 1]);
                }
            }
            assert forall|k: int| 0 <= k < rev.len() - 1 implies bp@[#[trigger] rev@[k] as int] == Some(rev@[k + 1]) by {
                if k < old_rev.len() - 1 {
                    assert(rev@[k] == old_rev[k] && rev@[k + 1] == old_rev[k + 1]);
                }
            }
            match cur {
                Some(p) => {
                    assert(edges@[j as int].start < edges@[j as int].end);
                },
                None => {},
            }
        }
    }
    let mut path: Vec<usize> = Vec::new();
    let mut k: usize = rev.len();
    while k > 0
        invariant
            k <= rev.len(),
            path.len() == rev.len() - k,
            forall|m: int| 0 <= m < path.len() ==> #[trigger] path@[m] == rev@[rev.len() - 1 - m],
        decreases k,
    {
        k -= 1;
        path.push(rev[k]);
    }
    proof {
        let len = rev.len() as int;
        assert(in_region(edges@[rev@.last() as int], rs as int, re as int));
        assert(path@[0] == rev@[len - 1]);
        assert forall|m: int| 0 <= m < path.len() implies #[trigger] path@[m] < edges.len() && in_region(
            edges@[path@[m] as int],
            rs as int,
            re as int,
        ) by {
            assert(rev@[len - 1 - m] < n);
        }
        assert forall|m: int| 0 <= m < path.len() - 1 implies edges@[#[trigger] path@[m] as int].end
            == edges@[path@[m + 1] as int].start by {
            assert(path@[m + 1] == rev@[len - 2 - m]);
            assert(edges@[rev@[(len - 2 - m) + 1] as int].end == edges@[rev@[len - 2 - m] as int].start);
        }
        assert(path@.last() == rev@[0]);
        assert(is_path(edges@, path@, rs as int, re as int));
        assert forall|m: int| 0 <= m < path.len() implies #[trigger] path@[m] < edges.len() && dp@[path@[m] as int] is Some by {
            assert(rev@[len - 1 - m] < n);
        }
        assert forall|m: int| 0 <= m < path.len() - 1 implies bp@[#[trigger] path@[m + 1] as int] == Some(path@[m]) by {
            assert(path@[m + 1] == rev@[len - 2 - m]);
            assert(bp@[rev@[len - 2 - m] as int] == Some(rev@[(len - 2 - m) + 1]));
        }
        assert(bp@[path@[0] as int] is None);
        lemma_traced_score(*model, edges@, ctx@, dp@, bp@, path@, len - 1);
        assert(path@.take(len) =~= path@);
        assert(path@[len - 1] == last);
    }
    path
}

/// Scores every in-region node, bucket by bucket in ascending grid order of its start: a node
/// starting the region from the start context, any other from its best scored predecessor.
/// Every reachable node ends up scored.
fn score_nodes<M: LatticeModel>(
    edges: &[Edge<M::Payload>],
    ctx: &[M::Ctx],
    rs: usize,
    re: usize,
    pos_idx: &[u32],
    n_positions: usize,
    model: &M,
    ending_at: &Vec<Vec<usize>>,
    starting_at: &Vec<Vec<usize>>,
) -> (r: (Vec<Option<M::Score>>, Vec<Option<usize>>))
    requires
        ctx.len() == edges.len(),
        ending_at.len() == n_positions,
        starting_at.len() == n_positions,
        dense_grid_index(pos_idx@, n_positions as int),
        edges_on_grid(edges@, rs as int, re as int, pos_idx@, n_positions as int),
        buckets_exact(ending_at@, edges@, rs as int, re as int, pos_idx@, true, edges.len() as int),
        buckets_exact(starting_at@, edges@, rs as int, re as int, pos_idx@, false, edges.len() as int),
        buckets_sorted(ending_at@),
    ensures
        dp_sound(edges@, r.0@, r.1@, rs as int, re as int),
        dp_exact(*model, edges@, ctx@, r.0@, r.1@),
        lattice_laws(*model) ==> dp_best(*model, edges@, ctx@, r.0@, rs as int, re as int),
        lattice_laws(*model) ==> dp_first(*model, edges@, ctx@, r.0@, r.1@, rs as int, re as int),
        lattice_laws(*model) ==> dp_valid(r.0@),
        forall|j: int|
            0 <= j < edges.len() && in_region(#[trigger] edges@[j], rs as int, re as int) && reachable(edges@, j, rs as int, re as int)
                ==> r.0@[j] is Some,
{
    let n = edges.len();
    let start = model.start_ctx();
    let mut dp: Vec<Option<M::Score>> = Vec::new();
    let mut bp: Vec<Option<usize>> = Vec::new();
    let mut x: usize = 0;
    while x < n
        invariant
            x <= n,
            dp.len() == x,
            bp.len() == x,
            forall|y: int| 0 <= y < x ==> (#[trigger] dp@[y]) is None,
        decreases n - x,
    {
        dp.push(None);
        bp.push(None);
        x += 1;
    }
    proof {
        if lattice_laws(*model) {
            assert forall|c: Seq<usize>| #[trigger] is_chain(edges@, c, rs as int, re as int) && dp@[c.last() as int] is Some
                implies !chain_score(*model, edges@, ctx@, c).better(dp@[c.last() as int].unwrap()) by {
                assert(c[c.len() - 1] < n);
            }
        }
    }
    let mut b: usize = 0;
    while b < n_positions
        invariant
            n == edges.len(),
            ctx.len() == n,
            b <= n_positions,
            ending_at.len() == n_positions,
            starting_at.len() == n_positions,
            dense_grid_index(pos_idx@, n_positions as int),
            edges_on_grid(edges@, rs as int, re as int, pos_idx@, n_positions as int),
            buckets_exact(ending_at@, edges@, rs as int, re as int, pos_idx@, true, n as int),
            buckets_exact(starting_at@, edges@, rs as int, re as int, pos_idx@, false, n as int),
            dp_sound(edges@, dp@, bp@, rs as int, re as int),
            forall|j: int|
                0 <= j < n && in_region(#[trigger] edges@[j], rs as int, re as int)
                    && pos_idx@[edges@[j].start as int] < b && reachable(edges@, j, rs as int, re as int) ==> dp@[j] is Some,
            forall|j: int| 0 <= j < n && (#[trigger] dp@[j]) is Some ==> pos_idx@[edges@[j].start as int] < b,
            start == model.start_spec(),
            dp_exact(*model, edges@, ctx@, dp@, bp@),
            lattice_laws(*model) ==> dp_best(*model, edges@, ctx@, dp@, rs as int, re as int),
            lattice_laws(*model) ==> dp_first(*model, edges@, ctx@, dp@, bp@, rs as int, re as int),
            lattice_laws(*model) ==> dp_valid(dp@),
            buckets_sorted(ending_at@),
        decreases n_positions - b,
    {
        let bucket = &starting_at[b];
        let mut t: usize = 0;
        while t < bucket.len()
            invariant
                n == edges.len(),
                ctx.len() == n,
                b < n_positions,
                t <= bucket.len(),
                bucket@ == starting_at@[b as int]@,
                ending_at.len() == n_positions,
                starting_at.len() == n_positions,
                dense_grid_index(pos_idx@, n_positions as int),
                edges_on_grid(edges@, rs as int, re as int, pos_idx@, n_positions as int),
                buckets_exact(ending_at@, edges@, rs as int, re as int, pos_idx@, true, n as int),
                buckets_exact(starting_at@, edges@, rs as int, re as int, pos_idx@, false, n as int),
                dp_sound(edges@, dp@, bp@, rs as int, re as int),
                forall|j: int|
                    0 <= j < n && in_region(#[trigger] edges@[j], rs as int, re as int)
                        && pos_idx@[edges@[j].start as int] < b && reachable(edges@, j, rs as int, re as int) ==> dp@[j] is Some,
                forall|k: int|
                    0 <= k < t && reachable(edges@, bucket@[k] as int, rs as int, re as int)
                        ==> dp@[#[trigger] bucket@[k] as int] is Some,
                forall|j: int| 0 <= j < n && (#[trigger] dp@[j]) is Some ==> pos_idx@[edges@[j].start as int] <= b,
                start == model.start_spec(),
                dp_exact(*model, edges@, ctx@, dp@, bp@),
                lattice_laws(*model) ==> dp_best(*model, edges@, ctx@, dp@, rs as int, re as int),
                lattice_laws(*model) ==> dp_first(*model, edges@, ctx@, dp@, bp@, rs as int, re as int),
                lattice_laws(*model) ==> dp_valid(dp@),
            lattice_laws(*model) ==> dp_valid(dp@),
                buckets_sorted(ending_at@),
            decreases bucket.len() - t,
        {
            let i = bucket[t];
            proof {
                assert(starting_at@[b as int]@[t as int] == i);
            }
            let ghost old_dp = dp@;
            score_node(edges, ctx, rs, re, pos_idx, n_positions, model, start, ending_at, &mut dp, &mut bp, i, b);
            proof {
                assert forall|k: int|
                    0 <= k < t + 1 && reachable(edges@, bucket@[k] as int, rs as int, re as int)
                        implies dp@[#[trigger] bucket@[k] as int] is Some by {
                    if k < t {
                        assert(old_dp[bucket@[k] as int] is Some);
                    }
                }
                assert forall|j: int|
                    0 <= j < n && in_region(#[trigger] edges@[j], rs as int, re as int)
                        && pos_idx@[edges@[j].start as int] < b && reachable(edges@, j, rs as int, re as int) implies dp@[j] is Some by {
                    assert(old_dp[j] is Some);
                }
            }
            t += 1;
        }
        proof {
            assert forall|j: int| 0 <= j < n && (#[trigger] dp@[j]) is Some implies pos_idx@[edges@[j].start as int] < b + 1 by {}
            assert forall|j: int|
                0 <= j < n && in_region(#[trigger] edges@[j], rs as int, re as int)
                    && pos_idx@[edges@[j].start as int] < b + 1 && reachable(edges@, j, rs as int, re as int) implies dp@[j] is Some by {
                if pos_idx@[edges@[j].start as int] == b {
                    let k = choose|k: int|
                        0 <= k < starting_at@[b as int]@.len() && starting_at@[b as int]@[k] == j;
                    assert(dp@[bucket@[k] as int] is Some);
                }
            }
        }
        b += 1;
    }
    proof {
        assert forall|j: int|
            0 <= j < n && in_region(#[trigger] edges@[j], rs as int, re as int) && reachable(edges@, j, rs as int, re as int)
                implies dp@[j] is Some by {
            assert(pos_idx@[edges@[j].start as int] < n_positions);
        }
    }
    (dp, bp)
}

/// The score found for node `i` (from the start context, or through its best scored
/// predecessor among `preds`, which lists every in-region edge ending where `i` starts) is
/// not beaten by any chain from the region start to `i`.
proof fn lemma_score_node_best<M: LatticeModel>(
    model: M,
    edges: Seq<Edge<M::Payload>>,
    ctx: Seq<M::Ctx>,
    dp: Seq<Option<M::Score>>,
    rs: int,
    re: int,
    pos_idx: Seq<u32>,
    n_positions: int,
    i: int,
    b: int,
    best: Option<(M::Score, Option<usize>)>,
    local: M::Score,
    preds: Seq<usize>,
)
    requires
        lattice_laws(model),
        dp_best(model, edges, ctx, dp, rs, re),
        dp_valid(dp),
        best is Some ==> best.unwrap().0.valid(),
        dp.len() == edges.len(),
        0 <= i < edges.len(),
        in_region(edges[i], rs, re),
        pos_idx[edges[i].start as int] == b,
        local == model.node_score(edges[i]),
        dense_grid_index(pos_idx, n_positions),
        edges_on_grid(edges, rs, re, pos_idx, n_positions),
        forall|k: int| 0 <= k < preds.len() ==> #[trigger] preds[k] < edges.len(),
        forall|p: int| 0 <= p < edges.len() && in_region(#[trigger] edges[p], rs, re) && edges[p].end == edges[i].start
            ==> exists|k: int| 0 <= k < preds.len() && preds[k] == p,
        forall|j: int| 0 <= j < edges.len() && in_region(#[trigger] edges[j], rs, re)
            && pos_idx[edges[j].start as int] < b && reachable(edges, j, rs, re) ==> dp[j] is Some,
        edges[i].start == rs ==> best == Some((model.transition_score(model.start_spec(), ctx[i]).sum(local), None::<usize>)),
        edges[i].start != rs ==> match best {
            Some((s, Some(p))) => forall|k: int| 0 <= k < preds.len() && dp[#[trigger] preds[k] as int] is Some
                ==> !via(model, ctx, dp, preds[k] as int, i, local).better(s),
            Some((_, None)) => false,
            None => forall|k: int| 0 <= k < preds.len() ==> dp[#[trigger] preds[k] as int] is None,
        },
    ensures
        forall|c: Seq<usize>| #[trigger] is_chain(edges, c, rs, re) && c.last() == i && best is Some
            ==> !chain_score(model, edges, ctx, c).better(best.unwrap().0),
{
    assert forall|c: Seq<usize>| #[trigger] is_chain(edges, c, rs, re) && c.last() == i && best is Some
        implies !chain_score(model, edges, ctx, c).better(best.unwrap().0) by {
        lemma_chain_valid(model, edges, ctx, c);
        if c.len() == 1 {
            assert(c[0] == i);
            lemma_not_better_self(best.unwrap().0);
        } else {
            let p = lemma_predecessor(edges, c, rs, re);
            assert(c[c.len() - 2] == p);
            assert(in_region(edges[p as int], rs, re));
            let ps = edges[p as int].start as int;
            let pe = edges[p as int].end as int;
            assert(edges[p as int].start < edges[p as int].end);
            if edges[i].start == rs {
                assert(false);
            }
            assert(pos_idx[ps] < pos_idx[pe]);
            assert(dp[p as int] is Some);
            let d = c.drop_last();
            assert(d.last() == p);
            assert(is_chain(edges, d, rs, re));
            let sp = dp[p as int].unwrap();
            lemma_chain_valid(model, edges, ctx, d);
            assert(!chain_score(model, edges, ctx, d).better(sp));
            let t = model.transition_score(ctx[p as int], ctx[i]);
            lemma_not_better_sum(chain_score(model, edges, ctx, d), sp, t);
            lemma_not_better_sum(chain_score(model, edges, ctx, d).sum(t), sp.sum(t), local);
            assert(chain_score(model, edges, ctx, c) == chain_score(model, edges, ctx, d).sum(t).sum(local));
            let k = choose|k: int| 0 <= k < preds.len() && preds[k] == p;
            assert(dp[preds[k] as int] is Some);
            lemma_not_better_trans(chain_score(model, edges, ctx, c), via(model, ctx, dp, p as int, i, local), best.unwrap().0);
        }
    }
}

/// Scores node `i` (in region, starting in grid bucket `b`) once every reachable node starting
/// in an earlier bucket is scored: from the start context if it starts the region, otherwise
/// from its best scored predecessor, if any. Other nodes keep their scores.
#[verifier::spinoff_prover]
#[verifier::rlimit(90)]
fn score_node<M: LatticeModel>(
    edges: &[Edge<M::Payload>],
    ctx: &[M::Ctx],
    rs: usize,
    re: usize,
    pos_idx: &[u32],
    n_positions: usize,
    model: &M,
    start: M::Ctx,
    ending_at: &Vec<Vec<usize>>,
    dp: &mut Vec<Option<M::Score>>,
    bp: &mut Vec<Option<usize>>,
    i: usize,
    b: usize,
)
    requires
        ctx.len() == edges.len(),
        i < edges.len(),
        in_region(edges@[i as int], rs as int, re as int),
        pos_idx@[edges@[i as int].start as int] == b,
        ending_at.len() == n_positions,
        dense_grid_index(pos_idx@, n_positions as int),
        edges_on_grid(edges@, rs as int, re as int, pos_idx@, n_positions as int),
        buckets_exact(ending_at@, edges@, rs as int, re as int, pos_idx@, true, edges.len() as int),
        dp_sound(edges@, old(dp)@, old(bp)@, rs as int, re as int),
        forall|j: int|
            0 <= j < edges.len() && in_region(#[trigger] edges@[j], rs as int, re as int)
                && pos_idx@[edges@[j].start as int] < b && reachable(edges@, j, rs as int, re as int) ==> old(dp)@[j] is Some,
        forall|j: int| 0 <= j < edges.len() && (#[trigger] old(dp)@[j]) is Some ==> pos_idx@[edges@[j].start as int] <= b,
        start == model.start_spec(),
        dp_exact(*model, edges@, ctx@, old(dp)@, old(bp)@),
        lattice_laws(*model) ==> dp_best(*model, edges@, ctx@, old(dp)@, rs as int, re as int),
        buckets_sorted(ending_at@),
        lattice_laws(*model) ==> dp_first(*model, edges@, ctx@, old(dp)@, old(bp)@, rs as int, re as int),
        lattice_laws(*model) ==> dp_valid(old(dp)@),
    ensures
        dp_sound(edges@, final(dp)@, final(bp)@, rs as int, re as int),
        forall|j: int| 0 <= j < edges.len() && (#[trigger] final(dp)@[j]) is Some ==> pos_idx@[edges@[j].start as int] <= b,
        dp_exact(*model, edges@, ctx@, final(dp)@, final(bp)@),
        lattice_laws(*model) ==> dp_best(*model, edges@, ctx@, final(dp)@, rs as int, re as int),
        lattice_laws(*model) ==> dp_first(*model, edges@, ctx@, final(dp)@, final(bp)@, rs as int, re as int),
        lattice_laws(*model) ==> dp_valid(final(dp)@),
        forall|j: int| 0 <= j < edges.len() && (#[trigger] old(dp)@[j]) is Some ==> final(dp)@[j] is Some,
        reachable(edges@, i as int, rs as int, re as int) ==> final(dp)@[i as int] is Some,
{
    let n = edges.len();
    let local = model.node_cost(&edges[i]);
    proof {
        assert(local == model.node_score(edges@[i as int]));
    }
    let best: Option<(M::Score, Option<usize>)> = if edges[i].start == rs {
        Some((model.transition(start, ctx[i]).plus(local), None))
    } else {
        proof {
            assert(edges@[i as int].start < pos_idx.len());
        }
        let preds = &ending_at[pos_idx[edges[i].start] as usize];
        proof {
            assert forall|k: int| 0 <= k < preds.len() implies #[trigger] preds@[k] < dp.len() by {
                assert(ending_at@[b as int]@[k] == preds@[k]);
            }
            assert forall|k1: int, k2: int| 0 <= k1 < k2 < preds.len() implies #[trigger] preds@[k1] < #[trigger] preds@[k2] by {
                assert(ending_at@[b as int]@[k1] < ending_at@[b as int]@[k2]);
            }
        }
        match best_predecessor(preds, &*dp, ctx, i, local, model) {
            Some((sc, p)) => Some((sc, Some(p))),
            None => None,
        }
    };
    let ghost old_dp = dp@;
    let ghost old_bp = bp@;
    proof {
        let key = b as int;
        if edges@[i as int].start != rs {
            // Predecessors listed in the bucket end exactly where `i` starts.
            assert forall|k: int| 0 <= k < ending_at@[key]@.len() implies edges@[#[trigger] ending_at@[key]@[k] as int].end
                == edges@[i as int].start by {
                let p = ending_at@[key]@[k];
                let e = edges@[p as int].end as int;
                let st = edges@[i as int].start as int;
                assert(pos_idx@[e] == key);
                if e < st {
                    assert(pos_idx@[e] < pos_idx@[st]);
                } else if st < e {
                    assert(pos_idx@[st] < pos_idx@[e]);
                }
            }
        }
        match best {
            Some((_, Some(p))) => {
                assert(edges@[p as int].end == edges@[i as int].start);
            },
            _ => {},
        }
        // A reachable node always finds a scored predecessor.
        if reachable(edges@, i as int, rs as int, re as int) && edges@[i as int].start != rs {
            let c = choose|c: Seq<usize>| is_chain(edges@, c, rs as int, re as int) && c.last() == i;
            assert(c.len() >= 2);
            let p = lemma_predecessor(edges@, c, rs as int, re as int);
            assert(p < n && in_region(edges@[p as int], rs as int, re as int));
            let ps = edges@[p as int].start as int;
            let pe = edges@[p as int].end as int;
            assert(pos_idx@[ps] < pos_idx@[pe]);
            assert(dp@[p as int] is Some);
            let k = choose|k: int| 0 <= k < ending_at@[key]@.len() && ending_at@[key]@[k] == p;
            assert(dp@[ending_at@[key]@[k] as int] is Some);
        }
    }
    proof {
        if lattice_laws(*model) {
            assert forall|p: int| 0 <= p < edges.len() && in_region(#[trigger] edges@[p], rs as int, re as int) && edges@[p].end == edges@[i as int].start
                implies exists|k: int| 0 <= k < ending_at@[b as int]@.len() && ending_at@[b as int]@[k] == p by {
                assert(pos_idx@[edges@[p].end as int] == b);
            }
            assert forall|k: int| 0 <= k < ending_at@[b as int]@.len() implies #[trigger] ending_at@[b as int]@[k] < edges.len() by {}
            lemma_score_node_best(*model, edges@, ctx@, old_dp, rs as int, re as int, pos_idx@, n_positions as int, i as int, b as int, best, local, ending_at@[b as int]@);
        }
    }
    match best {
        Some((sc, prev)) => {
            dp.set(i, Some(sc));
            bp.set(i, prev);
        },
        None => {},
    }
    proof {
        let key_end = pos_idx@[edges@[i as int].end as int];
        assert(pos_idx@[edges@[i as int].start as int] < key_end);
        assert forall|j: int| 0 <= j < edges.len() && (#[trigger] dp@[j]) is Some implies match bp@[j] {
            None => dp@[j] == Some(model.transition_score(model.start_spec(), ctx@[j]).sum(model.node_score(edges@[j]))),
            Some(p) => dp@[p as int] is Some && dp@[j] == Some(via(*model, ctx@, dp@, p as int, j, model.node_score(edges@[j]))),
        } by {
            if j != i {
                assert(old_dp[j] is Some);
                assert(bp@[j] == old_bp[j]);
                match old_bp[j] {
                    Some(p) => {
                        if p == i {
                            assert(edges@[p as int].end == edges@[j].start);
                            assert(pos_idx@[edges@[j].start as int] <= b);
                        }
                        assert(dp@[p as int] == old_dp[p as int]);
                    },
                    None => {},
                }
            }
        }
        if lattice_laws(*model) {
            assert forall|c: Seq<usize>| #[trigger] is_chain(edges@, c, rs as int, re as int) && dp@[c.last() as int] is Some
                implies !chain_score(*model, edges@, ctx@, c).better(dp@[c.last() as int].unwrap()) by {
                if c.last() != i {
                    assert(old_dp[c.last() as int] is Some);
                }
            }
        }
        if lattice_laws(*model) {
            assert forall|j: int, p: int|
                0 <= j < edges.len() && 0 <= p < edges.len() && (#[trigger] dp@[j]) is Some && bp@[j] is Some && p < bp@[j].unwrap()
                    && in_region(edges@[p], rs as int, re as int) && edges@[p].end == edges@[j].start && (#[trigger] dp@[p]) is Some
                implies via(*model, ctx@, dp@, bp@[j].unwrap() as int, j, model.node_score(edges@[j])).better(
                    via(*model, ctx@, dp@, p, j, model.node_score(edges@[j]))) by {
                let q = bp@[j].unwrap() as int;
                if j != i {
                    assert(old_dp[j] is Some);
                    assert(bp@[j] == old_bp[j]);
                    assert(pos_idx@[edges@[j].start as int] <= b);
                    assert(p != i);
                    assert(q != i) by {
                        assert(edges@[q].end == edges@[j].start);
                    }
                    assert(dp@[p] == old_dp[p]);
                    assert(dp@[q] == old_dp[q]);
                    assert(old_dp[p] is Some);
                } else {
                    assert(edges@[i as int].start != rs);
                    assert(p != i) by {
                        assert(edges@[p].start < edges@[p].end);
                    }
                    assert(dp@[p] == old_dp[p]);
                    assert(dp@[q] == old_dp[q]) by {
                        assert(edges@[q].start < edges@[q].end);
                    }
                    assert(pos_idx@[edges@[p].end as int] == b);
                    let k = choose|k: int| 0 <= k < ending_at@[b as int]@.len() && ending_at@[b as int]@[k] == p;
                    assert(old_dp[ending_at@[b as int]@[k] as int] is Some);
                }
            }
        }
    }
    proof {
        assert forall|j: int| 0 <= j < edges.len() && (#[trigger] dp@[j]) is Some implies {
            &&& in_region(edges@[j], rs as int, re as int)
            &&& match bp@[j] {
                None => edges@[j].start == rs,
                Some(p) => p < edges.len() && dp@[p as int] is Some && edges@[p as int].end
                    == edges@[j].start,
            }
        } by {
            if j != i {
                assert(old_dp[j] is Some);
                assert(bp@[j] == old_bp[j]);
            }
        }
    }
}

/// Among the predecessors `preds` that have been scored, the one whose score, extended by the
/// transition into `i` and `i`'s local score, is best (the first such in `preds` order).
fn best_predecessor<M: LatticeModel>(
    preds: &Vec<usize>,
    dp: &Vec<Option<M::Score>>,
    ctx: &[M::Ctx],
    i: usize,
    local: M::Score,
    model: &M,
) -> (r: Option<(M::Score, usize)>)
    requires
        dp.len() == ctx.len(),
        i < ctx.len(),
        forall|k: int| 0 <= k < preds.len() ==> #[trigger] preds@[k] < dp.len(),
        forall|k1: int, k2: int| 0 <= k1 < k2 < preds.len() ==> #[trigger] preds@[k1] < #[trigger] preds@[k2],
        lattice_laws(*model) ==> dp_valid(dp@) && local.valid(),
    ensures
        match r {
            Some((s, p)) => dp@[p as int] is Some && (exists|k: int| 0 <= k < preds.len() && preds@[k] == p)
                && s == via(*model, ctx@, dp@, p as int, i as int, local)
                && (lattice_laws(*model) ==> forall|k: int| 0 <= k < preds.len() && dp@[#[trigger] preds@[k] as int] is Some
                    ==> !via(*model, ctx@, dp@, preds@[k] as int, i as int, local).better(s))
                && (lattice_laws(*model) ==> forall|k: int| 0 <= k < preds.len() && preds@[k] < p && dp@[#[trigger] preds@[k] as int] is Some
                    ==> s.better(via(*model, ctx@, dp@, preds@[k] as int, i as int, local))),
            None => forall|k: int| 0 <= k < preds.len() ==> dp@[#[trigger] preds@[k] as int] is None,
        },
{
    let mut best: Option<(M::Score, usize)> = None;
    let mut u: usize = 0;
    while u < preds.len()
        invariant
            u <= preds.len(),
            dp.len() == ctx.len(),
            i < ctx.len(),
            forall|k: int| 0 <= k < preds.len() ==> #[trigger] preds@[k] < dp.len(),
            forall|k1: int, k2: int| 0 <= k1 < k2 < preds.len() ==> #[trigger] preds@[k1] < #[trigger] preds@[k2],
            lattice_laws(*model) ==> dp_valid(dp@) && local.valid(),
            match best {
                Some((s, p)) => dp@[p as int] is Some && (exists|k: int| 0 <= k < u && preds@[k] == p)
                    && s == via(*model, ctx@, dp@, p as int, i as int, local)
                    && (lattice_laws(*model) ==> forall|k: int| 0 <= k < u && dp@[#[trigger] preds@[k] as int] is Some
                        ==> !via(*model, ctx@, dp@, preds@[k] as int, i as int, local).better(s))
                    && (lattice_laws(*model) ==> forall|k: int| 0 <= k < u && preds@[k] < p && dp@[#[trigger] preds@[k] as int] is Some
                        ==> s.better(via(*model, ctx@, dp@, preds@[k] as int, i as int, local))),
                None => forall|k: int| 0 <= k < u ==> dp@[#[trigger] preds@[k] as int] is None,
            },
        decreases preds.len() - u,
    {
        let p = preds[u];
        match dp[p] {
            Some(ps) => {
                let sc = ps.plus(model.transition(ctx[p], ctx[i])).plus(local);
                proof {
                    assert(sc == via(*model, ctx@, dp@, p as int, i as int, local));
                }
                let take = match best {
                    None => true,
                    Some((bs, _)) => sc.beats(bs),
                };
                let ghost old_best = best;
                if take {
                    best = Some((sc, p));
                }
                proof {
                    if lattice_laws(*model) {
                        assert(dp@[p as int] is Some);
                        lemma_not_better_self(sc);
                        match old_best {
                            Some((bs, _)) => {
                                if take {
                                    lemma_better_asym(sc, bs);
                                    assert forall|k: int| 0 <= k < u + 1 && dp@[#[trigger] preds@[k] as int] is Some
                                        implies !via(*model, ctx@, dp@, preds@[k] as int, i as int, local).better(sc) by {
                                        if k < u {
                                            lemma_not_better_trans(via(*model, ctx@, dp@, preds@[k] as int, i as int, local), bs, sc);
                                        }
                                    }
                                    assert forall|k: int| 0 <= k < u + 1 && preds@[k] < p && dp@[#[trigger] preds@[k] as int] is Some
                                        implies sc.better(via(*model, ctx@, dp@, preds@[k] as int, i as int, local)) by {
                                        lemma_better_over(sc, bs, via(*model, ctx@, dp@, preds@[k] as int, i as int, local));
                                    }
                                } else {
                                    let bp0 = old_best.unwrap().1;
                                    let k0 = choose|k: int| 0 <= k < u && preds@[k] == bp0;
                                    assert(preds@[k0] < preds@[u as int]);
                                }
                            },
                            None => {},
                        }
                    }
                }
            },
            None => {},
        }
        u += 1;
    }
    best
}

} // verus!
