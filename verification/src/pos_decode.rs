//! The tagger's first-order Viterbi over the tag set, with the scores (initial, transition,
//! emission) coming from the caller's model.
use vstd::prelude::*;
use crate::lattice::grid::{lemma_better_asym, lemma_better_over, lemma_not_better_self, lemma_not_better_sum, lemma_not_better_trans, score_laws, PathScore};
use crate::pos::{tag_index, Pos, NUM_TAGS};

verus! {

/// What the tag decode asks of a model. The spec functions are the counterparts of the
/// methods of the same role.
pub trait TagScorer {
    type Score: PathScore;

    /// The impossible score.
    spec fn floor_spec(&self) -> Self::Score;

    /// Whether `s` is the impossible score.
    spec fn is_floor_spec(&self, s: Self::Score) -> bool;

    /// The score of `tag` opening the sentence.
    spec fn init_score(&self, tag: usize) -> Self::Score;

    /// The score of `cur` following `prev`.
    spec fn transition_score(&self, prev: usize, cur: usize) -> Self::Score;

    /// The score of token `token` under `tag`.
    spec fn emission_score(&self, token: usize, tag: usize) -> Self::Score;

    /// Whether `a` ranks strictly above `b` in the order used to pick the final tag.
    spec fn outranks_spec(&self, a: Self::Score, b: Self::Score) -> bool;

    /// The impossible score (below every other).
    fn floor(&self) -> (r: Self::Score)
        ensures
            r == self.floor_spec(),
    ;

    /// Whether `s` is the impossible score.
    fn is_floor(&self, s: Self::Score) -> (r: bool)
        ensures
            r == self.is_floor_spec(s),
    ;

    /// The score of `tag` opening the sentence.
    fn init(&self, tag: usize) -> (r: Self::Score)
        ensures
            r == self.init_score(tag),
    ;

    /// The score of `cur` following `prev`.
    fn transition(&self, prev: usize, cur: usize) -> (r: Self::Score)
        ensures
            r == self.transition_score(prev, cur),
    ;

    /// The score of token `token` under `tag`.
    fn emission(&self, token: usize, tag: usize) -> (r: Self::Score)
        ensures
            r == self.emission_score(token, tag),
    ;

    /// Whether `a` ranks strictly above `b` in the total order used to pick the final tag.
    fn outranks(&self, a: Self::Score, b: Self::Score) -> (r: bool)
        ensures
            r == self.outranks_spec(a, b),
    ;
}

/// The score of the tag sequence `q`: the opening score of its first tag plus that tag's
/// emission for token 0, then for each later token the transition from the previous tag plus
/// the emission, added left to right.
pub open spec fn tag_score<M: TagScorer>(model: M, q: Seq<usize>) -> M::Score
    decreases q.len(),
{
    if q.len() <= 1 {
        model.init_score(q[0]).sum(model.emission_score(0, q[0]))
    } else {
        tag_score(model, q.drop_last()).sum(model.transition_score(q[q.len() - 2], q.last())).sum(
            model.emission_score((q.len() - 1) as usize, q.last()),
        )
    }
}

/// Every entry of `q` is a tag index.
pub open spec fn valid_tags(q: Seq<usize>) -> bool {
    forall|m: int| 0 <= m < q.len() ==> #[trigger] q[m] < NUM_TAGS
}

/// The tag indices of a tag sequence.
pub open spec fn tag_indices(r: Seq<Pos>) -> Seq<usize> {
    r.map_values(|p: Pos| tag_index(p) as usize)
}

/// The laws under which the decode finds a best tag sequence: the score laws; every opening,
/// transition, emission and floor score the model gives is valid; no valid score lies below
/// the floor and the floor absorbs every sum with a valid score; `is_floor` recognizes exactly
/// the floor; and on valid scores `outranks` agrees with "better" (ranking above excludes being
/// beaten, and not ranking above excludes beating). They hold of log-probabilities (valid: not
/// NaN and at most 0) with `-inf` as the floor, compared by `>` and ranked by `total_cmp`.
pub open spec fn tag_laws<M: TagScorer>(model: M) -> bool {
    &&& score_laws::<M::Score>()
    &&& model.floor_spec().valid()
    &&& forall|tag: usize| (#[trigger] model.init_score(tag)).valid()
    &&& forall|prev: usize, cur: usize| (#[trigger] model.transition_score(prev, cur)).valid()
    &&& forall|token: usize, tag: usize| (#[trigger] model.emission_score(token, tag)).valid()
    &&& forall|x: M::Score| x.valid() && !#[trigger] x.better(model.floor_spec()) ==> x == model.floor_spec()
    &&& forall|x: M::Score| #[trigger] model.is_floor_spec(x) == (x == model.floor_spec())
    &&& forall|x: M::Score| x.valid() ==> #[trigger] model.floor_spec().sum(x) == model.floor_spec()
    &&& forall|x: M::Score| x.valid() ==> #[trigger] x.sum(model.floor_spec()) == model.floor_spec()
    &&& forall|a: M::Score, b: M::Score| a.valid() && b.valid() && #[trigger] model.outranks_spec(a, b) ==> !b.better(a)
    &&& forall|a: M::Score, b: M::Score| a.valid() && b.valid() && !#[trigger] model.outranks_spec(a, b) ==> !a.better(b)
}

/// Under the laws, every tag sequence scores a valid score.
pub proof fn lemma_tag_score_valid<M: TagScorer>(model: M, q: Seq<usize>)
    requires
        tag_laws(model),
    ensures
        tag_score(model, q).valid(),
    decreases q.len(),
{
    if q.len() > 1 {
        lemma_tag_score_valid(model, q.drop_last());
    }
}

/// Under the laws, the floor beats nothing.
proof fn lemma_floor_beats_nothing<M: TagScorer>(model: M, x: M::Score)
    requires
        tag_laws(model),
        x.valid(),
    ensures
        !model.floor_spec().better(x),
{
    if model.floor_spec().better(x) {
        lemma_better_asym(model.floor_spec(), x);
        lemma_not_better_self(model.floor_spec());
    }
}

/// The tags traced back from tag `k` at token `i` along the back-pointer table.
pub open spec fn tag_traced(back: Seq<Vec<usize>>, i: int, k: usize) -> Seq<usize>
    decreases i,
{
    if i <= 0 {
        seq![k]
    } else {
        tag_traced(back, i - 1, back[i]@[k as int]).push(k)
    }
}

/// A traced sequence has one tag per token up to `i`, ends in `k`, is made of tag indices,
/// and each step back follows the table.
proof fn lemma_tag_traced(back: Seq<Vec<usize>>, i: int, k: usize)
    requires
        0 <= i < back.len(),
        k < NUM_TAGS,
        forall|m: int, j: int| 1 <= m <= i && 0 <= j < NUM_TAGS ==> #[trigger] back[m]@[j] < NUM_TAGS,
    ensures
        tag_traced(back, i, k).len() == i + 1,
        tag_traced(back, i, k).last() == k,
        valid_tags(tag_traced(back, i, k)),
        forall|y: int| 1 <= y <= i ==> tag_traced(back, i, k)[y - 1] == back[y]@[#[trigger] tag_traced(back, i, k)[y] as int],
    decreases i,
{
    if i > 0 {
        let b = back[i]@[k as int];
        lemma_tag_traced(back, i - 1, b);
        let t = tag_traced(back, i, k);
        let u = tag_traced(back, i - 1, b);
        assert(t == u.push(k));
        assert forall|m: int| 0 <= m < t.len() implies #[trigger] t[m] < NUM_TAGS by {
            if m < i {
                assert(t[m] == u[m]);
            }
        }
        assert forall|y: int| 1 <= y <= i implies t[y - 1] == back[y]@[#[trigger] t[y] as int] by {
            if y < i {
                assert(t[y] == u[y] && t[y - 1] == u[y - 1]);
            } else {
                assert(t[y - 1] == u.last());
            }
        }
    }
}

/// The traced tags depend only on the rows of the table up to `i`.
proof fn lemma_tag_traced_prefix(a: Seq<Vec<usize>>, b: Seq<Vec<usize>>, i: int, k: usize)
    requires
        forall|m: int| 0 <= m <= i ==> a[m] == b[m],
    ensures
        tag_traced(a, i, k) == tag_traced(b, i, k),
    decreases i,
{
    if i > 0 {
        assert(a[i] == b[i]);
        lemma_tag_traced_prefix(a, b, i - 1, a[i]@[k as int]);
    }
}

/// `s` outranks some tag sequence of length `n` ending in tag `y` that no other such sequence
/// scores better than.
pub open spec fn outranks_best_ending<M: TagScorer>(model: M, n: int, y: int, s: M::Score) -> bool {
    exists|q: Seq<usize>|
        #[trigger] valid_tags(q) && q.len() == n && q.last() == y
            && (forall|q2: Seq<usize>| #[trigger] valid_tags(q2) && q2.len() == n && q2.last() == y ==> !tag_score(model, q2).better(tag_score(model, q)))
            && model.outranks_spec(s, tag_score(model, q))
}

/// Up to token `upto`, each entry of the back-pointer table is the first best predecessor: a
/// tag sequence ending in the same tag through an earlier tag at the previous token steps into
/// it strictly worse than the traced sequence does.
pub open spec fn tag_first<M: TagScorer>(model: M, back: Seq<Vec<usize>>, upto: int) -> bool {
    forall|q: Seq<usize>| #[trigger] valid_tags(q) && 2 <= q.len() <= upto
        && q[q.len() - 2] < back[q.len() - 1]@[q.last() as int]
        ==> {
            let m = q.len() - 1;
            let bk = back[m]@[q.last() as int];
            tag_score(model, tag_traced(back, m - 1, bk)).sum(model.transition_score(bk, q.last())).better(
                tag_score(model, q.drop_last()).sum(model.transition_score(q[m - 1], q.last())))
        }
}

/// A traced sequence's prefix is the sequence traced from its tag at that token.
proof fn lemma_tag_traced_take(back: Seq<Vec<usize>>, i: int, k: usize, m: int)
    requires
        0 <= m <= i,
    ensures
        tag_traced(back, i, k).take(m + 1) == tag_traced(back, m, tag_traced(back, i, k)[m]),
        tag_traced(back, i, k).len() == i + 1,
    decreases i,
{
    let t = tag_traced(back, i, k);
    if i > 0 {
        let b = back[i]@[k as int];
        lemma_tag_traced_take(back, i - 1, b, if m < i { m } else { i - 1 });
        let u = tag_traced(back, i - 1, b);
        assert(t == u.push(k));
        if m < i {
            assert(t.take(m + 1) =~= u.take(m + 1));
            assert(t[m] == u[m]);
        } else {
            assert(t.take(m + 1) =~= t);
        }
    } else {
        assert(t.take(m + 1) =~= t);
    }
}

/// Adding a column whose back-pointers are first best predecessors extends the first-best
/// property of the table by one token.
proof fn lemma_tag_first_step<M: TagScorer>(
    model: M,
    old_back: Seq<Vec<usize>>,
    back: Seq<Vec<usize>>,
    old_col: Seq<M::Score>,
    i: int,
)
    requires
        tag_laws(model),
        1 <= i,
        old_back.len() == i,
        back.len() == i + 1,
        forall|m: int| 0 <= m < i ==> back[m] == old_back[m],
        back[i]@.len() == NUM_TAGS,
        old_col.len() == NUM_TAGS,
        forall|k: int| 0 <= k < NUM_TAGS ==> (#[trigger] old_col[k]).valid(),
        forall|x: int| 0 <= x < NUM_TAGS ==> #[trigger] back[i]@[x] < NUM_TAGS,
        forall|k: int| 0 <= k < NUM_TAGS ==> #[trigger] old_col[k] == tag_score(model, tag_traced(old_back, i - 1, k as usize)),
        forall|q: Seq<usize>| #[trigger] valid_tags(q) && q.len() == i ==> !tag_score(model, q).better(old_col[q.last() as int]),
        forall|x: int| 0 <= x < NUM_TAGS && 0 < #[trigger] back[i]@[x] ==>
            old_col[back[i]@[x] as int].sum(model.transition_score(back[i]@[x], x as usize)) != model.floor_spec(),
        forall|x: int, y: int| #![trigger back[i]@[x], old_col[y]] 0 <= x < NUM_TAGS && 0 <= y < back[i]@[x] ==>
            model.is_floor_spec(old_col[y])
                || old_col[back[i]@[x] as int].sum(model.transition_score(back[i]@[x], x as usize)).better(
                    old_col[y].sum(model.transition_score(y as usize, x as usize))),
        tag_first(model, old_back, i),
    ensures
        tag_first(model, back, i + 1),
{
    assert forall|q: Seq<usize>| #[trigger] valid_tags(q) && 2 <= q.len() <= i + 1
        && q[q.len() - 2] < back[q.len() - 1]@[q.last() as int]
        implies {
            let m = q.len() - 1;
            let bk = back[m]@[q.last() as int];
            tag_score(model, tag_traced(back, m - 1, bk)).sum(model.transition_score(bk, q.last())).better(
                tag_score(model, q.drop_last()).sum(model.transition_score(q[m - 1], q.last())))
        } by {
        let m = q.len() - 1;
        let x = q.last();
        assert(x < NUM_TAGS) by {
            assert(q[m] == x);
        }
        let bk = back[m]@[x as int];
        assert forall|mm: int| 0 <= mm <= m - 1 implies old_back[mm] == back[mm] by {}
        lemma_tag_traced_prefix(old_back, back, m - 1, bk);
        if m < i {
            assert(back[m] == old_back[m]);
            assert(q[q.len() - 2] < old_back[q.len() - 1]@[q.last() as int]);
        } else {
            let d = q.drop_last();
            assert(valid_tags(d)) by {
                assert forall|mm: int| 0 <= mm < d.len() implies #[trigger] d[mm] < NUM_TAGS by {
                    assert(d[mm] == q[mm]);
                }
            }
            let y = q[m - 1];
            assert(d.last() == y);
            let tr = model.transition_score(y, x);
            let best = old_col[bk as int].sum(model.transition_score(bk, x));
            assert(old_col[bk as int] == tag_score(model, tag_traced(old_back, i - 1, bk)));
            lemma_tag_score_valid(model, d);
            assert(!tag_score(model, d).better(old_col[y as int]));
            assert(best != model.floor_spec());
            if model.is_floor_spec(old_col[y as int]) {
                let fl = model.floor_spec();
                assert(old_col[y as int] == fl);
                assert(!tag_score(model, d).better(fl));
                assert(tag_score(model, d) == fl);
                assert(fl.sum(tr) == fl);
                if !best.better(fl) {
                    assert(best == fl);
                }
            } else {
                assert(best.better(old_col[y as int].sum(tr)));
                lemma_not_better_sum(tag_score(model, d), old_col[y as int], tr);
                lemma_better_over(best, old_col[y as int].sum(tr), tag_score(model, d).sum(tr));
            }
        }
    }
}

/// The first column: each tag opening the sentence, with its emission for token 0.
fn first_tags<M: TagScorer>(model: &M) -> (r: Vec<M::Score>)
    ensures
        r.len() == NUM_TAGS,
        forall|k: int| 0 <= k < NUM_TAGS ==> #[trigger] r@[k] == tag_score(*model, seq![k as usize]),
        tag_laws(*model) ==> forall|k: int| 0 <= k < NUM_TAGS ==> (#[trigger] r@[k]).valid(),
{
    let mut r: Vec<M::Score> = Vec::new();
    let mut k: usize = 0;
    while k < NUM_TAGS
        invariant
            k <= NUM_TAGS,
            r.len() == k,
            forall|x: int| 0 <= x < k ==> #[trigger] r@[x] == tag_score(*model, seq![x as usize]),
            tag_laws(*model) ==> forall|x: int| 0 <= x < k ==> (#[trigger] r@[x]).valid(),
        decreases NUM_TAGS - k,
    {
        let v = model.init(k).plus(model.emission(0, k));
        r.push(v);
        k += 1;
    }
    r
}

/// The best possible predecessor of tag `s` in the previous column (the first best wins a
/// tie), with the transition into `s` added; the floor and predecessor 0 when none is
/// possible.
fn best_tag_prev<M: TagScorer>(prev: &Vec<M::Score>, s: usize, model: &M) -> (r: (M::Score, usize))
    requires
        prev.len() == NUM_TAGS,
        tag_laws(*model) ==> forall|k: int| 0 <= k < NUM_TAGS ==> (#[trigger] prev@[k]).valid(),
    ensures
        tag_laws(*model) ==> r.0.valid(),
        r.1 < NUM_TAGS,
        tag_laws(*model) ==> r.0 == prev@[r.1 as int].sum(model.transition_score(r.1, s)),
        tag_laws(*model) ==> forall|y: int| 0 <= y < NUM_TAGS ==> !(#[trigger] prev@[y]).sum(model.transition_score(y as usize, s)).better(r.0),
        tag_laws(*model) && r.0 == model.floor_spec() ==> r.1 == 0,
        tag_laws(*model) ==> forall|y: int| 0 <= y < r.1 ==> model.is_floor_spec(#[trigger] prev@[y])
            || r.0.better(prev@[y].sum(model.transition_score(y as usize, s))),
{
    let mut best = model.floor();
    let mut arg: usize = 0;
    let mut p: usize = 0;
    while p < NUM_TAGS
        invariant
            prev.len() == NUM_TAGS,
            p <= NUM_TAGS,
            arg < NUM_TAGS,
            tag_laws(*model) ==> (best == prev@[arg as int].sum(model.transition_score(arg, s))
                || (best == model.floor_spec() && arg == 0)),
            tag_laws(*model) ==> forall|y: int| 0 <= y < p ==> !(#[trigger] prev@[y]).sum(model.transition_score(y as usize, s)).better(best),
            tag_laws(*model) && best == model.floor_spec() ==> arg == 0,
            arg <= p,
            tag_laws(*model) ==> forall|k: int| 0 <= k < NUM_TAGS ==> (#[trigger] prev@[k]).valid(),
            tag_laws(*model) ==> best.valid(),
            tag_laws(*model) ==> forall|y: int| 0 <= y < arg ==> model.is_floor_spec(#[trigger] prev@[y])
                || best.better(prev@[y].sum(model.transition_score(y as usize, s))),
        decreases NUM_TAGS - p,
    {
        let prev_p = prev[p];
        let ghost old_best = best;
        if !model.is_floor(prev_p) {
            let score = prev_p.plus(model.transition(p, s));
            if score.beats(best) {
                best = score;
                arg = p;
            }
        }
        proof {
            if tag_laws(*model) {
                let sc = prev@[p as int].sum(model.transition_score(p, s));
                if model.is_floor_spec(prev_p) {
                    assert(prev_p == model.floor_spec());
                    lemma_floor_beats_nothing(*model, best);
                } else {
                    lemma_not_better_self(sc);
                    if sc.better(old_best) {
                        lemma_better_asym(sc, old_best);
                        assert forall|y: int| 0 <= y < p + 1 implies !(#[trigger] prev@[y]).sum(model.transition_score(y as usize, s)).better(best) by {
                            if y < p {
                                lemma_not_better_trans(prev@[y].sum(model.transition_score(y as usize, s)), old_best, sc);
                            }
                        }
                        if sc == model.floor_spec() {
                            lemma_floor_beats_nothing(*model, old_best);
                        }
                        assert forall|y: int| 0 <= y < arg implies model.is_floor_spec(#[trigger] prev@[y])
                            || best.better(prev@[y].sum(model.transition_score(y as usize, s))) by {
                            if !model.is_floor_spec(prev@[y]) {
                                lemma_better_over(sc, old_best, prev@[y].sum(model.transition_score(y as usize, s)));
                            }
                        }
                    }
                }
            }
        }
        p += 1;
    }
    proof {
        if tag_laws(*model) && !(best == prev@[arg as int].sum(model.transition_score(arg, s))) {
            assert(!prev@[0].sum(model.transition_score(0, s)).better(best));
        }
    }
    (best, arg)
}

/// The last tag of the column that no other outranks.
fn last_ranked<M: TagScorer>(col: &Vec<M::Score>, model: &M) -> (r: usize)
    requires
        col.len() == NUM_TAGS,
        tag_laws(*model) ==> forall|k: int| 0 <= k < NUM_TAGS ==> (#[trigger] col@[k]).valid(),
    ensures
        r < NUM_TAGS,
        tag_laws(*model) ==> forall|y: int| 0 <= y < NUM_TAGS ==> !(#[trigger] col@[y]).better(col@[r as int]),
        forall|y: int| r < y < NUM_TAGS ==> model.outranks_spec(col@[r as int], #[trigger] col@[y]),
{
    let mut cur: usize = 0;
    let mut a: usize = 1;
    proof {
        if tag_laws(*model) {
            lemma_not_better_self(col@[0]);
        }
    }
    while a < NUM_TAGS
        invariant
            col.len() == NUM_TAGS,
            cur < a,
            1 <= a <= NUM_TAGS,
            tag_laws(*model) ==> forall|k: int| 0 <= k < NUM_TAGS ==> (#[trigger] col@[k]).valid(),
            tag_laws(*model) ==> forall|y: int| 0 <= y < a ==> !(#[trigger] col@[y]).better(col@[cur as int]),
            forall|y: int| cur < y < a ==> model.outranks_spec(col@[cur as int], #[trigger] col@[y]),
        decreases NUM_TAGS - a,
    {
        let old_cur = cur;
        if !model.outranks(col[cur], col[a]) {
            cur = a;
        }
        proof {
            if tag_laws(*model) {
                if cur == a {
                    lemma_not_better_self(col@[a as int]);
                    assert forall|y: int| 0 <= y < a + 1 implies !(#[trigger] col@[y]).better(col@[cur as int]) by {
                        if y < a {
                            lemma_not_better_trans(col@[y], col@[old_cur as int], col@[a as int]);
                        }
                    }
                }
            }
        }
        a += 1;
    }
    cur
}

/// The most probable tag sequence for `n` tokens: the first column scores `init + emission`;
/// a later cell is impossible when its emission is, and otherwise takes the best possible
/// predecessor (the first wins a tie) plus transition and emission; the path is traced back
/// from the last final tag that no other outranks. One tag per token; none for no tokens.
/// Under the model's laws, no tag sequence scores better than the one returned; at each token,
/// a sequence reaching the same tag through an earlier tag at the previous token steps into it
/// strictly worse; and the returned score outranks a best sequence ending in each later final
/// tag.
#[verifier::spinoff_prover]
#[verifier::rlimit(40)]
pub fn decode_tags<M: TagScorer>(n: usize, model: &M) -> (r: Vec<Pos>)
    ensures
        r.len() == n,
        n > 0 && tag_laws(*model) ==> forall|q: Seq<usize>| #[trigger] valid_tags(q) && q.len() == n
            ==> !tag_score(*model, q).better(tag_score(*model, tag_indices(r@))),
        n > 0 && tag_laws(*model) ==> forall|q: Seq<usize>| #[trigger] valid_tags(q) && 2 <= q.len() <= n
            && q.last() == tag_indices(r@)[q.len() - 1] && q[q.len() - 2] < tag_indices(r@)[q.len() - 2]
            ==> tag_score(*model, tag_indices(r@).take(q.len() - 1)).sum(model.transition_score(tag_indices(r@)[q.len() - 2], q.last())).better(
                tag_score(*model, q.drop_last()).sum(model.transition_score(q[q.len() - 2], q.last()))),
        n > 0 && tag_laws(*model) ==> forall|y: int| tag_indices(r@).last() < y < NUM_TAGS
            ==> #[trigger] outranks_best_ending(*model, n as int, y, tag_score(*model, tag_indices(r@))),
{
    if n == 0 {
        return Vec::new();
    }
    let mut back: Vec<Vec<usize>> = Vec::new();
    back.push(Vec::new());
    let mut col = first_tags(model);
    proof {
        if tag_laws(*model) {
            assert forall|q: Seq<usize>| #[trigger] valid_tags(q) && q.len() == 1
                implies !tag_score(*model, q).better(col@[q.last() as int]) by {
                assert(q[0] < NUM_TAGS);
                assert(q =~= seq![q[0]]);
                lemma_not_better_self(col@[q.last() as int]);
            }
        }
    }
    let mut i: usize = 1;
    while i < n
        invariant
            1 <= i <= n,
            back.len() == i,
            col.len() == NUM_TAGS,
            tag_laws(*model) ==> forall|k: int| 0 <= k < NUM_TAGS ==> (#[trigger] col@[k]).valid(),
            forall|m: int| 1 <= m < i ==> (#[trigger] back@[m])@.len() == NUM_TAGS,
            forall|m: int, j: int| 1 <= m < i && 0 <= j < NUM_TAGS ==> #[trigger] back@[m]@[j] < NUM_TAGS,
            tag_laws(*model) ==> forall|k: int| 0 <= k < NUM_TAGS ==> #[trigger] col@[k]
                == tag_score(*model, tag_traced(back@, i - 1, k as usize)),
            tag_laws(*model) ==> forall|q: Seq<usize>| #[trigger] valid_tags(q) && q.len() == i
                ==> !tag_score(*model, q).better(col@[q.last() as int]),
            tag_laws(*model) ==> tag_first(*model, back@, i as int),
        decreases n - i,
    {
        let mut next: Vec<M::Score> = Vec::new();
        let mut nback: Vec<usize> = Vec::new();
        let mut s: usize = 0;
        while s < NUM_TAGS
            invariant
                1 <= i < n,
                col.len() == NUM_TAGS,
                tag_laws(*model) ==> forall|k: int| 0 <= k < NUM_TAGS ==> (#[trigger] col@[k]).valid(),
                tag_laws(*model) ==> forall|x: int| 0 <= x < s ==> (#[trigger] next@[x]).valid(),
                s <= NUM_TAGS,
                next.len() == s,
                nback.len() == s,
                forall|x: int| 0 <= x < s ==> #[trigger] nback@[x] < NUM_TAGS,
                tag_laws(*model) ==> forall|x: int| 0 <= x < s ==> #[trigger] next@[x]
                    == col@[nback@[x] as int].sum(model.transition_score(nback@[x], x as usize)).sum(model.emission_score(i, x as usize)),
                tag_laws(*model) ==> forall|x: int, y: int| 0 <= x < s && 0 <= y < NUM_TAGS
                    ==> !(#[trigger] col@[y]).sum(model.transition_score(y as usize, x as usize)).sum(model.emission_score(i, x as usize)).better(#[trigger] next@[x]),
                tag_laws(*model) ==> forall|x: int| 0 <= x < s && 0 < #[trigger] nback@[x] ==>
                    col@[nback@[x] as int].sum(model.transition_score(nback@[x], x as usize)) != model.floor_spec(),
                tag_laws(*model) ==> forall|x: int, y: int| #![trigger nback@[x], col@[y]] 0 <= x < s && 0 <= y < nback@[x] ==>
                    model.is_floor_spec(col@[y])
                        || col@[nback@[x] as int].sum(model.transition_score(nback@[x], x as usize)).better(
                            col@[y].sum(model.transition_score(y as usize, x as usize))),
            decreases NUM_TAGS - s,
        {
            let em = model.emission(i, s);
            let (best, arg) = best_tag_prev(&col, s, model);
            let (v, b) = if model.is_floor(em) {
                (model.floor(), 0usize)
            } else if model.is_floor(best) {
                (model.floor(), 0usize)
            } else {
                (best.plus(em), arg)
            };
            let ghost old_nback = nback@;
            next.push(v);
            nback.push(b);
            proof {
                if tag_laws(*model) {
                    let fl = model.floor_spec();
                    if model.is_floor_spec(em) {
                        assert(em == fl);
                        assert(v == col@[0].sum(model.transition_score(0, s)).sum(em));
                        assert forall|y: int| 0 <= y < NUM_TAGS implies !(#[trigger] col@[y]).sum(model.transition_score(y as usize, s)).sum(model.emission_score(i, s)).better(v) by {
                            lemma_not_better_self(fl);
                        }
                    } else if model.is_floor_spec(best) {
                        assert(best == fl);
                        assert(arg == 0);
                        assert(v == fl.sum(em));
                        assert forall|y: int| 0 <= y < NUM_TAGS implies !(#[trigger] col@[y]).sum(model.transition_score(y as usize, s)).sum(model.emission_score(i, s)).better(v) by {
                            let z = col@[y].sum(model.transition_score(y as usize, s));
                            assert(!z.better(fl));
                            assert(z == fl);
                            lemma_not_better_self(fl);
                        }
                    } else {
                        assert forall|y: int| 0 <= y < NUM_TAGS implies !(#[trigger] col@[y]).sum(model.transition_score(y as usize, s)).sum(model.emission_score(i, s)).better(v) by {
                            lemma_not_better_sum(col@[y].sum(model.transition_score(y as usize, s)), best, em);
                        }
                        assert(best != model.floor_spec());
                    }
                    assert forall|x: int| 0 <= x < s + 1 && 0 < #[trigger] nback@[x] implies
                        col@[nback@[x] as int].sum(model.transition_score(nback@[x], x as usize)) != model.floor_spec() by {
                        if x < s {
                            assert(nback@[x] == old_nback[x]);
                        } else {
                            assert(nback@[x] == b);
                            assert(!model.is_floor_spec(em) && !model.is_floor_spec(best));
                            assert(best == col@[arg as int].sum(model.transition_score(arg, s)));
                        }
                    }
                    assert forall|x: int, y: int| #![trigger nback@[x], col@[y]] 0 <= x < s + 1 && 0 <= y < nback@[x] implies
                        model.is_floor_spec(col@[y])
                            || col@[nback@[x] as int].sum(model.transition_score(nback@[x], x as usize)).better(
                                col@[y].sum(model.transition_score(y as usize, x as usize))) by {
                        if x < s {
                            assert(nback@[x] == old_nback[x]);
                        } else {
                            assert(nback@[x] == b);
                            assert(!model.is_floor_spec(em) && !model.is_floor_spec(best));
                            assert(best == col@[arg as int].sum(model.transition_score(arg, s)));
                        }
                    }
                }
            }
            s += 1;
        }
        let ghost old_back = back@;
        let ghost old_col = col@;
        back.push(nback);
        col = next;
        proof {
            if tag_laws(*model) {
                assert forall|m: int| 0 <= m < i implies back@[m] == old_back[m] by {}
                lemma_tag_first_step(*model, old_back, back@, old_col, i as int);
            }
            assert forall|m: int| 1 <= m < i + 1 implies (#[trigger] back@[m])@.len() == NUM_TAGS by {
                if m < i {
                    assert(back@[m] == old_back[m]);
                }
            }
            assert forall|m: int, jj: int| 1 <= m < i + 1 && 0 <= jj < NUM_TAGS implies #[trigger] back@[m]@[jj] < NUM_TAGS by {
                if m < i {
                    assert(back@[m] == old_back[m]);
                }
            }
            if tag_laws(*model) {
                assert forall|k: int| 0 <= k < NUM_TAGS implies #[trigger] col@[k]
                    == tag_score(*model, tag_traced(back@, i as int, k as usize)) by {
                    let b = back@[i as int]@[k];
                    lemma_tag_traced(back@, i as int, k as usize);
                    lemma_tag_traced(back@, i - 1, b);
                    lemma_tag_traced_prefix(old_back, back@, i - 1, b);
                    let t = tag_traced(back@, i as int, k as usize);
                    assert(t.drop_last() =~= tag_traced(back@, i - 1, b));
                    assert(t[t.len() - 2] == b);
                }
                assert forall|q: Seq<usize>| #[trigger] valid_tags(q) && q.len() == i + 1
                    implies !tag_score(*model, q).better(col@[q.last() as int]) by {
                    let d = q.drop_last();
                    assert(valid_tags(d)) by {
                        assert forall|m: int| 0 <= m < d.len() implies #[trigger] d[m] < NUM_TAGS by {
                            assert(d[m] == q[m]);
                        }
                    }
                    let y = q[q.len() - 2];
                    assert(d.last() == y);
                    let x = q.last();
                    assert(x < NUM_TAGS) by {
                        assert(q[i as int] == x);
                    }
                    assert(!tag_score(*model, d).better(old_col[y as int]));
                    lemma_tag_score_valid(*model, d);
                    lemma_tag_score_valid(*model, q);
                    lemma_not_better_sum(tag_score(*model, d), old_col[y as int], model.transition_score(y, x));
                    lemma_not_better_sum(tag_score(*model, d).sum(model.transition_score(y, x)), old_col[y as int].sum(model.transition_score(y, x)), model.emission_score(i, x));
                    assert(!old_col[y as int].sum(model.transition_score(y, x)).sum(model.emission_score(i, x)).better(col@[x as int]));
                    lemma_not_better_trans(tag_score(*model, q), old_col[y as int].sum(model.transition_score(y, x)).sum(model.emission_score(i, x)), col@[x as int]);
                }
            }
        }
        i += 1;
    }
    let last = last_ranked(&col, model);
    let ghost t = tag_traced(back@, n - 1, last);
    proof {
        lemma_tag_traced(back@, n - 1, last);
    }
    let mut out: Vec<Pos> = Vec::new();
    let mut q: usize = 0;
    while q < n
        invariant
            q <= n,
            out.len() == q,
        decreases n - q,
    {
        out.push(Pos::NN);
        q += 1;
    }
    let mut cur = last;
    let mut i: usize = n;
    while i > 0
        invariant
            i <= n,
            out.len() == n,
            back.len() == n,
            forall|m: int| 1 <= m < n ==> (#[trigger] back@[m])@.len() == NUM_TAGS,
            valid_tags(t),
            t.len() == n,
            forall|y: int| 1 <= y < n ==> t[y - 1] == back@[y]@[#[trigger] t[y] as int],
            i > 0 ==> cur == t[i - 1],
            forall|y: int| i <= y < n ==> tag_index(#[trigger] out@[y]) == t[y],
        decreases i,
    {
        i -= 1;
        proof {
            assert(t[i as int] < NUM_TAGS);
        }
        out.set(i, Pos::from_idx(cur));
        if i > 0 {
            cur = back[i][cur];
        }
    }
    proof {
        assert(tag_indices(out@) =~= t);
        if tag_laws(*model) {
            assert forall|q: Seq<usize>| #[trigger] valid_tags(q) && q.len() == n
                implies !tag_score(*model, q).better(tag_score(*model, tag_indices(out@))) by {
                assert(q.last() < NUM_TAGS) by {
                    assert(q[q.len() - 1] < NUM_TAGS);
                }
                lemma_tag_score_valid(*model, q);
                lemma_not_better_trans(tag_score(*model, q), col@[q.last() as int], col@[last as int]);
            }
            // Each tag took the first best predecessor.
            assert forall|q: Seq<usize>| #[trigger] valid_tags(q) && 2 <= q.len() <= n
                && q.last() == tag_indices(out@)[q.len() - 1] && q[q.len() - 2] < tag_indices(out@)[q.len() - 2]
                implies tag_score(*model, tag_indices(out@).take(q.len() - 1)).sum(model.transition_score(tag_indices(out@)[q.len() - 2], q.last())).better(
                    tag_score(*model, q.drop_last()).sum(model.transition_score(q[q.len() - 2], q.last()))) by {
                let m = q.len() - 1;
                assert(t[m - 1] == back@[m]@[t[m] as int]);
                lemma_tag_traced_take(back@, n - 1, last, m - 1);
            }
            // The final tag is the last one that no other outranks.
            assert forall|y: int| tag_indices(out@).last() < y < NUM_TAGS
                implies #[trigger] outranks_best_ending(*model, n as int, y, tag_score(*model, tag_indices(out@))) by {
                let w = tag_traced(back@, n - 1, y as usize);
                lemma_tag_traced(back@, n - 1, y as usize);
                assert(col@[y] == tag_score(*model, w));
                assert(tag_indices(out@).last() == last);
                assert(model.outranks_spec(col@[last as int], col@[y]));
                assert(valid_tags(w) && w.len() == n && w.last() == y);
            }
        }
    }
    out
}

} // verus!
