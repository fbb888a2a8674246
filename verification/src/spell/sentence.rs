//! Sentence-level correction: a first-order Viterbi over each token's candidates, choosing the
//! sequence that maximizes the bigram score of consecutive choices plus each choice's edit
//! score. The scores come from the caller.
use vstd::prelude::*;
use crate::lattice::grid::{lemma_better_asym, lemma_better_over, lemma_not_better_self, lemma_not_better_sum, lemma_not_better_trans, score_laws, PathScore};

verus! {

/// What the sentence decode asks of a scorer, by position: the score of candidate `j` at
/// token `i` after candidate `p` at token `i - 1` (at `i == 0`, after the sentence start;
/// `p` is then not read), and the edit score of candidate `j` at token `i`. The spec
/// functions are the counterparts of the methods of the same role.
pub trait SentenceScorer {
    type Score: PathScore;

    /// A score no candidate falls below.
    spec fn floor_spec(&self) -> Self::Score;

    /// The bigram score of candidate `j` at token `i` after candidate `p`.
    spec fn step_score(&self, i: usize, p: usize, j: usize) -> Self::Score;

    /// The edit score of candidate `j` at token `i`.
    spec fn edit_score(&self, i: usize, j: usize) -> Self::Score;

    /// A score no candidate falls below (the start of every maximization).
    fn floor(&self) -> (r: Self::Score)
        ensures
            r == self.floor_spec(),
    ;

    /// The bigram score of candidate `j` at token `i` after candidate `p` at token `i - 1`
    /// (after the sentence start when `i == 0`).
    fn bigram(&self, i: usize, p: usize, j: usize) -> (r: Self::Score)
        ensures
            r == self.step_score(i, p, j),
    ;

    /// The edit score of candidate `j` at token `i`.
    fn edit(&self, i: usize, j: usize) -> (r: Self::Score)
        ensures
            r == self.edit_score(i, j),
    ;
}

/// The score of choosing candidate `q[i]` at each token `i`: the step from the sentence start
/// into the first choice plus its edit score, then for each later token the step from the
/// previous choice plus its edit score, added left to right.
pub open spec fn choice_score<M: SentenceScorer>(model: M, q: Seq<usize>) -> M::Score
    decreases q.len(),
{
    if q.len() <= 1 {
        model.step_score(0, 0, q[0]).sum(model.edit_score(0, q[0]))
    } else {
        choice_score(model, q.drop_last()).sum(model.step_score((q.len() - 1) as usize, q[q.len() - 2], q.last())).sum(
            model.edit_score((q.len() - 1) as usize, q.last()),
        )
    }
}

/// `q` picks, for each of its first tokens, one of that token's candidates.
pub open spec fn valid_choice(cands: Seq<Vec<(String, usize)>>, q: Seq<usize>) -> bool {
    q.len() <= cands.len() && forall|m: int| 0 <= m < q.len() ==> #[trigger] q[m] < cands[m].len()
}

/// The laws under which the decode finds a best choice: the score laws, every step, edit and
/// floor score the scorer gives is valid, and no valid score lies below the floor (one not
/// better than the floor is the floor).
pub open spec fn sentence_laws<M: SentenceScorer>(model: M) -> bool {
    &&& score_laws::<M::Score>()
    &&& model.floor_spec().valid()
    &&& forall|i: usize, p: usize, j: usize| (#[trigger] model.step_score(i, p, j)).valid()
    &&& forall|i: usize, j: usize| (#[trigger] model.edit_score(i, j)).valid()
    &&& forall|x: M::Score| x.valid() && !#[trigger] x.better(model.floor_spec()) ==> x == model.floor_spec()
}

/// Under the laws, every choice scores a valid score.
pub proof fn lemma_choice_valid<M: SentenceScorer>(model: M, q: Seq<usize>)
    requires
        sentence_laws(model),
    ensures
        choice_score(model, q).valid(),
    decreases q.len(),
{
    if q.len() > 1 {
        lemma_choice_valid(model, q.drop_last());
    }
}

/// The choices traced back from candidate `k` at token `i` along the back-pointer table.
pub open spec fn traced(back: Seq<Vec<usize>>, i: int, k: usize) -> Seq<usize>
    decreases i,
{
    if i <= 0 {
        seq![k]
    } else {
        traced(back, i - 1, back[i]@[k as int]).push(k)
    }
}

proof fn lemma_traced_len(back: Seq<Vec<usize>>, i: int, k: usize)
    requires
        i >= 0,
    ensures
        traced(back, i, k).len() == i + 1,
        traced(back, i, k).last() == k,
    decreases i,
{
    if i > 0 {
        lemma_traced_len(back, i - 1, back[i]@[k as int]);
    }
}

/// A traced choice is valid, and each step back follows the table.
proof fn lemma_traced(cands: Seq<Vec<(String, usize)>>, back: Seq<Vec<usize>>, i: int, k: usize)
    requires
        0 <= i < cands.len(),
        back.len() > i,
        k < cands[i].len(),
        forall|m: int, j: int| 1 <= m <= i && 0 <= j < cands[m].len() ==> #[trigger] back[m]@[j] < cands[m - 1].len(),
    ensures
        traced(back, i, k).len() == i + 1,
        traced(back, i, k).last() == k,
        valid_choice(cands, traced(back, i, k)),
        forall|y: int| 1 <= y <= i ==> traced(back, i, k)[y - 1] == back[y]@[#[trigger] traced(back, i, k)[y] as int],
    decreases i,
{
    lemma_traced_len(back, i, k);
    if i > 0 {
        let b = back[i]@[k as int];
        lemma_traced(cands, back, i - 1, b);
        let t = traced(back, i, k);
        let u = traced(back, i - 1, b);
        assert(t == u.push(k));
        assert forall|m: int| 0 <= m < t.len() implies #[trigger] t[m] < cands[m].len() by {
            if m < i {
                assert(t[m] == u[m]);
            }
        }
        assert forall|y: int| 1 <= y <= i implies t[y - 1] == back[y]@[#[trigger] t[y] as int] by {
            if y < i {
                assert(t[y] == u[y] && t[y - 1] == u[y - 1]);
            } else {
                assert(t[y - 1] == u.last());
            }
        }
    }
}

/// The first column: each candidate of the first token scored from the sentence start.
fn first_column<M: SentenceScorer>(cands: &Vec<Vec<(String, usize)>>, model: &M) -> (r: Vec<M::Score>)
    requires
        cands.len() > 0,
    ensures
        r.len() == cands@[0].len(),
        forall|k: int| 0 <= k < r.len() ==> #[trigger] r@[k] == choice_score(*model, seq![k as usize]),
        sentence_laws(*model) ==> forall|k: int| 0 <= k < r.len() ==> (#[trigger] r@[k]).valid(),
{
    let first = &cands[0];
    let mut r: Vec<M::Score> = Vec::new();
    let mut k: usize = 0;
    while k < first.len()
        invariant
            first@ == cands@[0]@,
            k <= first.len(),
            r.len() == k,
            forall|x: int| 0 <= x < k ==> #[trigger] r@[x] == choice_score(*model, seq![x as usize]),
            sentence_laws(*model) ==> forall|x: int| 0 <= x < k ==> (#[trigger] r@[x]).valid(),
        decreases first.len() - k,
    {
        let s = model.bigram(0, 0, k).plus(model.edit(0, k));
        r.push(s);
        k += 1;
    }
    r
}

/// Up to token `upto`, each entry of the back-pointer table is the first best predecessor: a
/// valid choice ending in the same candidate through an earlier candidate of the previous token
/// steps into it strictly worse than the traced choice does.
pub open spec fn sentence_first<M: SentenceScorer>(model: M, cands: Seq<Vec<(String, usize)>>, back: Seq<Vec<usize>>, upto: int) -> bool {
    forall|q: Seq<usize>| #[trigger] valid_choice(cands, q) && 2 <= q.len() <= upto
        && q[q.len() - 2] < back[q.len() - 1]@[q.last() as int]
        ==> {
            let m = (q.len() - 1) as usize;
            let bk = back[m as int]@[q.last() as int];
            choice_score(model, traced(back, m - 1, bk)).sum(model.step_score(m, bk, q.last())).better(
                choice_score(model, q.drop_last()).sum(model.step_score(m, q[m - 1], q.last())))
        }
}

/// A traced choice's prefix is the choice traced from its entry at that token.
proof fn lemma_traced_take(back: Seq<Vec<usize>>, i: int, k: usize, m: int)
    requires
        0 <= m <= i,
    ensures
        traced(back, i, k).take(m + 1) == traced(back, m, traced(back, i, k)[m]),
    decreases i,
{
    lemma_traced_len(back, i, k);
    let t = traced(back, i, k);
    if m < i {
        let b = back[i]@[k as int];
        lemma_traced_take(back, i - 1, b, m);
        lemma_traced_len(back, i - 1, b);
        let u = traced(back, i - 1, b);
        assert(t == u.push(k));
        assert(t.take(m + 1) =~= u.take(m + 1));
        assert(t[m] == u[m]);
    } else {
        assert(t.take(m + 1) =~= t);
        assert(t[m] == k);
    }
}

/// Adding a column whose back-pointers are first best predecessors extends the first-best
/// property of the table by one token.
proof fn lemma_sentence_first_step<M: SentenceScorer>(
    model: M,
    cands: Seq<Vec<(String, usize)>>,
    old_back: Seq<Vec<usize>>,
    back: Seq<Vec<usize>>,
    old_prev: Seq<M::Score>,
    i: int,
)
    requires
        sentence_laws(model),
        1 <= i < cands.len(),
        cands.len() <= usize::MAX,
        old_back.len() == i,
        back.len() == i + 1,
        forall|m: int| 0 <= m < i ==> back[m] == old_back[m],
        back[i]@.len() == cands[i].len(),
        old_prev.len() == cands[i - 1].len(),
        forall|k: int| 0 <= k < old_prev.len() ==> #[trigger] old_prev[k].valid(),
        forall|x: int| 0 <= x < back[i]@.len() ==> #[trigger] back[i]@[x] < old_prev.len(),
        forall|k: int| 0 <= k < old_prev.len() ==> #[trigger] old_prev[k] == choice_score(model, traced(old_back, i - 1, k as usize)),
        forall|q: Seq<usize>| #[trigger] valid_choice(cands, q) && q.len() == i ==> !choice_score(model, q).better(old_prev[q.last() as int]),
        forall|x: int, y: int| #![trigger back[i]@[x], old_prev[y]] 0 <= x < back[i]@.len() && 0 <= y < back[i]@[x] ==>
            old_prev[back[i]@[x] as int].sum(model.step_score(i as usize, back[i]@[x], x as usize)).better(
                old_prev[y].sum(model.step_score(i as usize, y as usize, x as usize))),
        sentence_first(model, cands, old_back, i),
    ensures
        sentence_first(model, cands, back, i + 1),
{
    assert forall|q: Seq<usize>| #[trigger] valid_choice(cands, q) && 2 <= q.len() <= i + 1
        && q[q.len() - 2] < back[q.len() - 1]@[q.last() as int]
        implies {
            let m = (q.len() - 1) as usize;
            let bk = back[m as int]@[q.last() as int];
            choice_score(model, traced(back, m - 1, bk)).sum(model.step_score(m, bk, q.last())).better(
                choice_score(model, q.drop_last()).sum(model.step_score(m, q[m - 1], q.last())))
        } by {
        let m = q.len() - 1;
        let x = q.last();
        assert(x < cands[m].len()) by {
            assert(q[m] == x);
        }
        let bk = back[m]@[x as int];
        assert forall|mm: int| 0 <= mm <= m - 1 implies old_back[mm] == back[mm] by {}
        lemma_traced_prefix(old_back, back, m - 1, bk);
        if m < i {
            assert(back[m] == old_back[m]);
            assert(q[q.len() - 2] < old_back[q.len() - 1]@[q.last() as int]);
            assert(choice_score(model, traced(old_back, m - 1, bk)).sum(model.step_score(m as usize, bk, x)).better(
                choice_score(model, q.drop_last()).sum(model.step_score(m as usize, q[m - 1], x))));
        } else {
            let d = q.drop_last();
            assert(valid_choice(cands, d)) by {
                assert forall|mm: int| 0 <= mm < d.len() implies #[trigger] d[mm] < cands[mm].len() by {
                    assert(d[mm] == q[mm]);
                }
            }
            let y = q[m - 1];
            assert(d.last() == y);
            let st = model.step_score(i as usize, y, x);
            assert(!choice_score(model, d).better(old_prev[y as int]));
            lemma_choice_valid(model, d);
            lemma_not_better_sum(choice_score(model, d), old_prev[y as int], st);
            assert(old_prev[bk as int] == choice_score(model, traced(old_back, i - 1, bk)));
            assert(old_prev[bk as int].sum(model.step_score(i as usize, bk, x)).better(old_prev[y as int].sum(st)));
            lemma_better_over(old_prev[bk as int].sum(model.step_score(i as usize, bk, x)), old_prev[y as int].sum(st), choice_score(model, d).sum(st));
            assert(choice_score(model, traced(back, m - 1, bk)) == old_prev[bk as int]);
        }
    }
}

/// The best predecessor of candidate `j` at token `i` in the previous column `prev` (the first
/// best wins a tie), with the step into `j` added.
fn best_prev<M: SentenceScorer>(prev: &Vec<M::Score>, i: usize, j: usize, model: &M) -> (r: (M::Score, usize))
    requires
        prev.len() > 0,
        sentence_laws(*model) ==> forall|k: int| 0 <= k < prev.len() ==> (#[trigger] prev@[k]).valid(),
    ensures
        sentence_laws(*model) ==> r.0.valid(),
        r.1 < prev.len(),
        sentence_laws(*model) ==> r.0 == prev@[r.1 as int].sum(model.step_score(i, r.1, j)),
        sentence_laws(*model) ==> forall|y: int| 0 <= y < prev.len() ==> !(#[trigger] prev@[y]).sum(model.step_score(i, y as usize, j)).better(r.0),
        sentence_laws(*model) ==> forall|y: int| 0 <= y < r.1 ==> r.0.better((#[trigger] prev@[y]).sum(model.step_score(i, y as usize, j))),
{
    let mut best = model.floor();
    let mut best_k: usize = 0;
    let mut p: usize = 0;
    while p < prev.len()
        invariant
            prev.len() > 0,
            p <= prev.len(),
            best_k < prev.len(),
            sentence_laws(*model) ==> (best == prev@[best_k as int].sum(model.step_score(i, best_k, j))
                || (best == model.floor_spec() && best_k == 0)),
            sentence_laws(*model) ==> forall|y: int| 0 <= y < p ==> !(#[trigger] prev@[y]).sum(model.step_score(i, y as usize, j)).better(best),
            best_k <= p,
            sentence_laws(*model) ==> forall|k: int| 0 <= k < prev.len() ==> (#[trigger] prev@[k]).valid(),
            sentence_laws(*model) ==> best.valid(),
            sentence_laws(*model) ==> forall|y: int| 0 <= y < best_k ==> best.better((#[trigger] prev@[y]).sum(model.step_score(i, y as usize, j))),
        decreases prev.len() - p,
    {
        let s = prev[p].plus(model.bigram(i, p, j));
        let ghost old_best = best;
        if s.beats(best) {
            best = s;
            best_k = p;
        }
        proof {
            if sentence_laws(*model) {
                lemma_not_better_self(s);
                if s.better(old_best) {
                    lemma_better_asym(s, old_best);
                    assert forall|y: int| 0 <= y < p + 1 implies !(#[trigger] prev@[y]).sum(model.step_score(i, y as usize, j)).better(best) by {
                        if y < p {
                            lemma_not_better_trans(prev@[y].sum(model.step_score(i, y as usize, j)), old_best, s);
                        }
                    }
                    assert forall|y: int| 0 <= y < best_k implies best.better((#[trigger] prev@[y]).sum(model.step_score(i, y as usize, j))) by {
                        lemma_better_over(s, old_best, prev@[y].sum(model.step_score(i, y as usize, j)));
                    }
                }
            }
        }
        p += 1;
    }
    proof {
        if sentence_laws(*model) && !(best == prev@[best_k as int].sum(model.step_score(i, best_k, j))) {
            assert(!prev@[0].sum(model.step_score(i, 0, j)).better(best));
        }
    }
    (best, best_k)
}

/// Every score of `scores` is valid.
pub open spec fn all_valid<S: PathScore>(scores: Seq<S>) -> bool {
    forall|y: int| 0 <= y < scores.len() ==> (#[trigger] scores[y]).valid()
}

/// The last index of a best score in `scores`.
fn last_best<S: PathScore>(scores: &Vec<S>) -> (r: usize)
    requires
        scores.len() > 0,
    ensures
        r < scores.len(),
        (score_laws::<S>() && all_valid(scores@)) ==> forall|y: int| 0 <= y < scores.len() ==> !(#[trigger] scores@[y]).better(scores@[r as int]),
        forall|y: int| r < y < scores.len() ==> scores@[r as int].better(#[trigger] scores@[y]),
{
    let mut j: usize = 0;
    let mut x: usize = 1;
    proof {
        if (score_laws::<S>() && all_valid(scores@)) {
            lemma_not_better_self(scores@[0]);
        }
    }
    while x < scores.len()
        invariant
            j < scores.len(),
            1 <= x <= scores.len(),
            j < x,
            (score_laws::<S>() && all_valid(scores@)) ==> forall|y: int| 0 <= y < x ==> !(#[trigger] scores@[y]).better(scores@[j as int]),
            forall|y: int| j < y < x ==> scores@[j as int].better(#[trigger] scores@[y]),
        decreases scores.len() - x,
    {
        let old_j = j;
        if !scores[j].beats(scores[x]) {
            j = x;
        }
        proof {
            if (score_laws::<S>() && all_valid(scores@)) {
                if j == x {
                    lemma_not_better_self(scores@[x as int]);
                    assert forall|y: int| 0 <= y < x + 1 implies !(#[trigger] scores@[y]).better(scores@[j as int]) by {
                        if y < x {
                            lemma_not_better_trans(scores@[y], scores@[old_j as int], scores@[x as int]);
                        }
                    }
                } else {
                    lemma_better_asym(scores@[j as int], scores@[x as int]);
                }
            }
        }
        x += 1;
    }
    j
}

/// Chooses one candidate per token (an index into that token's list, each entry
/// `(surface, edit distance)`): the first choice is scored by the step from the sentence start
/// plus its edit score, each later one by the best predecessor's score plus the step plus its
/// edit score (the first best predecessor wins a tie), and the path is traced back from the
/// best final choice (the last best wins a tie). Returns exactly one index per token; under
/// the scorer's laws, no other choice of candidates scores better, one that ends in a later
/// final choice scores strictly worse, and at each token a choice reaching the same candidate
/// through an earlier candidate of the previous token steps into it strictly worse.
#[verifier::spinoff_prover]
#[verifier::rlimit(40)]
pub fn choose_candidates<M: SentenceScorer>(cands: &Vec<Vec<(String, usize)>>, model: &M) -> (r: Vec<usize>)
    requires
        forall|i: int| 0 <= i < cands.len() ==> (#[trigger] cands@[i]).len() > 0,
    ensures
        r.len() == cands.len(),
        forall|i: int| 0 <= i < r.len() ==> #[trigger] r@[i] < cands@[i].len(),
        cands.len() > 0 && sentence_laws(*model) ==> forall|q: Seq<usize>| #[trigger] valid_choice(cands@, q) && q.len() == cands.len()
            ==> !choice_score(*model, q).better(choice_score(*model, r@)),
        cands.len() > 0 && sentence_laws(*model) ==> forall|q: Seq<usize>| #[trigger] valid_choice(cands@, q) && q.len() == cands.len()
            && q.last() > r@.last() ==> choice_score(*model, r@).better(choice_score(*model, q)),
        cands.len() > 0 && sentence_laws(*model) ==> forall|q: Seq<usize>| #[trigger] valid_choice(cands@, q) && 2 <= q.len() <= cands.len()
            && q.last() == r@[q.len() - 1] && q[q.len() - 2] < r@[q.len() - 2]
            ==> choice_score(*model, r@.take(q.len() - 1)).sum(model.step_score((q.len() - 1) as usize, r@[q.len() - 2], q.last())).better(
                choice_score(*model, q.drop_last()).sum(model.step_score((q.len() - 1) as usize, q[q.len() - 2], q.last()))),
{
    let n = cands.len();
    if n == 0 {
        return Vec::new();
    }
    let mut back: Vec<Vec<usize>> = Vec::new();
    back.push(Vec::new());
    let mut prev_scores = first_column(cands, model);
    proof {
        assert(cands@[0].len() > 0);
        if sentence_laws(*model) {
            assert forall|q: Seq<usize>| #[trigger] valid_choice(cands@, q) && q.len() == 1
                implies !choice_score(*model, q).better(prev_scores@[q.last() as int]) by {
                assert(q[0] < cands@[0].len());
                assert(q =~= seq![q[0]]);
                lemma_not_better_self(prev_scores@[q.last() as int]);
            }
        }
    }
    let mut i: usize = 1;
    while i < n
        invariant
            n == cands.len(),
            forall|q: int| 0 <= q < cands.len() ==> (#[trigger] cands@[q]).len() > 0,
            1 <= i <= n,
            back.len() == i,
            prev_scores.len() == cands@[i - 1].len(),
            sentence_laws(*model) ==> forall|k: int| 0 <= k < prev_scores.len() ==> (#[trigger] prev_scores@[k]).valid(),
            forall|m: int| 1 <= m < i ==> (#[trigger] back@[m])@.len() == cands@[m].len(),
            forall|m: int, j: int| 1 <= m < i && 0 <= j < cands@[m].len() ==> #[trigger] back@[m]@[j] < cands@[m - 1].len(),
            sentence_laws(*model) ==> forall|k: int| 0 <= k < prev_scores.len() ==> #[trigger] prev_scores@[k]
                == choice_score(*model, traced(back@, i - 1, k as usize)),
            sentence_laws(*model) ==> forall|q: Seq<usize>| #[trigger] valid_choice(cands@, q) && q.len() == i
                ==> !choice_score(*model, q).better(prev_scores@[q.last() as int]),
        sentence_laws(*model) ==> sentence_first(*model, cands@, back@, i as int),
        decreases n - i,
    {
        let cur = &cands[i];
        let mut cur_scores: Vec<M::Score> = Vec::new();
        let mut cur_back: Vec<usize> = Vec::new();
        let mut j: usize = 0;
        while j < cur.len()
            invariant
                n == cands.len(),
                1 <= i < n,
                cur@ == cands@[i as int]@,
                prev_scores.len() == cands@[i - 1].len(),
                prev_scores.len() > 0,
                sentence_laws(*model) ==> forall|k: int| 0 <= k < prev_scores.len() ==> (#[trigger] prev_scores@[k]).valid(),
                sentence_laws(*model) ==> forall|x: int| 0 <= x < j ==> (#[trigger] cur_scores@[x]).valid(),
                back.len() == i,
                forall|m: int, jj: int| 1 <= m < i && 0 <= jj < cands@[m].len() ==> #[trigger] back@[m]@[jj] < cands@[m - 1].len(),
                j <= cur.len(),
                cur_scores.len() == j,
                cur_back.len() == j,
                forall|x: int| 0 <= x < j ==> #[trigger] cur_back@[x] < prev_scores.len(),
                sentence_laws(*model) ==> forall|x: int| 0 <= x < j ==> #[trigger] cur_scores@[x]
                    == prev_scores@[cur_back@[x] as int].sum(model.step_score(i, cur_back@[x], x as usize)).sum(model.edit_score(i, x as usize)),
                sentence_laws(*model) ==> forall|x: int, y: int| 0 <= x < j && 0 <= y < prev_scores.len()
                    ==> !(#[trigger] prev_scores@[y]).sum(model.step_score(i, y as usize, x as usize)).sum(model.edit_score(i, x as usize)).better(#[trigger] cur_scores@[x]),
                sentence_laws(*model) ==> forall|x: int, y: int| #![trigger cur_back@[x], prev_scores@[y]] 0 <= x < j && 0 <= y < cur_back@[x] ==>
                    prev_scores@[cur_back@[x] as int].sum(model.step_score(i, cur_back@[x], x as usize)).better(
                        prev_scores@[y].sum(model.step_score(i, y as usize, x as usize))),
            decreases cur.len() - j,
        {
            let (best, k) = best_prev(&prev_scores, i, j, model);
            let e = model.edit(i, j);
            cur_scores.push(best.plus(e));
            cur_back.push(k);
            proof {
                if sentence_laws(*model) {
                    assert forall|x: int, y: int| 0 <= x < j + 1 && 0 <= y < prev_scores.len()
                        implies !(#[trigger] prev_scores@[y]).sum(model.step_score(i, y as usize, x as usize)).sum(model.edit_score(i, x as usize)).better(#[trigger] cur_scores@[x]) by {
                        if x == j {
                            lemma_not_better_sum(prev_scores@[y].sum(model.step_score(i, y as usize, j)), best, e);
                        }
                    }
                    assert forall|x: int, y: int| #![trigger cur_back@[x], prev_scores@[y]] 0 <= x < j + 1 && 0 <= y < cur_back@[x] implies
                        prev_scores@[cur_back@[x] as int].sum(model.step_score(i, cur_back@[x], x as usize)).better(
                            prev_scores@[y].sum(model.step_score(i, y as usize, x as usize))) by {
                        if x == j {
                            assert(prev_scores@[y].sum(model.step_score(i, y as usize, j)) == prev_scores@[y].sum(model.step_score(i, y as usize, x as usize)));
                        }
                    }
                }
            }
            j += 1;
        }
        let ghost old_back = back@;
        let ghost old_prev = prev_scores@;
        back.push(cur_back);
        prev_scores = cur_scores;
        proof {
            assert forall|m: int| 1 <= m < i + 1 implies (#[trigger] back@[m])@.len() == cands@[m].len() by {
                if m < i {
                    assert(back@[m] == old_back[m]);
                }
            }
            assert forall|m: int, jj: int| 1 <= m < i + 1 && 0 <= jj < cands@[m].len() implies #[trigger] back@[m]@[jj] < cands@[m - 1].len() by {
                if m < i {
                    assert(back@[m] == old_back[m]);
                }
            }
            if sentence_laws(*model) {
                assert forall|m: int| 0 <= m < i implies back@[m] == old_back[m] by {}
                lemma_sentence_first_step(*model, cands@, old_back, back@, old_prev, i as int);
                assert forall|k: int| 0 <= k < prev_scores.len() implies #[trigger] prev_scores@[k]
                    == choice_score(*model, traced(back@, i as int, k as usize)) by {
                    let b = back@[i as int]@[k];
                    lemma_traced(cands@, back@, i as int, k as usize);
                    lemma_traced_len(back@, i - 1, b);
                    assert forall|mm: int| 0 <= mm < i implies old_back[mm] == back@[mm] by {}
                    assert(traced(back@, i - 1, b) == traced(old_back, i - 1, b)) by {
                        lemma_traced_prefix(old_back, back@, i - 1, b);
                    }
                    let t = traced(back@, i as int, k as usize);
                    assert(t.drop_last() =~= traced(back@, i - 1, b));
                    assert(t[t.len() - 2] == b);
                }
                assert forall|q: Seq<usize>| #[trigger] valid_choice(cands@, q) && q.len() == i + 1
                    implies !choice_score(*model, q).better(prev_scores@[q.last() as int]) by {
                    let d = q.drop_last();
                    assert(valid_choice(cands@, d)) by {
                        assert forall|m: int| 0 <= m < d.len() implies #[trigger] d[m] < cands@[m].len() by {
                            assert(d[m] == q[m]);
                        }
                    }
                    let y = q[q.len() - 2];
                    assert(d.last() == y);
                    let x = q.last();
                    assert(x < cands@[i as int].len()) by {
                        assert(q[i as int] == x);
                    }
                    assert(!choice_score(*model, d).better(old_prev[y as int]));
                    lemma_choice_valid(*model, d);
                    lemma_choice_valid(*model, q);
                    lemma_not_better_sum(choice_score(*model, d), old_prev[y as int], model.step_score(i, y, x));
                    lemma_not_better_sum(choice_score(*model, d).sum(model.step_score(i, y, x)), old_prev[y as int].sum(model.step_score(i, y, x)), model.edit_score(i, x));
                    assert(!old_prev[y as int].sum(model.step_score(i, y, x)).sum(model.edit_score(i, x)).better(prev_scores@[x as int]));
                    lemma_not_better_trans(choice_score(*model, q), old_prev[y as int].sum(model.step_score(i, y, x)).sum(model.edit_score(i, x)), prev_scores@[x as int]);
                }
            }
        }
        i += 1;
    }
    // The best final candidate: the last of the maximal ones.
    let jf = last_best(&prev_scores);
    let ghost t = traced(back@, n - 1, jf);
    proof {
        lemma_traced(cands@, back@, n - 1, jf);
    }
    let mut path: Vec<usize> = Vec::new();
    let mut q: usize = 0;
    while q < n
        invariant
            q <= n,
            path.len() == q,
        decreases n - q,
    {
        path.push(0);
        q += 1;
    }
    let mut j = jf;
    let mut i: usize = n;
    while i > 0
        invariant
            n == cands.len(),
            i <= n,
            path.len() == n,
            back.len() == n,
            forall|m: int| 1 <= m < n ==> (#[trigger] back@[m])@.len() == cands@[m].len(),
            valid_choice(cands@, t),
            t.len() == n,
            forall|y: int| 1 <= y < n ==> t[y - 1] == back@[y]@[#[trigger] t[y] as int],
            i > 0 ==> j == t[i - 1],
            forall|y: int| i <= y < n ==> #[trigger] path@[y] == t[y],
        decreases i,
    {
        i -= 1;
        path.set(i, j);
        if i > 0 {
            proof {
                assert(t[i as int] < cands@[i as int].len());
            }
            j = back[i][j];
        }
    }
    proof {
        assert(path@ =~= t);
        if sentence_laws(*model) {
            assert forall|q: Seq<usize>| #[trigger] valid_choice(cands@, q) && q.len() == cands.len()
                implies !choice_score(*model, q).better(choice_score(*model, path@)) by {
                lemma_choice_valid(*model, q);
                lemma_not_better_trans(choice_score(*model, q), prev_scores@[q.last() as int], prev_scores@[jf as int]);
            }
            // Ties go to the later final choice: every later one scores strictly worse.
            assert forall|q: Seq<usize>| #[trigger] valid_choice(cands@, q) && q.len() == cands.len() && q.last() > path@.last()
                implies choice_score(*model, path@).better(choice_score(*model, q)) by {
                assert(q.last() < cands@[n - 1].len()) by {
                    assert(q[q.len() - 1] < cands@[q.len() - 1].len());
                }
                assert(path@.last() == jf);
                assert(prev_scores@[jf as int].better(prev_scores@[q.last() as int]));
                lemma_choice_valid(*model, q);
                lemma_better_over(prev_scores@[jf as int], prev_scores@[q.last() as int], choice_score(*model, q));
            }
            // Each choice took the first best predecessor.
            assert forall|q: Seq<usize>| #[trigger] valid_choice(cands@, q) && 2 <= q.len() <= cands.len()
                && q.last() == path@[q.len() - 1] && q[q.len() - 2] < path@[q.len() - 2]
                implies choice_score(*model, path@.take(q.len() - 1)).sum(model.step_score((q.len() - 1) as usize, path@[q.len() - 2], q.last())).better(
                    choice_score(*model, q.drop_last()).sum(model.step_score((q.len() - 1) as usize, q[q.len() - 2], q.last()))) by {
                let m = q.len() - 1;
                assert(t[m - 1] == back@[m]@[t[m] as int]);
                lemma_traced_take(back@, n - 1, jf, m - 1);
            }
        }
    }
    path
}

/// The traced choices depend only on the rows of the table up to `i`.
proof fn lemma_traced_prefix(a: Seq<Vec<usize>>, b: Seq<Vec<usize>>, i: int, k: usize)
    requires
        forall|m: int| 0 <= m <= i ==> a[m] == b[m],
    ensures
        traced(a, i, k) == traced(b, i, k),
    decreases i,
{
    if i > 0 {
        assert(a[i] == b[i]);
        lemma_traced_prefix(a, b, i - 1, a[i]@[k as int]);
    }
}

} // verus!
