//! Optimal-string-alignment distance (Damerau-Levenshtein restricted to adjacent
//! transpositions of untouched characters), and the row facts that let a trie walk prune.
use vstd::prelude::*;

verus! {

/// The smaller of two naturals.
pub open spec fn min_nat(a: nat, b: nat) -> nat {
    if a <= b {
        a
    } else {
        b
    }
}

/// The optimal-string-alignment distance from `a` to `b`: the fewest insertions, deletions,
/// substitutions and swaps of two adjacent characters that turn `a` into `b`, no character
/// being edited twice.
pub open spec fn osa_distance(a: Seq<char>, b: Seq<char>) -> nat
    decreases a.len() + b.len(),
{
    if a.len() == 0 {
        b.len()
    } else if b.len() == 0 {
        a.len()
    } else {
        let i = a.len() - 1;
        let j = b.len() - 1;
        let cost: nat = if a[i] == b[j] {
            0
        } else {
            1
        };
        let best = min_nat(
            min_nat(osa_distance(a.drop_last(), b) + 1, osa_distance(a, b.drop_last()) + 1),
            osa_distance(a.drop_last(), b.drop_last()) + cost,
        );
        if a.len() >= 2 && b.len() >= 2 && a[i] == b[j - 1] && a[i - 1] == b[j] {
            min_nat(best, osa_distance(a.drop_last().drop_last(), b.drop_last().drop_last()) + 1)
        } else {
            best
        }
    }
}

/// The distance is at most the longer length.
pub proof fn lemma_osa_bound(a: Seq<char>, b: Seq<char>)
    ensures
        osa_distance(a, b) <= a.len() || osa_distance(a, b) <= b.len(),
        osa_distance(a, b) <= a.len() + b.len(),
        a.len() <= b.len() ==> osa_distance(a, b) <= b.len(),
        b.len() <= a.len() ==> osa_distance(a, b) <= a.len(),
    decreases a.len() + b.len(),
{
    if a.len() > 0 && b.len() > 0 {
        lemma_osa_bound(a.drop_last(), b.drop_last());
    }
}

/// Dropping the last character of both sides lowers the distance by at most one.
proof fn lemma_osa_diagonal(a: Seq<char>, b: Seq<char>)
    requires
        a.len() > 0,
        b.len() > 0,
    ensures
        osa_distance(a, b) <= osa_distance(a.drop_last(), b.drop_last()) + 1,
{
}

/// One DP cell: the distance from `a.push(c)` to the first `j` characters of `q`, in terms of
/// the row of `a`, the previous cell of the same row, and the row of `a` without its last
/// character (for a swap of `a`'s last character and `c`).
pub proof fn lemma_osa_step(a: Seq<char>, c: char, q: Seq<char>, j: int)
    requires
        1 <= j <= q.len(),
    ensures
        osa_distance(a.push(c), q.take(j)) == ({
            let cost: nat = if c == q[j - 1] {
                0
            } else {
                1
            };
            let best = min_nat(
                min_nat(osa_distance(a, q.take(j)) + 1, osa_distance(a.push(c), q.take(j - 1)) + 1),
                osa_distance(a, q.take(j - 1)) + cost,
            );
            if a.len() >= 1 && j >= 2 && c == q[j - 2] && a.last() == q[j - 1] {
                min_nat(best, osa_distance(a.drop_last(), q.take(j - 2)) + 1)
            } else {
                best
            }
        }),
{
    let aa = a.push(c);
    let b = q.take(j);
    assert(aa.drop_last() =~= a);
    assert(b.drop_last() =~= q.take(j - 1));
    if j >= 2 {
        assert(b.drop_last().drop_last() =~= q.take(j - 2));
    }
    if a.len() >= 1 {
        assert(aa.drop_last().drop_last() =~= a.drop_last());
    }
}

/// Every entry of the DP row of `a` against the prefixes of `q` is at least `m`.
pub open spec fn row_at_least(a: Seq<char>, q: Seq<char>, m: nat) -> bool {
    forall|j: int| 0 <= j <= q.len() ==> osa_distance(a, #[trigger] q.take(j)) >= m
}

/// Entry `j` of the row of `a.push(c)` is at least the least entry of the row of `a`.
proof fn lemma_row_extend_at(a: Seq<char>, c: char, q: Seq<char>, m: nat, j: int)
    requires
        row_at_least(a, q, m),
        0 <= j <= q.len(),
    ensures
        osa_distance(a.push(c), q.take(j)) >= m,
    decreases j,
{
    let aa = a.push(c);
    let b = q.take(j);
    assert(aa.drop_last() =~= a);
    assert(osa_distance(a, q.take(j)) >= m);
    if j == 0 {
        assert(q.take(0) =~= Seq::<char>::empty());
        if a.len() > 0 {
            assert(osa_distance(a, q.take(0)) == a.len());
        }
    } else {
        lemma_row_extend_at(a, c, q, m, j - 1);
        assert(b.drop_last() =~= q.take(j - 1));
        assert(osa_distance(a, q.take(j - 1)) >= m);
        if a.len() == 0 {
            assert(osa_distance(a, q.take(j)) == j);
        }
        if aa.len() >= 2 && j >= 2 {
            assert(b.drop_last().drop_last() =~= q.take(j - 2));
            assert(q.take(j - 1).drop_last() =~= q.take(j - 2));
            lemma_osa_diagonal(a, q.take(j - 1));
            assert(aa.drop_last().drop_last() =~= a.drop_last());
        }
    }
}

/// Appending a character never lowers the least entry of the row.
pub proof fn lemma_row_extend(a: Seq<char>, c: char, q: Seq<char>, m: nat)
    requires
        row_at_least(a, q, m),
    ensures
        row_at_least(a.push(c), q, m),
{
    assert forall|j: int| 0 <= j <= q.len() implies osa_distance(a.push(c), #[trigger] q.take(j)) >= m by {
        lemma_row_extend_at(a, c, q, m, j);
    }
}

/// If every entry of the row of `a` is at least `m`, every extension of `a` is at distance at
/// least `m` from `q`.
pub proof fn lemma_row_prefix(a: Seq<char>, w: Seq<char>, q: Seq<char>, m: nat)
    requires
        row_at_least(a, q, m),
        a.len() <= w.len(),
        w.take(a.len() as int) == a,
    ensures
        row_at_least(w, q, m),
        osa_distance(w, q) >= m,
    decreases w.len() - a.len(),
{
    if w.len() > a.len() {
        let w0 = w.drop_last();
        assert(w0.take(a.len() as int) =~= w.take(a.len() as int));
        lemma_row_prefix(a, w0, q, m);
        lemma_row_extend(w0, w.last(), q, m);
        assert(w0.push(w.last()) =~= w);
    } else {
        assert(w.take(a.len() as int) =~= w);
    }
    assert(q.take(q.len() as int) =~= q);
    assert(osa_distance(w, q.take(q.len() as int)) >= m);
}

} // verus!
