//! Token lists at the library's edge: dropping whitespace-only tokens from a packed stream,
//! and cutting a concatenated token buffer back into per-token byte ranges.
use vstd::prelude::*;
use crate::lattice::tokens::{is_whitespace_token, token_len, token_start, whitespace_span};

verus! {

/// The packed tokens whose surface is not all white space, in order.
pub open spec fn without_whitespace(text: Seq<char>, toks: Seq<u64>) -> Seq<u64>
    decreases toks.len(),
{
    if toks.len() == 0 {
        seq![]
    } else {
        let d = without_whitespace(text, toks.drop_last());
        let t = toks.last();
        if whitespace_span(text, token_start(t) as int, token_len(t) as int) {
            d
        } else {
            d.push(t)
        }
    }
}

/// Dropping whitespace tokens keeps exactly the tokens whose surface is not all white space,
/// in their order: no kept token is a whitespace span, and the result is the input filtered
/// by that test (so every non-whitespace token of the input is kept).
pub proof fn lemma_without_whitespace(text: Seq<char>, toks: Seq<u64>)
    ensures
        forall|k: int| 0 <= k < without_whitespace(text, toks).len()
            ==> !whitespace_span(text, token_start(#[trigger] without_whitespace(text, toks)[k]) as int, token_len(without_whitespace(text, toks)[k]) as int),
        without_whitespace(text, toks) == toks.filter(|t: u64| !whitespace_span(text, token_start(t) as int, token_len(t) as int)),
        forall|k: int| 0 <= k < toks.len() && !whitespace_span(text, token_start(#[trigger] toks[k]) as int, token_len(toks[k]) as int)
            ==> without_whitespace(text, toks).contains(toks[k]),
    decreases toks.len(),
{
    let f = |t: u64| !whitespace_span(text, token_start(t) as int, token_len(t) as int);
    if toks.len() > 0 {
        let d = toks.drop_last();
        lemma_without_whitespace(text, d);
        let w = without_whitespace(text, toks);
        let wd = without_whitespace(text, d);
        assert(toks.filter(f) == if f(toks.last()) { d.filter(f).push(toks.last()) } else { d.filter(f) }) by {
            reveal(Seq::filter);
        }
        assert forall|k: int| 0 <= k < toks.len() && !whitespace_span(text, token_start(#[trigger] toks[k]) as int, token_len(toks[k]) as int)
            implies w.contains(toks[k]) by {
            if k < d.len() {
                assert(d[k] == toks[k]);
                let j = choose|j: int| 0 <= j < wd.len() && wd[j] == d[k];
                assert(w[j] == wd[j]);
            } else {
                assert(w[w.len() - 1] == toks.last());
            }
        }
        assert forall|k: int| 0 <= k < w.len()
            implies !whitespace_span(text, token_start(#[trigger] w[k]) as int, token_len(w[k]) as int) by {
            if k < wd.len() {
                assert(w[k] == wd[k]);
            }
        }
    } else {
        assert(toks.filter(f) =~= toks) by {
            reveal(Seq::filter);
        }
    }
}

/// Drops the whitespace-only tokens (the `keep_whitespace: false` presentation).
pub fn drop_whitespace_tokens(text: &str, toks: &Vec<u64>) -> (r: Vec<u64>)
    ensures
        r@ == without_whitespace(text@, toks@),
        forall|k: int| 0 <= k < r.len() ==> !whitespace_span(text@, token_start(#[trigger] r@[k]) as int, token_len(r@[k]) as int),
        r@ == toks@.filter(|t: u64| !whitespace_span(text@, token_start(t) as int, token_len(t) as int)),
{
    proof {
        lemma_without_whitespace(text@, toks@);
    }
    let mut out: Vec<u64> = Vec::new();
    let mut i: usize = 0;
    assert(toks@.take(0) =~= Seq::<u64>::empty());
    while i < toks.len()
        invariant
            i <= toks.len(),
            out@ == without_whitespace(text@, toks@.take(i as int)),
        decreases toks.len() - i,
    {
        assert(toks@.take(i + 1).drop_last() =~= toks@.take(i as int));
        assert(toks@.take(i + 1).last() == toks@[i as int]);
        if !is_whitespace_token(text, toks[i]) {
            out.push(toks[i]);
        }
        i += 1;
    }
    assert(toks@.take(toks.len() as int) =~= toks@);
    out
}

/// The byte ranges of a concatenated token buffer of `total` bytes, cut by the given lengths:
/// each range starts where the previous one ended (the first at 0) and spans the token's
/// length, a negative length counting as 0, clamped to the end of the buffer.
pub open spec fn byte_ranges(total: nat, lengths: Seq<i32>) -> Seq<(nat, nat)>
    decreases lengths.len(),
{
    if lengths.len() == 0 {
        seq![]
    } else {
        let d = byte_ranges(total, lengths.drop_last());
        let off: nat = if d.len() == 0 {
            0
        } else {
            d.last().1
        };
        let l: nat = if lengths.last() < 0 {
            0
        } else {
            lengths.last() as nat
        };
        let end: nat = if off + l <= total {
            off + l
        } else {
            total
        };
        d.push((off, end))
    }
}

/// Cuts a concatenated buffer of `total` bytes into the byte ranges of its tokens.
pub fn token_byte_ranges(total: usize, lengths: &Vec<i32>) -> (r: Vec<(usize, usize)>)
    ensures
        r.len() == lengths.len(),
        forall|i: int| 0 <= i < r.len() ==> (#[trigger] r@[i]).0 as nat == byte_ranges(total as nat, lengths@)[i].0
            && r@[i].1 as nat == byte_ranges(total as nat, lengths@)[i].1,
{
    let mut out: Vec<(usize, usize)> = Vec::new();
    let mut off: usize = 0;
    let mut i: usize = 0;
    assert(lengths@.take(0) =~= Seq::<i32>::empty());
    while i < lengths.len()
        invariant
            i <= lengths.len(),
            out.len() == i,
            off <= total,
            i > 0 ==> off as nat == byte_ranges(total as nat, lengths@.take(i as int)).last().1,
            i == 0 ==> off == 0,
            byte_ranges(total as nat, lengths@.take(i as int)).len() == i,
            forall|k: int| 0 <= k < i ==> (#[trigger] out@[k]).0 as nat == byte_ranges(total as nat, lengths@.take(i as int))[k].0
                && out@[k].1 as nat == byte_ranges(total as nat, lengths@.take(i as int))[k].1,
        decreases lengths.len() - i,
    {
        let ghost before = byte_ranges(total as nat, lengths@.take(i as int));
        proof {
            assert(lengths@.take(i + 1).drop_last() =~= lengths@.take(i as int));
            assert(lengths@.take(i + 1).last() == lengths@[i as int]);
        }
        let len = lengths[i];
        let l: usize = if len < 0 { 0 } else { len as usize };
        let end: usize = if l <= total - off { off + l } else { total };
        out.push((off, end));
        proof {
            let after = byte_ranges(total as nat, lengths@.take(i + 1));
            assert(after == before.push((off as nat, end as nat)));
            assert forall|k: int| 0 <= k < i + 1 implies (#[trigger] out@[k]).0 as nat == after[k].0 && out@[k].1 as nat == after[k].1 by {
                if k < i {
                    assert(after[k] == before[k]);
                }
            }
        }
        off = end;
        i += 1;
    }
    assert(lengths@.take(lengths.len() as int) =~= lengths@);
    out
}

} // verus!
