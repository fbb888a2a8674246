//! Splitting text into separator-delimited fields (as `str::split` does) and reading unsigned
//! decimal numbers (as `from_str` does for unsigned integers).
use vstd::prelude::*;
use crate::lm_format::{first_index, lemma_first_index, lemma_first_index_bound};
use crate::text::{lemma_newline_at_bound, newline_at, strip_cr, text_lines};

verus! {

/// The pieces of `s` between occurrences of `c`, as `str::split(c)` yields them: one more
/// piece than there are separators, empty pieces kept.
pub open spec fn split_on(s: Seq<char>, c: char) -> Seq<Seq<char>>
    decreases s.len(),
{
    let t = first_index(s, c);
    if t < 0 {
        seq![s]
    } else {
        proof {
            lemma_first_index_bound(s, c);
        }
        seq![s.subrange(0, t)] + split_on(s.subrange(t + 1, s.len() as int), c)
    }
}

/// The fields of `s` separated by `c`, each as its characters.
pub fn split_char(s: &Vec<char>, c: char) -> (r: Vec<Vec<char>>)
    ensures
        r@.map_values(|f: Vec<char>| f@) == split_on(s@, c),
{
    let mut out: Vec<Vec<char>> = Vec::new();
    let mut cur: Vec<char> = Vec::new();
    let mut start: usize = 0;
    let mut i: usize = 0;
    proof {
        assert(s@.subrange(0, s.len() as int) =~= s@);
        assert(out@.map_values(|f: Vec<char>| f@) =~= Seq::<Seq<char>>::empty());
        assert(cur@ =~= s@.subrange(0, 0));
    }
    while i < s.len()
        invariant
            start <= i <= s.len(),
            cur@ == s@.subrange(start as int, i as int),
            forall|k: int| start <= k < i ==> s@[k] != c,
            out@.map_values(|f: Vec<char>| f@) + split_on(s@.subrange(start as int, s.len() as int), c) == split_on(s@, c),
        decreases s.len() - i,
    {
        if s[i] == c {
            let ghost rest = s@.subrange(start as int, s.len() as int);
            proof {
                assert forall|k: int| 0 <= k < i - start implies rest[k] != c by {
                    assert(rest[k] == s@[start + k]);
                }
                assert(rest[i - start] == c);
                lemma_first_index(rest, c, i - start);
                assert(rest.subrange(0, i - start) =~= cur@);
                assert(rest.subrange(i - start + 1, rest.len() as int) =~= s@.subrange(i + 1, s.len() as int));
            }
            let ghost before = out@.map_values(|f: Vec<char>| f@);
            out.push(cur);
            proof {
                assert(out@.map_values(|f: Vec<char>| f@) =~= before.push(rest.subrange(0, i - start)));
                assert(before.push(rest.subrange(0, i - start)) + split_on(s@.subrange(i + 1, s.len() as int), c)
                    =~= before + split_on(rest, c));
            }
            cur = Vec::new();
            start = i + 1;
            assert(cur@ =~= s@.subrange(start as int, start as int));
        } else {
            cur.push(s[i]);
            assert(cur@ =~= s@.subrange(start as int, i + 1));
        }
        i += 1;
    }
    let ghost rest = s@.subrange(start as int, s.len() as int);
    proof {
        assert forall|k: int| 0 <= k < rest.len() implies rest[k] != c by {
            assert(rest[k] == s@[start + k]);
        }
        lemma_first_index(rest, c, rest.len() as int);
        assert(cur@ =~= rest);
    }
    let ghost before = out@.map_values(|f: Vec<char>| f@);
    out.push(cur);
    proof {
        assert(out@.map_values(|f: Vec<char>| f@) =~= before + split_on(rest, c));
    }
    out
}

/// An ASCII decimal digit.
pub open spec fn is_digit(c: char) -> bool {
    '0' <= c <= '9'
}

/// The value of a string of decimal digits.
pub open spec fn digits_value(s: Seq<char>) -> nat
    decreases s.len(),
{
    if s.len() == 0 {
        0
    } else {
        digits_value(s.drop_last()) * 10 + ((s.last() as u32) - ('0' as u32)) as nat
    }
}

/// Every character is a decimal digit.
pub open spec fn all_digits(s: Seq<char>) -> bool {
    forall|i: int| 0 <= i < s.len() ==> is_digit(#[trigger] s[i])
}

/// What `from_str` gives for an unsigned integer type whose largest value is `max`: an
/// optional `+`, then one or more decimal digits whose value is at most `max`.
pub open spec fn parse_unsigned(s: Seq<char>, max: nat) -> Option<nat> {
    let d = if s.len() > 0 && s[0] == '+' {
        s.drop_first()
    } else {
        s
    };
    if d.len() > 0 && all_digits(d) && digits_value(d) <= max {
        Some(digits_value(d))
    } else {
        None
    }
}

/// A longer run of digits is worth at least its prefix.
proof fn lemma_digits_value_prefix(s: Seq<char>, k: int)
    requires
        0 <= k <= s.len(),
        all_digits(s),
    ensures
        digits_value(s.take(k)) <= digits_value(s),
    decreases s.len() - k,
{
    if k < s.len() {
        lemma_digits_value_prefix(s.drop_last(), if k < s.len() - 1 { k } else { k });
        if k == s.len() - 1 {
            assert(s.take(k) =~= s.drop_last());
        } else {
            assert(s.drop_last().take(k) =~= s.take(k));
        }
        assert(all_digits(s.drop_last())) by {
            assert forall|i: int| 0 <= i < s.len() - 1 implies is_digit(#[trigger] s.drop_last()[i]) by {
                assert(s.drop_last()[i] == s[i]);
            }
        }
    } else {
        assert(s.take(k) =~= s);
    }
}

/// Reads an unsigned decimal number no larger than `max`, as `from_str` does for an unsigned
/// integer type whose largest value is `max`.
pub fn parse_decimal(s: &Vec<char>, max: u64) -> (r: Option<u64>)
    requires
        max >= 9,
    ensures
        r == (match parse_unsigned(s@, max as nat) {
            Some(v) => Some(v as u64),
            None => None::<u64>,
        }),
{
    let ghost d = if s@.len() > 0 && s@[0] == '+' {
        s@.drop_first()
    } else {
        s@
    };
    let mut i: usize = 0;
    if s.len() > 0 && s[0] == '+' {
        i = 1;
    }
    let first = i;
    if i >= s.len() {
        return None;
    }
    let mut acc: u64 = 0;
    proof {
        assert(d =~= s@.subrange(first as int, s.len() as int));
        assert(d.take(0) =~= Seq::<char>::empty());
    }
    while i < s.len()
        invariant
            first <= i <= s.len(),
            first == 0 || first == 1,
            d == s@.subrange(first as int, s.len() as int),
            d == (if s@.len() > 0 && s@[0] == '+' {
                s@.drop_first()
            } else {
                s@
            }),
            d.len() > 0,
            max >= 9,
            forall|k: int| 0 <= k < i - first ==> is_digit(#[trigger] d[k]),
            acc == digits_value(d.take(i - first)),
            acc <= max,
        decreases s.len() - i,
    {
        let c = s[i];
        if !('0' <= c && c <= '9') {
            proof {
                assert(d[i - first] == c);
                assert(!all_digits(d));
            }
            return None;
        }
        let dv = (c as u32 - '0' as u32) as u64;
        proof {
            assert(d.take(i - first + 1).drop_last() =~= d.take(i - first));
            assert(d.take(i - first + 1).last() == c);
            assert(d[i - first] == c);
        }
        if acc > (max - dv) / 10 {
            proof {
                assert(acc * 10 + dv > max) by (nonlinear_arith)
                    requires
                        acc > (max - dv) / 10,
                        dv <= 9,
                        max >= 9,
                ;
                assert(digits_value(d.take(i - first + 1)) > max);
                if all_digits(d) {
                    lemma_digits_value_prefix(d, i - first + 1);
                }
            }
            return None;
        }
        proof {
            assert(acc * 10 + dv <= max) by (nonlinear_arith)
                requires
                    acc <= (max - dv) / 10,
                    dv <= 9,
                    max >= 9,
            ;
        }
        acc = acc * 10 + dv;
        i += 1;
    }
    proof {
        assert(d.take(d.len() as int) =~= d);
    }
    Some(acc)
}

/// Total length of a list of pieces.
pub open spec fn total_len(ss: Seq<Seq<char>>) -> nat
    decreases ss.len(),
{
    if ss.len() == 0 {
        0
    } else {
        total_len(ss.drop_last()) + ss.last().len()
    }
}

/// Total length adds up over a concatenation.
pub proof fn lemma_total_len_concat(a: Seq<Seq<char>>, b: Seq<Seq<char>>)
    ensures
        total_len(a + b) == total_len(a) + total_len(b),
    decreases b.len(),
{
    if b.len() > 0 {
        lemma_total_len_concat(a, b.drop_last());
        assert((a + b).drop_last() =~= a + b.drop_last());
    } else {
        assert(a + b =~= a);
    }
}

/// The first `i` pieces are at most as long as all of them, and one more piece adds its
/// length.
pub proof fn lemma_total_len_take(ss: Seq<Seq<char>>, i: int)
    requires
        0 <= i < ss.len(),
    ensures
        total_len(ss.take(i + 1)) == total_len(ss.take(i)) + ss[i].len(),
        total_len(ss.take(i + 1)) <= total_len(ss),
{
    assert(ss.take(i + 1).drop_last() =~= ss.take(i));
    lemma_total_len_concat(ss.take(i + 1), ss.skip(i + 1));
    assert(ss.take(i + 1) + ss.skip(i + 1) =~= ss);
}

/// The pieces of a split, with one separator between each two, make up the whole.
pub proof fn lemma_split_len(s: Seq<char>, c: char)
    ensures
        total_len(split_on(s, c)) + split_on(s, c).len() == s.len() + 1,
    decreases s.len(),
{
    let t = first_index(s, c);
    lemma_first_index_bound(s, c);
    if t >= 0 {
        let rest = s.subrange(t + 1, s.len() as int);
        lemma_split_len(rest, c);
        let p = s.subrange(0, t);
        lemma_total_len_concat(seq![p], split_on(rest, c));
        assert(seq![p].drop_last() =~= Seq::<Seq<char>>::empty());
        assert(total_len(Seq::<Seq<char>>::empty()) == 0);
        assert(seq![p].last() == p);
        assert(total_len(seq![p]) == p.len());
        assert(split_on(s, c) == seq![p] + split_on(rest, c));
    } else {
        assert(seq![s].drop_last() =~= Seq::<Seq<char>>::empty());
        assert(total_len(Seq::<Seq<char>>::empty()) == 0);
        assert(seq![s].last() == s);
        assert(total_len(seq![s]) == s.len());
        assert(split_on(s, c) == seq![s]);
    }
}

/// The first field is no longer than the text, and with three fields or more the first two
/// and a separator fit in it.
pub proof fn lemma_split_fields(s: Seq<char>, c: char)
    ensures
        split_on(s, c).len() >= 1,
        split_on(s, c)[0].len() <= s.len(),
        split_on(s, c).len() >= 3 ==> split_on(s, c)[0].len() + 1 + split_on(s, c)[1].len() <= s.len(),
{
    let t = first_index(s, c);
    lemma_first_index_bound(s, c);
    if t >= 0 {
        let rest = s.subrange(t + 1, s.len() as int);
        let t2 = first_index(rest, c);
        lemma_first_index_bound(rest, c);
        if split_on(s, c).len() >= 3 {
            assert(split_on(s, c)[1] == split_on(rest, c)[0]);
            assert(t2 >= 0);
        }
    }
}

/// `l` without a trailing carriage return.
pub fn strip_cr_chars(l: &Vec<char>) -> (r: Vec<char>)
    ensures
        r@ == strip_cr(l@),
{
    let mut n = l.len();
    if n > 0 && l[n - 1] == '\r' {
        n = n - 1;
    }
    let mut r: Vec<char> = Vec::new();
    let mut i: usize = 0;
    while i < n
        invariant
            n <= l.len(),
            i <= n,
            r@ == l@.subrange(0, i as int),
        decreases n - i,
    {
        r.push(l[i]);
        i += 1;
        assert(r@ =~= l@.subrange(0, i as int));
    }
    proof {
        if l@.len() > 0 && l@.last() == '\r' {
            assert(r@ =~= l@.drop_last());
        } else {
            assert(r@ =~= l@);
        }
    }
    r
}

/// The lines of a text are no longer, together, than the text, and no more numerous than its
/// characters.
pub proof fn lemma_text_lines_len(s: Seq<char>)
    ensures
        total_len(text_lines(s)) <= s.len(),
        text_lines(s).len() <= s.len(),
    decreases s.len(),
{
    assert(total_len(Seq::<Seq<char>>::empty()) == 0);
    if s.len() > 0 {
        let k = newline_at(s);
        lemma_newline_at_bound(s);
        if k < 0 {
            assert(seq![s].drop_last() =~= Seq::<Seq<char>>::empty());
            assert(seq![s].last() == s);
        } else {
            let rest = s.subrange(k + 1, s.len() as int);
            let first = strip_cr(s.subrange(0, k));
            lemma_text_lines_len(rest);
            lemma_total_len_concat(seq![first], text_lines(rest));
            assert(seq![first].drop_last() =~= Seq::<Seq<char>>::empty());
            assert(seq![first].last() == first);
            assert(text_lines(s) == seq![first] + text_lines(rest));
        }
    }
}

} // verus!
