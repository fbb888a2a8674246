//! The count files of the spelling engine: word frequencies (`word \t count`), aligned
//! unigram counts (the same shape) with their total, and aligned bigram counts
//! (`w1 \t w2 \t count`, keyed `w1 \u{1f} w2`). Lines are read as `str::lines` gives them.
use vstd::prelude::*;
use crate::fields::{
    lemma_split_fields, lemma_text_lines_len, lemma_total_len_take, parse_decimal, parse_unsigned,
    split_char, split_on, total_len,
};
use crate::table::KeyedTable;
use crate::text::{split_lines, text_lines};

verus! {

/// The separator between the two words of an aligned bigram key.
pub const PAIR_SEPARATOR: char = '\u{1f}';

/// The (word, count) a count line gives: `word \t count`, further fields ignored, the count
/// a `u32`.
pub open spec fn count_entry(line: Seq<char>) -> Option<(Seq<char>, u32)> {
    let f = split_on(line, '\t');
    if f.len() >= 2 {
        match parse_unsigned(f[1], u32::MAX as nat) {
            Some(n) => Some((f[0], n as u32)),
            None => None,
        }
    } else {
        None
    }
}

/// The count table of the lines, a later line replacing an earlier one for the same word.
pub open spec fn count_table(lines: Seq<Seq<char>>) -> Map<Seq<char>, u32>
    decreases lines.len(),
{
    if lines.len() == 0 {
        Map::empty()
    } else {
        let m = count_table(lines.drop_last());
        match count_entry(lines.last()) {
            Some(e) => m.insert(e.0, e.1),
            None => m,
        }
    }
}

/// The sum of the counts of all lines that parse (repeated words counted each time).
pub open spec fn count_total(lines: Seq<Seq<char>>) -> nat
    decreases lines.len(),
{
    if lines.len() == 0 {
        0
    } else {
        count_total(lines.drop_last()) + match count_entry(lines.last()) {
            Some(e) => e.1 as nat,
            None => 0,
        }
    }
}

/// The entry an aligned bigram line gives: `w1 \t w2 \t count`, keyed `w1 \u{1f} w2`.
pub open spec fn pair_entry(line: Seq<char>) -> Option<(Seq<char>, u32)> {
    let f = split_on(line, '\t');
    if f.len() >= 3 {
        match parse_unsigned(f[2], u32::MAX as nat) {
            Some(n) => Some((f[0] + seq![PAIR_SEPARATOR] + f[1], n as u32)),
            None => None,
        }
    } else {
        None
    }
}

/// The bigram table of the lines, a later line replacing an earlier one for the same pair.
pub open spec fn pair_table(lines: Seq<Seq<char>>) -> Map<Seq<char>, u32>
    decreases lines.len(),
{
    if lines.len() == 0 {
        Map::empty()
    } else {
        let m = pair_table(lines.drop_last());
        match pair_entry(lines.last()) {
            Some(e) => m.insert(e.0, e.1),
            None => m,
        }
    }
}

/// `a`, the pair separator, then `b`.
pub fn join_pair(a: &Vec<char>, b: &Vec<char>) -> (r: Vec<char>)
    ensures
        r@ == a@ + seq![PAIR_SEPARATOR] + b@,
{
    let mut key: Vec<char> = Vec::new();
    let mut k: usize = 0;
    while k < a.len()
        invariant
            k <= a.len(),
            key@ == a@.subrange(0, k as int),
        decreases a.len() - k,
    {
        key.push(a[k]);
        k += 1;
        assert(key@ =~= a@.subrange(0, k as int));
    }
    key.push(PAIR_SEPARATOR);
    let ghost mid = key@;
    let mut k: usize = 0;
    while k < b.len()
        invariant
            k <= b.len(),
            key@ == mid + b@.subrange(0, k as int),
        decreases b.len() - k,
    {
        key.push(b[k]);
        k += 1;
        assert(key@ =~= mid + b@.subrange(0, k as int));
    }
    assert(a@.subrange(0, a@.len() as int) =~= a@);
    assert(b@.subrange(0, b@.len() as int) =~= b@);
    assert(key@ =~= a@ + seq![PAIR_SEPARATOR] + b@);
    key
}

/// The entry of one count line, if it parses.
fn count_line(line: &Vec<char>) -> (r: Option<(Vec<char>, u32)>)
    ensures
        match r {
            Some(e) => count_entry(line@) == Some((e.0@, e.1)) && e.0.len() <= line.len(),
            None => count_entry(line@) is None,
        },
{
    let f = split_char(line, '\t');
    let ghost fv = f@.map_values(|x: Vec<char>| x@);
    proof {
        lemma_split_fields(line@, '\t');
        assert(fv.len() == f.len());
    }
    if f.len() >= 2 {
        let n = parse_decimal(&f[1], u32::MAX as u64);
        proof {
            assert(fv[1] == f@[1]@ && fv[0] == f@[0]@);
        }
        match n {
            Some(n) => {
                let key = f[0].clone();
                Some((key, n as u32))
            },
            None => None,
        }
    } else {
        None
    }
}

/// The entry of one aligned bigram line, if it parses.
fn pair_line(line: &Vec<char>) -> (r: Option<(Vec<char>, u32)>)
    ensures
        match r {
            Some(e) => pair_entry(line@) == Some((e.0@, e.1)) && e.0.len() <= line.len(),
            None => pair_entry(line@) is None,
        },
{
    let f = split_char(line, '\t');
    let ghost fv = f@.map_values(|x: Vec<char>| x@);
    proof {
        lemma_split_fields(line@, '\t');
        assert(fv.len() == f.len());
    }
    if f.len() >= 3 {
        let n = parse_decimal(&f[2], u32::MAX as u64);
        proof {
            assert(fv[1] == f@[1]@ && fv[2] == f@[2]@ && fv[0] == f@[0]@);
        }
        match n {
            Some(n) => {
                let key = join_pair(&f[0], &f[1]);
                Some((key, n as u32))
            },
            None => None,
        }
    } else {
        None
    }
}

/// Reads a count file: its table and the total of its counts.
pub fn read_counts(text: &str) -> (r: (KeyedTable<u32>, u64))
    requires
        text@.len() < u32::MAX,
    ensures
        r.0.wf(),
        r.0@ == count_table(text_lines(text@)),
        r.1 == count_total(text_lines(text@)),
{
    let lines = split_lines(text);
    let ghost ls = text_lines(text@);
    let mut table: KeyedTable<u32> = KeyedTable::new();
    let mut total: u64 = 0;
    let mut i: usize = 0;
    proof {
        lemma_text_lines_len(text@);
        assert(ls.take(0) =~= Seq::<Seq<char>>::empty());
    }
    while i < lines.len()
        invariant
            ls == text_lines(text@),
            lines@.map_values(|f: Vec<char>| f@) == ls,
            total_len(ls) <= text@.len(),
            ls.len() <= text@.len(),
            text@.len() < u32::MAX,
            i <= lines.len(),
            table.wf(),
            table.size() <= 1 + total_len(ls.take(i as int)),
            table@ == count_table(ls.take(i as int)),
            total == count_total(ls.take(i as int)),
            total <= i * 0xFFFF_FFFFu64,
        decreases lines.len() - i,
    {
        proof {
            lemma_total_len_take(ls, i as int);
            assert(ls.take(i + 1).drop_last() =~= ls.take(i as int));
            assert(ls.take(i + 1).last() == ls[i as int]);
            assert(lines@[i as int]@ == ls[i as int]);
        }
        match count_line(&lines[i]) {
            Some((key, n)) => {
                table.insert(key.as_slice(), n);
                total = total + n as u64;
            },
            None => {},
        }
        i += 1;
    }
    proof {
        assert(ls.take(lines.len() as int) =~= ls);
    }
    (table, total)
}

/// Reads an aligned bigram file.
pub fn read_pairs(text: &str) -> (r: KeyedTable<u32>)
    requires
        text@.len() < u32::MAX,
    ensures
        r.wf(),
        r@ == pair_table(text_lines(text@)),
{
    let lines = split_lines(text);
    let ghost ls = text_lines(text@);
    let mut table: KeyedTable<u32> = KeyedTable::new();
    let mut i: usize = 0;
    proof {
        lemma_text_lines_len(text@);
        assert(ls.take(0) =~= Seq::<Seq<char>>::empty());
    }
    while i < lines.len()
        invariant
            ls == text_lines(text@),
            lines@.map_values(|f: Vec<char>| f@) == ls,
            total_len(ls) <= text@.len(),
            text@.len() < u32::MAX,
            i <= lines.len(),
            table.wf(),
            table.size() <= 1 + total_len(ls.take(i as int)),
            table@ == pair_table(ls.take(i as int)),
        decreases lines.len() - i,
    {
        proof {
            lemma_total_len_take(ls, i as int);
            assert(ls.take(i + 1).drop_last() =~= ls.take(i as int));
            assert(ls.take(i + 1).last() == ls[i as int]);
            assert(lines@[i as int]@ == ls[i as int]);
        }
        match pair_line(&lines[i]) {
            Some((key, n)) => {
                table.insert(key.as_slice(), n);
            },
            None => {},
        }
        i += 1;
    }
    proof {
        assert(ls.take(lines.len() as int) =~= ls);
    }
    table
}

} // verus!
