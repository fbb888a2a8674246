//! UTF-8 geometry of text: how character indices map to byte offsets.
use vstd::prelude::*;
use vstd::utf8::*;

verus! {

/// Number of bytes in the UTF-8 encoding of `c`.
pub open spec fn char_width(c: char) -> nat {
    if (c as u32) < 0x80 {
        1
    } else if (c as u32) < 0x800 {
        2
    } else if (c as u32) < 0x10000 {
        3
    } else {
        4
    }
}

/// Byte offset, in the UTF-8 encoding of `s`, of the character at index `i`
/// (or of the end of the text when `i == s.len()`).
pub open spec fn byte_offset(s: Seq<char>, i: int) -> nat
    decreases i,
{
    if i <= 0 {
        0
    } else {
        byte_offset(s, i - 1) + char_width(s[i - 1])
    }
}

/// Length in bytes of the UTF-8 encoding of `s`.
pub open spec fn byte_len(s: Seq<char>) -> nat {
    byte_offset(s, s.len() as int)
}

/// A byte offset of `s` that falls between two characters (or at either end).
pub open spec fn is_boundary(s: Seq<char>, b: int) -> bool {
    exists|i: int| 0 <= i <= s.len() && #[trigger] byte_offset(s, i) == b
}

/// Byte offsets grow strictly with the character index.
pub proof fn lemma_byte_offset_strict(s: Seq<char>, i: int, j: int)
    requires
        0 <= i < j <= s.len(),
    ensures
        byte_offset(s, i) < byte_offset(s, j),
    decreases j - i,
{
    if j - 1 > i {
        lemma_byte_offset_strict(s, i, j - 1);
    }
}

/// Byte offsets are monotone in the character index.
pub proof fn lemma_byte_offset_mono(s: Seq<char>, i: int, j: int)
    requires
        0 <= i <= j <= s.len(),
    ensures
        byte_offset(s, i) <= byte_offset(s, j),
{
    if i < j {
        lemma_byte_offset_strict(s, i, j);
    }
}

/// Every character offset lies within the text's byte length.
pub proof fn lemma_offsets_bounded(s: Seq<char>)
    ensures
        forall|j: int| 0 <= j <= s.len() ==> #[trigger] byte_offset(s, j) <= byte_len(s),
{
    assert forall|j: int| 0 <= j <= s.len() implies #[trigger] byte_offset(s, j) <= byte_len(s) by {
        lemma_byte_offset_mono(s, j, s.len() as int);
    }
}

/// Each character index has its own byte offset.
pub proof fn lemma_byte_offset_injective(s: Seq<char>, i: int, j: int)
    requires
        0 <= i <= s.len(),
        0 <= j <= s.len(),
        byte_offset(s, i) == byte_offset(s, j),
    ensures
        i == j,
{
    if i < j {
        lemma_byte_offset_strict(s, i, j);
    } else if j < i {
        lemma_byte_offset_strict(s, j, i);
    }
}

/// Offsets of a prefix agree with offsets of the whole text.
pub proof fn lemma_byte_offset_prefix(s: Seq<char>, t: Seq<char>, i: int)
    requires
        0 <= i <= s.len(),
        s.len() <= t.len(),
        s =~= t.subrange(0, s.len() as int),
    ensures
        byte_offset(s, i) == byte_offset(t, i),
    decreases i,
{
    if i > 0 {
        lemma_byte_offset_prefix(s, t, i - 1);
    }
}

proof fn lemma_width_encode(c: char)
    ensures
        encode_scalar(c as u32).len() == char_width(c),
{
    broadcast use char_is_scalar;

    assert(is_scalar(c as u32));
}

proof fn lemma_byte_offset_front(s: Seq<char>, i: int)
    requires
        1 <= i <= s.len(),
    ensures
        byte_offset(s, i) == char_width(s[0]) + byte_offset(s.drop_first(), i - 1),
    decreases i,
{
    if i > 1 {
        lemma_byte_offset_front(s, i - 1);
        assert(s.drop_first()[i - 2] == s[i - 1]);
        assert(byte_offset(s.drop_first(), i - 1) == byte_offset(s.drop_first(), i - 2) + char_width(
            s.drop_first()[i - 2],
        ));
    } else {
        assert(byte_offset(s, 1) == byte_offset(s, 0) + char_width(s[0]));
        assert(byte_offset(s.drop_first(), 0) == 0);
    }
}

/// The byte length of a `str` (as std reports it) is `byte_len` of its characters.
pub proof fn lemma_encoded_len(s: Seq<char>)
    ensures
        encode_utf8(s).len() == byte_len(s),
    decreases s.len(),
{
    if s.len() > 0 {
        lemma_encoded_len(s.drop_first());
        lemma_width_encode(s[0]);
        lemma_byte_offset_front(s, s.len() as int);
    }
}

/// Calls `str::len`, which std documents as the length of the string in bytes — the size of
/// its UTF-8 encoding, which therefore fits in a `usize`. Trusted for exactly that.
#[verifier::external_body]
pub(crate) fn byte_length(text: &str) -> (n: usize)
    ensures
        n == byte_len(text@),
{
    text.len()
}

/// Width in bytes of the UTF-8 encoding of `c`.
pub fn utf8_width(c: char) -> (w: usize)
    ensures
        w == char_width(c),
{
    let v = c as u32;
    if v < 0x80 {
        1
    } else if v < 0x800 {
        2
    } else if v < 0x10000 {
        3
    } else {
        4
    }
}

/// The characters of `text`, in order.
pub fn chars_of(text: &str) -> (r: Vec<char>)
    ensures
        r@ == text@,
{
    let mut r: Vec<char> = Vec::new();
    for c in it: text.chars()
        invariant
            r@ == it.seq().take(it.index() as int),
    {
        r.push(c);
    }
    r
}

} // verus!

verus! {

/// Whether `a` and `b` hold the same characters.
pub fn str_eq(a: &str, b: &str) -> (r: bool)
    ensures
        r == (a@ == b@),
{
    let x = chars_of(a);
    let y = chars_of(b);
    seq_eq(&x, &y)
}

/// Whether two character vectors are equal.
pub fn seq_eq(x: &Vec<char>, y: &Vec<char>) -> (r: bool)
    ensures
        r == (x@ == y@),
{
    if x.len() != y.len() {
        return false;
    }
    let mut i: usize = 0;
    while i < x.len()
        invariant
            x.len() == y.len(),
            i <= x.len(),
            forall|k: int| 0 <= k < i ==> x@[k] == y@[k],
        decreases x.len() - i,
    {
        if x[i] != y[i] {
            return false;
        }
        i += 1;
    }
    assert(x@ =~= y@);
    true
}

/// `p` is a prefix of `s`.
pub open spec fn is_prefix(p: Seq<char>, s: Seq<char>) -> bool {
    p.len() <= s.len() && s.subrange(0, p.len() as int) == p
}

/// `p` is a suffix of `s`.
pub open spec fn is_suffix(p: Seq<char>, s: Seq<char>) -> bool {
    p.len() <= s.len() && s.subrange(s.len() - p.len(), s.len() as int) == p
}

/// Whether `p` is a prefix of `s`.
pub fn has_prefix(s: &Vec<char>, p: &Vec<char>) -> (r: bool)
    ensures
        r == is_prefix(p@, s@),
{
    if p.len() > s.len() {
        return false;
    }
    let mut i: usize = 0;
    while i < p.len()
        invariant
            p.len() <= s.len(),
            i <= p.len(),
            forall|k: int| 0 <= k < i ==> s@[k] == p@[k],
        decreases p.len() - i,
    {
        if s[i] != p[i] {
            assert(s@.subrange(0, p.len() as int)[i as int] != p@[i as int]);
            return false;
        }
        i += 1;
    }
    assert(s@.subrange(0, p.len() as int) =~= p@);
    true
}

/// Whether `p` is a suffix of `s`.
pub fn has_suffix(s: &Vec<char>, p: &Vec<char>) -> (r: bool)
    ensures
        r == is_suffix(p@, s@),
{
    if p.len() > s.len() {
        return false;
    }
    let off = s.len() - p.len();
    let mut i: usize = 0;
    while i < p.len()
        invariant
            p.len() <= s.len(),
            off == s.len() - p.len(),
            i <= p.len(),
            forall|k: int| 0 <= k < i ==> s@[off + k] == p@[k],
        decreases p.len() - i,
    {
        if s[off + i] != p[i] {
            assert(s@.subrange(off as int, s.len() as int)[i as int] != p@[i as int]);
            return false;
        }
        i += 1;
    }
    assert(s@.subrange(off as int, s.len() as int) =~= p@);
    true
}

/// Unicode `White_Space`, the property that `char::is_whitespace` tests.
pub open spec fn is_white_space(c: char) -> bool {
    let v = c as u32;
    (0x09 <= v <= 0x0D) || v == 0x20 || v == 0x85 || v == 0xA0 || v == 0x1680 || (0x2000 <= v
        <= 0x200A) || v == 0x2028 || v == 0x2029 || v == 0x202F || v == 0x205F || v == 0x3000
}

/// White space is exactly the 25 characters of Unicode `White_Space`: tab, line feed, line
/// tabulation, form feed, carriage return, space, next line, no-break space, ogham space mark,
/// the eleven spaces from en quad to hair space, line and paragraph separators, narrow no-break
/// space, medium mathematical space and ideographic space.
pub proof fn lemma_white_space_set(c: char)
    ensures
        is_white_space(c) <==> (c == '\t' || c == '\n' || c == '\u{0B}' || c == '\u{0C}' || c == '\r'
            || c == ' ' || c == '\u{85}' || c == '\u{A0}' || c == '\u{1680}' || c == '\u{2000}'
            || c == '\u{2001}' || c == '\u{2002}' || c == '\u{2003}' || c == '\u{2004}' || c == '\u{2005}'
            || c == '\u{2006}' || c == '\u{2007}' || c == '\u{2008}' || c == '\u{2009}' || c == '\u{200A}'
            || c == '\u{2028}' || c == '\u{2029}' || c == '\u{202F}' || c == '\u{205F}' || c == '\u{3000}'),
{
}

/// Whether `c` is white space (Unicode `White_Space`).
pub fn is_whitespace_char(c: char) -> (r: bool)
    ensures
        r == is_white_space(c),
{
    let v = c as u32;
    (0x09 <= v && v <= 0x0D) || v == 0x20 || v == 0x85 || v == 0xA0 || v == 0x1680 || (0x2000 <= v
        && v <= 0x200A) || v == 0x2028 || v == 0x2029 || v == 0x202F || v == 0x205F || v == 0x3000
}

/// Every character of `s` is white space.
pub open spec fn all_white_space(s: Seq<char>) -> bool {
    forall|i: int| 0 <= i < s.len() ==> is_white_space(#[trigger] s[i])
}

/// Whether every character of `s` is white space.
pub fn all_whitespace(s: &Vec<char>) -> (r: bool)
    ensures
        r == all_white_space(s@),
{
    let mut i: usize = 0;
    while i < s.len()
        invariant
            i <= s.len(),
            forall|k: int| 0 <= k < i ==> is_white_space(#[trigger] s@[k]),
        decreases s.len() - i,
    {
        if !is_whitespace_char(s[i]) {
            return false;
        }
        i += 1;
    }
    true
}

} // verus!

verus! {

/// Name for what `char::is_alphabetic` reports of `c`: the Unicode `Alphabetic` property,
/// whose table takes pages.
pub uninterp spec fn unicode_alphabetic(c: char) -> bool;

/// Name for what `char::is_numeric` reports of `c`: the Unicode general categories `Nd`,
/// `Nl` and `No`, whose table takes pages.
pub uninterp spec fn unicode_numeric(c: char) -> bool;

/// Calls `char::is_alphabetic`. Trusted: its result is the named property of `c`.
#[verifier::external_body]
pub(crate) fn is_alphabetic_char(c: char) -> (r: bool)
    ensures
        r == unicode_alphabetic(c),
{
    c.is_alphabetic()
}

/// Calls `char::is_numeric`. Trusted: its result is the named property of `c`.
#[verifier::external_body]
pub(crate) fn is_numeric_char(c: char) -> (r: bool)
    ensures
        r == unicode_numeric(c),
{
    c.is_numeric()
}

/// `char::is_alphanumeric`, which std documents as `is_alphabetic() || is_numeric()`.
pub open spec fn unicode_alphanumeric(c: char) -> bool {
    unicode_alphabetic(c) || unicode_numeric(c)
}

/// Whether `c` is alphanumeric (alphabetic or numeric).
pub fn is_alphanumeric_char(c: char) -> (r: bool)
    ensures
        r == unicode_alphanumeric(c),
{
    is_alphabetic_char(c) || is_numeric_char(c)
}

} // verus!

verus! {

/// `t[b]` is the index of the character whose encoding starts at byte `b` of `text`, for every
/// boundary `b` (the end of the text maps to the character count).
pub fn char_index_table(text: &str, chars: &Vec<char>, n: usize) -> (t: Vec<usize>)
    requires
        chars@ == text@,
        n == byte_len(text@),
        forall|j: int| 0 <= j <= text@.len() ==> #[trigger] byte_offset(text@, j) <= n,
    ensures
        t.len() == n + 1,
        forall|j: int| 0 <= j <= text@.len() ==> #[trigger] t@[byte_offset(text@, j) as int] == j,
{
    let mut t: Vec<usize> = Vec::new();
    let mut b: usize = 0;
    while b < n
        invariant
            b <= n,
            t.len() == b,
        decreases n - b,
    {
        t.push(0);
        b += 1;
    }
    t.push(0);
    let mut off: usize = 0;
    let mut ci: usize = 0;
    while ci < chars.len()
        invariant
            chars@ == text@,
            n == byte_len(text@),
            forall|j: int| 0 <= j <= text@.len() ==> #[trigger] byte_offset(text@, j) <= n,
            t.len() == n + 1,
            ci <= chars.len(),
            off == byte_offset(text@, ci as int),
            forall|j: int| 0 <= j < ci ==> #[trigger] t@[byte_offset(text@, j) as int] == j,
        decreases chars.len() - ci,
    {
        proof {
            assert(byte_offset(text@, ci as int + 1) == off + char_width(
                chars@[ci as int],
            ));
            assert(byte_offset(text@, ci as int + 1) <= n);
        }
        t.set(off, ci);
        proof {
            assert forall|j: int| 0 <= j < ci + 1 implies #[trigger] t@[byte_offset(text@, j) as int]
                == j by {
                if j < ci && byte_offset(text@, j) == off {
                    lemma_byte_offset_injective(text@, j, ci as int);
                }
            }
        }
        off = off + utf8_width(chars[ci]);
        ci += 1;
    }
    proof {
        assert(off == n);
    }
    t.set(n, ci);
    assert forall|j: int| 0 <= j <= text@.len() implies #[trigger] t@[byte_offset(text@, j) as int]
        == j by {
        if j < text@.len() && byte_offset(text@, j) == n {
            lemma_byte_offset_injective(text@, j, text@.len() as int);
        }
    }
    t
}


/// Calls `String::from_iter` on the characters, which std documents as collecting them, in
/// order, into a new string. Trusted for exactly that.
#[verifier::external_body]
pub(crate) fn string_from_chars(cs: &[char]) -> (r: String)
    ensures
        r@ == cs@,
{
    cs.iter().collect()
}

} // verus!

verus! {

/// Index of the first `'\n'` in `s`, or -1 when there is none.
pub open spec fn newline_at(s: Seq<char>) -> int
    decreases s.len(),
{
    if s.len() == 0 {
        -1
    } else if s[0] == '\n' {
        0
    } else {
        let r = newline_at(s.drop_first());
        if r < 0 {
            -1
        } else {
            r + 1
        }
    }
}

/// `newline_at` is the first newline's index.
pub proof fn lemma_newline_at(s: Seq<char>, j: int)
    requires
        0 <= j <= s.len(),
        forall|k: int| 0 <= k < j ==> s[k] != '\n',
    ensures
        j < s.len() && s[j] == '\n' ==> newline_at(s) == j,
        j == s.len() ==> newline_at(s) == -1,
    decreases j,
{
    if j > 0 {
        let t = s.drop_first();
        lemma_newline_at(t, j - 1);
    } else if s.len() > 0 {
    }
}

/// The first newline, if any, lies inside the text.
pub proof fn lemma_newline_at_bound(s: Seq<char>)
    ensures
        -1 <= newline_at(s) < s.len(),
    decreases s.len(),
{
    if s.len() > 0 {
        lemma_newline_at_bound(s.drop_first());
    }
}

/// A line without its trailing carriage return.
pub open spec fn strip_cr(l: Seq<char>) -> Seq<char> {
    if l.len() > 0 && l.last() == '\r' {
        l.drop_last()
    } else {
        l
    }
}

/// The lines of `s` as `str::lines` yields them: split after each `'\n'`, the `"\n"` or
/// `"\r\n"` ending removed; a final line without ending is kept as it is, and no empty line
/// follows a final line ending.
pub open spec fn text_lines(s: Seq<char>) -> Seq<Seq<char>>
    decreases s.len(),
{
    if s.len() == 0 {
        seq![]
    } else {
        let k = newline_at(s);
        if k < 0 {
            seq![s]
        } else {
            proof {
                lemma_newline_at_bound(s);
            }
            seq![strip_cr(s.subrange(0, k))] + text_lines(s.subrange(k + 1, s.len() as int))
        }
    }
}

/// The lines of `text` (as `str::lines` yields them), each as its characters.
pub fn split_lines(text: &str) -> (r: Vec<Vec<char>>)
    ensures
        r@.map_values(|l: Vec<char>| l@) == text_lines(text@),
{
    let s = chars_of(text);
    let mut done: Vec<Vec<char>> = Vec::new();
    let mut cur: Vec<char> = Vec::new();
    let mut start: usize = 0;
    let mut i: usize = 0;
    assert(s@.subrange(0, s.len() as int) =~= s@);
    assert(done@.map_values(|l: Vec<char>| l@) + text_lines(s@) =~= text_lines(s@));
    while i < s.len()
        invariant
            s@ == text@,
            start <= i <= s.len(),
            cur@ == s@.subrange(start as int, i as int),
            forall|k: int| start <= k < i ==> s@[k] != '\n',
            done@.map_values(|l: Vec<char>| l@) + text_lines(s@.subrange(start as int, s.len() as int))
                == text_lines(s@),
        decreases s.len() - i,
    {
        if s[i] == '\n' {
            let ghost t = s@.subrange(start as int, s.len() as int);
            proof {
                assert forall|k: int| 0 <= k < i - start implies t[k] != '\n' by {
                    assert(t[k] == s@[start + k]);
                }
                lemma_newline_at(t, i - start);
                assert(t.subrange(0, i - start) =~= cur@);
                assert(t.subrange(i - start + 1, t.len() as int) =~= s@.subrange(i + 1, s.len() as int));
            }
            let n = cur.len();
            if n > 0 && cur[n - 1] == '\r' {
                cur.pop();
            }
            let ghost old_done = done@;
            done.push(cur);
            proof {
                assert(done@.map_values(|l: Vec<char>| l@) =~= old_done.map_values(|l: Vec<char>| l@).push(strip_cr(s@.subrange(start as int, i as int))));
                assert(done@.map_values(|l: Vec<char>| l@) + text_lines(s@.subrange(i + 1, s.len() as int)) =~= old_done.map_values(|l: Vec<char>| l@) + text_lines(t));
            }
            cur = Vec::new();
            start = i + 1;
        } else {
            cur.push(s[i]);
        }
        i += 1;
        assert(cur@ =~= s@.subrange(start as int, i as int));
    }
    let ghost t = s@.subrange(start as int, s.len() as int);
    proof {
        assert forall|k: int| 0 <= k < t.len() implies t[k] != '\n' by {
            assert(t[k] == s@[start + k]);
        }
        lemma_newline_at(t, t.len() as int);
        assert(cur@ =~= t);
    }
    if cur.len() > 0 {
        let ghost old_done = done@;
        done.push(cur);
        proof {
            assert(done@.map_values(|l: Vec<char>| l@) =~= old_done.map_values(|l: Vec<char>| l@) + text_lines(t));
        }
    } else {
        proof {
            assert(done@.map_values(|l: Vec<char>| l@) =~= done@.map_values(|l: Vec<char>| l@) + text_lines(t));
        }
    }
    done
}

} // verus!
