//! Thai text normalization: zero-width characters removed, newlines and spaces collapsed and
//! the text trimmed, spaces before combining marks dropped, misordered vowels and tones put
//! back in order, repeated marks collapsed, and dangling marks stripped. Every step but the
//! trim is one `fancy_regex` replacement.
use vstd::prelude::*;
use crate::text::{chars_of, is_white_space, is_whitespace_char, string_from_chars};

verus! {

#[verifier::external_type_specification]
#[verifier::external_body]
pub struct ExFancyRegex(fancy_regex::Regex);

/// Name for whether `fancy_regex::Regex::new` accepts `pattern`.
pub uninterp spec fn fancy_compiles(pattern: Seq<char>) -> bool;

/// Name for what `fancy_regex::Regex::try_replacen` gives for the regex compiled from `pattern`
/// on `text`, replacing at most `limit` matches (all when `limit` is 0) by the template `rep`:
/// `None` where matching fails at run time (a backtracking limit).
pub uninterp spec fn fancy_replace(pattern: Seq<char>, text: Seq<char>, limit: usize, rep: Seq<char>) -> Option<Seq<char>>;

/// A regex compiled by `fancy_regex`, kept with the source it was compiled from.
pub struct Pattern {
    source: String,
    re: fancy_regex::Regex,
}

impl Pattern {
    /// The source the regex was compiled from.
    pub closed spec fn source(&self) -> Seq<char> {
        self.source@
    }
}

/// Calls `fancy_regex::Regex::new`. Trusted: it succeeds exactly on the patterns that
/// `fancy_compiles` admits, and the result remembers its source.
#[verifier::external_body]
fn compile(source: &str) -> (r: Option<Pattern>)
    ensures
        r is Some <==> fancy_compiles(source@),
        r matches Some(p) ==> p.source() == source@,
{
    match fancy_regex::Regex::new(source) {
        Ok(re) => Some(Pattern { source: source.to_string(), re }),
        Err(_) => None,
    }
}

/// Calls `fancy_regex::Regex::try_replacen` with a template replacement. Trusted: the result
/// is the named one for the pattern's source, the text, the limit and the template.
#[verifier::external_body]
fn replace(p: &Pattern, text: &str, limit: usize, rep: &str) -> (r: Option<String>)
    ensures
        match r {
            Some(s) => fancy_replace(p.source(), text@, limit, rep@) == Some(s@),
            None => fancy_replace(p.source(), text@, limit, rep@) is None,
        },
{
    match p.re.try_replacen(text, limit, rep) {
        Ok(s) => Some(s.into_owned()),
        Err(_) => None,
    }
}

/// The characters that `regex::escape` prefixes with a backslash.
pub open spec fn is_regex_meta(c: char) -> bool {
    c == '\\' || c == '.' || c == '+' || c == '*' || c == '?' || c == '(' || c == ')' || c == '|'
        || c == '[' || c == ']' || c == '{' || c == '}' || c == '^' || c == '$' || c == '#' || c
        == '&' || c == '-' || c == '~'
}

/// `s` with a backslash before each regex meta character.
pub open spec fn regex_escaped(s: Seq<char>) -> Seq<char>
    decreases s.len(),
{
    if s.len() == 0 {
        seq![]
    } else {
        let c = s.last();
        regex_escaped(s.drop_last()) + (if is_regex_meta(c) {
            seq!['\\', c]
        } else {
            seq![c]
        })
    }
}

/// Calls `regex::escape`, which puts a backslash before each meta character and copies every
/// other character. Trusted for exactly that.
#[verifier::external_body]
fn escape(text: &str) -> (r: String)
    ensures
        r@ == regex_escaped(text@),
{
    regex::escape(text)
}

/// Zero-width space and zero-width non-joiner.
pub const ZERO_WIDTH: &'static str = "[\u{200B}\u{200C}]";

/// A newline with the spaces and newlines around it.
pub const NEWLINE_RUNS: &'static str = "[ \\n]*\\n[ \\n]*";

/// A run of spaces.
pub const SPACE_RUNS: &'static str = " +";

/// A consonant, not itself after a vowel and a consonant, then a space before a dangling mark.
pub const SPACE_BEFORE_MARK: &'static str = "([\u{0E01}-\u{0E23}\u{0E25}\u{0E27}-\u{0E2E}])(?<![\u{0E31}\u{0E34}-\u{0E37}\u{0E4D}\u{0E47}\u{0E38}\u{0E39}\u{0E40}-\u{0E44}\u{0E30}\u{0E32}\u{0E33}\u{0E24}\u{0E26}][\u{0E01}-\u{0E23}\u{0E25}\u{0E27}-\u{0E2E}]) ([\u{0E31}\u{0E34}-\u{0E37}\u{0E4D}\u{0E47}\u{0E38}\u{0E39}\u{0E48}-\u{0E4B}\u{0E3A}\u{0E4C}\u{0E4D}\u{0E4E}])";

/// Sara e twice (written for sara ae).
pub const DOUBLE_SARA_E: &'static str = "\u{0E40}\u{0E40}";

/// Tone marks or thanthakhat before above/below vowels.
pub const TONE_BEFORE_VOWEL: &'static str = "([\u{0E48}-\u{0E4B}\u{0E4C}]+)([\u{0E31}\u{0E34}-\u{0E37}\u{0E4D}\u{0E47}\u{0E38}\u{0E39}]+)";

/// Nikhahit, tone marks, sara aa (written for sara am).
pub const NIKHAHIT_SARA_AA: &'static str = "\u{0E4D}([\u{0E48}-\u{0E4B}]*)\u{0E32}";

/// Following vowels before tone marks.
pub const FOLLOW_BEFORE_TONE: &'static str = "([\u{0E30}\u{0E32}\u{0E33}]+)([\u{0E48}-\u{0E4B}]+)";

/// Lakkhangyao not after ru or lu (written for sara aa).
pub const LAKKHANGYAO: &'static str = "([^\u{0E24}\u{0E26}])\u{0E45}";

/// A run of tone marks, its last one captured.
pub const TONE_RUN: &'static str = "[\u{0E48}-\u{0E4B}]*([\u{0E48}-\u{0E4B}])";

/// Dangling marks at the start of the text.
pub const DANGLING_LEAD: &'static str = "^[\u{0E31}\u{0E34}-\u{0E37}\u{0E4D}\u{0E47}\u{0E38}\u{0E39}\u{0E48}-\u{0E4B}\u{0E3A}\u{0E4C}\u{0E4D}\u{0E4E}]+";

/// Spaces followed by dangling marks.
pub const DANGLING_AFTER_SPACE: &'static str = " +[\u{0E31}\u{0E34}-\u{0E37}\u{0E4D}\u{0E47}\u{0E38}\u{0E39}\u{0E48}-\u{0E4B}\u{0E3A}\u{0E4C}\u{0E4D}\u{0E4E}]+";

/// The marks whose repeats are collapsed, one by one: the following, leading, above and below
/// vowels and the extra marks, as their class fragments are written (so a range such as
/// `\u{0E40}-\u{0E44}` stands for its two ends and the hyphen).
pub const NOREPEAT_MARKS: &'static str = "\u{0E30}\u{0E32}\u{0E33}\u{0E40}-\u{0E44}\u{0E31}\u{0E34}-\u{0E37}\u{0E4D}\u{0E47}\u{0E38}\u{0E39}\u{0E3A}\u{0E4C}\u{0E4D}\u{0E4E}";

/// One replacement: a compiled pattern, a limit on the matches replaced (0 for all), and the
/// replacement template.
pub struct Step {
    pattern: Pattern,
    limit: usize,
    rep: String,
}

impl Step {
    /// (pattern source, limit, template).
    pub closed spec fn view(&self) -> (Seq<char>, usize, Seq<char>) {
        (self.pattern.source(), self.limit, self.rep@)
    }
}

/// The steps applied in order to `t`; `None` once a step fails.
pub open spec fn apply_steps(t: Option<Seq<char>>, steps: Seq<(Seq<char>, usize, Seq<char>)>) -> Option<Seq<char>>
    decreases steps.len(),
{
    if steps.len() == 0 {
        t
    } else {
        match apply_steps(t, steps.drop_last()) {
            Some(x) => fancy_replace(steps.last().0, x, steps.last().1, steps.last().2),
            None => None,
        }
    }
}

/// `s` without its leading white space.
pub open spec fn trim_start(s: Seq<char>) -> Seq<char>
    decreases s.len(),
{
    if s.len() > 0 && is_white_space(s[0]) {
        trim_start(s.drop_first())
    } else {
        s
    }
}

/// `s` without its trailing white space.
pub open spec fn trim_end(s: Seq<char>) -> Seq<char>
    decreases s.len(),
{
    if s.len() > 0 && is_white_space(s.last()) {
        trim_end(s.drop_last())
    } else {
        s
    }
}

/// `s` without leading and trailing white space (as `str::trim`).
pub open spec fn trim(s: Seq<char>) -> Seq<char> {
    trim_end(trim_start(s))
}

proof fn lemma_trim_start(s: Seq<char>, i: int)
    requires
        0 <= i <= s.len(),
        forall|k: int| 0 <= k < i ==> is_white_space(#[trigger] s[k]),
        i < s.len() ==> !is_white_space(s[i]),
    ensures
        trim_start(s) == s.subrange(i, s.len() as int),
    decreases i,
{
    if i == 0 {
        assert(s.subrange(0, s.len() as int) =~= s);
    } else {
        let t = s.drop_first();
        lemma_trim_start(t, i - 1);
        assert(t.subrange(i - 1, t.len() as int) =~= s.subrange(i, s.len() as int));
    }
}

proof fn lemma_trim_end(s: Seq<char>, j: int)
    requires
        0 <= j <= s.len(),
        forall|k: int| j <= k < s.len() ==> is_white_space(#[trigger] s[k]),
        j > 0 ==> !is_white_space(s[j - 1]),
    ensures
        trim_end(s) == s.subrange(0, j),
    decreases s.len() - j,
{
    if j == s.len() {
        assert(s.subrange(0, j) =~= s);
    } else {
        let t = s.drop_last();
        lemma_trim_end(t, j);
        assert(t.subrange(0, j) =~= s.subrange(0, j));
    }
}

/// Dropping a leading white-space character does not change where the non-white text starts.
proof fn lemma_trim_start_prepend(s: Seq<char>, c: char)
    requires
        is_white_space(c),
    ensures
        trim_start(seq![c] + s) == trim_start(s),
{
    let t = seq![c] + s;
    assert(t[0] == c);
    assert(t.drop_first() =~= s);
}

/// Appending a character after `s`: the trimmed start grows by it, or (when `s` is all white
/// space and so is the character) stays empty.
proof fn lemma_trim_start_push(s: Seq<char>, c: char)
    requires
        is_white_space(c),
    ensures
        trim_start(s.push(c)) == trim_start(s).push(c) || (trim_start(s.push(c)).len() == 0 && trim_start(s).len() == 0),
    decreases s.len(),
{
    if s.len() == 0 {
        let t = s.push(c);
        assert(t[0] == c);
        assert(t.drop_first() =~= Seq::<char>::empty());
        assert(trim_start(Seq::<char>::empty()) == Seq::<char>::empty());
        assert(trim_start(t) == trim_start(t.drop_first()));
        assert(trim_start(s).len() == 0);
    } else if is_white_space(s[0]) {
        lemma_trim_start_push(s.drop_first(), c);
        assert(s.push(c)[0] == s[0]);
        assert(s.push(c).drop_first() =~= s.drop_first().push(c));
        assert(trim_start(s.push(c)) == trim_start(s.drop_first().push(c)));
        assert(trim_start(s) == trim_start(s.drop_first()));
    } else {
        assert(s.push(c)[0] == s[0]);
    }
}

/// Trimming ignores white space added at either end, a line feed in particular: trimming
/// `s` with a white-space character before or after it gives the trimming of `s`.
pub proof fn lemma_trim_ignores_white_ends(s: Seq<char>, c: char)
    requires
        is_white_space(c),
    ensures
        trim(s.push(c)) == trim(s),
        trim(seq![c] + s) == trim(s),
{
    lemma_trim_start_prepend(s, c);
    lemma_trim_start_push(s, c);
    let u = trim_start(s);
    if trim_start(s.push(c)) == u.push(c) {
        assert(u.push(c).last() == c);
        assert(u.push(c).drop_last() =~= u);
    }
}

/// Trimming drops a trailing or leading line feed, and trims a text to one that neither starts
/// nor ends with white space.
pub proof fn lemma_trim_newline(s: Seq<char>)
    ensures
        trim(s.push('\n')) == trim(s),
        trim(seq!['\n'] + s) == trim(s),
        trim(s).len() > 0 ==> !is_white_space(trim(s)[0]) && !is_white_space(trim(s).last()),
{
    lemma_trim_ignores_white_ends(s, '\n');
    lemma_trim_bare(s);
}

/// The trimmed text neither starts nor ends with white space.
proof fn lemma_trim_bare(s: Seq<char>)
    ensures
        trim(s).len() > 0 ==> !is_white_space(trim(s)[0]) && !is_white_space(trim(s).last()),
{
    lemma_trim_start_bare(s);
    lemma_trim_end_bare(trim_start(s));
}

proof fn lemma_trim_start_bare(s: Seq<char>)
    ensures
        trim_start(s).len() > 0 ==> !is_white_space(trim_start(s)[0]),
    decreases s.len(),
{
    if s.len() > 0 && is_white_space(s[0]) {
        lemma_trim_start_bare(s.drop_first());
    }
}

/// Trimming the end keeps a non-white first character and leaves a non-white last one.
proof fn lemma_trim_end_bare(s: Seq<char>)
    ensures
        trim_end(s).len() > 0 ==> !is_white_space(trim_end(s).last()),
        trim_end(s).len() > 0 ==> trim_end(s)[0] == s[0],
    decreases s.len(),
{
    if s.len() > 0 && is_white_space(s.last()) {
        lemma_trim_end_bare(s.drop_last());
    }
}

/// `s` without leading and trailing white space.
fn trim_chars(s: &Vec<char>) -> (r: Vec<char>)
    ensures
        r@ == trim(s@),
{
    let mut i: usize = 0;
    while i < s.len() && is_whitespace_char(s[i])
        invariant
            i <= s.len(),
            forall|k: int| 0 <= k < i ==> is_white_space(#[trigger] s@[k]),
        decreases s.len() - i,
    {
        i += 1;
    }
    let mut j: usize = s.len();
    while j > i && is_whitespace_char(s[j - 1])
        invariant
            i <= j <= s.len(),
            forall|k: int| j <= k < s.len() ==> is_white_space(#[trigger] s@[k]),
        decreases j,
    {
        j -= 1;
    }
    proof {
        lemma_trim_start(s@, i as int);
        let t = s@.subrange(i as int, s.len() as int);
        assert forall|k: int| j - i <= k < t.len() implies is_white_space(#[trigger] t[k]) by {
            assert(t[k] == s@[k + i]);
        }
        if j > i {
            assert(t[j - i - 1] == s@[j - 1]);
        }
        lemma_trim_end(t, j - i);
        assert(t.subrange(0, j - i) =~= s@.subrange(i as int, j as int));
    }
    let mut r: Vec<char> = Vec::new();
    let mut k: usize = i;
    while k < j
        invariant
            i <= k <= j <= s.len(),
            r@ == s@.subrange(i as int, k as int),
        decreases j - k,
    {
        r.push(s[k]);
        k += 1;
        assert(r@ =~= s@.subrange(i as int, k as int));
    }
    r
}

/// The compiled normalization: the steps before the trim, then the steps after it.
pub struct Normalizer {
    head: Vec<Step>,
    tail: Vec<Step>,
}

impl Normalizer {
    /// The steps before the trim.
    pub closed spec fn head(&self) -> Seq<(Seq<char>, usize, Seq<char>)> {
        self.head@.map_values(|s: Step| s.view())
    }

    /// The steps after the trim.
    pub closed spec fn tail(&self) -> Seq<(Seq<char>, usize, Seq<char>)> {
        self.tail@.map_values(|s: Step| s.view())
    }
}

/// What the normalizer with steps `head` and `tail` makes of `text`: the empty text as it is;
/// otherwise the head steps, the trim, and the tail steps; `None` once a step fails.
pub open spec fn normalized(head: Seq<(Seq<char>, usize, Seq<char>)>, tail: Seq<(Seq<char>, usize, Seq<char>)>, text: Seq<char>) -> Option<Seq<char>> {
    if text.len() == 0 {
        Some(text)
    } else {
        match apply_steps(Some(text), head) {
            Some(x) => apply_steps(Some(trim(x)), tail),
            None => None,
        }
    }
}

/// The steps before the trim: zero-width characters removed, newline runs collapsed to one
/// newline, space runs to one space.
pub open spec fn standard_head() -> Seq<(Seq<char>, usize, Seq<char>)> {
    seq![(ZERO_WIDTH@, 0usize, ""@), (NEWLINE_RUNS@, 0usize, "\n"@), (SPACE_RUNS@, 0usize, " "@)]
}

/// The step that collapses repeats of the mark `c` (with spaces between) to one `c`.
pub open spec fn norepeat_step(c: char) -> (Seq<char>, usize, Seq<char>) {
    let e = regex_escaped(seq![c]);
    (seq!['('] + e + seq!['[', ' ', ']', '*', ')', '+'] + e, 0usize, seq![c])
}

/// The steps after the trim: spaces before marks dropped, vowels and tones reordered, each
/// mark's repeats collapsed, tone runs cut to their last tone, dangling marks stripped.
pub open spec fn standard_tail() -> Seq<(Seq<char>, usize, Seq<char>)> {
    seq![
        (SPACE_BEFORE_MARK@, 0usize, "${1}${2}"@),
        (DOUBLE_SARA_E@, 0usize, "\u{0E41}"@),
        (TONE_BEFORE_VOWEL@, 0usize, "${2}${1}"@),
        (NIKHAHIT_SARA_AA@, 0usize, "${1}\u{0E33}"@),
        (FOLLOW_BEFORE_TONE@, 0usize, "${2}${1}"@),
        (LAKKHANGYAO@, 0usize, "${1}\u{0E32}"@),
    ] + Seq::new(NOREPEAT_MARKS@.len(), |i: int| norepeat_step(NOREPEAT_MARKS@[i])) + seq![
        (TONE_RUN@, 0usize, "${1}"@),
        (DANGLING_LEAD@, 1usize, ""@),
        (DANGLING_AFTER_SPACE@, 0usize, " "@),
    ]
}

/// Every pattern of `steps` compiles.
pub open spec fn all_compile(steps: Seq<(Seq<char>, usize, Seq<char>)>) -> bool {
    forall|i: int| 0 <= i < steps.len() ==> fancy_compiles(#[trigger] steps[i].0)
}

/// Compiles `source` into a step.
fn step(source: &str, limit: usize, rep: &str) -> (r: Option<Step>)
    ensures
        r is Some <==> fancy_compiles(source@),
        r matches Some(s) ==> s.view() == (source@, limit, rep@),
{
    match compile(source) {
        Some(pattern) => Some(Step { pattern, limit, rep: rep.to_owned() }),
        None => None,
    }
}

/// Compiles the step that collapses repeats of the mark `c`.
fn norepeat(c: char) -> (r: Option<Step>)
    ensures
        r is Some <==> fancy_compiles(norepeat_step(c).0),
        r matches Some(s) ==> s.view() == norepeat_step(c),
{
    let one = vec![c];
    let single = string_from_chars(one.as_slice());
    let e = chars_of(escape(single.as_str()).as_str());
    let mut p: Vec<char> = Vec::new();
    p.push('(');
    let mut k: usize = 0;
    while k < e.len()
        invariant
            k <= e.len(),
            p@ == seq!['('] + e@.subrange(0, k as int),
        decreases e.len() - k,
    {
        p.push(e[k]);
        k += 1;
        assert(p@ =~= seq!['('] + e@.subrange(0, k as int));
    }
    p.push('[');
    p.push(' ');
    p.push(']');
    p.push('*');
    p.push(')');
    p.push('+');
    let ghost mid = p@;
    let mut k: usize = 0;
    while k < e.len()
        invariant
            k <= e.len(),
            p@ == mid + e@.subrange(0, k as int),
        decreases e.len() - k,
    {
        p.push(e[k]);
        k += 1;
        assert(p@ =~= mid + e@.subrange(0, k as int));
    }
    proof {
        assert(e@.subrange(0, e@.len() as int) =~= e@);
        assert(single@ =~= seq![c]);
        assert(p@ =~= norepeat_step(c).0);
    }
    let source = string_from_chars(p.as_slice());
    step(source.as_str(), 0, single.as_str())
}

/// The views of a list of steps.
pub open spec fn views(steps: Seq<Step>) -> Seq<(Seq<char>, usize, Seq<char>)> {
    steps.map_values(|s: Step| s.view())
}

/// Appends the next step of `all` if it compiled; otherwise `all` does not all compile.
fn push_checked(steps: &mut Vec<Step>, s: Option<Step>, Ghost(all): Ghost<Seq<(Seq<char>, usize, Seq<char>)>>) -> (ok: bool)
    requires
        views(old(steps)@) == all.take(old(steps).len() as int),
        old(steps).len() < all.len(),
        s matches Some(x) ==> x.view() == all[old(steps).len() as int],
        s is Some <==> fancy_compiles(all[old(steps).len() as int].0),
    ensures
        ok == s is Some,
        ok ==> views(final(steps)@) == all.take(old(steps).len() + 1),
        ok ==> final(steps).len() == old(steps).len() + 1,
        !ok ==> !all_compile(all),
{
    match s {
        Some(x) => {
            let ghost n = steps.len() as int;
            steps.push(x);
            proof {
                assert(views(steps@) =~= all.take(n + 1));
            }
            true
        },
        None => false,
    }
}

proof fn lemma_standard_tail()
    ensures
        standard_tail().len() == 9 + NOREPEAT_MARKS@.len(),
        standard_tail()[0] == (SPACE_BEFORE_MARK@, 0usize, "${1}${2}"@),
        standard_tail()[1] == (DOUBLE_SARA_E@, 0usize, "\u{0E41}"@),
        standard_tail()[2] == (TONE_BEFORE_VOWEL@, 0usize, "${2}${1}"@),
        standard_tail()[3] == (NIKHAHIT_SARA_AA@, 0usize, "${1}\u{0E33}"@),
        standard_tail()[4] == (FOLLOW_BEFORE_TONE@, 0usize, "${2}${1}"@),
        standard_tail()[5] == (LAKKHANGYAO@, 0usize, "${1}\u{0E32}"@),
        forall|i: int| 0 <= i < NOREPEAT_MARKS@.len() ==> standard_tail()[6 + i] == norepeat_step(#[trigger] NOREPEAT_MARKS@[i]),
        standard_tail()[6 + NOREPEAT_MARKS@.len() as int] == (TONE_RUN@, 0usize, "${1}"@),
        standard_tail()[7 + NOREPEAT_MARKS@.len() as int] == (DANGLING_LEAD@, 1usize, ""@),
        standard_tail()[8 + NOREPEAT_MARKS@.len() as int] == (DANGLING_AFTER_SPACE@, 0usize, " "@),
{
}

impl Normalizer {
    /// Compiles the standard normalization; `None` if a pattern does not compile.
    pub fn new() -> (r: Option<Normalizer>)
        ensures
            r is Some <==> all_compile(standard_head()) && all_compile(standard_tail()),
            r matches Some(n) ==> n.head() == standard_head() && n.tail() == standard_tail(),
    {
        let ghost sh = standard_head();
        let ghost st = standard_tail();
        let ghost n = NOREPEAT_MARKS@.len() as int;
        let mut head: Vec<Step> = Vec::new();
        proof {
            assert(views(head@) =~= sh.take(0));
        }
        if !push_checked(&mut head, step(ZERO_WIDTH, 0, ""), Ghost(sh)) {
            return None;
        }
        if !push_checked(&mut head, step(NEWLINE_RUNS, 0, "\n"), Ghost(sh)) {
            return None;
        }
        if !push_checked(&mut head, step(SPACE_RUNS, 0, " "), Ghost(sh)) {
            return None;
        }
        proof {
            assert(sh.take(3) =~= sh);
            lemma_standard_tail();
        }
        let mut tail: Vec<Step> = Vec::new();
        proof {
            assert(views(tail@) =~= st.take(0));
        }
        if !push_checked(&mut tail, step(SPACE_BEFORE_MARK, 0, "${1}${2}"), Ghost(st)) {
            return None;
        }
        if !push_checked(&mut tail, step(DOUBLE_SARA_E, 0, "\u{0E41}"), Ghost(st)) {
            return None;
        }
        if !push_checked(&mut tail, step(TONE_BEFORE_VOWEL, 0, "${2}${1}"), Ghost(st)) {
            return None;
        }
        if !push_checked(&mut tail, step(NIKHAHIT_SARA_AA, 0, "${1}\u{0E33}"), Ghost(st)) {
            return None;
        }
        if !push_checked(&mut tail, step(FOLLOW_BEFORE_TONE, 0, "${2}${1}"), Ghost(st)) {
            return None;
        }
        if !push_checked(&mut tail, step(LAKKHANGYAO, 0, "${1}\u{0E32}"), Ghost(st)) {
            return None;
        }
        let marks = chars_of(NOREPEAT_MARKS);
        let mut i: usize = 0;
        while i < marks.len()
            invariant
                st == standard_tail(),
                sh == standard_head(),
                n == NOREPEAT_MARKS@.len(),
                marks@ == NOREPEAT_MARKS@,
                st.len() == 9 + n,
                forall|k: int| 0 <= k < n ==> st[6 + k] == norepeat_step(#[trigger] NOREPEAT_MARKS@[k]),
                i <= marks.len(),
                tail.len() == 6 + i,
                views(tail@) == st.take(6 + i),
                views(head@) == sh,
                forall|k: int| 0 <= k < 6 + i ==> fancy_compiles(#[trigger] st[k].0),
            decreases marks.len() - i,
        {
            if !push_checked(&mut tail, norepeat(marks[i]), Ghost(st)) {
                return None;
            }
            proof {
                assert(st[6 + i as int] == norepeat_step(NOREPEAT_MARKS@[i as int]));
            }
            i += 1;
        }
        if !push_checked(&mut tail, step(TONE_RUN, 0, "${1}"), Ghost(st)) {
            return None;
        }
        if !push_checked(&mut tail, step(DANGLING_LEAD, 1, ""), Ghost(st)) {
            return None;
        }
        if !push_checked(&mut tail, step(DANGLING_AFTER_SPACE, 0, " "), Ghost(st)) {
            return None;
        }
        proof {
            assert(st.take(st.len() as int) =~= st);
            assert(all_compile(sh)) by {
                assert forall|k: int| 0 <= k < sh.len() implies fancy_compiles(#[trigger] sh[k].0) by {
                    assert(head@[k].view() == views(head@)[k]);
                }
            }
            assert(all_compile(st)) by {
                assert forall|k: int| 0 <= k < st.len() implies fancy_compiles(#[trigger] st[k].0) by {
                    if k >= 6 + n {
                        assert(tail@[k].view() == views(tail@)[k]);
                    }
                }
            }
        }
        Some(Normalizer { head, tail })
    }
}
/// A failed step leaves the rest failed.
proof fn lemma_apply_steps_none(t: Option<Seq<char>>, steps: Seq<(Seq<char>, usize, Seq<char>)>, i: int)
    requires
        0 <= i <= steps.len(),
        apply_steps(t, steps.take(i)) is None,
    ensures
        apply_steps(t, steps) is None,
    decreases steps.len() - i,
{
    if i < steps.len() {
        assert(steps.take(i + 1).drop_last() =~= steps.take(i));
        lemma_apply_steps_none(t, steps, i + 1);
    } else {
        assert(steps.take(i) =~= steps);
    }
}

/// Applies the steps in order; `None` once one fails.
fn run_steps(steps: &Vec<Step>, text: &str) -> (r: Option<String>)
    ensures
        match r {
            Some(s) => apply_steps(Some(text@), views(steps@)) == Some(s@),
            None => apply_steps(Some(text@), views(steps@)) is None,
        },
{
    let ghost all = views(steps@);
    let mut cur: String = text.to_owned();
    let mut i: usize = 0;
    proof {
        assert(all.take(0) =~= Seq::<(Seq<char>, usize, Seq<char>)>::empty());
    }
    while i < steps.len()
        invariant
            all == views(steps@),
            i <= steps.len(),
            apply_steps(Some(text@), all.take(i as int)) == Some(cur@),
        decreases steps.len() - i,
    {
        proof {
            assert(all.take(i + 1).drop_last() =~= all.take(i as int));
            assert(all.take(i + 1).last() == steps@[i as int].view());
        }
        let st = &steps[i];
        match replace(&st.pattern, cur.as_str(), st.limit, st.rep.as_str()) {
            Some(next) => {
                cur = next;
            },
            None => {
                proof {
                    lemma_apply_steps_none(Some(text@), all, i + 1);
                }
                return None;
            },
        }
        i += 1;
    }
    proof {
        assert(all.take(steps.len() as int) =~= all);
    }
    Some(cur)
}

impl Normalizer {
    /// Normalizes `text`: the empty text stays empty; otherwise the steps before the trim,
    /// the trim, and the steps after it. `None` if a replacement fails at run time.
    pub fn normalize(&self, text: &str) -> (r: Option<String>)
        ensures
            match r {
                Some(s) => normalized(self.head(), self.tail(), text@) == Some(s@),
                None => normalized(self.head(), self.tail(), text@) is None,
            },
    {
        if text.is_empty() {
            return Some(String::new());
        }
        match run_steps(&self.head, text) {
            Some(t) => {
                let trimmed = trim_chars(&chars_of(t.as_str()));
                let ts = string_from_chars(trimmed.as_slice());
                run_steps(&self.tail, ts.as_str())
            },
            None => None,
        }
    }
}

/// What `std_normalize` makes of `text`: the standard normalization when every pattern
/// compiles, `None` otherwise (and where a replacement fails at run time).
pub open spec fn std_normalized(text: Seq<char>) -> Option<Seq<char>> {
    if all_compile(standard_head()) && all_compile(standard_tail()) {
        normalized(standard_head(), standard_tail(), text)
    } else {
        None
    }
}

/// Normalizes Thai text: strips zero-width characters, collapses duplicate spaces and
/// marks, reorders misordered vowel and tone sequences, and drops dangling combining marks.
pub fn std_normalize(text: &str) -> (r: Option<String>)
    ensures
        match r {
            Some(s) => std_normalized(text@) == Some(s@),
            None => std_normalized(text@) is None,
        },
{
    match Normalizer::new() {
        Some(n) => n.normalize(text),
        None => None,
    }
}

} // verus!
