//! Context keys for the branching-entropy tables: the longest context held by a table, taken
//! as a suffix of the characters left of a boundary (forward table) or as a prefix of those
//! right of it (backward table).
use vstd::prelude::*;
use crate::spell::dict_trie::DictTrie;

verus! {

/// The last `l` characters of `chars`.
pub open spec fn suffix_of(chars: Seq<char>, l: int) -> Seq<char> {
    chars.subrange(chars.len() - l, chars.len() as int)
}

/// The first `l` characters of `chars`.
pub open spec fn prefix_of(chars: Seq<char>, l: int) -> Seq<char> {
    chars.subrange(0, l)
}

/// `r` is the value held for the longest non-empty key `key(l)`, `1 <= l <= n`, that `keys`
/// holds; `None` when it holds none of them.
pub open spec fn longest_held(keys: Map<Seq<char>, usize>, n: int, key: spec_fn(int) -> Seq<char>, r: Option<usize>) -> bool {
    match r {
        Some(v) => exists|l: int| 1 <= l <= n && #[trigger] keys.contains_key(key(l)) && keys[key(l)] == v
            && forall|l2: int| l < l2 <= n ==> !#[trigger] keys.contains_key(key(l2)),
        None => forall|l: int| 1 <= l <= n ==> !#[trigger] keys.contains_key(key(l)),
    }
}

/// The characters of `chars` from `a` up to `b`.
fn copy_range(chars: &Vec<char>, a: usize, b: usize) -> (r: Vec<char>)
    requires
        a <= b <= chars.len(),
    ensures
        r@ == chars@.subrange(a as int, b as int),
{
    let mut r: Vec<char> = Vec::new();
    let mut k = a;
    while k < b
        invariant
            a <= k <= b <= chars.len(),
            r@ == chars@.subrange(a as int, k as int),
        decreases b - k,
    {
        r.push(chars[k]);
        k += 1;
        assert(r@ =~= chars@.subrange(a as int, k as int));
    }
    r
}

/// The value `keys` holds for the longest non-empty suffix of `chars` it holds, if any.
pub fn longest_suffix_value(keys: &DictTrie, chars: &Vec<char>) -> (r: Option<usize>)
    requires
        keys.wf(),
    ensures
        longest_held(keys@, chars@.len() as int, |l: int| suffix_of(chars@, l), r),
{
    let n = chars.len();
    let mut l = n;
    while l > 0
        invariant
            l <= n == chars.len(),
            keys.wf(),
            forall|l2: int| l < l2 <= n ==> !#[trigger] keys@.contains_key(suffix_of(chars@, l2)),
        decreases l,
    {
        let key = copy_range(chars, n - l, n);
        match keys.get(key.as_slice()) {
            Some(v) => {
                proof {
                    let f = |l: int| suffix_of(chars@, l);
                    assert(f(l as int) == key@);
                    assert forall|l2: int| l < l2 <= n implies !#[trigger] keys@.contains_key(f(l2)) by {
                        assert(f(l2) == suffix_of(chars@, l2));
                    }
                }
                return Some(v);
            },
            None => {},
        }
        l -= 1;
    }
    proof {
        let f = |l: int| suffix_of(chars@, l);
        assert forall|l2: int| 1 <= l2 <= n implies !#[trigger] keys@.contains_key(f(l2)) by {
            assert(f(l2) == suffix_of(chars@, l2));
        }
    }
    None
}

/// The value `keys` holds for the longest non-empty prefix of `chars` it holds, if any.
pub fn longest_prefix_value(keys: &DictTrie, chars: &Vec<char>) -> (r: Option<usize>)
    requires
        keys.wf(),
    ensures
        longest_held(keys@, chars@.len() as int, |l: int| prefix_of(chars@, l), r),
{
    let n = chars.len();
    let mut l = n;
    while l > 0
        invariant
            l <= n == chars.len(),
            keys.wf(),
            forall|l2: int| l < l2 <= n ==> !#[trigger] keys@.contains_key(prefix_of(chars@, l2)),
        decreases l,
    {
        let key = copy_range(chars, 0, l);
        match keys.get(key.as_slice()) {
            Some(v) => {
                proof {
                    let f = |l: int| prefix_of(chars@, l);
                    assert(f(l as int) == key@);
                    assert forall|l2: int| l < l2 <= n implies !#[trigger] keys@.contains_key(f(l2)) by {
                        assert(f(l2) == prefix_of(chars@, l2));
                    }
                }
                return Some(v);
            },
            None => {},
        }
        l -= 1;
    }
    proof {
        let f = |l: int| prefix_of(chars@, l);
        assert forall|l2: int| 1 <= l2 <= n implies !#[trigger] keys@.contains_key(f(l2)) by {
            assert(f(l2) == prefix_of(chars@, l2));
        }
    }
    None
}

} // verus!
