//! Segmentation tiers and the packed token format `[ Start: 32 | Length: 24 | Tier: 8 ]`.
use vstd::prelude::*;
use crate::text::{byte_len, byte_offset, chars_of, is_white_space, is_whitespace_char,
    byte_length, lemma_byte_offset_mono, lemma_byte_offset_injective, utf8_width};

verus! {

/// The granularity a lattice node (and the language-model layer scoring it) belongs to.
#[derive(Clone, Copy, Debug, PartialEq, Eq, Structural)]
pub enum LatticeTier {
    Word,
    Syllable,
    Tcc,
}

/// The tier code carried in a packed token: 1 Word, 2 Syllable, 3 Tcc.
pub open spec fn tier_code(t: LatticeTier) -> u64 {
    match t {
        LatticeTier::Word => 1,
        LatticeTier::Syllable => 2,
        LatticeTier::Tcc => 3,
    }
}

/// The tier code of `tier`.
pub fn tier_flag(tier: &LatticeTier) -> (r: u64)
    ensures
        r == tier_code(*tier),
{
    match tier {
        LatticeTier::Word => 1,
        LatticeTier::Syllable => 2,
        LatticeTier::Tcc => 3,
    }
}

/// The packed form of span `[start, end)` with tier code `flag`.
pub open spec fn packed(start: usize, end: usize, flag: u64) -> u64 {
    ((start as u64) << 32u64) | (((end - start) as u64) << 8u64) | flag
}

/// Start byte offset stored in a packed token.
pub open spec fn token_start(tok: u64) -> u64 {
    tok >> 32u64
}

/// Byte length stored in a packed token.
pub open spec fn token_len(tok: u64) -> u64 {
    (tok >> 8u64) & 0xFF_FFFFu64
}

/// Tier code stored in a packed token.
pub open spec fn token_tier(tok: u64) -> u64 {
    tok & 0xFFu64
}

/// Pack `[ Start: 32 bits | Length: 24 bits | Tier: 8 bits ]` into a u64. Start and length
/// are byte offsets into the source text; the tier code is 1 Word / 2 Syllable / 3 Tcc.
pub fn pack(start: usize, end: usize, flag: u64) -> (r: u64)
    requires
        start <= end,
    ensures
        r == packed(start, end, flag),
        start < 0x1_0000_0000 && end - start < 0x100_0000 && flag < 0x100 ==> token_start(r)
            == start && token_len(r) == end - start && token_tier(r) == flag,
{
    let s = start as u64;
    let l = (end - start) as u64;
    let r = (s << 32u64) | (l << 8u64) | flag;
    proof {
        if start < 0x1_0000_0000 && end - start < 0x100_0000 && flag < 0x100 {
            assert(s < 0x1_0000_0000u64 && l < 0x100_0000u64 && flag < 0x100u64 ==> ((((s << 32u64)
                | (l << 8u64) | flag) >> 32u64) == s && ((((s << 32u64) | (l << 8u64) | flag)
                >> 8u64) & 0xFF_FFFFu64) == l && (((s << 32u64) | (l << 8u64) | flag) & 0xFFu64)
                == flag)) by (bit_vector);
        }
    }
    r
}

/// The `(start, length)` byte span of a packed token.
pub fn unpack(tok: u64) -> (r: (usize, usize))
    ensures
        r.0 == token_start(tok),
        r.1 == token_len(tok),
{
    proof {
        assert(tok >> 32u64 <= 0xFFFF_FFFFu64) by (bit_vector);
        assert((tok >> 8u64) & 0xFF_FFFFu64 <= 0xFF_FFFFu64) by (bit_vector);
    }
    ((tok >> 32u64) as usize, ((tok >> 8u64) & 0xFF_FFFFu64) as usize)
}

/// Packing then unpacking gives back the span, for every span the format can hold
/// (start below 2^32, length below 2^24) and every tier code.
pub proof fn lemma_pack_roundtrip(start: usize, end: usize, t: LatticeTier)
    requires
        start <= end,
        start < 0x1_0000_0000,
        end - start < 0x100_0000,
    ensures
        token_start(packed(start, end, tier_code(t))) == start,
        token_len(packed(start, end, tier_code(t))) == end - start,
        token_tier(packed(start, end, tier_code(t))) == tier_code(t),
{
    let s = start as u64;
    let l = (end - start) as u64;
    let f = tier_code(t);
    assert(s < 0x1_0000_0000u64 && l < 0x100_0000u64 && f < 0x100u64 ==> ((((s << 32u64) | (l
        << 8u64) | f) >> 32u64) == s && ((((s << 32u64) | (l << 8u64) | f) >> 8u64) & 0xFF_FFFFu64)
        == l && (((s << 32u64) | (l << 8u64) | f) & 0xFFu64) == f)) by (bit_vector);
}

/// The byte span `[start, start + len)` of `text` is a non-empty run of whole characters that
/// are all white space. (Decoding a span that cuts a character yields U+FFFD, which is not
/// white space, so this is exactly "the span's lossy decoding is non-empty and all white
/// space".)
pub open spec fn whitespace_span(text: Seq<char>, start: int, len: int) -> bool {
    &&& len > 0
    &&& start + len <= byte_len(text)
    &&& exists|i: int, j: int| #[trigger] whitespace_chars(text, start, len, i, j)
}

/// Characters `[i, j)` of `text` occupy exactly bytes `[start, start + len)` and are all
/// white space.
pub open spec fn whitespace_chars(text: Seq<char>, start: int, len: int, i: int, j: int) -> bool {
    &&& 0 <= i < j <= text.len()
    &&& byte_offset(text, i) == start
    &&& byte_offset(text, j) == start + len
    &&& forall|k: int| i <= k < j ==> is_white_space(#[trigger] text[k])
}

/// True when the packed token's surface is entirely white space (Unicode `White_Space`). The
/// engine tiles its whole input, whitespace runs included; dropping them is presentation.
pub fn is_whitespace_token(text: &str, tok: u64) -> (r: bool)
    ensures
        r == whitespace_span(text@, token_start(tok) as int, token_len(tok) as int),
{
    let (start, len) = unpack(tok);
    let n = byte_length(text);
    if len == 0 || start > n || len > n - start {
        return false;
    }
    let end = start + len;
    let chars = chars_of(text);
    // Walk to the character that starts at `start`, then over whitespace to `end`.
    let mut off: usize = 0;
    let mut i: usize = 0;
    while i < chars.len() && off < start
        invariant
            chars@ == text@,
            n == byte_len(text@),
            i <= chars.len(),
            len > 0,
            start + len <= n,
            start == token_start(tok),
            len == token_len(tok),
            off == byte_offset(text@, i as int),
            forall|x: int| 0 <= x < i ==> #[trigger] byte_offset(text@, x) < start,
        decreases chars.len() - i,
    {
        proof {
            lemma_byte_offset_mono(text@, i as int + 1, text@.len() as int);
        }
        off = off + utf8_width(chars[i]);
        i += 1;
    }
    if off != start {
        proof {
            // `start` falls inside a character (or past the end): no whole-character span.
            if whitespace_span(text@, start as int, len as int) {
                let (a, b) = choose|a: int, b: int| #[trigger] whitespace_chars(text@, start as int, len as int, a, b);
                if a < i {
                    assert(byte_offset(text@, a) < start);
                } else if a > i {
                    crate::text::lemma_byte_offset_strict(text@, i as int, a);
                } else {
                }
                if i == chars.len() {
                    lemma_byte_offset_mono(text@, a, text@.len() as int);
                }
            }
        }
        return false;
    }
    let i0 = i;
    while i < chars.len() && off < end
        invariant
            chars@ == text@,
            n == byte_len(text@),
            i0 <= i <= chars.len(),
            end == start + len,
            len > 0,
            start + len <= n,
            start == token_start(tok),
            len == token_len(tok),
            byte_offset(text@, i0 as int) == start,
            off == byte_offset(text@, i as int),
            start <= off,
            forall|k: int| i0 <= k < i ==> is_white_space(#[trigger] text@[k]),
            forall|x: int| i0 <= x < i ==> #[trigger] byte_offset(text@, x) < end,
        decreases chars.len() - i,
    {
        if !is_whitespace_char(chars[i]) {
            proof {
                if whitespace_span(text@, start as int, len as int) {
                    let (a, b) = choose|a: int, b: int| #[trigger] whitespace_chars(text@, start as int, len as int, a, b);
                    lemma_byte_offset_injective(text@, a, i0 as int);
                    assert(a == i0);
                    if b <= i {
                        lemma_byte_offset_mono(text@, b, i as int);
                        assert(byte_offset(text@, b) <= off);
                        assert(off < end);
                        assert(false);
                    }
                    assert(a <= i < b);
                    assert(is_white_space(text@[i as int]));
                }
            }
            return false;
        }
        proof {
            lemma_byte_offset_mono(text@, i as int + 1, text@.len() as int);
        }
        off = off + utf8_width(chars[i]);
        i += 1;
    }
    proof {
        if whitespace_span(text@, start as int, len as int) {
            if off != end {
                let (a, b) = choose|a: int, b: int| #[trigger] whitespace_chars(text@, start as int, len as int, a, b);
                lemma_byte_offset_injective(text@, a, i0 as int);
                if b < i {
                    assert(byte_offset(text@, b) < end);
                } else if b > i {
                    crate::text::lemma_byte_offset_strict(text@, i as int, b);
                    if i == chars.len() {
                        assert(false);
                    }
                }
            }
        } else if off == end {
            assert(i0 < i) by {
                if i0 == i {
                    assert(off == start);
                }
            }
            assert(whitespace_chars(text@, start as int, len as int, i0 as int, i as int));
        }
    }
    off == end
}

} // verus!
