use thapthim::fields::{parse_decimal, split_char, strip_cr_chars};
use thapthim::table::KeyedTable;
use thapthim::text::split_lines;
use thapthim::lattice::engine::vocab_patterns;
use thapthim::token_list::{drop_whitespace_tokens, token_byte_ranges};
use thapthim::lattice::tokens::{pack, tier_flag, unpack, is_whitespace_token, LatticeTier};

fn cs(s: &str) -> Vec<char> {
    s.chars().collect()
}

#[test]
fn split_lines_follows_str_lines() {
    let lines = split_lines("a\r\nb\n\nc");
    let got: Vec<String> = lines.iter().map(|l| l.iter().collect()).collect();
    assert_eq!(got, vec!["a", "b", "", "c"]);
    assert_eq!(split_lines("x\n").len(), 1);
    assert_eq!(split_lines("").len(), 0);
}

#[test]
fn split_char_keeps_empty_fields() {
    let f = split_char(&cs("a\t\tb"), '\t');
    let got: Vec<String> = f.iter().map(|l| l.iter().collect()).collect();
    assert_eq!(got, vec!["a", "", "b"]);
    assert_eq!(split_char(&cs(""), '\t').len(), 1);
}

#[test]
fn strip_cr_removes_one_trailing_return() {
    assert_eq!(strip_cr_chars(&cs("ab\r")), cs("ab"));
    assert_eq!(strip_cr_chars(&cs("ab")), cs("ab"));
    assert_eq!(strip_cr_chars(&cs("a\r\r")), cs("a\r"));
}

#[test]
fn parse_decimal_matches_from_str() {
    assert_eq!(parse_decimal(&cs("42"), u32::MAX as u64), Some(42));
    assert_eq!(parse_decimal(&cs("+7"), u32::MAX as u64), Some(7));
    assert_eq!(parse_decimal(&cs("+"), u32::MAX as u64), None);
    assert_eq!(parse_decimal(&cs(""), u32::MAX as u64), None);
    assert_eq!(parse_decimal(&cs("-1"), u32::MAX as u64), None);
    assert_eq!(parse_decimal(&cs("12a"), u32::MAX as u64), None);
    assert_eq!(parse_decimal(&cs("4294967295"), u32::MAX as u64), Some(4294967295));
    assert_eq!(parse_decimal(&cs("4294967296"), u32::MAX as u64), None);
    assert_eq!("4294967296".parse::<u32>().ok(), None);
    assert_eq!(parse_decimal(&cs("007"), 9), Some(7));
}

#[test]
fn keyed_table_replaces_and_keeps_order() {
    let mut t: KeyedTable<u32> = KeyedTable::new();
    t.insert(&cs("b"), 1);
    t.insert(&cs("a"), 2);
    t.insert(&cs("b"), 3);
    assert_eq!(t.get(&cs("b")), Some(&3));
    assert_eq!(t.get(&cs("a")), Some(&2));
    assert_eq!(t.get(&cs("c")), None);
    let e = t.into_entries();
    assert_eq!(e, vec![("b".to_string(), 3), ("a".to_string(), 2)]);
}

#[test]
fn vocabulary_entries_keep_their_text_and_line() {
    let v = vocab_patterns("ฉันกิน\n\nข้าว\r\n");
    assert_eq!(v, vec![("ฉันกิน".to_string(), 0), ("ข้าว".to_string(), 2)]);
}

#[test]
fn pack_and_unpack_round_trip() {
    let t = pack(9, 18, tier_flag(&LatticeTier::Word));
    assert_eq!(t, (9u64 << 32) | (9u64 << 8) | 1);
    assert_eq!(unpack(t), (9, 9));
    assert_eq!(t & 0xFF, 1);
    assert_eq!(tier_flag(&LatticeTier::Syllable), 2);
    assert_eq!(tier_flag(&LatticeTier::Tcc), 3);
}

#[test]
fn whitespace_tokens_are_recognised_and_dropped() {
    let text = "ฉัน กิน";
    let toks = vec![pack(0, 9, 1), pack(9, 10, 3), pack(10, 19, 1)];
    assert!(!is_whitespace_token(text, toks[0]));
    assert!(is_whitespace_token(text, toks[1]));
    // A span that cuts a character, or runs past the end, is not white space.
    assert!(!is_whitespace_token(text, pack(8, 10, 3)));
    assert!(!is_whitespace_token(text, pack(18, 30, 3)));
    assert!(!is_whitespace_token(text, pack(9, 9, 3)));
    assert_eq!(drop_whitespace_tokens(text, &toks), vec![toks[0], toks[2]]);
}

#[test]
fn byte_ranges_clamp_and_chain() {
    assert_eq!(token_byte_ranges(10, &vec![3, -2, 4, 9]), vec![(0, 3), (3, 3), (3, 7), (7, 10)]);
    assert_eq!(token_byte_ranges(0, &vec![]), vec![]);
}
