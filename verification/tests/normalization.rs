use thapthim::normalize::{std_normalize, Normalizer};

fn norm(s: &str) -> String {
    std_normalize(s).expect("normalization succeeds")
}

#[test]
fn collapses_and_trims_spaces() {
    assert_eq!(norm("  ฉัน   กิน  "), "ฉัน กิน");
    assert_eq!(norm(""), "");
    assert_eq!(norm("   "), "");
}

#[test]
fn collapses_newline_runs() {
    assert_eq!(norm("ก \n \nข"), "ก\nข");
}

#[test]
fn strips_zero_width_characters() {
    assert_eq!(norm("ก\u{200B}ข\u{200C}ค"), "กขค");
}

#[test]
fn double_sara_e_becomes_sara_ae() {
    assert_eq!(norm("\u{0E40}\u{0E40}ก"), "\u{0E41}ก");
}

#[test]
fn tone_runs_keep_the_last_tone() {
    assert_eq!(norm("ก\u{0E48}\u{0E49}"), "ก\u{0E49}");
}

#[test]
fn tone_before_above_vowel_is_reordered() {
    assert_eq!(norm("ก\u{0E48}\u{0E34}"), "ก\u{0E34}\u{0E48}");
}

#[test]
fn nikhahit_and_sara_aa_become_sara_am() {
    assert_eq!(norm("ก\u{0E4D}\u{0E32}"), "ก\u{0E33}");
}

#[test]
fn repeated_vowels_collapse() {
    assert_eq!(norm("ก\u{0E32}\u{0E32}"), "ก\u{0E32}");
}

#[test]
fn dangling_marks_are_dropped() {
    assert_eq!(norm("\u{0E48}ก"), "ก");
    assert_eq!(norm("ก \u{0E34}ข"), "ก\u{0E34}ข");
}

#[test]
fn compiled_normalizer_agrees_with_std_normalize() {
    let n = Normalizer::new().expect("patterns compile");
    for s in ["  ฉัน   กิน  ", "\u{0E40}\u{0E40}ก", "abc"] {
        assert_eq!(n.normalize(s), std_normalize(s));
    }
}
