use regex_lite::is_match;
use regex_lite::pattern::{parse, Pattern};

const TEXTS: [&str; 12] =
    ["", "a", "b", "aa", "ab", "ba", "abc", "aab", "🔥", "🔥a", "*", "mississippi"];

const PATTERNS: [&str; 16] = [
    "", "a", ".", "a*", ".*", "ab", "a.", "a*b", ".*a", "a.*", "c*a*b", "..", "a*a*a*", "*", "a**",
    "*a",
];

/// Matching by trying every way to divide the text, for comparison.
fn matches_by_search(pattern: &[char], text: &[char]) -> bool {
    if pattern.is_empty() {
        return text.is_empty();
    }
    let head = pattern[0];
    let accepts = |c: char| head == '.' || head == c;
    if pattern.len() >= 2 && pattern[1] == '*' {
        let rest = &pattern[2..];
        let mut taken = 0;
        loop {
            if matches_by_search(rest, &text[taken..]) {
                return true;
            }
            if taken < text.len() && accepts(text[taken]) {
                taken += 1;
            } else {
                return false;
            }
        }
    }
    !text.is_empty() && accepts(text[0]) && matches_by_search(&pattern[1..], &text[1..])
}

#[test]
fn empty_pattern_matches_exactly_the_empty_text() {
    for text in TEXTS {
        assert_eq!(is_match("", text), text.is_empty(), "text {:?}", text);
    }
}

#[test]
fn malformed_patterns_match_nothing() {
    for pattern in ["*", "*a", "a**", "**", "ab**", ".**a", "*.", "a*b**c"] {
        assert_eq!(parse(pattern), Pattern::Invalid, "pattern {:?}", pattern);
        for text in TEXTS {
            assert!(!is_match(pattern, text), "pattern {:?}, text {:?}", pattern, text);
        }
    }
}

#[test]
fn empty_text_needs_every_atom_repeatable() {
    assert!(is_match("a*", ""));
    assert!(is_match("a*b*.*", ""));
    assert!(!is_match("a*b", ""));
    assert!(!is_match("a", ""));
    assert!(!is_match("a*.b*", ""));
}

#[test]
fn plain_patterns_match_texts_of_their_own_length_only() {
    assert!(is_match("...", "abc"));
    assert!(is_match("...", "a🔥c"));
    assert!(!is_match("...", "ab"));
    assert!(!is_match("...", "abcd"));
    assert!(is_match("a.c", "abc"));
    assert!(!is_match("a.c", "abd"));
}

#[test]
fn table_agrees_with_search_over_all_divisions() {
    for pattern in PATTERNS {
        if parse(pattern) == Pattern::Invalid {
            continue;
        }
        let pattern_chars: Vec<char> = pattern.chars().collect();
        for text in TEXTS {
            let text_chars: Vec<char> = text.chars().collect();
            assert_eq!(
                is_match(pattern, text),
                matches_by_search(&pattern_chars, &text_chars),
                "pattern {:?}, text {:?}",
                pattern,
                text
            );
        }
    }
}

#[test]
fn repeat_takes_any_number_of_the_same_character() {
    let mut text = String::new();
    for _ in 0..50 {
        assert!(is_match("a*", &text));
        assert!(is_match("ba*", &format!("b{}", text)));
        assert!(!is_match("a*", &format!("{}b", text)));
        text.push('a');
    }
}

#[test]
fn alternating_pattern_matches_when_text_ends_in_its_last_literal() {
    assert!(is_match(".*a.*a.*a.*a.*a", "xaxaxaxaxa"));
    assert!(is_match(".*a.*a.*a.*a.*a", "aaaaa"));
    assert!(!is_match(".*a.*a.*a.*a.*a", "aaaa"));
}

#[test]
fn ten_repeatable_atoms_before_a_long_literal_run() {
    let run = "a".repeat(2_000);
    let pattern = format!("a*a*a*a*a*a*a*a*a*a*{}", run);
    let text = "a".repeat(20_000);
    assert!(is_match(&pattern, &text));
    let too_short = "a".repeat(1_999);
    assert!(!is_match(&pattern, &too_short));
}

#[test]
fn wildcard_counts_code_points_not_bytes() {
    assert!(is_match(".", "é"));
    assert!(is_match(".", "🔥"));
    assert!(!is_match("....", "🔥"));
    assert!(is_match(".*🔥", "aé🔥"));
    assert!(is_match("é*", "ééé"));
}
