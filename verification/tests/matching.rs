use fuzzy_matcher::skim::SkimMatcherV2;
use fuzzy_matcher::FuzzyMatcher;
use launcher::matching::{alike_chars, is_case_sensitive, is_match, is_upper_char, score, SCORE_LIMIT};

fn letters(text: &str) -> Vec<char> {
    text.chars().collect()
}

fn found(key: &str, query: &str) -> bool {
    is_match(&letters(key), &letters(query))
}

fn skim(key: &str, query: &str) -> Option<i64> {
    SkimMatcherV2::default().ignore_case().smart_case().fuzzy_match(key, query)
}

const KEYS: [&str; 14] = [
    "",
    "Firefox|Browse the web",
    "firefox",
    "FIREFOX",
    "Files|Access and organize files",
    "GNU Image Manipulation Program|Create images and edit photographs",
    "Éditeur|Édite du texte",
    "éditeur",
    "x",
    "ffx",
    "xff",
    "a|b",
    "Terminal",
    "foo bar baz",
];

const QUERIES: [&str; 18] = [
    "", "f", "F", "ffx", "FFX", "Ffx", "fire", "Fire", "fiRe", "web", "é", "É", "edit", "x", "xx", "|", "fbb",
    "term",
];

#[test]
fn lower_case_query_matches_without_regard_to_case() {
    assert!(found("Firefox|Browse the web", "ffx"));
    assert!(found("FIREFOX", "fire"));
    assert!(found("firefox", "fire"));
    assert!(found("Firefox", "fx"));
}

#[test]
fn upper_case_query_matches_exactly() {
    assert!(!found("Firefox|Browse the web", "FFX"));
    assert!(found("Firefox", "Fire"));
    assert!(!found("firefox", "Fire"));
    assert!(!found("FIREFOX", "Fire"));
    assert!(found("FIREFOX", "FIRE"));
}

#[test]
fn toggling_a_letter_of_a_lower_case_query_narrows_the_matches() {
    assert!(found("firefox", "fire"));
    assert!(!found("firefox", "fiRe"));
    assert!(found("fiRefox", "fiRe"));
}

#[test]
fn toggling_a_letter_of_a_case_sensitive_query_changes_the_matches() {
    assert!(found("Firefox", "Fi"));
    assert!(!found("Firefox", "FI"));
    assert!(is_case_sensitive(&letters("Fi")));
    assert!(is_case_sensitive(&letters("FI")));
}

#[test]
fn the_characters_must_occur_in_order() {
    assert!(found("abc", "ac"));
    assert!(!found("abc", "ca"));
    assert!(!found("abc", "abcd"));
    assert!(!found("abc", "aa"));
    assert!(found("aXa", "aa"));
    assert!(!found("", "a"));
}

#[test]
fn the_empty_query_matches_every_key() {
    for key in KEYS {
        assert!(found(key, ""), "{:?}", key);
        assert_eq!(score(key, ""), Some(0), "{:?}", key);
    }
}

#[test]
fn case_is_folded_for_ascii_letters_only() {
    assert!(found("Éditeur", "É"));
    assert!(!found("Éditeur", "é"));
    assert!(!found("éditeur", "É"));
    assert!(alike_chars('a', 'A'));
    assert!(alike_chars('Z', 'z'));
    assert!(alike_chars('q', 'q'));
    assert!(!alike_chars('a', 'B'));
    assert!(!alike_chars('é', 'É'));
    assert!(!alike_chars('@', '`'));
    assert!(!alike_chars('[', '{'));
    for code in 0..128u8 {
        for other in 0..128u8 {
            let (a, b) = (code as char, other as char);
            assert_eq!(alike_chars(a, b), a.eq_ignore_ascii_case(&b), "{:?} {:?}", a, b);
        }
    }
}

#[test]
fn upper_case_letters_are_a_to_z() {
    assert!(is_upper_char('A'));
    assert!(is_upper_char('Z'));
    assert!(!is_upper_char('a'));
    assert!(!is_upper_char('@'));
    assert!(!is_upper_char('['));
    assert!(!is_upper_char('É'));
    assert!(!is_case_sensitive(&letters("")));
    assert!(!is_case_sensitive(&letters("firefox 1|é")));
    assert!(is_case_sensitive(&letters("fireFox")));
    assert!(!is_case_sensitive(&letters("Éa")));
}

#[test]
fn the_rule_agrees_with_the_scorer_on_what_matches() {
    for key in KEYS {
        for query in QUERIES {
            assert_eq!(found(key, query), skim(key, query).is_some(), "{:?} for {:?}", key, query);
        }
    }
}

#[test]
fn score_is_the_score_of_the_skim_matcher() {
    for key in KEYS {
        for query in QUERIES {
            assert_eq!(score(key, query), skim(key, query), "{:?} for {:?}", key, query);
        }
    }
}

#[test]
fn score_of_the_firefox_example() {
    assert_eq!(score("Firefox|Browse the web", "ffx"), Some(51));
    assert_eq!(score("Firefox|Browse the web", "FFX"), None);
}

#[test]
fn tighter_matches_score_higher() {
    let tight = score("firefox", "fire").unwrap();
    let loose = score("f-i-r-e-fox", "fire").unwrap();
    let late = score("the firefox", "fire").unwrap();
    assert!(tight > loose);
    assert!(tight > late);
}

#[test]
fn texts_beyond_the_limit_are_not_scored() {
    let long = "a".repeat(SCORE_LIMIT + 1);
    let at_limit = "a".repeat(SCORE_LIMIT);
    assert_eq!(score(&long, "a"), None);
    assert_eq!(score("a", &long), None);
    assert!(score(&at_limit, "a").is_some());
    assert!(found(&long, "a"));
}
