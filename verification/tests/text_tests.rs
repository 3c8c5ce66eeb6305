use search_optimizer::levenshtein_distance;
use search_optimizer::tokenize;

#[test]
fn tokenize_lowercases_and_splits() {
    let toks = tokenize("Hello, World!");
    assert_eq!(toks, vec!["hello".to_string(), "world".to_string()]);
}

#[test]
fn tokenize_drops_single_character_runs() {
    let toks = tokenize("a bc d ef");
    assert_eq!(toks, vec!["bc".to_string(), "ef".to_string()]);
}

#[test]
fn tokenize_keeps_duplicates_in_order() {
    let toks = tokenize("red house red house");
    assert_eq!(
        toks,
        vec![
            "red".to_string(),
            "house".to_string(),
            "red".to_string(),
            "house".to_string()
        ]
    );
}

#[test]
fn tokenize_splits_on_every_nonalphanumeric() {
    let toks = tokenize("top-level_name99/end");
    assert_eq!(
        toks,
        vec![
            "top".to_string(),
            "level".to_string(),
            "name99".to_string(),
            "end".to_string()
        ]
    );
}

#[test]
fn tokenize_empty_text() {
    let toks = tokenize("");
    assert!(toks.is_empty());
}

#[test]
fn tokenize_unicode_lowercase() {
    let toks = tokenize("CAFE Mode ECRAN");
    assert_eq!(
        toks,
        vec!["cafe".to_string(), "mode".to_string(), "ecran".to_string()]
    );
}

#[test]
fn levenshtein_concrete_value() {
    assert_eq!(levenshtein_distance("kitten", "sitting"), 3);
    assert_eq!(levenshtein_distance("house", "hous"), 1);
}

#[test]
fn levenshtein_symmetric() {
    assert_eq!(
        levenshtein_distance("sunday", "saturday"),
        levenshtein_distance("saturday", "sunday")
    );
}

#[test]
fn levenshtein_self_is_zero() {
    assert_eq!(levenshtein_distance("identical", "identical"), 0);
}

#[test]
fn levenshtein_empty_is_length() {
    assert_eq!(levenshtein_distance("", "abcde"), 5);
    assert_eq!(levenshtein_distance("abc", ""), 3);
}
