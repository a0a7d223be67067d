use std::collections::HashSet;

use armamagna::armamagna::{count_words, ArmaMagna};

fn lines(words: &[&str]) -> Vec<String> {
    words.iter().map(|w| w.to_string()).collect()
}

fn run_engine(
    target: &str,
    included: &str,
    mincard: u64,
    maxcard: u64,
    dictionary: &[&str],
) -> Result<Vec<String>, String> {
    let mut am = ArmaMagna::new();
    am.set_options(target, "words.txt", "anagrams.txt", included, mincard, maxcard, 1, 30, 4)?;
    am.anagram(&lines(dictionary))
}

#[test]
fn test_end_to_end_single_word() {
    // target "act", cardinality [1,1]: exactly the three rearrangements
    let found = run_engine("act", "", 1, 1, &["cat", "act", "tac", "dog"]).unwrap();
    let as_set: HashSet<String> = found.iter().cloned().collect();
    assert_eq!(found.len(), as_set.len());
    let expected: HashSet<String> = vec!["act", "cat", "tac"]
        .into_iter()
        .map(|s| s.to_string())
        .collect();
    assert_eq!(as_set, expected);
}

#[test]
fn test_end_to_end_two_words() {
    // target "barman", cardinality [2,2]
    let found = run_engine("barman", "", 2, 2, &["bar", "bra", "man", "nam", "ran"]).unwrap();
    let as_set: HashSet<String> = found.iter().cloned().collect();
    assert_eq!(found.len(), as_set.len());
    let expected: HashSet<String> = vec!["bar man", "bar nam", "bra man", "bra nam"]
        .into_iter()
        .map(|s| s.to_string())
        .collect();
    assert_eq!(as_set, expected);
}

#[test]
fn test_end_to_end_included_text() {
    // target "gabrielino", included "gabri": every line carries "gabri" as
    // one unsplit token, the rest covers the complement "elino"
    let found = run_engine("gabrielino", "gabri", 2, 3, &["lino", "e", "elino", "dog"]).unwrap();
    let as_set: HashSet<String> = found.iter().cloned().collect();
    let expected: HashSet<String> = vec!["e gabri lino", "elino gabri"]
        .into_iter()
        .map(|s| s.to_string())
        .collect();
    assert_eq!(as_set, expected);
    for line in &as_set {
        assert!(line.split(' ').any(|tok| tok == "gabri"));
    }
}

#[test]
fn test_no_duplicate_lines_across_jobs() {
    // "anna" splits into the one-word job [4] and the two-word job [2, 2];
    // no line may appear twice over the whole run
    let found = run_engine("anna", "", 1, 2, &["an", "na", "anna"]).unwrap();
    let as_set: HashSet<String> = found.iter().cloned().collect();
    assert_eq!(found.len(), as_set.len());
    let expected: HashSet<String> = vec!["anna", "an an", "an na", "na na"]
        .into_iter()
        .map(|s| s.to_string())
        .collect();
    assert_eq!(as_set, expected);
}

#[test]
fn test_included_anagram_of_target_rejected() {
    // the included text covers the whole target: rejected before any search
    let mut am = ArmaMagna::new();
    am.set_target_text("act").unwrap();
    let r = am.set_included_text("cat");
    assert!(r.is_err());
}

#[test]
fn test_included_not_subset_rejected() {
    let mut am = ArmaMagna::new();
    am.set_target_text("act").unwrap();
    assert!(am.set_included_text("xyz").is_err());
    // a genuine subset is accepted
    assert!(am.set_included_text("ca").is_ok());
}

#[test]
fn test_restrictions_validation() {
    let mut am = ArmaMagna::new();
    am.set_target_text("gabrielino").unwrap();
    am.set_included_text("gabri").unwrap();
    // min above max
    assert!(am.set_restrictions(3, 2, 1, 30).is_err());
    assert!(am.set_restrictions(1, 30, 5, 2).is_err());
    // cardinality must strictly exceed the one included word
    assert!(am.set_restrictions(1, 3, 1, 30).is_err());
    assert!(am.set_restrictions(2, 1, 1, 30).is_err());
    assert!(am.set_restrictions(2, 3, 1, 30).is_ok());
}

#[test]
fn test_set_options_rejects_bad_configuration() {
    let mut am = ArmaMagna::new();
    let r = am.set_options("act", "d.txt", "o.txt", "act", 1, 1, 1, 30, 4);
    assert!(r.is_err(), "included text equal to the target must be rejected");
}

#[test]
fn test_workers_number_reserves_two_threads() {
    let mut am = ArmaMagna::new();
    am.set_threads_number(8);
    assert_eq!(am.get_workers_number(), 6);
    am.set_threads_number(1);
    assert_eq!(am.get_workers_number(), 1);
    am.set_threads_number(3);
    assert_eq!(am.get_workers_number(), 1);
}

#[test]
fn test_count_words() {
    assert_eq!(count_words(""), 0);
    assert_eq!(count_words("one"), 1);
    assert_eq!(count_words("one two"), 2);
    assert_eq!(count_words("  spaced   out "), 2);
}

#[test]
fn test_anagram_propagates_dictionary_error() {
    let mut am = ArmaMagna::new();
    am.set_options("act", "d.txt", "o.txt", "", 1, 1, 1, 30, 4).unwrap();
    let too_long: Vec<String> = vec!["a".repeat(46)];
    assert!(am.anagram(&too_long).is_err());
}
