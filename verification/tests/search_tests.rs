use std::collections::HashSet;

use armamagna::dictionarium::Dictionarium;
use armamagna::search::SearchThread;
use armamagna::signature::Signature;

fn create_mock_dictionarium(words: Vec<&'static str>, target_text: &str) -> Dictionarium {
    let lines: Vec<String> = words.into_iter().map(|w| w.to_string()).collect();
    let mut dict = Dictionarium::new();
    dict.read_word_list(&lines, target_text).unwrap();
    dict
}

#[test]
fn test_search_thread_basic_anagram() {
    let target_sig = Signature::new("act");
    let dict_words = vec!["cat", "act", "tac", "dog"];
    let dict = create_mock_dictionarium(dict_words, "act");

    let word_lengths = vec![3];
    let search_thread = SearchThread::new(&dict, target_sig, "".to_string(), word_lengths);

    let anagrams_found: HashSet<String> = search_thread.run().into_iter().collect();
    let expected_anagrams: HashSet<String> = vec!["act", "cat", "tac"]
        .into_iter()
        .map(|s| s.to_string())
        .collect();

    assert_eq!(
        anagrams_found, expected_anagrams,
        "Should find all single-word anagrams"
    );
}

#[test]
fn test_search_thread_multi_word_anagram() {
    // Target: "barman" (a=2, b=1, m=1, n=1, r=1)
    let target_sig = Signature::new("barman");
    let dict_words = vec!["bar", "bra", "man", "nam", "ran"];
    let dict = create_mock_dictionarium(dict_words, "barman");

    let word_lengths = vec![3, 3];
    let search_thread = SearchThread::new(&dict, target_sig, "".to_string(), word_lengths);

    let anagrams_found: HashSet<String> = search_thread.run().into_iter().collect();

    // Valid combinations that form "barman" are (bar/bra) + (man/nam).
    // The output is sorted alphabetically, joined by a space.
    let expected_anagrams: HashSet<String> = vec![
        "bar man".to_string(), // bar + man
        "bar nam".to_string(), // bar + nam
        "bra man".to_string(), // bra + man
        "bra nam".to_string(), // bra + nam
    ]
    .into_iter()
    .collect();

    assert_eq!(
        anagrams_found, expected_anagrams,
        "Should find all multi-word anagrams"
    );
}

#[test]
fn test_search_thread_emits_no_duplicates() {
    // "anna": two 2-letter halves "an" + "na" share one signature, so many
    // leaf expansions produce the same canonical line; each must appear once
    let target_sig = Signature::new("anna");
    let dict = create_mock_dictionarium(vec!["an", "na"], "anna");

    let search_thread = SearchThread::new(&dict, target_sig, "".to_string(), vec![2, 2]);
    let found = search_thread.run();
    let as_set: HashSet<String> = found.iter().cloned().collect();
    assert_eq!(found.len(), as_set.len(), "no canonical line may repeat");
    let expected: HashSet<String> = vec!["an na", "an an", "na na"]
        .into_iter()
        .map(|s| s.to_string())
        .collect();
    assert_eq!(as_set, expected);
}

#[test]
fn test_search_thread_with_included_token() {
    // target "gabrielino" with "gabri" fixed: the search covers "elino"
    let included = "gabri".to_string();
    let actual_sig = Signature::new("elino");
    let dict = create_mock_dictionarium(vec!["lino", "e", "elino"], "gabrielino");

    // one job for "lino" + "e", one for "elino"
    let two_words = SearchThread::new(&dict, actual_sig, included.clone(), vec![1, 4]);
    let one_word = SearchThread::new(&dict, actual_sig, included, vec![5]);
    let mut found: Vec<String> = two_words.run();
    found.extend(one_word.run());

    let as_set: HashSet<String> = found.into_iter().collect();
    let expected: HashSet<String> = vec!["e gabri lino", "elino gabri"]
        .into_iter()
        .map(|s| s.to_string())
        .collect();
    assert_eq!(as_set, expected);
    for line in &as_set {
        assert!(line.split(' ').any(|tok| tok == "gabri"));
    }
}
