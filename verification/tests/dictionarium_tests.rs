use armamagna::dictionarium::{normalize_string, Dictionarium, MAX_WORD_LENGTH};
use armamagna::signature::Signature;

fn lines(words: &[&str]) -> Vec<String> {
    words.iter().map(|w| w.to_string()).collect()
}

#[test]
fn test_read_word_list_basic() {
    let word_lines = lines(&["gabri", "glorietta", "qwertyuiop"]);
    let target_text = "gabrielinoglorietta";

    let mut dict = Dictionarium::new();
    let result = dict.read_word_list(&word_lines, target_text).unwrap();

    // Check the number of words read
    assert_eq!(result, 3);
    assert!(dict.get_reduced_words_number() > 0);

    // Check that all words in sections are subset of the source
    let source_sig = Signature::new(&normalize_string(target_text));
    for len in dict.get_available_lengths(0, MAX_WORD_LENGTH) {
        let section = dict.get_section(len);
        for m in 0..section.entry_count() {
            for word in section.words_at(m) {
                let sig = Signature::new(&normalize_string(word));
                assert!(sig.is_subset_of(&source_sig));
            }
        }
    }
}

#[test]
fn test_get_words_and_sections() {
    let word_lines = lines(&["gabri", "gabriele"]);
    let source_text = "gabrieleito";

    let mut dict = Dictionarium::new();
    dict.read_word_list(&word_lines, source_text).unwrap();

    let lengths = dict.get_available_lengths(0, MAX_WORD_LENGTH);
    assert!(lengths.contains(&5)); // "gabri"
    assert!(lengths.contains(&8)); // "gabriele"

    for len in lengths {
        let section = dict.get_section(len);
        for m in 0..section.entry_count() {
            for word in section.words_at(m) {
                assert!(word.len() == len);
            }
        }
    }
}

#[test]
fn test_get_words_by_signature() {
    let word_lines = lines(&["cat", "act", "dog"]);
    let mut dict = Dictionarium::new();
    dict.read_word_list(&word_lines, "act").unwrap();
    // "dog" is filtered out; "cat" and "act" share one signature
    assert_eq!(dict.get_reduced_words_number(), 2);
    let words = dict.get_words(&Signature::new("act"));
    assert_eq!(words.len(), 2);
    assert!(words.contains(&"cat".to_string()));
    assert!(words.contains(&"act".to_string()));
}

#[test]
fn test_read_word_list_rejects_long_word() {
    // one letter more than the longest supported word
    let long_word: String = "a".repeat(MAX_WORD_LENGTH + 1);
    let word_lines = vec![long_word];
    let mut dict = Dictionarium::new();
    let result = dict.read_word_list(&word_lines, "act");
    assert!(result.is_err());
}

#[test]
fn test_read_word_list_skips_blank_lines() {
    let word_lines = lines(&["", "  ", "act"]);
    let mut dict = Dictionarium::new();
    let read = dict.read_word_list(&word_lines, "act").unwrap();
    // only the non-empty normalized word counts
    assert_eq!(read, 1);
    assert_eq!(dict.get_reduced_words_number(), 1);
}

#[test]
fn test_available_lengths_respects_range() {
    let word_lines = lines(&["a", "ab", "abc"]);
    let mut dict = Dictionarium::new();
    dict.read_word_list(&word_lines, "aabbcc").unwrap();
    assert_eq!(dict.get_available_lengths(0, MAX_WORD_LENGTH), vec![1, 2, 3]);
    assert_eq!(dict.get_available_lengths(2, 2), vec![2]);
    assert_eq!(dict.get_available_lengths(4, MAX_WORD_LENGTH), Vec::<usize>::new());
}

#[test]
fn test_normalize_string_folds_and_filters() {
    assert_eq!(normalize_string("Héllo, Wörld!"), "helloworld");
    assert_eq!(normalize_string("ABC def"), "abcdef");
    assert_eq!(normalize_string("123 !?"), "");
}
