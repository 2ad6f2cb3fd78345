use words_with_fam::engine::dictionary::Dictionary;

#[test]
fn membership_is_case_insensitive() {
    let dict = Dictionary::from_words(&["hello", "WORLD", "Quiz"]);
    assert!(dict.contains("HELLO"));
    assert!(dict.contains("hello"));
    assert!(dict.contains("world"));
    assert!(dict.contains("quiz"));
    assert!(!dict.contains("zzz"));
    assert_eq!(dict.len(), 3);
}

#[test]
fn blank_lines_ignored() {
    let dict = Dictionary::from_words(&["cat", "", "  ", "dog"]);
    assert_eq!(dict.len(), 2);
}

#[test]
fn surrounding_whitespace_is_trimmed() {
    let dict = Dictionary::from_words(&["  cat\t", "dog\n"]);
    assert!(dict.contains("CAT"));
    assert!(dict.contains(" dog "));
    assert!(!dict.contains("do g"));
    assert!(!dict.contains(""));
    assert!(!dict.is_empty());
}

#[test]
fn duplicates_count_once() {
    let dict = Dictionary::from_words(&["Cat", "CAT", "cat "]);
    assert_eq!(dict.len(), 1);
    let empty = Dictionary::from_words(&[]);
    assert!(empty.is_empty());
    assert_eq!(empty.len(), 0);
}
