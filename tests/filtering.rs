use wordle_helper::constraints::{filter_words, Word};

fn strings(words: &[&str]) -> Vec<String> {
    words.iter().map(|w| w.to_string()).collect()
}

#[test]
fn known_letters_and_excluded_letter_narrow_the_list() {
    let words = strings(&["apple", "angle", "ankle", "amble"]);
    let mut word = Word::new();
    word.set_known(0, "a".to_string());
    word.set_known(1, "n".to_string());
    word.set_excluded("p".to_string());
    assert_eq!(filter_words(&words, &word), strings(&["angle", "ankle"]));
}

#[test]
fn misplaced_letter_must_be_elsewhere() {
    let mut word = Word::new();
    word.set_misplaced(0, "e".to_string());
    assert!(!word.matches("eagle"));
    assert!(word.matches("angle"));
    assert!(!word.matches("tramp"));
}

#[test]
fn empty_list_filters_to_empty() {
    let mut word = Word::new();
    word.set_known(2, "x".to_string());
    assert!(filter_words(&Vec::new(), &word).is_empty());
    assert!(filter_words(&Vec::new(), &Word::new()).is_empty());
}

#[test]
fn blank_constraints_keep_the_list_in_order() {
    let words = strings(&["zebra", "apple", "mango", "apple"]);
    assert_eq!(filter_words(&words, &Word::new()), words);
    assert_eq!(filter_words(&words, &Word::default()), words);
}

#[test]
fn words_of_another_length_never_match() {
    let word = Word::new();
    assert!(!word.matches("abc"));
    assert!(!word.matches("abcdef"));
    assert!(!word.matches(""));
    let words = strings(&["abc", "hello", "worlds"]);
    assert_eq!(filter_words(&words, &word), strings(&["hello"]));
}

#[test]
fn a_match_agrees_with_every_kind_of_knowledge() {
    let mut word = Word::new();
    word.set_known(4, "e".to_string());
    word.set_misplaced(0, "r".to_string());
    word.set_excluded("xyz".to_string());
    assert!(word.matches("crane"));
    // 'r' at the flagged position
    assert!(!word.matches("rinse"));
    // no 'r' at all
    assert!(!word.matches("stone"));
    // an absent letter
    assert!(!word.matches("craze"));
    // wrong letter at the known position
    assert!(!word.matches("cranz"));
}

#[test]
fn excluded_letters_are_checked_everywhere() {
    let mut word = Word::new();
    word.set_excluded("qt".to_string());
    assert!(!word.matches("quiet"));
    assert!(!word.matches("elbot"));
    assert!(word.matches("hello"));
}

#[test]
fn letters_compare_case_sensitively() {
    let mut word = Word::new();
    word.set_known(0, "a".to_string());
    assert!(word.matches("apple"));
    assert!(!word.matches("Apple"));
}

#[test]
fn filter_hands_back_a_copy_of_a_match() {
    let mut word = Word::new();
    word.set_known(0, "s".to_string());
    assert_eq!(word.filter("stone"), Some("stone".to_string()));
    assert_eq!(word.filter("crane"), None);
}

#[test]
fn knowing_a_letter_clears_it_from_misplaced_slots() {
    let mut word = Word::new();
    word.set_misplaced(0, "ab".to_string());
    word.set_misplaced(3, "ba".to_string());
    word.set_known(2, "a".to_string());
    assert_eq!(word.chars[2], "a");
    assert_eq!(word.wrong_pos[0], "b");
    assert_eq!(word.wrong_pos[3], "b");
    assert_eq!(word.wrong_pos[1], "");
}

#[test]
fn clearing_a_known_letter_keeps_misplaced_slots() {
    let mut word = Word::new();
    word.set_known(1, "o".to_string());
    word.set_misplaced(0, "ro".to_string());
    word.set_known(1, String::new());
    assert_eq!(word.chars[1], "");
    assert_eq!(word.wrong_pos[0], "ro");
}

#[test]
fn misplaced_letters_skip_the_known_letter_there() {
    let mut word = Word::new();
    word.set_known(0, "s".to_string());
    word.set_misplaced(0, "tsa".to_string());
    assert_eq!(word.wrong_pos[0], "ta");
    word.set_misplaced(1, "s".to_string());
    assert_eq!(word.wrong_pos[1], "s");
}

#[test]
fn new_constraints_know_nothing() {
    let word = Word::new();
    assert_eq!(word.chars.len(), 5);
    assert_eq!(word.wrong_pos.len(), 5);
    assert!(word.chars.iter().all(|c| c.is_empty()));
    assert!(word.wrong_pos.iter().all(|c| c.is_empty()));
    assert!(word.wrong.is_empty());
}
