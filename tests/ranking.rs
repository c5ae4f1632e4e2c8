use wordle_helper::candidates;
use wordle_helper::constraints::Word;
use wordle_helper::ranking::{distinct_letters, rank, sort_possible_by_entropy};

fn strings(words: &[&str]) -> Vec<String> {
    words.iter().map(|w| w.to_string()).collect()
}

#[test]
fn more_distinct_letters_rank_first() {
    assert_eq!(rank(&strings(&["abcde", "aabbc"])), strings(&["abcde", "aabbc"]));
    assert_eq!(rank(&strings(&["aabbc", "abcde"])), strings(&["abcde", "aabbc"]));
}

#[test]
fn ranking_empty_list_gives_empty_list() {
    assert!(rank(&Vec::new()).is_empty());
}

#[test]
fn distinct_letters_are_counted_once() {
    assert_eq!(distinct_letters("abcde"), 5);
    assert_eq!(distinct_letters("aabbc"), 3);
    assert_eq!(distinct_letters("aaaaa"), 1);
    assert_eq!(distinct_letters(""), 0);
    assert_eq!(distinct_letters("Aa"), 2);
}

#[test]
fn equal_counts_keep_their_order() {
    let words = strings(&["hello", "crane", "sassy", "adieu", "apple", "geese"]);
    // counts: 4, 5, 3, 5, 4, 3
    assert_eq!(
        rank(&words),
        strings(&["crane", "adieu", "hello", "apple", "sassy", "geese"])
    );
}

#[test]
fn ranking_twice_changes_nothing() {
    let words = strings(&["sassy", "hello", "crane", "geese", "adieu"]);
    let once = rank(&words);
    assert_eq!(rank(&once), once);
}

#[test]
fn ranking_keeps_every_word() {
    let words = strings(&["sassy", "hello", "crane", "hello", "adieu"]);
    let mut ranked = rank(&words);
    let mut original = words.clone();
    ranked.sort();
    original.sort();
    assert_eq!(ranked, original);
}

#[test]
fn rank_leaves_its_input_alone() {
    let words = strings(&["aabbc", "abcde"]);
    let _ = rank(&words);
    assert_eq!(words, strings(&["aabbc", "abcde"]));
}

#[test]
fn sorting_in_place_ranks_the_list() {
    let mut possible = strings(&["geese", "aabbc", "abcde", "hello"]);
    sort_possible_by_entropy(&mut possible);
    assert_eq!(possible, strings(&["abcde", "hello", "geese", "aabbc"]));
}

#[test]
fn candidates_filter_then_rank() {
    let words = strings(&["sassy", "slate", "spree", "stone", "crane"]);
    let mut word = Word::new();
    word.set_known(0, "s".to_string());
    assert_eq!(
        candidates(&words, &word),
        strings(&["slate", "stone", "spree", "sassy"])
    );
}
