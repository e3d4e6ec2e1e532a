use std::collections::{HashMap, HashSet};

use words::check_word_list::{
    check_list_letters, count_word_length, filter_words_by_length, leo_knows_word,
    read_word_list_from_lines, trim_and_capitalize_list, Key, WordList,
};
use words::word_list_format::WordLengths;

fn strings(v: &[&str]) -> Vec<String> {
    v.iter().map(|s| s.to_string()).collect()
}

fn set(v: &[String]) -> HashSet<String> {
    v.iter().cloned().collect()
}

fn list(secret: &[&str], public: &[&str]) -> WordList {
    WordList {
        secret_words: strings(secret),
        none_secret_words: strings(public),
        allowed_letters: vec!['A', 'B', 'C', 'D', 'E', 'L', 'R', 'S', 'T'],
        keys: vec![],
        available_word_lengths: WordLengths::default(),
    }
}

#[test]
fn test_word_length_counter() {
    let actual = count_word_length(&strings(&["Hause", "House", "nest"]));
    let expected = HashMap::from([(5, 2), (4, 1)]);
    assert_eq!(actual, expected);
}

#[test]
fn check_word_list_test() {
    let lines = strings(&[
        "1Q,W,E,R,T",
        "2A,S,D,F",
        "3DEL,Y,SEND",
        "4LENGTHS:4,5,6",
        "ÄALE",
        "AAREAL",
        "AALFANG",
        "ABAKUS",
        "AALNETZ",
        "AALKORB",
        "-----",
        "AARE",
        "BUCH",
    ]);
    let actual_word_list = read_word_list_from_lines(&lines).unwrap();
    assert_eq!(
        set(&actual_word_list.secret_words),
        set(&strings(&["ÄALE", "AAREAL", "AALFANG", "ABAKUS", "AALNETZ", "AALKORB"]))
    );
    assert_eq!(set(&actual_word_list.none_secret_words), set(&strings(&["AARE", "BUCH"])));
    let letters: HashSet<char> = actual_word_list.allowed_letters.iter().cloned().collect();
    assert_eq!(letters, vec!['W', 'Y', 'Q', 'T', 'D', 'E', 'A', 'S', 'F', 'R'].into_iter().collect());
    assert_eq!(
        actual_word_list.keys,
        vec![
            vec![Key::Letter('Q'), Key::Letter('W'), Key::Letter('E'), Key::Letter('R'), Key::Letter('T')],
            vec![Key::Letter('A'), Key::Letter('S'), Key::Letter('D'), Key::Letter('F')],
            vec![Key::Del, Key::Letter('Y'), Key::Enter],
        ]
    );
    assert_eq!(
        actual_word_list.available_word_lengths,
        WordLengths { l4: true, l5: true, l6: true, ..Default::default() }
    );
}

#[test]
fn lists_are_trimmed_and_put_in_upper_case() {
    assert_eq!(set(&trim_and_capitalize_list(&strings(&[" abc ", "ABC", "straße"]))), set(&strings(&["ABC", "STRASSE"])));
    let mut wl = list(&[" dear", "tear "], &["Read"]);
    wl.upper_case_lists();
    assert_eq!(set(&wl.secret_words), set(&strings(&["DEAR", "TEAR"])));
    assert_eq!(set(&wl.none_secret_words), set(&strings(&["READ"])));
}

#[test]
fn secret_words_leave_the_public_list() {
    let mut wl = list(&["DEAR", "TEAR"], &["READ", "DEAR"]);
    wl.remove_duplicates();
    assert_eq!(set(&wl.none_secret_words), set(&strings(&["READ"])));
    assert_eq!(set(&wl.secret_words), set(&strings(&["DEAR", "TEAR"])));
}

#[test]
fn words_of_unplayable_length_go() {
    assert_eq!(
        set(&filter_words_by_length(&strings(&["ABC", "ABCD", "ABCDEFGHIJK", "ABCDEFGHIJKL", "ÄÖÜß"]))),
        set(&strings(&["ABCD", "ABCDEFGHIJK", "ÄÖÜß"]))
    );
    let mut wl = list(&["ABC", "ABCDE"], &["ABCDEFGHIJKLM", "ABCD"]);
    wl.remove_words_with_illegal_word_lengths();
    assert_eq!(wl.secret_words, strings(&["ABCDE"]));
    assert_eq!(wl.none_secret_words, strings(&["ABCD"]));
}

#[test]
fn words_with_letters_off_the_keyboard_are_reported() {
    let letters = vec!['A', 'B'];
    assert_eq!(check_list_letters(&letters, &strings(&["ABBA", "ABC", "BAD", "AB"])), strings(&["ABC", "BAD"]));
    let wl = list(&["DEAR", "DEAX"], &["READ", "ZERO"]);
    assert_eq!(wl.check_for_illegal_letters(), strings(&["DEAX", "ZERO"]));
}

#[test]
fn statistics_per_length() {
    let wl = list(&["DEAR", "TEARS"], &["READ", "STARED", "BREAD"]);
    let s = wl.statistics();
    let rows: Vec<(usize, usize, usize)> = s.iter().map(|x| (x.length, x.total, x.secret)).collect();
    assert_eq!(rows, vec![(4, 2, 1), (5, 2, 1), (6, 1, 0)]);
    assert_eq!(wl.total_words(), 5);
}

#[test]
fn stored_lines_are_sorted_and_separated() {
    let wl = list(&["TEAR", "DEAR"], &["READ", "BEAD"]);
    assert_eq!(
        wl.store_lines(),
        strings(&["DEAR", "TEAR", "----^^^^^-secret-^^^^----vvvv-public-vvvv----", "BEAD", "READ"])
    );
    let wl = list(&["TEAR", "DEAR"], &[]);
    assert_eq!(wl.store_lines(), strings(&["DEAR", "TEAR"]));
}

#[test]
fn the_dictionary_answer_tells_unknown_words() {
    assert!(leo_knows_word("<html>Treffer: house</html>"));
    assert!(!leo_knows_word("<p>Es existiert derzeit auch keine Diskussion</p>"));
}

#[test]
fn a_stored_list_reads_back() {
    let wl = list(&["TEAR", "DEAR"], &["READ", "BEAD"]);
    let mut lines = strings(&["1Q,W,E,R,T", "2A,S,D,F", "3DEL,Y,SEND", "4LENGTHS:4,5,6"]);
    lines.extend(wl.store_lines());
    let back = read_word_list_from_lines(&lines).unwrap();
    assert_eq!(set(&back.secret_words), set(&wl.secret_words));
    assert_eq!(set(&back.none_secret_words), set(&wl.none_secret_words));
}
