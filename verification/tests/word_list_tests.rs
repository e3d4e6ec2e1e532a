use std::collections::HashSet;

use words::game::read_word_list;
use words::game::word_list::{read_word_list_from_lines, word_list_name};
use words::onscreen_button::Key;
use words::word_list_format::{get_available_word_lengths, header_would_panic, WordLengths, WordListError};

fn lines(ls: &[&str]) -> Vec<String> {
    ls.iter().map(|l| l.to_string()).collect()
}

fn set(v: &[String]) -> HashSet<String> {
    v.iter().cloned().collect()
}

fn strings(v: &[&str]) -> HashSet<String> {
    v.iter().map(|s| s.to_string()).collect()
}

fn test_file() -> Vec<String> {
    lines(&[
        "1Q,W,E,R,T",
        "2A,S,D,F",
        "3DEL,Y,SEND",
        "4LENGTHS:4,5,6",
        "ÄALE",
        "AAREAL",
        "AALFANG",
        "ABAKUS",
        "AALNETZ",
        "AALKORB",
        "-----",
        "AARE",
        "BUCH",
    ])
}

fn test_keys() -> Vec<Vec<Key>> {
    vec![
        vec![Key::Letter('Q'), Key::Letter('W'), Key::Letter('E'), Key::Letter('R'), Key::Letter('T')],
        vec![Key::Letter('A'), Key::Letter('S'), Key::Letter('D'), Key::Letter('F')],
        vec![Key::Del, Key::Letter('Y'), Key::Enter],
    ]
}

#[test]
fn word_list_test() {
    let actual_word_list = read_word_list_from_lines(&test_file(), 4).unwrap().unwrap();
    assert_eq!(set(&actual_word_list.secret_words), strings(&["ÄALE"]));
    assert_eq!(set(&actual_word_list.none_secret_words), strings(&["AARE", "BUCH"]));
    let letters: HashSet<char> = actual_word_list.allowed_letters.iter().cloned().collect();
    assert_eq!(letters, vec!['W', 'Y', 'Q', 'T', 'D', 'E', 'A', 'S', 'F', 'R'].into_iter().collect());
    assert_eq!(actual_word_list.keys, test_keys());
    assert_eq!(
        actual_word_list.available_word_lengths,
        WordLengths { l4: true, l5: true, l6: true, ..Default::default() }
    );
    assert!(actual_word_list.contains("AARE"));
    assert!(actual_word_list.contains("ÄALE"));
    assert!(!actual_word_list.contains("AAREAL"));
}

#[test]
fn word_list_without_the_length() {
    assert!(read_word_list_from_lines(&test_file(), 7).unwrap().is_none());
    let six = read_word_list_from_lines(&test_file(), 6).unwrap().unwrap();
    assert_eq!(set(&six.secret_words), strings(&["AAREAL", "ABAKUS"]));
    assert!(six.none_secret_words.is_empty());
}

#[test]
fn read_word_list_test() {
    let ls = lines(&[
        "1Q,W,E,R,T",
        "2A,S,D,F",
        "3DEL,Y,SEND",
        "4LENGTHS:4,5,6",
        "AARE",
        "AALE",
        "AALFANG",
    ]);
    let actual_word_list = read_word_list::read_word_list_from_lines(&ls, 4).unwrap();
    assert_eq!(set(&actual_word_list.allowed_words), strings(&["AARE", "AALE"]));
    let letters: HashSet<char> = actual_word_list.allowed_letters.iter().cloned().collect();
    assert_eq!(letters, vec!['W', 'Y', 'Q', 'T', 'D', 'E', 'A', 'S', 'F', 'R'].into_iter().collect());
    assert_eq!(actual_word_list.keys, test_keys());
    assert_eq!(actual_word_list.available_word_lengths, vec![4, 5, 6]);
}

#[test]
fn legacy_reader_counts_letters() {
    let actual_word_list = read_word_list::read_word_list_from_lines(&test_file(), 4).unwrap();
    assert_eq!(set(&actual_word_list.allowed_words), strings(&["ÄALE", "AARE", "BUCH"]));
}

#[test]
fn legacy_reader_wants_the_upper_case_prefix() {
    let ls = lines(&["1Q", "2A", "3Y", "4Lengths:4,5"]);
    let r = read_word_list::read_word_list_from_lines(&ls, 4);
    assert!(matches!(r, Err(WordListError::WrongLengthsPrefix(l)) if l == "4Lengths:4,5"));
}

#[test]
fn legacy_length_that_is_no_number() {
    let ls = lines(&["1Q", "2A", "3Y", "4LENGTHS:4,x"]);
    let r = read_word_list::read_word_list_from_lines(&ls, 4);
    assert!(matches!(r, Err(WordListError::InvalidLength(t)) if t == "x"));
}

#[test]
fn file_too_short() {
    let r = read_word_list_from_lines(&lines(&["1Q,W"]), 4);
    assert!(matches!(r, Err(WordListError::FileTooShort)));
    let r = read_word_list_from_lines(&lines(&["1Q", "2A", "3Y"]), 4);
    assert!(matches!(r, Err(WordListError::FileTooShort)));
}

#[test]
fn keys_line_too_short() {
    let r = read_word_list_from_lines(&lines(&["", "2A", "3Y", "4LENGTHS:4"]), 4);
    assert!(matches!(r, Err(WordListError::KeysLineTooShort(l)) if l.is_empty()));
}

#[test]
fn invalid_row_number() {
    let r = read_word_list_from_lines(&lines(&["XQ,W", "2A", "3Y", "4LENGTHS:4"]), 4);
    assert!(matches!(r, Err(WordListError::InvalidRowNumber(t)) if t == "X"));
}

#[test]
fn unexpected_row_number() {
    let r = read_word_list_from_lines(&lines(&["1Q", "3A", "2Y", "4LENGTHS:4"]), 4);
    assert!(matches!(r, Err(WordListError::UnexpectedRowNumber)));
}

#[test]
fn lengths_line_too_short() {
    let r = read_word_list_from_lines(&lines(&["1Q", "2A", "3Y", "4LEN"]), 4);
    assert!(matches!(r, Err(WordListError::LengthsLineTooShort(l)) if l == "4LEN"));
}

#[test]
fn wrong_lengths_prefix() {
    let r = read_word_list_from_lines(&lines(&["1Q", "2A", "3Y", "4Lengths:4,5"]), 4);
    assert!(matches!(r, Err(WordListError::WrongLengthsPrefix(l)) if l == "4Lengths:4,5"));
}

#[test]
fn unsupported_length() {
    let r = read_word_list_from_lines(&lines(&["1Q", "2A", "3Y", "4LENGTHS:4,12,x"]), 4);
    assert!(matches!(r, Err(WordListError::UnsupportedLength(t)) if t == "12"));
}

#[test]
fn word_list_names_drop_their_extension() {
    assert_eq!(word_list_name("English.txt"), "English");
    assert_eq!(word_list_name("Übung.txt"), "Übung");
}

#[test]
fn order_and_repeats_of_lengths_do_not_matter() {
    let a = get_available_word_lengths("4LENGTHS:6,4,6").unwrap();
    let b = get_available_word_lengths("4LENGTHS:4,6").unwrap();
    assert_eq!(a, b);
    assert!(get_available_word_lengths("4LENGTHS:12,4").is_err());
    assert!(get_available_word_lengths("4LENGTHS:4,12,4").is_err());
}

#[test]
fn an_empty_key_stops_the_reader() {
    assert!(header_would_panic(&lines(&["1Q,,W", "2A", "3Y"])));
    assert!(header_would_panic(&lines(&["1Q,W", "2A,", "3Y"])));
    assert!(header_would_panic(&lines(&["1Q,W", "3A,", "2Y"])));
    assert!(!header_would_panic(&lines(&["1Q,W", "3A", "2Y,"])));
    assert!(!header_would_panic(&test_file()));
    assert!(!header_would_panic(&lines(&[])));
}
