use words::game::app::{choose_word_list, key_message, key_press_messages, App, AppMsg, CommandMsg, Effect, Page};
use words::game::word_list::read_word_list_from_lines;
use words::game::{calculate_color, get_index, pick_random_word};
use words::letter::{Coord, Format};
use words::onscreen_button::{self, Key};

fn lines(ls: &[&str]) -> Vec<String> {
    ls.iter().map(|l| l.to_string()).collect()
}

/// A word list whose only secret word of four letters is DEAR.
fn dear_list() -> Vec<String> {
    lines(&[
        "1Q,W,E,R,T",
        "2A,S,D,F",
        "3DEL,Y,SEND",
        "4LENGTHS:4,5,6",
        "DEAR",
        "ABAKUS",
        "-----",
        "AARE",
        "READ",
    ])
}

fn new_game(ls: Vec<String>) -> App {
    let list = read_word_list_from_lines(&ls, 4).unwrap().unwrap();
    App::new(list, 4, "Test".to_owned())
}

fn type_word(app: &mut App, word: &str) {
    for c in word.chars() {
        app.update(AppMsg::EnterLetter(c));
    }
}

fn row_text(app: &App, row: usize) -> String {
    app.letters[row].iter().map(|l| l.value.clone()).collect()
}

#[test]
fn find_string() {
    let strings = vec!["one".to_owned(), "two".to_owned(), "three".to_owned()];
    let string = "two";

    let actual = get_index(&strings, string);
    assert_eq!(actual, Some(1));
}

#[test]
fn not_find_string() {
    let strings = vec!["one".to_owned(), "two".to_owned(), "three".to_owned()];
    let string = "four";

    let actual = get_index(&strings, string);
    assert_eq!(actual, None);
}

#[test]
fn test_exact_match() {
    let result = calculate_color("hello", "hello");
    assert_eq!(
        result,
        vec![
            Format::ExactMatch,
            Format::ExactMatch,
            Format::ExactMatch,
            Format::ExactMatch,
            Format::ExactMatch
        ]
    );
}

#[test]
fn test_no_match() {
    let result = calculate_color("hello", "rqdas");
    assert_eq!(
        result,
        vec![
            Format::NoMatch,
            Format::NoMatch,
            Format::NoMatch,
            Format::NoMatch,
            Format::NoMatch
        ]
    );
}

#[test]
fn test_partial_match() {
    let result = calculate_color("hello", "ollzx");
    assert_eq!(
        result,
        vec![
            Format::Match,
            Format::Match,
            Format::ExactMatch,
            Format::NoMatch,
            Format::NoMatch
        ]
    );
}

#[test]
fn test_mixed_match() {
    let result = calculate_color("crate", "trace");
    assert_eq!(
        result,
        vec![
            Format::Match,
            Format::ExactMatch,
            Format::ExactMatch,
            Format::Match,
            Format::ExactMatch
        ]
    );
}

#[test]
fn test_extra_letters() {
    let result = calculate_color("apple", "allee");
    assert_eq!(
        result,
        vec![
            Format::ExactMatch,
            Format::Match,
            Format::NoMatch,
            Format::NoMatch,
            Format::ExactMatch
        ]
    );
}

#[test]
fn coloring_has_one_entry_per_byte_of_the_secret_word() {
    // Ä takes two bytes: the colouring has five entries, the last one unused.
    let result = calculate_color("ÄALE", "AARE");
    assert_eq!(
        result,
        vec![
            Format::NoMatch,
            Format::ExactMatch,
            Format::NoMatch,
            Format::ExactMatch,
            Format::NoMatch
        ]
    );
}

#[test]
fn identical_guess_is_all_exact() {
    let result = calculate_color("level", "level");
    assert!(result.iter().all(|f| *f == Format::ExactMatch));
}

#[test]
fn partial_matches_do_not_exceed_the_letters_left() {
    // one L is left over after the exact hit; only the first extra L matches
    let result = calculate_color("xlxlx", "llllz");
    assert_eq!(
        result,
        vec![Format::NoMatch, Format::ExactMatch, Format::NoMatch, Format::ExactMatch, Format::NoMatch]
    );
    let result = calculate_color("lxxxx", "zllll");
    assert_eq!(
        result,
        vec![Format::NoMatch, Format::Match, Format::NoMatch, Format::NoMatch, Format::NoMatch]
    );
}

#[test]
fn absent_letter_is_no_match() {
    let result = calculate_color("abcde", "zzzzz");
    assert!(result.iter().all(|f| *f == Format::NoMatch));
}

#[test]
fn random_word_is_from_the_list() {
    let words = vec!["ONE".to_owned(), "TWO".to_owned(), "SIX".to_owned()];
    for _ in 0..20 {
        let w = pick_random_word(&words);
        assert!(words.contains(&w));
    }
}

#[test]
fn new_game_uses_the_secret_word_and_a_fresh_grid() {
    let app = new_game(dear_list());
    assert_eq!(app.word, "DEAR");
    assert_eq!(app.attempts, 0);
    assert_eq!(app.current_ui_page, Page::Game);
    assert_eq!(app.selected_letter, Coord { column: 0, row: 0 });
    assert_eq!(app.letters.len(), 6);
    for (r, row) in app.letters.iter().enumerate() {
        assert_eq!(row.len(), 4);
        for (c, cell) in row.iter().enumerate() {
            assert!(cell.value.is_empty());
            assert_eq!(cell.format, Format::NotUsed);
            assert_eq!(cell.selected, r == 0 && c == 0);
        }
    }
    let triggers: Vec<Vec<Key>> =
        app.keyboard_rows.iter().map(|row| row.iter().map(|b| b.trigger).collect()).collect();
    assert_eq!(
        triggers,
        vec![
            vec![Key::Letter('Q'), Key::Letter('W'), Key::Letter('E'), Key::Letter('R'), Key::Letter('T')],
            vec![Key::Letter('A'), Key::Letter('S'), Key::Letter('D'), Key::Letter('F')],
            vec![Key::Del, Key::Letter('Y'), Key::Enter],
        ]
    );
}

#[test]
fn public_words_are_drawn_when_no_secret_word_fits() {
    let ls = lines(&["1Q,W,E,R,T", "2A,S,D,F", "3DEL,Y,SEND", "4LENGTHS:4,5,6", "ABAKUS", "-----", "READ"]);
    let app = new_game(ls);
    assert_eq!(app.word, "READ");
}

#[test]
fn letters_are_entered_in_upper_case_and_the_cursor_moves() {
    let mut app = new_game(dear_list());
    let r = app.update(AppMsg::EnterLetter('d'));
    assert!(r.message.is_none() && r.effects.is_empty());
    assert_eq!(app.letters[0][0].value, "D");
    assert_eq!(app.selected_letter, Coord { column: 1, row: 0 });
    assert!(!app.letters[0][0].selected);
    assert!(app.letters[0][1].selected);
    // a letter that is not on the keyboard is ignored
    app.update(AppMsg::EnterLetter('x'));
    assert_eq!(app.letters[0][1].value, "");
    assert_eq!(app.selected_letter, Coord { column: 1, row: 0 });
}

#[test]
fn cursor_stays_within_the_row() {
    let mut app = new_game(dear_list());
    app.update(AppMsg::MoveCursor(-1));
    assert_eq!(app.selected_letter, Coord { column: 0, row: 0 });
    app.update(AppMsg::MoveCursor(3));
    assert_eq!(app.selected_letter, Coord { column: 3, row: 0 });
    app.update(AppMsg::MoveCursor(1));
    assert_eq!(app.selected_letter, Coord { column: 3, row: 0 });
    app.update(AppMsg::MoveCursor(isize::MIN));
    assert_eq!(app.selected_letter, Coord { column: 3, row: 0 });
}

#[test]
fn clicks_only_select_cells_of_the_current_guess() {
    let mut app = new_game(dear_list());
    app.update(AppMsg::SelectField(Coord { column: 2, row: 3 }));
    assert_eq!(app.selected_letter, Coord { column: 0, row: 0 });
    app.update(AppMsg::SelectField(Coord { column: 2, row: 0 }));
    assert_eq!(app.selected_letter, Coord { column: 2, row: 0 });
    assert!(app.letters[0][2].selected);
}

#[test]
fn space_and_delete_empty_cells() {
    let mut app = new_game(dear_list());
    type_word(&mut app, "DE");
    app.update(AppMsg::SelectField(Coord { column: 0, row: 0 }));
    app.update(AppMsg::Space);
    assert_eq!(row_text(&app, 0), "E");
    assert_eq!(app.selected_letter, Coord { column: 1, row: 0 });
    app.update(AppMsg::Delete);
    assert_eq!(row_text(&app, 0), "");
}

#[test]
fn backspace_deletes_the_last_letter_in_place() {
    let mut app = new_game(dear_list());
    type_word(&mut app, "DEAR");
    assert_eq!(app.selected_letter, Coord { column: 3, row: 0 });
    let r = app.update(AppMsg::Backspace);
    assert!(matches!(r.message, Some(AppMsg::Delete)));
    assert_eq!(row_text(&app, 0), "DEAR");
    app.update(AppMsg::Delete);
    assert_eq!(row_text(&app, 0), "DEA");
    // now the last cell is empty: backspace goes back and empties the cell before it
    let r = app.update(AppMsg::Backspace);
    assert!(r.message.is_none());
    assert_eq!(app.selected_letter, Coord { column: 2, row: 0 });
    assert_eq!(row_text(&app, 0), "DE");
}

#[test]
fn guessing_the_word_wins() {
    let mut app = new_game(dear_list());
    type_word(&mut app, "dear");
    let r = app.update(AppMsg::EnterWord);
    assert!(matches!(r.message, Some(AppMsg::GameOver(true))));
    assert_eq!(app.attempts, 1);
    app.update(AppMsg::GameOver(true));
    assert!(app.game_won);
    assert_eq!(app.current_ui_page, Page::GameOver);
}

#[test]
fn a_short_guess_does_nothing() {
    let mut app = new_game(dear_list());
    type_word(&mut app, "REA");
    let r = app.update(AppMsg::EnterWord);
    assert!(r.message.is_none() && r.effects.is_empty());
    assert_eq!(app.attempts, 0);
}

#[test]
fn an_unknown_word_is_marked_and_not_counted() {
    let mut app = new_game(dear_list());
    type_word(&mut app, "QQQQ");
    let r = app.update(AppMsg::EnterWord);
    assert!(r.message.is_none());
    assert_eq!(r.effects.len(), 2);
    assert!(matches!(r.effects[0], Effect::ShowDictionaryToast));
    assert!(matches!(r.effects[1], Effect::ResetIncorrectWordLater));
    assert_eq!(app.attempts, 0);
    assert!(app.letters[0].iter().all(|l| l.incorrect));
    app.update_cmd(CommandMsg::ResetIncorrectWord);
    assert!(app.letters[0].iter().all(|l| !l.incorrect));
    // the player is told only once
    let r = app.update(AppMsg::EnterWord);
    assert_eq!(r.effects.len(), 1);
    assert!(matches!(r.effects[0], Effect::ResetIncorrectWordLater));
}

#[test]
fn a_word_of_the_list_is_coloured_and_counted() {
    let mut app = new_game(dear_list());
    type_word(&mut app, "READ");
    let r = app.update(AppMsg::EnterWord);
    assert!(matches!(r.message, Some(AppMsg::SelectField(Coord { column: 0, row: 1 }))));
    assert_eq!(app.attempts, 1);
    let formats: Vec<Format> = app.letters[0].iter().map(|l| l.format).collect();
    assert_eq!(formats, vec![Format::Match, Format::ExactMatch, Format::ExactMatch, Format::Match]);
    let format_of = |k: Key| {
        app.keyboard_rows.iter().flatten().find(|b| b.trigger == k).unwrap().format
    };
    assert_eq!(format_of(Key::Letter('A')), onscreen_button::Format::ExactMatch);
    assert_eq!(format_of(Key::Letter('R')), onscreen_button::Format::Match);
    assert_eq!(format_of(Key::Letter('E')), onscreen_button::Format::ExactMatch);
    assert_eq!(format_of(Key::Letter('Q')), onscreen_button::Format::NotUsed);
    app.update(AppMsg::SelectField(Coord { column: 0, row: 1 }));
    assert_eq!(app.selected_letter, Coord { column: 0, row: 1 });
}

#[test]
fn key_colours_never_fade() {
    // READ makes A an exact match; in AARE the A is only a partial match, and the key
    // keeps its higher colour
    let mut other = new_game(dear_list());
    type_word(&mut other, "READ");
    other.update(AppMsg::EnterWord);
    other.update(AppMsg::SelectField(Coord { column: 0, row: 1 }));
    type_word(&mut other, "AARE");
    other.update(AppMsg::EnterWord);
    let a = other.keyboard_rows.iter().flatten().find(|b| b.trigger == Key::Letter('A')).unwrap();
    assert_eq!(a.format, onscreen_button::Format::ExactMatch);
}

#[test]
fn six_wrong_guesses_end_the_game() {
    let mut app = new_game(dear_list());
    for attempt in 0..6 {
        app.update(AppMsg::SelectField(Coord { column: 0, row: attempt }));
        type_word(&mut app, "READ");
        let r = app.update(AppMsg::EnterWord);
        if attempt < 5 {
            assert!(matches!(r.message, Some(AppMsg::SelectField(Coord { column: 0, row }))
                if row == attempt + 1));
        } else {
            assert!(matches!(r.message, Some(AppMsg::GameOver(false))));
        }
    }
    assert_eq!(app.attempts, 6);
    // no guess is left
    let r = app.update(AppMsg::EnterWord);
    assert!(r.message.is_none() && r.effects.is_empty());
}

#[test]
fn changing_the_length_or_the_list_asks_for_a_word_list() {
    let mut app = new_game(dear_list());
    let r = app.update(AppMsg::SetLengthTo(4));
    assert!(r.effects.is_empty());
    let r = app.update(AppMsg::SetLengthTo(6));
    assert!(matches!(&r.effects[..], [Effect::LoadWordList { name, length: 6, fall_back: false }] if name == "Test"));
    let r = app.update(AppMsg::SwitchToWordList("Deutsch".to_owned()));
    assert!(matches!(&r.effects[..], [Effect::LoadWordList { name, length: 4, fall_back: true }] if name == "Deutsch"));
    let r = app.update(AppMsg::WordListMissing("Deutsch".to_owned()));
    assert!(matches!(&r.effects[..], [Effect::LoadWordList { name, length: 5, fall_back: false }] if name == "Deutsch"));
    let r = app.update(AppMsg::Quit);
    assert!(matches!(&r.effects[..], [Effect::Quit]));
}

#[test]
fn a_loaded_word_list_starts_a_new_game() {
    let mut app = new_game(dear_list());
    type_word(&mut app, "RE");
    let ls = dear_list();
    let list = read_word_list_from_lines(&ls, 6).unwrap().unwrap();
    app.update(AppMsg::WordListLoaded("Other".to_owned(), 6, list));
    assert_eq!(app.number_of_letters, 6);
    assert_eq!(app.word, "ABAKUS");
    assert_eq!(app.current_word_list_name, "Other");
    assert_eq!(app.letters[0].len(), 6);
    assert_eq!(row_text(&app, 0), "");
}

#[test]
fn start_new_game_resets_the_grid() {
    let mut app = new_game(dear_list());
    type_word(&mut app, "READ");
    app.update(AppMsg::EnterWord);
    app.update(AppMsg::StartNewGame);
    assert_eq!(app.attempts, 0);
    assert_eq!(row_text(&app, 0), "");
    assert!(app.keyboard_rows.iter().flatten().all(|b| b.format == onscreen_button::Format::NotUsed));
}

#[test]
fn keys_send_their_messages() {
    assert!(matches!(key_message(Key::Letter('Q')), AppMsg::EnterLetter('Q')));
    assert!(matches!(key_message(Key::Enter), AppMsg::EnterWord));
    assert!(matches!(key_message(Key::Del), AppMsg::Backspace));
    let (m, stop) = key_press_messages(Some("Right"), None);
    assert!(matches!(&m[..], [AppMsg::MoveCursor(1)]) && !stop);
    let (m, stop) = key_press_messages(Some("Left"), None);
    assert!(matches!(&m[..], [AppMsg::MoveCursor(-1)]) && !stop);
    let (m, stop) = key_press_messages(Some("a"), Some('a'));
    assert!(matches!(&m[..], [AppMsg::EnterLetter('a')]) && stop);
    let (m, _) = key_press_messages(Some("space"), Some(' '));
    assert!(matches!(&m[..], [AppMsg::Space]));
    let (m, _) = key_press_messages(None, Some('\u{8}'));
    assert!(matches!(&m[..], [AppMsg::Backspace]));
    let (m, _) = key_press_messages(None, Some('\u{7f}'));
    assert!(matches!(&m[..], [AppMsg::Delete]));
    let (m, _) = key_press_messages(None, Some('\r'));
    assert!(matches!(&m[..], [AppMsg::EnterWord]));
    let (m, stop) = key_press_messages(Some("Shift_L"), None);
    assert!(m.is_empty() && !stop);
}

#[test]
fn the_word_list_of_a_session() {
    let lists = vec!["Deutsch".to_owned(), "English".to_owned(), "Other".to_owned()];
    assert_eq!(choose_word_list(&lists, "Other"), (2, "Other".to_owned()));
    assert_eq!(choose_word_list(&lists, "Missing"), (1, "English".to_owned()));
    let lists = vec!["Deutsch".to_owned(), "Other".to_owned()];
    assert_eq!(choose_word_list(&lists, "Missing"), (0, "Deutsch".to_owned()));
}

#[test]
fn key_labels() {
    assert_eq!(Key::Letter('q').get_label(), Some("Q".to_owned()));
    assert_eq!(Key::Letter('ß').get_label(), Some("SS".to_owned()));
    assert_eq!(Key::Enter.get_label(), None);
    assert_eq!(Key::Del.get_label(), None);
}
