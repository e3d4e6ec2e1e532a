use words::game::game_statistics::{statistics_file_name, GameStatistics, Outcome};
use words::key::{Coord as OldCoord, Format as OldFormat, Letter as OldLetter, LetterMsgIn as OldMsgIn};
use words::letter::{Coord, Format, Letter, LetterMsgIn};
use words::onscreen_button::{self, Key, OnScreenButton, OnScreenButtonMsgIn};
use words::text::{str_less, trim, usize_to_text};

#[test]
fn fresh_statistics_have_a_count_for_each_try() {
    let s = GameStatistics::load_game_statistics(None);
    assert_eq!(s.total_games, 0);
    assert_eq!(s.games_won, 0);
    assert_eq!(s.games_won_tries, vec![0; 6]);
    let d = GameStatistics::default();
    assert!(d.games_won_tries.is_empty());
}

#[test]
fn loaded_statistics_are_kept() {
    let loaded = GameStatistics {
        total_games: 3,
        games_won: 2,
        current_streak: 1,
        longest_streak: 2,
        games_won_tries: vec![0, 1, 1, 0, 0, 0],
    };
    let s = GameStatistics::load_game_statistics(Some(loaded));
    assert_eq!(s.total_games, 3);
    assert_eq!(s.games_won_tries, vec![0, 1, 1, 0, 0, 0]);
}

#[test]
fn wins_and_losses_are_counted() {
    let mut s = GameStatistics::load_game_statistics(None);
    s.update_game_statistics(Outcome::Won(3));
    s.update_game_statistics(Outcome::Won(1));
    assert_eq!((s.total_games, s.games_won, s.current_streak, s.longest_streak), (2, 2, 2, 2));
    assert_eq!(s.games_won_tries, vec![1, 0, 1, 0, 0, 0]);
    s.update_game_statistics(Outcome::Lost);
    assert_eq!((s.total_games, s.games_won, s.current_streak, s.longest_streak), (3, 2, 0, 2));
    s.update_game_statistics(Outcome::Won(6));
    assert_eq!((s.total_games, s.games_won, s.current_streak, s.longest_streak), (4, 3, 1, 2));
    assert_eq!(s.games_won_tries.iter().sum::<usize>(), s.games_won);
}

#[test]
fn statistics_files_are_named_by_list_and_length() {
    assert_eq!(statistics_file_name("English", 5), "English_5");
    assert_eq!(statistics_file_name("Deutsch", 11), "Deutsch_11");
}

#[test]
fn numbers_are_written_in_decimal() {
    assert_eq!(usize_to_text(0), "0");
    assert_eq!(usize_to_text(7), "7");
    assert_eq!(usize_to_text(120), "120");
}

#[test]
fn text_helpers() {
    assert_eq!(trim("  a b \t"), "a b");
    assert!(str_less("ABC", "ABD"));
    assert!(str_less("AB", "ABC"));
    assert!(!str_less("ABC", "ABC"));
}

#[test]
fn letter_cells_take_their_messages() {
    let mut l = Letter::init_model((5, Format::NotUsed), &Coord { column: 0, row: 0 });
    assert!(l.selected && l.value.is_empty() && !l.incorrect);
    let other = Letter::init_model((5, Format::NotUsed), &Coord { column: 1, row: 0 });
    assert!(!other.selected);
    l.update(LetterMsgIn::SetContent(Some("A".to_owned())));
    l.update(LetterMsgIn::SetFormat(Format::Match));
    l.update(LetterMsgIn::SetIncorrect(true));
    l.update(LetterMsgIn::SetSelected(false));
    assert_eq!(l.value, "A");
    assert_eq!(l.format, Format::Match);
    assert!(l.incorrect && !l.selected);
    l.update(LetterMsgIn::SetContent(None));
    assert!(l.value.is_empty());
    assert_eq!(Format::NotUsed.to_osb_format(), onscreen_button::Format::NoMatch);
    assert_eq!(Format::ExactMatch.to_osb_format(), onscreen_button::Format::ExactMatch);
}

#[test]
fn first_letter_cells_take_their_messages() {
    let mut l = OldLetter::init_model((5, OldFormat::NotUsed), &OldCoord { column: 0, row: 0 });
    assert!(l.value.is_empty());
    l.update(OldMsgIn::SetContent(Some("B".to_owned())));
    l.update(OldMsgIn::SetFormat(OldFormat::ExactMatch));
    l.update(OldMsgIn::SetSelected(false));
    assert_eq!(l.value, "B");
}

#[test]
fn on_screen_keys_only_get_brighter() {
    let mut b = OnScreenButton::init_model(Key::Letter('A'));
    assert_eq!(b.format, onscreen_button::Format::NotUsed);
    b.update(OnScreenButtonMsgIn::SetFormat(onscreen_button::Format::Match));
    assert_eq!(b.format, onscreen_button::Format::Match);
    b.update(OnScreenButtonMsgIn::SetFormat(onscreen_button::Format::NoMatch));
    assert_eq!(b.format, onscreen_button::Format::Match);
    b.update(OnScreenButtonMsgIn::SetFormat(onscreen_button::Format::ExactMatch));
    assert_eq!(b.format, onscreen_button::Format::ExactMatch);
    assert_eq!(b.trigger, Key::Letter('A'));
}
