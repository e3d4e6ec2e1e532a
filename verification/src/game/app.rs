//! The state of a game and how it answers the messages of the window.
use vstd::prelude::*;

use crate::game::word_list::WordList;
use crate::game::{calculate_color, coloring, get_index, pick_random_word, TRIES};
use crate::letter::{osb_format_of, updated, Coord, Format, Letter, LetterMsgIn};
use crate::onscreen_button::{self, raised_format, Key, OnScreenButton, OnScreenButtonMsgIn};
use crate::text::{char_to_uppercase, char_uppercase, chars_of, lemma_utf8_len_ge, lemma_utf8_len_le, str_eq, utf8_len};
use crate::word_list_format::{contains_char, word_set};
use vstd::string::StringExecFns;

verus! {

/// The page the window shows.
#[derive(Debug, Clone, Copy, PartialEq, Eq, Structural)]
pub enum Page {
    Game,
    GameOver,
}

/// What the window is asked to do after a message.
#[derive(Debug)]
pub enum Effect {
    /// Close the application.
    Quit,
    /// Tell the player that guesses must be words of the dictionary.
    ShowDictionaryToast,
    /// After half a second, hand `CommandMsg::ResetIncorrectWord` to `App::update_cmd`.
    ResetIncorrectWordLater,
    /// Read the word list `name` for words of `length` letters and answer with
    /// `AppMsg::WordListLoaded`; when the list offers no such words, answer with
    /// `AppMsg::WordListMissing` if `fall_back`, and fail otherwise.
    LoadWordList { name: String, length: usize, fall_back: bool },
}

/// The messages the window sends to the game.
#[derive(Debug)]
pub enum AppMsg {
    SelectField(Coord),
    GameOver(bool),
    StartNewGame,
    EnterLetter(char),
    MoveCursor(isize),
    SetLengthTo(usize),
    SwitchToWordList(String),
    EnterWord,
    Delete,
    Backspace,
    Space,
    Quit,
    /// The word list `name`, read for words of the given length.
    WordListLoaded(String, usize, WordList),
    /// The word list `name` offers no words of the length asked for.
    WordListMissing(String),
}

/// The messages the game receives later from the window.
#[derive(Debug, Clone, Copy, PartialEq, Eq, Structural)]
pub enum CommandMsg {
    ResetIncorrectWord,
}

/// What a message leads to: perhaps a message the game is to receive next, and effects.
#[derive(Debug)]
pub struct Reaction {
    pub message: Option<AppMsg>,
    pub effects: Vec<Effect>,
}

/// What a cell shows apart from the selection: its text, its format and whether it is
/// marked as part of a word that is not in the dictionary.
pub open spec fn cell_view(l: Letter) -> (Seq<char>, Format, bool) {
    (l.value@, l.format, l.incorrect)
}

/// The grid `g` with the cell at `p` replaced by `v`.
pub open spec fn with_cell(
    g: Seq<Seq<(Seq<char>, Format, bool)>>,
    p: Coord,
    v: (Seq<char>, Format, bool),
) -> Seq<Seq<(Seq<char>, Format, bool)>> {
    g.update(p.row as int, g[p.row as int].update(p.column as int, v))
}

/// The grid `g` with the text of the cell at `p` replaced by `t`.
pub open spec fn with_text(
    g: Seq<Seq<(Seq<char>, Format, bool)>>,
    p: Coord,
    t: Seq<char>,
) -> Seq<Seq<(Seq<char>, Format, bool)>> {
    with_cell(g, p, (t, g[p.row as int][p.column as int].1, g[p.row as int][p.column as int].2))
}

/// The row `row` with every cell marked (or unmarked) as not in the dictionary.
pub open spec fn marked_row(
    row: Seq<(Seq<char>, Format, bool)>,
    v: bool,
) -> Seq<(Seq<char>, Format, bool)> {
    row.map_values(|x: (Seq<char>, Format, bool)| (x.0, x.1, v))
}

/// The row `row` with its first cells given the formats `fs`.
pub open spec fn colored_row(
    row: Seq<(Seq<char>, Format, bool)>,
    fs: Seq<Format>,
) -> Seq<(Seq<char>, Format, bool)> {
    Seq::new(row.len(), |i: int| if i < fs.len() { (row[i].0, fs[i], row[i].2) } else { row[i] })
}

/// The texts of the first `k` cells of `row`, one after the other.
pub open spec fn row_text(row: Seq<(Seq<char>, Format, bool)>, k: int) -> Seq<char>
    decreases k,
{
    if k <= 0 {
        Seq::empty()
    } else {
        row_text(row, k - 1) + row[k - 1].0
    }
}

/// The keys of `keys`, each once, in the order they first appear.
pub open spec fn distinct_keys(keys: Seq<Key>) -> Seq<Key>
    decreases keys.len(),
{
    if keys.len() == 0 {
        Seq::empty()
    } else {
        let d = distinct_keys(keys.drop_last());
        if d.contains(keys.last()) {
            d
        } else {
            d.push(keys.last())
        }
    }
}

/// The triggers of a row of buttons.
pub open spec fn triggers(row: Seq<OnScreenButton>) -> Seq<Key> {
    row.map_values(|b: OnScreenButton| b.trigger)
}

/// Row `k` is the first keyboard row with the key of the letter `x`.
pub open spec fn first_row_with(rows: Seq<Vec<OnScreenButton>>, x: char, k: int) -> bool {
    &&& 0 <= k < rows.len()
    &&& triggers(rows[k]@).contains(Key::Letter(x))
    &&& forall|j: int| 0 <= j < k ==> !triggers(#[trigger] rows[j]@).contains(Key::Letter(x))
}

/// The colour of the key of `x`, shown as `f`, after the first `i` letters of the guess
/// `guess` were coloured `fs`: each letter `x` of the guess raises it to its colour.
pub open spec fn key_color(
    f: onscreen_button::Format,
    x: char,
    guess: Seq<char>,
    fs: Seq<Format>,
    i: int,
) -> onscreen_button::Format
    decreases i,
{
    if i <= 0 {
        f
    } else {
        let before = key_color(f, x, guess, fs, i - 1);
        if guess[i - 1] == x {
            raised_format(before, osb_format_of(fs[i - 1]))
        } else {
            before
        }
    }
}

/// The keyboard `new` is the keyboard `old` after the first `n` letters of `guess` were
/// coloured `fs`: a key in the first row that holds it takes the colours of its letter,
/// the other keys keep theirs.
pub open spec fn keyboard_after(
    old: Seq<Vec<OnScreenButton>>,
    new: Seq<Vec<OnScreenButton>>,
    guess: Seq<char>,
    fs: Seq<Format>,
    n: int,
) -> bool {
    &&& new.len() == old.len()
    &&& forall|k: int| 0 <= k < old.len() ==> (#[trigger] new[k])@.len() == old[k]@.len()
    &&& forall|k: int, j: int|
        0 <= k < old.len() && 0 <= j < old[k]@.len() ==> {
            &&& (#[trigger] new[k]@[j]).trigger == old[k]@[j].trigger
            &&& new[k]@[j].format == (match old[k]@[j].trigger {
                Key::Letter(x) => if first_row_with(old, x, k) {
                    key_color(old[k]@[j].format, x, guess, fs, n)
                } else {
                    old[k]@[j].format
                },
                _ => old[k]@[j].format,
            })
        }
}

/// A game in the window: the grid of letters, the keyboard, the word to find.
#[derive(Debug)]
pub struct App {
    /// `letters[row][column]`: one row for each guess, one cell for each letter.
    pub letters: Vec<Vec<Letter>>,
    pub selected_letter: Coord,
    pub word: String,
    pub number_of_letters: usize,
    pub attempts: usize,
    pub word_list: WordList,
    pub keyboard_rows: Vec<Vec<OnScreenButton>>,
    pub current_ui_page: Page,
    pub game_won: bool,
    pub toast_words_in_dictionary_displayed: bool,
    /// Used to decide whether backspace deletes the last letter or the one before it.
    pub index_of_last_entered_letter: usize,
    pub current_word_list_name: String,
}

impl App {
    /// `c` is a cell of the grid.
    pub open spec fn in_grid(&self, c: Coord) -> bool {
        c.column < self.number_of_letters && c.row < TRIES
    }

    /// The cell at `row`, `column`.
    pub open spec fn cell(&self, row: int, column: int) -> Letter {
        self.letters@[row]@[column]
    }

    /// The cell at `c`.
    pub open spec fn cell_at(&self, c: Coord) -> Letter {
        self.cell(c.row as int, c.column as int)
    }

    /// What the cells show, row by row, apart from the selection.
    pub open spec fn grid(&self) -> Seq<Seq<(Seq<char>, Format, bool)>> {
        self.letters@.map_values(|row: Vec<Letter>| row@.map_values(|l: Letter| cell_view(l)))
    }

    /// The text of the row of the current guess.
    pub open spec fn guess_text(&self) -> Seq<char> {
        row_text(self.grid()[self.attempts as int], self.number_of_letters as int)
    }

    /// The grid has one row for each guess and one cell for each letter.
    pub open spec fn grid_shape(&self) -> bool {
        &&& self.letters@.len() == TRIES
        &&& forall|r: int| 0 <= r < TRIES ==> (#[trigger] self.letters@[r])@.len() == self.number_of_letters
    }

    /// Exactly the selected cell shows as selected.
    pub open spec fn selection_shown(&self) -> bool {
        forall|r: int, c: int|
            0 <= r < TRIES && 0 <= c < self.number_of_letters ==> #[trigger] self.cell(r, c).selected == (r
                == self.selected_letter.row && c == self.selected_letter.column)
    }

    /// The state is consistent: a grid of the right size on which exactly the selected
    /// cell shows as selected, a secret word and a word list of the right length, and
    /// the three rows of the keyboard.
    pub open spec fn wf(&self) -> bool {
        &&& 4 <= self.number_of_letters <= 11
        &&& self.grid_shape()
        &&& self.attempts <= TRIES
        &&& self.in_grid(self.selected_letter)
        &&& self.selection_shown()
        &&& self.word@.len() == self.number_of_letters
        &&& self.word_list.fits(self.number_of_letters as nat)
        &&& self.keyboard_rows@.len() == 3
    }

    /// The grid of a new game: every cell empty, unformatted and unmarked.
    pub open spec fn fresh_grid(&self) -> bool {
        forall|r: int, c: int|
            0 <= r < TRIES && 0 <= c < self.number_of_letters ==> #[trigger] cell_view(self.cell(r, c))
                == (Seq::<char>::empty(), Format::NotUsed, false)
    }

    /// The keyboard of a new game: row `k` holds the keys of row `k` of the word list,
    /// each once, none coloured.
    pub open spec fn fresh_keyboard(&self) -> bool {
        &&& self.keyboard_rows@.len() == 3
        &&& forall|k: int|
            0 <= k < 3 ==> triggers(#[trigger] self.keyboard_rows@[k]@) == (if k < self.word_list.keys@.len() {
                distinct_keys(self.word_list.keys@[k]@)
            } else {
                Seq::empty()
            })
        &&& forall|k: int, i: int|
            0 <= k < 3 && 0 <= i < self.keyboard_rows@[k]@.len() ==> (#[trigger] self.keyboard_rows@[k]@[i]).format
                == onscreen_button::Format::NotUsed
    }

    /// The word, the word list, the page and what the player was told are the same in
    /// `self` and `other`.
    pub open spec fn same_settings(&self, other: &App) -> bool {
        &&& self.word == other.word
        &&& self.number_of_letters == other.number_of_letters
        &&& self.word_list == other.word_list
        &&& self.current_ui_page == other.current_ui_page
        &&& self.game_won == other.game_won
        &&& self.toast_words_in_dictionary_displayed == other.toast_words_in_dictionary_displayed
        &&& self.current_word_list_name == other.current_word_list_name
    }

    /// As `same_settings`, and the guesses made and the keyboard are the same too.
    pub open spec fn same_round(&self, other: &App) -> bool {
        &&& self.same_settings(other)
        &&& self.attempts == other.attempts
        &&& self.keyboard_rows == other.keyboard_rows
    }

    /// Everything but the grid is the same in `self` and `other`.
    pub open spec fn same_outside_grid(&self, other: &App) -> bool {
        &&& self.same_round(other)
        &&& self.selected_letter == other.selected_letter
        &&& self.index_of_last_entered_letter == other.index_of_last_entered_letter
    }

    /// The grid has the same shape in `self` and `other`, and the same cells but perhaps
    /// the one at `c`.
    pub open spec fn same_grid_but(&self, other: &App, c: Coord) -> bool {
        &&& self.letters@.len() == other.letters@.len()
        &&& forall|r: int| 0 <= r < self.letters@.len() ==> (#[trigger] self.letters@[r])@.len() == other.letters@[r]@.len()
        &&& forall|r: int, k: int|
            0 <= r < self.letters@.len() && 0 <= k < self.letters@[r]@.len() && !(r == c.row && k == c.column)
                ==> #[trigger] self.cell(r, k) == other.cell(r, k)
    }
}


/// After a change of the cell at `p` alone, the grid is the old one with that cell
/// replaced.
proof fn lemma_grid_after_cell(old: App, new: App, p: Coord)
    requires
        new.same_grid_but(&old, p),
        p.row < old.letters@.len(),
        p.column < old.letters@[p.row as int]@.len(),
    ensures
        new.grid() == with_cell(old.grid(), p, cell_view(new.cell_at(p))),
{
    let g = with_cell(old.grid(), p, cell_view(new.cell_at(p)));
    assert forall|r: int| 0 <= r < new.letters@.len() implies #[trigger] new.grid()[r] == g[r] by {
        assert forall|k: int| 0 <= k < new.letters@[r]@.len() implies #[trigger] new.grid()[r][k] == g[r][k] by {
            if !(r == p.row && k == p.column) {
                assert(new.cell(r, k) == old.cell(r, k));
            }
        }
        assert(new.grid()[r] =~= g[r]);
    }
    assert(new.grid() =~= g);
}

/// After a change of the cell at `p` that keeps whether it shows as selected, exactly
/// the selected cell still shows as selected.
proof fn lemma_selection_kept(old: App, new: App, p: Coord)
    requires
        new.same_grid_but(&old, p),
        old.grid_shape(),
        old.selection_shown(),
        new.number_of_letters == old.number_of_letters,
        new.selected_letter == old.selected_letter,
        old.in_grid(p),
        new.cell_at(p).selected == old.cell_at(p).selected,
    ensures
        new.grid_shape(),
        new.selection_shown(),
{
    assert forall|r: int, c: int| 0 <= r < TRIES && 0 <= c < new.number_of_letters implies #[trigger] new.cell(r, c).selected
        == (r == new.selected_letter.row && c == new.selected_letter.column) by {
        assert(old.cell(r, c).selected == (r == old.selected_letter.row && c == old.selected_letter.column));
    }
}

/// Two grids of the same shape whose cells show the same are the same grid.
proof fn lemma_same_grid(a: App, b: App)
    requires
        a.letters@.len() == b.letters@.len(),
        forall|r: int| 0 <= r < a.letters@.len() ==> (#[trigger] a.letters@[r])@.len() == b.letters@[r]@.len(),
        forall|r: int, c: int|
            0 <= r < a.letters@.len() && 0 <= c < a.letters@[r]@.len() ==> #[trigger] cell_view(a.cell(r, c))
                == cell_view(b.cell(r, c)),
    ensures
        a.grid() == b.grid(),
{
    assert forall|r: int| 0 <= r < a.letters@.len() implies #[trigger] a.grid()[r] == b.grid()[r] by {
        assert forall|c: int| 0 <= c < a.letters@[r]@.len() implies #[trigger] a.grid()[r][c] == b.grid()[r][c] by {
            assert(cell_view(a.cell(r, c)) == cell_view(b.cell(r, c)));
        }
        assert(a.grid()[r] =~= b.grid()[r]);
    }
    assert(a.grid() =~= b.grid());
}

impl App {
    /// Sends `msg` to the cell at `c`.
    fn update_cell(&mut self, c: Coord, msg: LetterMsgIn)
        requires
            c.row < old(self).letters@.len(),
            c.column < old(self).letters@[c.row as int]@.len(),
        ensures
            final(self).same_outside_grid(old(self)),
            final(self).same_grid_but(old(self), c),
            updated(old(self).cell_at(c), final(self).cell_at(c), msg),
    {
        let ghost before = self.letters@;
        let mut row = self.letters.remove(c.row);
        let mut cell = row.remove(c.column);
        cell.update(msg);
        row.insert(c.column, cell);
        self.letters.insert(c.row, row);
        proof {
            assert forall|r: int| 0 <= r < self.letters@.len() implies (#[trigger] self.letters@[r])@.len() == before[r]@.len() by {
                if r != c.row {
                    assert(self.letters@[r] == before[r]);
                }
            }
            assert forall|r: int, k: int|
                0 <= r < self.letters@.len() && 0 <= k < self.letters@[r]@.len() && !(r == c.row && k == c.column)
                    implies #[trigger] self.cell(r, k) == before[r]@[k] by {
                if r != c.row {
                    assert(self.letters@[r] == before[r]);
                } else {
                    assert(self.letters@[r]@[k] == before[r]@[k]);
                }
            }
        }
    }

    /// Puts the text `v` (nothing for `None`) into the cell at `p`.
    fn set_content(&mut self, p: Coord, v: Option<String>)
        requires
            old(self).grid_shape(),
            old(self).selection_shown(),
            old(self).in_grid(p),
        ensures
            final(self).same_outside_grid(old(self)),
            final(self).grid_shape(),
            final(self).selection_shown(),
            final(self).grid() == with_text(
                old(self).grid(),
                p,
                match v {
                    Some(s) => s@,
                    None => Seq::<char>::empty(),
                },
            ),
    {
        let ghost start = *self;
        self.update_cell(p, LetterMsgIn::SetContent(v));
        proof {
            lemma_grid_after_cell(start, *self, p);
            lemma_selection_kept(start, *self, p);
        }
    }

    /// Selects the cell at `coord` in place of the selected one.
    fn select_field(&mut self, coord: Coord)
        requires
            old(self).grid_shape(),
            old(self).selection_shown(),
            old(self).in_grid(old(self).selected_letter),
            old(self).in_grid(coord),
        ensures
            final(self).grid_shape(),
            final(self).selection_shown(),
            final(self).selected_letter == coord,
            final(self).grid() == old(self).grid(),
            final(self).same_round(old(self)),
            final(self).index_of_last_entered_letter == old(self).index_of_last_entered_letter,
    {
        let ghost start = *self;
        let old_coord = self.selected_letter;
        self.update_cell(old_coord, LetterMsgIn::SetSelected(false));
        let ghost mid = *self;
        self.update_cell(coord, LetterMsgIn::SetSelected(true));
        let ghost after = *self;
        self.selected_letter = coord;
        proof {
            assert(self.letters == after.letters);
            assert forall|r: int| 0 <= r < TRIES implies (#[trigger] mid.letters@[r])@.len() == start.letters@[r]@.len() by {}
            assert forall|r: int| 0 <= r < TRIES implies (#[trigger] after.letters@[r])@.len() == mid.letters@[r]@.len() by {}
            assert forall|r: int, c: int|
                0 <= r < TRIES && 0 <= c < self.number_of_letters implies #[trigger] self.cell(r, c).selected == (r
                    == coord.row && c == coord.column) by {
                if !(r == coord.row && c == coord.column) {
                    assert(after.cell(r, c) == mid.cell(r, c));
                    if !(r == old_coord.row && c == old_coord.column) {
                        assert(mid.cell(r, c) == start.cell(r, c));
                    }
                }
            }
            assert forall|r: int, c: int|
                0 <= r < self.letters@.len() && 0 <= c < self.letters@[r]@.len() implies #[trigger] cell_view(self.cell(r, c))
                    == cell_view(start.cell(r, c)) by {
                if !(r == coord.row && c == coord.column) {
                    assert(after.cell(r, c) == mid.cell(r, c));
                }
                if !(r == old_coord.row && c == old_coord.column) {
                    assert(mid.cell(r, c) == start.cell(r, c));
                }
            }
            lemma_same_grid(*self, start);
        }
    }

    /// The cell the selection moves to by `step` columns: the selected one when that
    /// would leave the row.
    pub open spec fn moved_by(&self, step: int) -> Coord {
        let column = self.selected_letter.column + step;
        if 0 <= column < self.number_of_letters {
            Coord { column: column as usize, row: self.selected_letter.row }
        } else {
            self.selected_letter
        }
    }

    /// Moves the selection by `step` columns within the row, if the row goes that far.
    fn move_selection_by(&mut self, step: isize)
        requires
            old(self).number_of_letters <= 11,
            old(self).grid_shape(),
            old(self).selection_shown(),
            old(self).in_grid(old(self).selected_letter),
        ensures
            final(self).grid_shape(),
            final(self).selection_shown(),
            final(self).selected_letter == old(self).moved_by(step as int),
            final(self).grid() == old(self).grid(),
            final(self).same_round(old(self)),
            final(self).index_of_last_entered_letter == old(self).index_of_last_entered_letter,
    {
        let column = self.selected_letter.column;
        let n = self.number_of_letters;
        if step >= 0 {
            let forward = step as usize;
            if forward < n - column {
                let new_selected_letter = Coord { column: column + forward, row: self.selected_letter.row };
                self.select_field(new_selected_letter);
            }
        } else if step != isize::MIN {
            let back = (-step) as usize;
            if back <= column {
                let new_selected_letter = Coord { column: column - back, row: self.selected_letter.row };
                self.select_field(new_selected_letter);
            }
        }
    }

    /// Replaces the grid with the empty grid of a new game, the top-left cell selected.
    fn create_empty_field(&mut self)
        requires
            4 <= old(self).number_of_letters <= 11,
        ensures
            final(self).grid_shape(),
            final(self).fresh_grid(),
            forall|r: int, c: int|
                0 <= r < TRIES && 0 <= c < final(self).number_of_letters ==> #[trigger] final(self).cell(r, c).selected
                    == (r == 0 && c == 0),
            final(self).same_outside_grid(old(self)),
    {
        let n = self.number_of_letters;
        let mut letters: Vec<Vec<Letter>> = Vec::new();
        let mut row: usize = 0;
        while row < TRIES
            invariant
                row <= TRIES,
                letters@.len() == row,
                forall|r: int| 0 <= r < row ==> (#[trigger] letters@[r])@.len() == n,
                forall|r: int, c: int| 0 <= r < row && 0 <= c < n ==> {
                    &&& cell_view(#[trigger] letters@[r]@[c]) == (Seq::<char>::empty(), Format::NotUsed, false)
                    &&& letters@[r]@[c].selected == (r == 0 && c == 0)
                },
            decreases TRIES - row,
        {
            let mut cells: Vec<Letter> = Vec::new();
            let mut column: usize = 0;
            while column < n
                invariant
                    column <= n,
                    cells@.len() == column,
                    forall|c: int| 0 <= c < column ==> {
                        &&& cell_view(#[trigger] cells@[c]) == (Seq::<char>::empty(), Format::NotUsed, false)
                        &&& cells@[c].selected == (row == 0 && c == 0)
                    },
                decreases n - column,
            {
                cells.push(Letter::init_model((n, Format::NotUsed), &Coord { column, row }));
                column += 1;
            }
            letters.push(cells);
            row += 1;
        }
        self.letters = letters;
    }
}

/// The keyboard `new` is the keyboard `old` after the key of `x` in the first row that
/// holds it was told the colour `f`; every other key is as it was.
pub open spec fn raised_keys(
    old: Seq<Vec<OnScreenButton>>,
    new: Seq<Vec<OnScreenButton>>,
    x: char,
    f: onscreen_button::Format,
) -> bool {
    &&& new.len() == old.len()
    &&& forall|k: int| 0 <= k < old.len() ==> (#[trigger] new[k])@.len() == old[k]@.len()
    &&& forall|k: int, j: int|
        0 <= k < old.len() && 0 <= j < old[k]@.len() ==> {
            &&& (#[trigger] new[k]@[j]).trigger == old[k]@[j].trigger
            &&& new[k]@[j].format == (if old[k]@[j].trigger == Key::Letter(x) && first_row_with(old, x, k) {
                raised_format(old[k]@[j].format, f)
            } else {
                old[k]@[j].format
            })
        }
}

/// Keyboards whose keys have the same triggers have the same first row for each letter.
proof fn lemma_same_triggers(a: Seq<Vec<OnScreenButton>>, b: Seq<Vec<OnScreenButton>>)
    requires
        a.len() == b.len(),
        forall|k: int| 0 <= k < a.len() ==> (#[trigger] a[k])@.len() == b[k]@.len(),
        forall|k: int, j: int| 0 <= k < a.len() && 0 <= j < a[k]@.len() ==> (#[trigger] a[k]@[j]).trigger == b[k]@[j].trigger,
    ensures
        forall|k: int|
            #![trigger triggers(a[k]@)]
            #![trigger triggers(b[k]@)]
            0 <= k < a.len() ==> triggers(a[k]@) == triggers(b[k]@),
        forall|x: char, k: int| #[trigger] first_row_with(a, x, k) == first_row_with(b, x, k),
{
    assert forall|k: int|
        #![trigger triggers(a[k]@)]
        #![trigger triggers(b[k]@)]
        0 <= k < a.len() implies triggers(a[k]@) == triggers(b[k]@) by {
        assert(triggers(a[k]@) =~= triggers(b[k]@));
    }
    assert forall|x: char, k: int| #[trigger] first_row_with(a, x, k) == first_row_with(b, x, k) by {
        if 0 <= k < a.len() {
            assert(triggers(a[k]@) == triggers(b[k]@));
        }
    }
}

/// Whether the row holds a button for `key`.
fn has_key(row: &Vec<OnScreenButton>, key: Key) -> (r: bool)
    ensures
        r == triggers(row@).contains(key),
{
    let mut j: usize = 0;
    while j < row.len()
        invariant
            j <= row@.len(),
            forall|i: int| 0 <= i < j ==> row@[i].trigger != key,
        decreases row.len() - j,
    {
        if row[j].trigger == key {
            assert(triggers(row@)[j as int] == key);
            return true;
        }
        j += 1;
    }
    proof {
        if triggers(row@).contains(key) {
            let i = choose|i: int| 0 <= i < triggers(row@).len() && triggers(row@)[i] == key;
            assert(row@[i].trigger == key);
        }
    }
    false
}

impl App {
    /// Sends `msg` to the button `j` of keyboard row `k`.
    fn update_button(&mut self, k: usize, j: usize, msg: OnScreenButtonMsgIn)
        requires
            k < old(self).keyboard_rows@.len(),
            j < old(self).keyboard_rows@[k as int]@.len(),
        ensures
            final(self).letters == old(self).letters,
            final(self).selected_letter == old(self).selected_letter,
            final(self).word == old(self).word,
            final(self).number_of_letters == old(self).number_of_letters,
            final(self).attempts == old(self).attempts,
            final(self).word_list == old(self).word_list,
            final(self).current_ui_page == old(self).current_ui_page,
            final(self).game_won == old(self).game_won,
            final(self).toast_words_in_dictionary_displayed == old(self).toast_words_in_dictionary_displayed,
            final(self).index_of_last_entered_letter == old(self).index_of_last_entered_letter,
            final(self).current_word_list_name == old(self).current_word_list_name,
            final(self).keyboard_rows@.len() == old(self).keyboard_rows@.len(),
            forall|r: int| 0 <= r < old(self).keyboard_rows@.len() && r != k ==> #[trigger] final(self).keyboard_rows@[r]
                == old(self).keyboard_rows@[r],
            final(self).keyboard_rows@[k as int]@.len() == old(self).keyboard_rows@[k as int]@.len(),
            forall|i: int| 0 <= i < old(self).keyboard_rows@[k as int]@.len() && i != j ==> #[trigger] final(self).keyboard_rows@[k as int]@[i]
                == old(self).keyboard_rows@[k as int]@[i],
            final(self).keyboard_rows@[k as int]@[j as int].trigger == old(self).keyboard_rows@[k as int]@[j as int].trigger,
            match msg {
                OnScreenButtonMsgIn::SetFormat(f) => final(self).keyboard_rows@[k as int]@[j as int].format == raised_format(
                    old(self).keyboard_rows@[k as int]@[j as int].format,
                    f,
                ),
            },
    {
        let mut row = self.keyboard_rows.remove(k);
        let mut button = row.remove(j);
        button.update(msg);
        row.insert(j, button);
        self.keyboard_rows.insert(k, row);
    }

    /// Raises the colour of the keys of `x` in keyboard row `k` to `f`.
    fn raise_keys_in_row(&mut self, k: usize, x: char, f: onscreen_button::Format)
        requires
            k < old(self).keyboard_rows@.len(),
        ensures
            final(self).letters == old(self).letters,
            final(self).selected_letter == old(self).selected_letter,
            final(self).word == old(self).word,
            final(self).number_of_letters == old(self).number_of_letters,
            final(self).attempts == old(self).attempts,
            final(self).word_list == old(self).word_list,
            final(self).current_ui_page == old(self).current_ui_page,
            final(self).game_won == old(self).game_won,
            final(self).toast_words_in_dictionary_displayed == old(self).toast_words_in_dictionary_displayed,
            final(self).index_of_last_entered_letter == old(self).index_of_last_entered_letter,
            final(self).current_word_list_name == old(self).current_word_list_name,
            final(self).keyboard_rows@.len() == old(self).keyboard_rows@.len(),
            forall|r: int| 0 <= r < old(self).keyboard_rows@.len() && r != k ==> #[trigger] final(self).keyboard_rows@[r]
                == old(self).keyboard_rows@[r],
            final(self).keyboard_rows@[k as int]@.len() == old(self).keyboard_rows@[k as int]@.len(),
            forall|i: int| 0 <= i < old(self).keyboard_rows@[k as int]@.len() ==> {
                &&& (#[trigger] final(self).keyboard_rows@[k as int]@[i]).trigger == old(self).keyboard_rows@[k as int]@[i].trigger
                &&& final(self).keyboard_rows@[k as int]@[i].format == (if old(self).keyboard_rows@[k as int]@[i].trigger == Key::Letter(x) {
                    raised_format(old(self).keyboard_rows@[k as int]@[i].format, f)
                } else {
                    old(self).keyboard_rows@[k as int]@[i].format
                })
            },
    {
        let ghost start = *self;
        let len = self.keyboard_rows[k].len();
        let mut j: usize = 0;
        while j < len
            invariant
                k < start.keyboard_rows@.len(),
                len == start.keyboard_rows@[k as int]@.len(),
                j <= len,
                self.letters == start.letters,
                self.selected_letter == start.selected_letter,
                self.word == start.word,
                self.number_of_letters == start.number_of_letters,
                self.attempts == start.attempts,
                self.word_list == start.word_list,
                self.current_ui_page == start.current_ui_page,
                self.game_won == start.game_won,
                self.toast_words_in_dictionary_displayed == start.toast_words_in_dictionary_displayed,
                self.index_of_last_entered_letter == start.index_of_last_entered_letter,
                self.current_word_list_name == start.current_word_list_name,
                self.keyboard_rows@.len() == start.keyboard_rows@.len(),
                forall|r: int| 0 <= r < start.keyboard_rows@.len() && r != k ==> #[trigger] self.keyboard_rows@[r]
                    == start.keyboard_rows@[r],
                self.keyboard_rows@[k as int]@.len() == len,
                forall|i: int| 0 <= i < len ==> {
                    &&& (#[trigger] self.keyboard_rows@[k as int]@[i]).trigger == start.keyboard_rows@[k as int]@[i].trigger
                    &&& self.keyboard_rows@[k as int]@[i].format == (if i < j && start.keyboard_rows@[k as int]@[i].trigger == Key::Letter(x) {
                        raised_format(start.keyboard_rows@[k as int]@[i].format, f)
                    } else {
                        start.keyboard_rows@[k as int]@[i].format
                    })
                },
            decreases len - j,
        {
            if self.keyboard_rows[k][j].trigger == Key::Letter(x) {
                self.update_button(k, j, OnScreenButtonMsgIn::SetFormat(f));
            }
            j += 1;
        }
    }

    /// Tells the key of `user_char`, in the first row that holds it, the colour `format`.
    fn send_on_screen_button_format(&mut self, user_char: char, format: onscreen_button::Format)
        ensures
            final(self).same_outside_keyboard(old(self)),
            raised_keys(old(self).keyboard_rows@, final(self).keyboard_rows@, user_char, format),
    {
        let ghost start = *self;
        let mut k: usize = 0;
        while k < self.keyboard_rows.len()
            invariant
                *self == start,
                start == *old(self),
                k <= self.keyboard_rows@.len(),
                forall|j: int| 0 <= j < k ==> !triggers(#[trigger] self.keyboard_rows@[j]@).contains(Key::Letter(user_char)),
            decreases self.keyboard_rows.len() - k,
        {
            if has_key(&self.keyboard_rows[k], Key::Letter(user_char)) {
                self.raise_keys_in_row(k, user_char, format);
                proof {
                    assert(self.same_outside_keyboard(&start));
                    assert(raised_keys(start.keyboard_rows@, self.keyboard_rows@, user_char, format)) by {
                    assert(first_row_with(start.keyboard_rows@, user_char, k as int));
                    assert forall|r: int, j: int|
                        0 <= r < start.keyboard_rows@.len() && 0 <= j < start.keyboard_rows@[r]@.len() && r != k
                            && start.keyboard_rows@[r]@[j].trigger == Key::Letter(user_char)
                        implies !first_row_with(start.keyboard_rows@, user_char, r) by {
                        if r < k {
                            assert(triggers(start.keyboard_rows@[r]@)[j] == Key::Letter(user_char));
                        } else {
                            assert(triggers(start.keyboard_rows@[k as int]@).contains(Key::Letter(user_char)));
                        }
                    }
                    }
                }
                return;
            }
            k += 1;
        }
        proof {
            assert forall|r: int, j: int|
                0 <= r < start.keyboard_rows@.len() && 0 <= j < start.keyboard_rows@[r]@.len()
                    && start.keyboard_rows@[r]@[j].trigger == Key::Letter(user_char)
                implies !first_row_with(start.keyboard_rows@, user_char, r) by {
                assert(triggers(start.keyboard_rows@[r]@)[j] == Key::Letter(user_char));
            }
        }
    }

    /// Everything but the keyboard is the same in `self` and `other`.
    pub open spec fn same_outside_keyboard(&self, other: &App) -> bool {
        &&& self.letters == other.letters
        &&& self.selected_letter == other.selected_letter
        &&& self.word == other.word
        &&& self.number_of_letters == other.number_of_letters
        &&& self.attempts == other.attempts
        &&& self.word_list == other.word_list
        &&& self.current_ui_page == other.current_ui_page
        &&& self.game_won == other.game_won
        &&& self.toast_words_in_dictionary_displayed == other.toast_words_in_dictionary_displayed
        &&& self.index_of_last_entered_letter == other.index_of_last_entered_letter
        &&& self.current_word_list_name == other.current_word_list_name
    }
}

/// Colouring one more letter of the guess takes the keyboard one letter further.
proof fn lemma_keyboard_step(
    orig: Seq<Vec<OnScreenButton>>,
    prev: Seq<Vec<OnScreenButton>>,
    cur: Seq<Vec<OnScreenButton>>,
    guess: Seq<char>,
    fs: Seq<Format>,
    i: int,
)
    requires
        0 <= i < guess.len(),
        i < fs.len(),
        keyboard_after(orig, prev, guess, fs, i),
        raised_keys(prev, cur, guess[i], osb_format_of(fs[i])),
    ensures
        keyboard_after(orig, cur, guess, fs, i + 1),
{
    lemma_same_triggers(prev, orig);
}

/// States with the same letters, size and selection show the same grid.
proof fn lemma_same_letters(a: App, b: App)
    requires
        b.letters == a.letters,
        b.number_of_letters == a.number_of_letters,
        b.selected_letter == a.selected_letter,
        a.grid_shape(),
        a.selection_shown(),
    ensures
        b.grid_shape(),
        b.selection_shown(),
        b.grid() == a.grid(),
{
    assert forall|r: int, c: int| 0 <= r < TRIES && 0 <= c < b.number_of_letters implies #[trigger] b.cell(r, c).selected
        == (r == b.selected_letter.row && c == b.selected_letter.column) by {
        assert(b.cell(r, c) == a.cell(r, c));
    }
}

/// The text of the cells up to `k` grows by the text of cell `k`.
proof fn lemma_row_text_step(row: Seq<(Seq<char>, Format, bool)>, k: int)
    requires
        0 <= k,
    ensures
        row_text(row, k + 1) == row_text(row, k) + row[k].0,
{
}

/// The row `row` with its first `k` cells marked (or unmarked) as not in the dictionary.
pub open spec fn marked_upto(
    row: Seq<(Seq<char>, Format, bool)>,
    v: bool,
    k: int,
) -> Seq<(Seq<char>, Format, bool)> {
    Seq::new(row.len(), |c: int| if c < k { (row[c].0, row[c].1, v) } else { row[c] })
}

/// The word list a new game draws its word from: the secret words, or the public ones
/// when there is no secret word of the length played.
pub open spec fn word_pool(wl: WordList) -> Seq<String> {
    if wl.secret_words@.len() > 0 {
        wl.secret_words@
    } else {
        wl.none_secret_words@
    }
}

impl App {
    /// Fills the keyboard with the keys of the word list, row by row, none coloured.
    fn create_new_keyboard(&mut self)
        ensures
            final(self).fresh_keyboard(),
            final(self).same_outside_keyboard(old(self)),
    {
        let mut rows: Vec<Vec<OnScreenButton>> = Vec::new();
        let mut k: usize = 0;
        while k < 3
            invariant
                k <= 3,
                rows@.len() == k,
                forall|kk: int| 0 <= kk < k ==> triggers(#[trigger] rows@[kk]@) == (if kk < self.word_list.keys@.len() {
                    distinct_keys(self.word_list.keys@[kk]@)
                } else {
                    Seq::empty()
                }),
                forall|kk: int, i: int|
                    0 <= kk < k && 0 <= i < rows@[kk]@.len() ==> (#[trigger] rows@[kk]@[i]).format
                        == onscreen_button::Format::NotUsed,
            decreases 3 - k,
        {
            let mut row: Vec<OnScreenButton> = Vec::new();
            if k < self.word_list.keys.len() {
                let keys = &self.word_list.keys[k];
                let mut i: usize = 0;
                while i < keys.len()
                    invariant
                        i <= keys@.len(),
                        triggers(row@) == distinct_keys(keys@.take(i as int)),
                        forall|j: int| 0 <= j < row@.len() ==> (#[trigger] row@[j]).format == onscreen_button::Format::NotUsed,
                    decreases keys.len() - i,
                {
                    let key = keys[i];
                    proof {
                        assert(keys@.take(i + 1).drop_last() =~= keys@.take(i as int));
                        assert(keys@.take(i + 1).last() == key);
                    }
                    if !has_key(&row, key) {
                        let ghost before = row@;
                        row.push(OnScreenButton::init_model(key));
                        assert(triggers(row@) =~= triggers(before).push(key));
                    }
                    i += 1;
                }
                assert(keys@.take(keys@.len() as int) =~= keys@);
            } else {
                assert(triggers(row@) =~= Seq::<Key>::empty());
            }
            rows.push(row);
            k += 1;
        }
        self.keyboard_rows = rows;
    }

    /// Marks (or unmarks) the cells of the current guess as not in the dictionary.
    fn set_word_to_incorrect(&mut self, v: bool)
        requires
            old(self).grid_shape(),
            old(self).selection_shown(),
            old(self).attempts < TRIES,
        ensures
            final(self).same_outside_grid(old(self)),
            final(self).grid_shape(),
            final(self).selection_shown(),
            final(self).grid() == old(self).grid().update(
                old(self).attempts as int,
                marked_row(old(self).grid()[old(self).attempts as int], v),
            ),
    {
        let ghost start = *self;
        let ghost a = self.attempts as int;
        let n = self.number_of_letters;
        assert(marked_upto(start.grid()[a], v, 0) =~= start.grid()[a]);
        assert(start.grid().update(a, start.grid()[a]) =~= start.grid());
        let mut column: usize = 0;
        while column < n
            invariant
                n == start.number_of_letters,
                start.grid_shape(),
                a == start.attempts,
                a < TRIES,
                column <= n,
                self.same_outside_grid(&start),
                self.grid_shape(),
                self.selection_shown(),
                self.grid() == start.grid().update(a, marked_upto(start.grid()[a], v, column as int)),
            decreases n - column,
        {
            let p = Coord { column, row: self.attempts };
            let ghost before = *self;
            self.update_cell(p, LetterMsgIn::SetIncorrect(v));
            proof {
                lemma_grid_after_cell(before, *self, p);
                lemma_selection_kept(before, *self, p);
                assert(before.grid()[a][column as int] == cell_view(before.cell_at(p)));
                assert(start.grid()[a][column as int] == before.grid()[a][column as int]);
                assert(marked_upto(start.grid()[a], v, column + 1) =~= marked_upto(start.grid()[a], v, column as int).update(
                    column as int,
                    cell_view(self.cell_at(p)),
                ));
            }
            column += 1;
        }
        assert(marked_upto(start.grid()[a], v, n as int) =~= marked_row(start.grid()[a], v));
    }

    /// The text of the current guess, cell after cell; none when every guess is used up.
    fn get_entered_word(&self) -> (r: Option<String>)
        requires
            self.grid_shape(),
        ensures
            r is None <==> self.attempts >= TRIES,
            r matches Some(s) ==> s@ == self.guess_text(),
    {
        if self.attempts >= TRIES {
            return None;
        }
        let ghost row = self.grid()[self.attempts as int];
        let mut content_of_current_attempt = String::new();
        let mut column: usize = 0;
        while column < self.number_of_letters
            invariant
                self.grid_shape(),
                self.attempts < TRIES,
                row == self.grid()[self.attempts as int],
                column <= self.number_of_letters,
                content_of_current_attempt@ == row_text(row, column as int),
            decreases self.number_of_letters - column,
        {
            proof {
                lemma_row_text_step(row, column as int);
            }
            content_of_current_attempt.append(self.letters[self.attempts][column].value.as_str());
            column += 1;
        }
        Some(content_of_current_attempt)
    }

    /// Colours the cells of the current guess `entered_word` against the secret word, and
    /// the keys of its letters.
    fn set_color_of_letters_according_matching(&mut self, entered_word: &str)
        requires
            old(self).grid_shape(),
            old(self).selection_shown(),
            old(self).attempts < TRIES,
            old(self).number_of_letters <= 11,
            old(self).word@.len() == old(self).number_of_letters,
            entered_word@.len() == old(self).number_of_letters,
        ensures
            final(self).grid_shape(),
            final(self).selection_shown(),
            final(self).grid() == old(self).grid().update(
                old(self).attempts as int,
                colored_row(
                    old(self).grid()[old(self).attempts as int],
                    coloring(old(self).word@, entered_word@, utf8_len(old(self).word@)),
                ),
            ),
            keyboard_after(
                old(self).keyboard_rows@,
                final(self).keyboard_rows@,
                entered_word@,
                coloring(old(self).word@, entered_word@, utf8_len(old(self).word@)),
                entered_word@.len() as int,
            ),
            final(self).selected_letter == old(self).selected_letter,
            final(self).word == old(self).word,
            final(self).number_of_letters == old(self).number_of_letters,
            final(self).attempts == old(self).attempts,
            final(self).word_list == old(self).word_list,
            final(self).current_ui_page == old(self).current_ui_page,
            final(self).game_won == old(self).game_won,
            final(self).toast_words_in_dictionary_displayed == old(self).toast_words_in_dictionary_displayed,
            final(self).index_of_last_entered_letter == old(self).index_of_last_entered_letter,
            final(self).current_word_list_name == old(self).current_word_list_name,
    {
        let ghost start = *self;
        proof {
            lemma_utf8_len_ge(self.word@);
            lemma_utf8_len_le(self.word@);
        }
        let format = calculate_color(self.word.as_str(), entered_word);
        let chars = chars_of(entered_word);
        let ghost a = self.attempts as int;
        let ghost fs = format@;
        assert(colored_row(start.grid()[a], fs.take(0)) =~= start.grid()[a]);
        assert(start.grid().update(a, start.grid()[a]) =~= start.grid());
        let mut column: usize = 0;
        while column < chars.len()
            invariant
                start.grid_shape(),
                a == start.attempts,
                a < TRIES,
                chars@ == entered_word@,
                chars@.len() == start.number_of_letters,
                fs == format@,
                fs.len() >= chars@.len(),
                column <= chars@.len(),
                self.grid_shape(),
                self.selection_shown(),
                self.selected_letter == start.selected_letter,
                self.word == start.word,
                self.number_of_letters == start.number_of_letters,
                self.attempts == start.attempts,
                self.word_list == start.word_list,
                self.current_ui_page == start.current_ui_page,
                self.game_won == start.game_won,
                self.toast_words_in_dictionary_displayed == start.toast_words_in_dictionary_displayed,
                self.index_of_last_entered_letter == start.index_of_last_entered_letter,
                self.current_word_list_name == start.current_word_list_name,
                self.grid() == start.grid().update(a, colored_row(start.grid()[a], fs.take(column as int))),
                keyboard_after(start.keyboard_rows@, self.keyboard_rows@, chars@, fs, column as int),
            decreases chars.len() - column,
        {
            let f = format[column];
            let p = Coord { column, row: self.attempts };
            let ghost before = *self;
            self.update_cell(p, LetterMsgIn::SetFormat(f));
            proof {
                lemma_grid_after_cell(before, *self, p);
                lemma_selection_kept(before, *self, p);
                assert(before.grid()[a][column as int] == cell_view(before.cell_at(p)));
                assert(start.grid()[a][column as int] == before.grid()[a][column as int]);
                assert(colored_row(start.grid()[a], fs.take(column + 1)) =~= colored_row(start.grid()[a], fs.take(column as int)).update(
                    column as int,
                    cell_view(self.cell_at(p)),
                ));
            }
            let ghost mid = *self;
            self.send_on_screen_button_format(chars[column], f.to_osb_format());
            proof {
                lemma_same_letters(mid, *self);
                lemma_keyboard_step(start.keyboard_rows@, mid.keyboard_rows@, self.keyboard_rows@, chars@, fs, column as int);
            }
            column += 1;
        }
        assert(colored_row(start.grid()[a], fs.take(chars@.len() as int)) =~= colored_row(start.grid()[a], fs));
    }

    /// Starts a new game with the word list in use.
    fn start_new_game(&mut self)
        requires
            4 <= old(self).number_of_letters <= 11,
            old(self).word_list.fits(old(self).number_of_letters as nat),
        ensures
            final(self).new_game(
                old(self),
                old(self).number_of_letters,
                old(self).word_list,
                old(self).current_word_list_name@,
            ),
    {
        let word = if self.word_list.secret_words.len() > 0 {
            pick_random_word(&self.word_list.secret_words)
        } else {
            pick_random_word(&self.word_list.none_secret_words)
        };
        let ghost i = choose|i: int| 0 <= i < word_pool(self.word_list).len() && word@ == (#[trigger] word_pool(self.word_list)[i])@;
        proof {
            if self.word_list.secret_words@.len() > 0 {
                assert(self.word_list.secret_words@[i]@.len() == self.number_of_letters);
            } else {
                assert(self.word_list.none_secret_words@[i]@.len() == self.number_of_letters);
            }
        }
        self.word = word;
        self.attempts = 0;
        self.index_of_last_entered_letter = 0;
        self.selected_letter = Coord { column: 0, row: 0 };
        self.current_ui_page = Page::Game;
        self.create_empty_field();
        let ghost mid = *self;
        self.create_new_keyboard();
        proof {
            lemma_same_letters(mid, *self);
            assert forall|r: int, c: int| 0 <= r < TRIES && 0 <= c < self.number_of_letters implies #[trigger] cell_view(self.cell(r, c))
                == (Seq::<char>::empty(), Format::NotUsed, false) by {
                assert(self.cell(r, c) == mid.cell(r, c));
            }
            assert(self.word@ == word_pool(self.word_list)[i]@);
        }
    }
}

/// The reaction asks for nothing.
pub open spec fn no_reaction(r: &Reaction) -> bool {
    r.message is None && r.effects@.len() == 0
}

/// The reaction asks only for the word list `name` to be read for words of `length`
/// letters.
pub open spec fn load_request(r: &Reaction, name: Seq<char>, length: usize, fall_back: bool) -> bool {
    &&& r.message is None
    &&& r.effects@.len() == 1
    &&& r.effects@[0] matches Effect::LoadWordList { name: n, length: l, fall_back: f }
    &&& n@ == name
    &&& l == length
    &&& f == fall_back
}

impl App {
    /// `self` is a new game with `length` letters and the word list `list` called `name`,
    /// after `before`: what the player was told stays as it was.
    pub open spec fn new_game(&self, before: &App, length: usize, list: WordList, name: Seq<char>) -> bool {
        &&& self.started(length, list, name)
        &&& self.game_won == before.game_won
        &&& self.toast_words_in_dictionary_displayed == before.toast_words_in_dictionary_displayed
    }

    /// `self` is a game just started with `length` letters and the word list `list` called
    /// `name`: an empty grid with the top-left cell selected, a fresh keyboard, no guess
    /// made, and a word drawn from the word list.
    pub open spec fn started(&self, length: usize, list: WordList, name: Seq<char>) -> bool {
        &&& self.wf()
        &&& self.fresh_grid()
        &&& self.fresh_keyboard()
        &&& self.selected_letter == Coord { column: 0, row: 0 }
        &&& self.attempts == 0
        &&& self.index_of_last_entered_letter == 0
        &&& self.current_ui_page == Page::Game
        &&& exists|i: int| 0 <= i < word_pool(self.word_list).len() && self.word@ == (#[trigger] word_pool(self.word_list)[i])@
        &&& self.number_of_letters == length
        &&& self.word_list == list
        &&& self.current_word_list_name@ == name
    }

    /// The cell the player clicked at `index` is selected if it belongs to the current guess.
    pub open spec fn after_select(&self, new: &App, index: Coord) -> bool {
        &&& new.same_round(self)
        &&& new.grid() == self.grid()
        &&& new.index_of_last_entered_letter == 0
        &&& new.selected_letter == (if index.row == self.attempts { index } else { self.selected_letter })
    }

    /// The letter `c`, in upper case, is put into the selected cell and the selection
    /// moves on, when its upper case is one letter of the keyboard; nothing happens
    /// otherwise.
    pub open spec fn after_enter_letter(&self, new: &App, c: char) -> bool {
        self.after_entering(new, char_uppercase(c))
    }

    /// The text `u` is put into the selected cell and the selection moves on, when `u` is
    /// one letter of the keyboard; nothing happens otherwise.
    pub open spec fn after_entering(&self, new: &App, u: Seq<char>) -> bool {
        if u.len() == 1 && self.word_list.allowed_letters@.contains(u[0]) {
            &&& new.same_round(self)
            &&& new.grid() == with_text(self.grid(), self.selected_letter, u)
            &&& new.index_of_last_entered_letter == self.selected_letter.column
            &&& new.selected_letter == self.moved_by(1)
        } else {
            *new == *self
        }
    }

    /// Backspace in the last cell, right after a letter was entered in a cell other than
    /// the one before it, while the last cell holds a letter: that letter goes, through
    /// a `Delete`.
    pub open spec fn deletes_in_place(&self) -> bool {
        &&& self.selected_letter.column == self.number_of_letters - 1
        &&& self.index_of_last_entered_letter != self.number_of_letters - 2
        &&& self.cell_at(self.selected_letter).value@.len() != 0
    }

    /// Otherwise backspace moves the selection one cell back, if it can, and empties the
    /// cell it is then on.
    pub open spec fn after_backspace(&self, new: &App) -> bool {
        &&& new.same_round(self)
        &&& new.index_of_last_entered_letter == self.index_of_last_entered_letter
        &&& new.selected_letter == self.moved_by(-1)
        &&& new.grid() == with_text(self.grid(), self.moved_by(-1), Seq::empty())
    }

    /// The colours of the current guess against the secret word.
    pub open spec fn guess_colors(&self) -> Seq<Format> {
        coloring(self.word@, self.guess_text(), utf8_len(self.word@))
    }

    /// The current guess, a word of the list, is coloured, cell by cell and on the
    /// keyboard, and counted.
    pub open spec fn after_accepted_guess(&self, new: &App) -> bool {
        &&& new.same_settings(self)
        &&& new.selected_letter == self.selected_letter
        &&& new.index_of_last_entered_letter == self.index_of_last_entered_letter
        &&& new.attempts == self.attempts + 1
        &&& new.grid() == self.grid().update(
            self.attempts as int,
            colored_row(self.grid()[self.attempts as int], self.guess_colors()),
        )
        &&& keyboard_after(
            self.keyboard_rows@,
            new.keyboard_rows@,
            self.guess_text(),
            self.guess_colors(),
            self.guess_text().len() as int,
        )
    }

    /// The current guess, not a word of the list, is marked as such; the player is told
    /// so the first time.
    pub open spec fn after_rejected_guess(&self, new: &App, r: &Reaction) -> bool {
        &&& new.word == self.word
        &&& new.number_of_letters == self.number_of_letters
        &&& new.word_list == self.word_list
        &&& new.current_ui_page == self.current_ui_page
        &&& new.game_won == self.game_won
        &&& new.current_word_list_name == self.current_word_list_name
        &&& new.attempts == self.attempts
        &&& new.keyboard_rows == self.keyboard_rows
        &&& new.selected_letter == self.selected_letter
        &&& new.index_of_last_entered_letter == self.index_of_last_entered_letter
        &&& new.toast_words_in_dictionary_displayed
        &&& new.grid() == self.grid().update(self.attempts as int, marked_row(self.grid()[self.attempts as int], true))
        &&& r.message is None
        &&& r.effects@.len() == (if self.toast_words_in_dictionary_displayed { 1int } else { 2int })
        &&& !self.toast_words_in_dictionary_displayed ==> r.effects@[0] is ShowDictionaryToast
        &&& r.effects@.last() is ResetIncorrectWordLater
    }

    /// What entering the current guess does.
    pub open spec fn after_enter_word(&self, new: &App, r: &Reaction) -> bool {
        if self.attempts >= TRIES {
            *new == *self && no_reaction(r)
        } else if self.guess_text() == self.word@ {
            &&& new.same_settings(self)
            &&& new.keyboard_rows == self.keyboard_rows
            &&& new.letters == self.letters
            &&& new.selected_letter == self.selected_letter
            &&& new.index_of_last_entered_letter == self.index_of_last_entered_letter
            &&& new.attempts == self.attempts + 1
            &&& r.message == Some(AppMsg::GameOver(true))
            &&& r.effects@.len() == 0
        } else if self.guess_text().len() < self.number_of_letters {
            *new == *self && no_reaction(r)
        } else if !self.word_list.words().contains(self.guess_text()) {
            self.after_rejected_guess(new, r)
        } else {
            &&& self.after_accepted_guess(new)
            &&& r.effects@.len() == 0
            &&& r.message == (if self.attempts + 1 >= TRIES {
                Some(AppMsg::GameOver(false))
            } else {
                Some(AppMsg::SelectField(Coord { column: 0, row: (self.attempts + 1) as usize }))
            })
        }
    }

    /// What the message `msg` does to the game `self`, giving `new` and the reaction `r`.
    pub open spec fn answers(&self, msg: AppMsg, new: &App, r: &Reaction) -> bool {
        match msg {
            AppMsg::Quit => *new == *self && r.message is None && r.effects@.len() == 1
                && r.effects@[0] is Quit,
            AppMsg::SelectField(index) => self.after_select(new, index) && no_reaction(r),
            AppMsg::MoveCursor(step) => {
                &&& new.same_round(self)
                &&& new.grid() == self.grid()
                &&& new.index_of_last_entered_letter == 0
                &&& new.selected_letter == self.moved_by(step as int)
                &&& no_reaction(r)
            },
            AppMsg::StartNewGame => new.new_game(
                self,
                self.number_of_letters,
                self.word_list,
                self.current_word_list_name@,
            ) && no_reaction(r),
            AppMsg::EnterLetter(c) => self.after_enter_letter(new, c) && no_reaction(r),
            AppMsg::Delete => {
                &&& new.same_outside_grid(self)
                &&& new.grid() == with_text(self.grid(), self.selected_letter, Seq::empty())
                &&& no_reaction(r)
            },
            AppMsg::Space => {
                &&& new.same_round(self)
                &&& new.index_of_last_entered_letter == self.index_of_last_entered_letter
                &&& new.selected_letter == self.moved_by(1)
                &&& new.grid() == with_text(self.grid(), self.selected_letter, Seq::empty())
                &&& no_reaction(r)
            },
            AppMsg::Backspace => if self.deletes_in_place() {
                *new == *self && r.message == Some(AppMsg::Delete) && r.effects@.len() == 0
            } else {
                self.after_backspace(new) && no_reaction(r)
            },
            AppMsg::EnterWord => self.after_enter_word(new, r),
            AppMsg::GameOver(won) => {
                &&& new.letters == self.letters
                &&& new.selected_letter == self.selected_letter
                &&& new.word == self.word
                &&& new.number_of_letters == self.number_of_letters
                &&& new.attempts == self.attempts
                &&& new.word_list == self.word_list
                &&& new.keyboard_rows == self.keyboard_rows
                &&& new.current_ui_page == Page::GameOver
                &&& new.game_won == won
                &&& new.toast_words_in_dictionary_displayed == self.toast_words_in_dictionary_displayed
                &&& new.index_of_last_entered_letter == self.index_of_last_entered_letter
                &&& new.current_word_list_name == self.current_word_list_name
                &&& no_reaction(r)
            },
            AppMsg::SetLengthTo(length) => *new == *self && if length != self.number_of_letters {
                load_request(r, self.current_word_list_name@, length, false)
            } else {
                no_reaction(r)
            },
            AppMsg::SwitchToWordList(name) => *new == *self && load_request(
                r,
                name@,
                self.number_of_letters,
                true,
            ),
            AppMsg::WordListLoaded(name, length, list) => new.new_game(self, length, list, name@) && no_reaction(r),
            AppMsg::WordListMissing(name) => *new == *self && load_request(r, name@, 5, false),
        }
    }

    /// The messages the game accepts in the state `self`: a click selects a cell of the
    /// grid, and a word list that is loaded fits its length.
    pub open spec fn accepts(&self, msg: AppMsg) -> bool {
        match msg {
            AppMsg::SelectField(index) => index.row == self.attempts ==> self.in_grid(index),
            AppMsg::WordListLoaded(_, length, list) => 4 <= length <= 11 && list.fits(length as nat),
            _ => true,
        }
    }
}

/// The name of the word list a game falls back to.
pub open spec fn default_game_name() -> Seq<char> {
    seq!['E', 'n', 'g', 'l', 'i', 's', 'h']
}

/// Whether the list of word lists `v` holds the name `s`.
pub open spec fn names(v: Seq<String>, s: Seq<char>) -> bool {
    exists|i: int| 0 <= i < v.len() && #[trigger] v[i]@ == s
}

/// The word list a session starts with, among `available_word_lists`: the one played
/// last, else the English one, else the first; with its position in the list.
pub fn choose_word_list(available_word_lists: &Vec<String>, last_game: &str) -> (r: (usize, String))
    requires
        available_word_lists@.len() > 0,
    ensures
        r.0 < available_word_lists@.len(),
        r.1@ == available_word_lists@[r.0 as int]@,
        names(available_word_lists@, last_game@) ==> r.1@ == last_game@ && forall|j: int|
            0 <= j < r.0 ==> #[trigger] available_word_lists@[j]@ != last_game@,
        !names(available_word_lists@, last_game@) && names(available_word_lists@, default_game_name())
            ==> r.1@ == default_game_name() && forall|j: int|
            0 <= j < r.0 ==> #[trigger] available_word_lists@[j]@ != default_game_name(),
        !names(available_word_lists@, last_game@) && !names(available_word_lists@, default_game_name())
            ==> r.0 == 0,
{
    let fallback = available_word_lists[0].clone();
    if let Some(i) = get_index(available_word_lists, last_game) {
        return (i, last_game.to_owned());
    }
    let default_name = "English";
    proof {
        reveal_strlit("English");
        assert(default_name@ =~= default_game_name());
    }
    if let Some(i) = get_index(available_word_lists, default_name) {
        (i, default_name.to_owned())
    } else {
        (0, fallback)
    }
}

impl App {
    /// A game of `number_of_letters` letters with the word list `word_list` called `name`,
    /// started.
    pub fn new(word_list: WordList, number_of_letters: usize, name: String) -> (r: App)
        requires
            4 <= number_of_letters <= 11,
            word_list.fits(number_of_letters as nat),
        ensures
            r.started(number_of_letters, word_list, name@),
            !r.game_won,
            !r.toast_words_in_dictionary_displayed,
    {
        let mut app = App {
            letters: Vec::new(),
            selected_letter: Coord { column: 0, row: 0 },
            word: String::new(),
            number_of_letters,
            attempts: 0,
            word_list,
            keyboard_rows: vec![Vec::new(), Vec::new(), Vec::new()],
            current_ui_page: Page::Game,
            game_won: false,
            toast_words_in_dictionary_displayed: false,
            index_of_last_entered_letter: 0,
            current_word_list_name: name,
        };
        app.start_new_game();
        app
    }

    /// Enters the letter `c` into the selected cell, in upper case, if that is a letter of
    /// the keyboard.
    fn enter_letter(&mut self, c: char)
        requires
            old(self).wf(),
        ensures
            final(self).wf(),
            old(self).after_enter_letter(final(self), c),
    {
        let upper_case = char_to_uppercase(c);
        self.enter_upper_case(upper_case);
    }

    /// Enters `upper_case`, a letter typed and put in upper case, into the selected cell if
    /// it is one letter of the keyboard, and moves the selection on.
    pub fn enter_upper_case(&mut self, upper_case: String)
        requires
            old(self).wf(),
        ensures
            final(self).wf(),
            old(self).after_entering(final(self), upper_case@),
    {
        let chars = chars_of(upper_case.as_str());
        if chars.len() == 1 && contains_char(&self.word_list.allowed_letters, chars[0]) {
            let selected = self.selected_letter;
            self.set_content(selected, Some(upper_case));
            let ghost mid = *self;
            self.index_of_last_entered_letter = selected.column;
            proof {
                lemma_same_letters(mid, *self);
            }
            self.move_selection_by(1);
        }
    }

    /// Deletes backwards: the letter in the last cell where it stands alone, else the one
    /// before the selection.
    fn backspace(&mut self) -> (r: Reaction)
        requires
            old(self).wf(),
        ensures
            final(self).wf(),
            if old(self).deletes_in_place() {
                *final(self) == *old(self) && r.message == Some(AppMsg::Delete) && r.effects@.len() == 0
            } else {
                old(self).after_backspace(final(self)) && no_reaction(&r)
            },
    {
        let selected = self.selected_letter;
        let n = self.number_of_letters;
        if selected.column == n - 1 && self.index_of_last_entered_letter != n - 2
            && !self.letters[selected.row][selected.column].value.as_str().is_empty() {
            return Reaction { message: Some(AppMsg::Delete), effects: Vec::new() };
        }
        self.move_selection_by(-1);
        let target = self.selected_letter;
        self.set_content(target, None);
        Reaction { message: None, effects: Vec::new() }
    }

    /// Enters the current guess: a win, a word that is not in the list, or a coloured
    /// guess.
    fn enter_word(&mut self) -> (r: Reaction)
        requires
            old(self).wf(),
        ensures
            final(self).wf(),
            old(self).after_enter_word(final(self), &r),
    {
        let content_of_current_attempt = match self.get_entered_word() {
            Some(content) => content,
            None => {
                return Reaction { message: None, effects: Vec::new() };
            },
        };
        let ghost start = *self;
        if str_eq(content_of_current_attempt.as_str(), self.word.as_str()) {
            self.attempts += 1;
            proof {
                lemma_same_letters(start, *self);
            }
            return Reaction { message: Some(AppMsg::GameOver(true)), effects: Vec::new() };
        }
        if chars_of(content_of_current_attempt.as_str()).len() < self.number_of_letters {
            return Reaction { message: None, effects: Vec::new() };
        }
        if !self.word_list.contains(content_of_current_attempt.as_str()) {
            let mut effects: Vec<Effect> = Vec::new();
            if !self.toast_words_in_dictionary_displayed {
                effects.push(Effect::ShowDictionaryToast);
                self.toast_words_in_dictionary_displayed = true;
            }
            proof {
                lemma_same_letters(start, *self);
            }
            self.set_word_to_incorrect(true);
            effects.push(Effect::ResetIncorrectWordLater);
            return Reaction { message: None, effects };
        }
        proof {
            let w = content_of_current_attempt@;
            if word_set(self.word_list.secret_words@).contains(w) {
                let i = choose|i: int| 0 <= i < self.word_list.secret_words@.len() && #[trigger] self.word_list.secret_words@[i]@ == w;
                assert(self.word_list.secret_words@[i]@.len() == self.number_of_letters);
            } else {
                let i = choose|i: int| 0 <= i < self.word_list.none_secret_words@.len() && #[trigger] self.word_list.none_secret_words@[i]@ == w;
                assert(self.word_list.none_secret_words@[i]@.len() == self.number_of_letters);
            }
        }
        self.set_color_of_letters_according_matching(content_of_current_attempt.as_str());
        let ghost colored = *self;
        self.attempts += 1;
        proof {
            lemma_same_letters(colored, *self);
        }
        if self.attempts >= TRIES {
            return Reaction { message: Some(AppMsg::GameOver(false)), effects: Vec::new() };
        }
        Reaction {
            message: Some(AppMsg::SelectField(Coord { column: 0, row: self.attempts })),
            effects: Vec::new(),
        }
    }

    /// Answers a message of the window: the new state, and what the window is to do next.
    pub fn update(&mut self, message: AppMsg) -> (r: Reaction)
        requires
            old(self).wf(),
            old(self).accepts(message),
        ensures
            final(self).wf(),
            old(self).answers(message, final(self), &r),
    {
        let ghost start = *self;
        let none = Reaction { message: None, effects: Vec::new() };
        match message {
            AppMsg::Quit => Reaction { message: None, effects: vec![Effect::Quit] },
            AppMsg::SelectField(index) => {
                self.index_of_last_entered_letter = 0;
                proof {
                    lemma_same_letters(start, *self);
                }
                if index.row == self.attempts {
                    self.select_field(index);
                }
                none
            },
            AppMsg::MoveCursor(step) => {
                self.index_of_last_entered_letter = 0;
                proof {
                    lemma_same_letters(start, *self);
                }
                self.move_selection_by(step);
                none
            },
            AppMsg::StartNewGame => {
                self.start_new_game();
                none
            },
            AppMsg::EnterLetter(c) => {
                self.enter_letter(c);
                none
            },
            AppMsg::Delete => {
                let selected = self.selected_letter;
                self.set_content(selected, None);
                none
            },
            AppMsg::Space => {
                let selected = self.selected_letter;
                self.set_content(selected, None);
                self.move_selection_by(1);
                none
            },
            AppMsg::Backspace => self.backspace(),
            AppMsg::EnterWord => self.enter_word(),
            AppMsg::GameOver(won) => {
                self.game_won = won;
                self.current_ui_page = Page::GameOver;
                proof {
                    lemma_same_letters(start, *self);
                }
                none
            },
            AppMsg::SetLengthTo(length) => {
                if length != self.number_of_letters {
                    Reaction {
                        message: None,
                        effects: vec![
                            Effect::LoadWordList {
                                name: self.current_word_list_name.clone(),
                                length,
                                fall_back: false,
                            },
                        ],
                    }
                } else {
                    none
                }
            },
            AppMsg::SwitchToWordList(name) => Reaction {
                message: None,
                effects: vec![Effect::LoadWordList { name, length: self.number_of_letters, fall_back: true }],
            },
            AppMsg::WordListLoaded(name, length, list) => {
                self.word_list = list;
                self.number_of_letters = length;
                self.current_word_list_name = name;
                self.start_new_game();
                none
            },
            AppMsg::WordListMissing(name) => Reaction {
                message: None,
                effects: vec![Effect::LoadWordList { name, length: 5, fall_back: false }],
            },
        }
    }

    /// Answers a message the window hands back later: the marks of a guess that is not
    /// in the dictionary go away.
    pub fn update_cmd(&mut self, message: CommandMsg)
        requires
            old(self).wf(),
            old(self).attempts < TRIES,
        ensures
            final(self).wf(),
            match message {
                CommandMsg::ResetIncorrectWord => {
                    &&& final(self).same_outside_grid(old(self))
                    &&& final(self).grid() == old(self).grid().update(
                        old(self).attempts as int,
                        marked_row(old(self).grid()[old(self).attempts as int], false),
                    )
                },
            },
    {
        match message {
            CommandMsg::ResetIncorrectWord => self.set_word_to_incorrect(false),
        }
    }
}

/// Colouring letters never lowers the colour of a key.
proof fn lemma_key_color_rises(
    f: onscreen_button::Format,
    x: char,
    guess: Seq<char>,
    fs: Seq<Format>,
    i: int,
)
    ensures
        onscreen_button::format_rank(key_color(f, x, guess, fs, i)) >= onscreen_button::format_rank(f),
    decreases i,
{
    if i > 0 {
        lemma_key_color_rises(f, x, guess, fs, i - 1);
    }
}

/// While a game goes on, the colour of a key never goes down: a message other than the
/// start of a new game leaves every key of the keyboard at least as high as it was.
pub proof fn law_keys_never_fade(old: App, msg: AppMsg, new: App, r: Reaction)
    requires
        old.wf(),
        old.answers(msg, &new, &r),
        !(msg is StartNewGame),
        !(msg is WordListLoaded),
    ensures
        new.keyboard_rows@.len() == old.keyboard_rows@.len(),
        forall|k: int| 0 <= k < old.keyboard_rows@.len() ==> (#[trigger] new.keyboard_rows@[k])@.len()
            == old.keyboard_rows@[k]@.len(),
        forall|k: int, j: int|
            0 <= k < old.keyboard_rows@.len() && 0 <= j < old.keyboard_rows@[k]@.len() ==> {
                &&& (#[trigger] new.keyboard_rows@[k]@[j]).trigger == old.keyboard_rows@[k]@[j].trigger
                &&& onscreen_button::format_rank(new.keyboard_rows@[k]@[j].format) >= onscreen_button::format_rank(
                    old.keyboard_rows@[k]@[j].format,
                )
            },
{
    if msg is EnterWord && old.attempts < TRIES && old.guess_text() != old.word@
        && old.guess_text().len() >= old.number_of_letters && old.word_list.words().contains(old.guess_text()) {
        assert forall|k: int, j: int|
            0 <= k < old.keyboard_rows@.len() && 0 <= j < old.keyboard_rows@[k]@.len() implies onscreen_button::format_rank(
                (#[trigger] new.keyboard_rows@[k]@[j]).format,
            ) >= onscreen_button::format_rank(old.keyboard_rows@[k]@[j].format) by {
            if let Key::Letter(x) = old.keyboard_rows@[k]@[j].trigger {
                lemma_key_color_rises(
                    old.keyboard_rows@[k]@[j].format,
                    x,
                    old.guess_text(),
                    old.guess_colors(),
                    old.guess_text().len() as int,
                );
            }
        }
    }
}

/// Guesses are counted one at a time: a message other than the start of a new game
/// adds at most one guess, and only entering a guess adds one.
pub proof fn law_one_guess_at_a_time(old: App, msg: AppMsg, new: App, r: Reaction)
    requires
        old.wf(),
        old.answers(msg, &new, &r),
        !(msg is StartNewGame),
        !(msg is WordListLoaded),
    ensures
        old.attempts <= new.attempts <= old.attempts + 1,
        !(msg is EnterWord) ==> new.attempts == old.attempts,
{
}

/// A guess that is not a word of the list is not counted: the grid only marks it, and
/// the keyboard keeps its colours.
pub proof fn law_unknown_word_not_counted(old: App, new: App, r: Reaction)
    requires
        old.wf(),
        old.answers(AppMsg::EnterWord, &new, &r),
        old.attempts < TRIES,
        old.guess_text() != old.word@,
        !old.word_list.words().contains(old.guess_text()),
    ensures
        new.attempts == old.attempts,
        new.keyboard_rows == old.keyboard_rows,
        r.message is None,
{
}

impl App {
    /// Every cell of the grid is empty or holds one letter of the keyboard.
    pub open spec fn cells_hold_keyboard_letters(&self) -> bool {
        forall|r: int, c: int|
            0 <= r < TRIES && 0 <= c < self.number_of_letters ==> {
                let t = (#[trigger] self.grid()[r][c]).0;
                t.len() == 0 || (t.len() == 1 && self.word_list.allowed_letters@.contains(t[0]))
            }
    }
}

/// A grid in which each text is as before or a letter of the keyboard keeps holding only
/// letters of the keyboard.
proof fn lemma_texts_kept(old: App, new: App)
    requires
        old.wf(),
        new.wf(),
        old.cells_hold_keyboard_letters(),
        new.number_of_letters == old.number_of_letters,
        new.word_list == old.word_list,
        forall|r: int, c: int|
            0 <= r < TRIES && 0 <= c < old.number_of_letters ==> {
                let t = (#[trigger] new.grid()[r][c]).0;
                t == old.grid()[r][c].0 || t.len() == 0 || (t.len() == 1 && old.word_list.allowed_letters@.contains(t[0]))
            },
    ensures
        new.cells_hold_keyboard_letters(),
{
    assert forall|r: int, c: int| 0 <= r < TRIES && 0 <= c < new.number_of_letters implies {
        let t = (#[trigger] new.grid()[r][c]).0;
        t.len() == 0 || (t.len() == 1 && new.word_list.allowed_letters@.contains(t[0]))
    } by {
        assert(old.grid()[r][c] == old.grid()[r][c]);
    }
}

/// Only letters of the keyboard can be entered: whatever message the game answers, every
/// cell stays empty or holds one letter of the keyboard of the word list in use.
pub proof fn law_cells_hold_keyboard_letters(old: App, msg: AppMsg, new: App, r: Reaction)
    requires
        old.wf(),
        old.accepts(msg),
        old.cells_hold_keyboard_letters(),
        old.answers(msg, &new, &r),
        new.wf(),
    ensures
        new.cells_hold_keyboard_letters(),
{
    let a = old.attempts as int;
    match msg {
        AppMsg::StartNewGame => {
            assert forall|r: int, c: int| 0 <= r < TRIES && 0 <= c < new.number_of_letters implies #[trigger] new.grid()[r][c].0.len() == 0 by {
                assert(cell_view(new.cell(r, c)) == (Seq::<char>::empty(), Format::NotUsed, false));
            }
        },
        AppMsg::WordListLoaded(_, _, _) => {
            assert forall|r: int, c: int| 0 <= r < TRIES && 0 <= c < new.number_of_letters implies #[trigger] new.grid()[r][c].0.len() == 0 by {
                assert(cell_view(new.cell(r, c)) == (Seq::<char>::empty(), Format::NotUsed, false));
            }
        },
        AppMsg::EnterWord => {
            if old.attempts < TRIES && old.guess_text() != old.word@ && old.guess_text().len() >= old.number_of_letters {
                if old.word_list.words().contains(old.guess_text()) {
                    assert forall|r: int, c: int| 0 <= r < TRIES && 0 <= c < old.number_of_letters implies (#[trigger] new.grid()[r][c]).0
                        == old.grid()[r][c].0 by {
                        if r == a {
                            assert(new.grid()[r] == colored_row(old.grid()[a], old.guess_colors()));
                        }
                    }
                } else {
                    assert forall|r: int, c: int| 0 <= r < TRIES && 0 <= c < old.number_of_letters implies (#[trigger] new.grid()[r][c]).0
                        == old.grid()[r][c].0 by {
                        if r == a {
                            assert(new.grid()[r] == marked_row(old.grid()[a], true));
                        }
                    }
                }
                lemma_texts_kept(old, new);
            } else if old.attempts < TRIES && old.guess_text() == old.word@ {
                assert(new.grid() == old.grid());
            }
        },
        AppMsg::EnterLetter(ch) => {
            let u = char_uppercase(ch);
            if u.len() == 1 && old.word_list.allowed_letters@.contains(u[0]) {
                let p = old.selected_letter;
                assert forall|r: int, c: int| 0 <= r < TRIES && 0 <= c < old.number_of_letters implies {
                    let t = (#[trigger] new.grid()[r][c]).0;
                    t == old.grid()[r][c].0 || t == u
                } by {
                    if r == p.row && c == p.column {
                    } else if r == p.row {
                        assert(new.grid()[r] == old.grid()[r].update(p.column as int, (u, old.grid()[r][p.column as int].1, old.grid()[r][p.column as int].2)));
                    }
                }
                lemma_texts_kept(old, new);
            }
        },
        AppMsg::Delete => {
            let p = old.selected_letter;
            assert forall|r: int, c: int| 0 <= r < TRIES && 0 <= c < old.number_of_letters implies {
                let t = (#[trigger] new.grid()[r][c]).0;
                t == old.grid()[r][c].0 || t.len() == 0
            } by {
                if r == p.row && c != p.column {
                    assert(new.grid()[r] == old.grid()[r].update(p.column as int, (Seq::<char>::empty(), old.grid()[r][p.column as int].1, old.grid()[r][p.column as int].2)));
                }
            }
            lemma_texts_kept(old, new);
        },
        AppMsg::Space => {
            let p = old.selected_letter;
            assert forall|r: int, c: int| 0 <= r < TRIES && 0 <= c < old.number_of_letters implies {
                let t = (#[trigger] new.grid()[r][c]).0;
                t == old.grid()[r][c].0 || t.len() == 0
            } by {
                if r == p.row && c != p.column {
                    assert(new.grid()[r] == old.grid()[r].update(p.column as int, (Seq::<char>::empty(), old.grid()[r][p.column as int].1, old.grid()[r][p.column as int].2)));
                }
            }
            lemma_texts_kept(old, new);
        },
        AppMsg::Backspace => {
            if !old.deletes_in_place() {
                let p = old.moved_by(-1);
                assert forall|r: int, c: int| 0 <= r < TRIES && 0 <= c < old.number_of_letters implies {
                    let t = (#[trigger] new.grid()[r][c]).0;
                    t == old.grid()[r][c].0 || t.len() == 0
                } by {
                    if r == p.row && c != p.column {
                        assert(new.grid()[r] == old.grid()[r].update(p.column as int, (Seq::<char>::empty(), old.grid()[r][p.column as int].1, old.grid()[r][p.column as int].2)));
                    }
                }
                lemma_texts_kept(old, new);
            }
        },
        AppMsg::SelectField(_) => {
            assert(new.grid() == old.grid());
        },
        AppMsg::MoveCursor(_) => {
            assert(new.grid() == old.grid());
        },
        AppMsg::GameOver(_) => {
            assert(new.grid() == old.grid());
        },
        _ => {},
    }
}

/// No game counts more than six guesses: whatever message the game answers, the guesses
/// made stay at most six.
pub proof fn law_attempts_never_pass_six(old: App, msg: AppMsg, new: App, r: Reaction)
    requires
        old.attempts <= TRIES,
        old.answers(msg, &new, &r),
    ensures
        new.attempts <= TRIES,
{
}

/// The colour of a key is the one it had, or that of one of the letters of the guess that
/// raised it.
proof fn lemma_key_color_source(
    f: onscreen_button::Format,
    x: char,
    guess: Seq<char>,
    fs: Seq<Format>,
    i: int,
)
    ensures
        key_color(f, x, guess, fs, i) == f || exists|j: int|
            0 <= j < i && guess[j] == x && key_color(f, x, guess, fs, i) == osb_format_of(#[trigger] fs[j]),
    decreases i,
{
    if i > 0 {
        lemma_key_color_source(f, x, guess, fs, i - 1);
        if guess[i - 1] == x && key_color(f, x, guess, fs, i) != key_color(f, x, guess, fs, i - 1) {
            assert(key_color(f, x, guess, fs, i) == osb_format_of(fs[i - 1]));
        }
    }
}

/// A letter of the guess raises the key of its letter to at least its own colour.
proof fn lemma_key_color_reaches(
    f: onscreen_button::Format,
    x: char,
    guess: Seq<char>,
    fs: Seq<Format>,
    i: int,
    j: int,
)
    requires
        0 <= j < i,
        guess[j] == x,
    ensures
        onscreen_button::format_rank(key_color(f, x, guess, fs, i)) >= onscreen_button::format_rank(osb_format_of(fs[j])),
    decreases i,
{
    if j < i - 1 {
        lemma_key_color_reaches(f, x, guess, fs, i - 1, j);
    }
}

/// After a guess of the list is entered, each key of a letter of the guess tells what the
/// guess showed of that letter, in the first keyboard row that holds it: it is at least
/// grey (no match) when the guess holds the letter, green (exact match) when the letter
/// stands at its place, at least yellow (match) when a cell of the letter turned yellow;
/// and it turns yellow or green only for a letter of the secret word, green only for a
/// letter that stood at its place.
pub proof fn law_keys_tell_what_the_guess_showed(old: App, new: App, r: Reaction)
    requires
        old.wf(),
        old.answers(AppMsg::EnterWord, &new, &r),
        old.attempts < TRIES,
        old.guess_text() != old.word@,
        old.guess_text().len() >= old.number_of_letters,
        old.word_list.words().contains(old.guess_text()),
    ensures
        forall|k: int, j: int, x: char|
            #![trigger new.keyboard_rows@[k]@[j], first_row_with(old.keyboard_rows@, x, k)]
            0 <= k < old.keyboard_rows@.len() && 0 <= j < old.keyboard_rows@[k]@.len()
                && old.keyboard_rows@[k]@[j].trigger == Key::Letter(x) && first_row_with(old.keyboard_rows@, x, k)
                ==> {
                let g = old.guess_text();
                let c = old.word@;
                let before = old.keyboard_rows@[k]@[j].format;
                let after = new.keyboard_rows@[k]@[j].format;
                &&& g.contains(x) ==> onscreen_button::format_rank(after) >= 1
                &&& (exists|i: int| 0 <= i < g.len() && i < c.len() && g[i] == x && c[i] == x)
                    ==> after == onscreen_button::Format::ExactMatch
                &&& (exists|i: int| 0 <= i < g.len() && g[i] == x && coloring(c, g, utf8_len(c))[i] == Format::Match)
                    ==> onscreen_button::format_rank(after) >= 2
                &&& onscreen_button::format_rank(after) >= 2 ==> onscreen_button::format_rank(before) >= 2 || c.contains(x)
                &&& after == onscreen_button::Format::ExactMatch ==> before == onscreen_button::Format::ExactMatch
                    || exists|i: int| 0 <= i < g.len() && i < c.len() && g[i] == x && c[i] == x
            },
{
    let g = old.guess_text();
    let c = old.word@;
    let fs = old.guess_colors();
    let n = old.number_of_letters;
    lemma_utf8_len_ge(c);
    if word_set(old.word_list.secret_words@).contains(g) {
        let i = choose|i: int| 0 <= i < old.word_list.secret_words@.len() && #[trigger] old.word_list.secret_words@[i]@ == g;
        assert(old.word_list.secret_words@[i]@.len() == n);
    } else {
        let i = choose|i: int| 0 <= i < old.word_list.none_secret_words@.len() && #[trigger] old.word_list.none_secret_words@[i]@ == g;
        assert(old.word_list.none_secret_words@[i]@.len() == n);
    }
    assert(g.len() == n && c.len() == n);
    assert forall|k: int, j: int, x: char|
        #![trigger new.keyboard_rows@[k]@[j], first_row_with(old.keyboard_rows@, x, k)]
        0 <= k < old.keyboard_rows@.len() && 0 <= j < old.keyboard_rows@[k]@.len()
            && old.keyboard_rows@[k]@[j].trigger == Key::Letter(x) && first_row_with(old.keyboard_rows@, x, k)
        implies {
            let before = old.keyboard_rows@[k]@[j].format;
            let after = new.keyboard_rows@[k]@[j].format;
            &&& g.contains(x) ==> onscreen_button::format_rank(after) >= 1
            &&& (exists|i: int| 0 <= i < g.len() && i < c.len() && g[i] == x && c[i] == x)
                ==> after == onscreen_button::Format::ExactMatch
            &&& (exists|i: int| 0 <= i < g.len() && g[i] == x && coloring(c, g, utf8_len(c))[i] == Format::Match)
                ==> onscreen_button::format_rank(after) >= 2
            &&& onscreen_button::format_rank(after) >= 2 ==> onscreen_button::format_rank(before) >= 2 || c.contains(x)
            &&& after == onscreen_button::Format::ExactMatch ==> before == onscreen_button::Format::ExactMatch
                || exists|i: int| 0 <= i < g.len() && i < c.len() && g[i] == x && c[i] == x
        } by {
        let before = old.keyboard_rows@[k]@[j].format;
        let after = new.keyboard_rows@[k]@[j].format;
        assert(after == key_color(before, x, g, fs, g.len() as int));
        if g.contains(x) {
            let i = choose|i: int| 0 <= i < g.len() && g[i] == x;
            lemma_key_color_reaches(before, x, g, fs, g.len() as int, i);
        }
        if exists|i: int| 0 <= i < g.len() && i < c.len() && g[i] == x && c[i] == x {
            let i = choose|i: int| 0 <= i < g.len() && i < c.len() && g[i] == x && c[i] == x;
            assert(fs[i] == Format::ExactMatch);
            lemma_key_color_reaches(before, x, g, fs, g.len() as int, i);
        }
        if exists|i: int| 0 <= i < g.len() && g[i] == x && coloring(c, g, utf8_len(c))[i] == Format::Match {
            let i = choose|i: int| 0 <= i < g.len() && g[i] == x && coloring(c, g, utf8_len(c))[i] == Format::Match;
            lemma_key_color_reaches(before, x, g, fs, g.len() as int, i);
        }
        lemma_key_color_source(before, x, g, fs, g.len() as int);
        if after != before {
            let i = choose|i: int|
                0 <= i < g.len() && g[i] == x && after == osb_format_of(#[trigger] fs[i]);
            if fs[i] == Format::ExactMatch {
                assert(c[i] == x);
                assert(c.contains(x));
            } else if fs[i] == Format::Match {
                if !c.contains(x) {
                    crate::game::lemma_pool_absent(c, g, if c.len() < g.len() { c.len() as int } else { g.len() as int }, x);
                }
            }
        }
    }
}

/// The cursor moves within the row of the guess by the step asked for when the row goes
/// that far, and stays where it is otherwise.
pub proof fn law_cursor_moves_by_its_step(old: App, step: isize, new: App, r: Reaction)
    requires
        old.wf(),
        old.answers(AppMsg::MoveCursor(step), &new, &r),
    ensures
        new.selected_letter.row == old.selected_letter.row,
        0 <= old.selected_letter.column + step < old.number_of_letters ==> new.selected_letter.column
            == old.selected_letter.column + step,
        !(0 <= old.selected_letter.column + step < old.number_of_letters) ==> new.selected_letter.column
            == old.selected_letter.column,
{
}

/// Backspace that does not delete the last letter in place steps back one cell when
/// there is a cell before the cursor (it stays in the first cell otherwise), and empties
/// the cell it is then on; the other cells keep their letters.
pub proof fn law_backspace_steps_back(old: App, new: App, r: Reaction)
    requires
        old.wf(),
        old.answers(AppMsg::Backspace, &new, &r),
        !old.deletes_in_place(),
    ensures
        new.selected_letter.row == old.selected_letter.row,
        old.selected_letter.column >= 1 ==> new.selected_letter.column == old.selected_letter.column - 1,
        old.selected_letter.column == 0 ==> new.selected_letter.column == 0,
        new.grid()[new.selected_letter.row as int][new.selected_letter.column as int].0.len() == 0,
        forall|row: int, column: int|
            0 <= row < TRIES && 0 <= column < old.number_of_letters && !(row == new.selected_letter.row
                && column == new.selected_letter.column) ==> #[trigger] new.grid()[row][column].0
                == old.grid()[row][column].0,
{
    let p = old.moved_by(-1);
    assert forall|row: int, column: int|
        0 <= row < TRIES && 0 <= column < old.number_of_letters && !(row == new.selected_letter.row
            && column == new.selected_letter.column) implies #[trigger] new.grid()[row][column].0
            == old.grid()[row][column].0 by {
        if row == p.row {
            assert(new.grid()[row] == old.grid()[row].update(
                p.column as int,
                (Seq::<char>::empty(), old.grid()[row][p.column as int].1, old.grid()[row][p.column as int].2),
            ));
        }
    }
}

/// A letter that is put into the grid goes into the selected cell, and the cursor moves
/// on to the next cell when there is one (it stays in the last cell otherwise).
pub proof fn law_entered_letter_moves_on(old: App, c: char, new: App, r: Reaction)
    requires
        old.wf(),
        old.answers(AppMsg::EnterLetter(c), &new, &r),
        char_uppercase(c).len() == 1,
        old.word_list.allowed_letters@.contains(char_uppercase(c)[0]),
    ensures
        new.grid()[old.selected_letter.row as int][old.selected_letter.column as int].0 == char_uppercase(c),
        new.selected_letter.row == old.selected_letter.row,
        old.selected_letter.column + 1 < old.number_of_letters ==> new.selected_letter.column
            == old.selected_letter.column + 1,
        old.selected_letter.column + 1 == old.number_of_letters ==> new.selected_letter.column
            == old.selected_letter.column,
{
}

/// The message a key of the on-screen keyboard sends.
pub open spec fn button_message(key: Key) -> AppMsg {
    match key {
        Key::Letter(c) => AppMsg::EnterLetter(c),
        Key::Enter => AppMsg::EnterWord,
        Key::Del => AppMsg::Backspace,
    }
}

/// The message a key of the on-screen keyboard sends: its letter, or entering the
/// guess, or deleting backwards.
pub fn key_message(key: Key) -> (r: AppMsg)
    ensures
        r == button_message(key),
{
    match key {
        Key::Letter(c) => AppMsg::EnterLetter(c),
        Key::Enter => AppMsg::EnterWord,
        Key::Del => AppMsg::Backspace,
    }
}

/// The message of a key of the physical keyboard with the name `name`, if it moves the
/// cursor.
pub open spec fn named_key_messages(name: Option<Seq<char>>) -> Seq<AppMsg> {
    match name {
        Some(n) => if n == seq!['R', 'i', 'g', 'h', 't'] {
            seq![AppMsg::MoveCursor(1isize)]
        } else if n == seq!['L', 'e', 'f', 't'] {
            seq![AppMsg::MoveCursor(-1isize)]
        } else {
            Seq::empty()
        },
        None => Seq::empty(),
    }
}

/// The message of a key of the physical keyboard that types the character `c`.
pub open spec fn typed_key_message(c: char) -> AppMsg {
    if c == ' ' {
        AppMsg::Space
    } else if c == '\u{8}' {
        AppMsg::Backspace
    } else if c == '\u{7f}' {
        AppMsg::Delete
    } else if c == '\r' {
        AppMsg::EnterWord
    } else {
        AppMsg::EnterLetter(c)
    }
}

/// The messages a key press of the physical keyboard sends, from the key's name and the
/// character it types, if any; and whether the press is used up (it is when the key
/// types a character).
pub fn key_press_messages(name: Option<&str>, unicode: Option<char>) -> (r: (Vec<AppMsg>, bool))
    ensures
        r.0@ == named_key_messages(
            match name {
                Some(n) => Some(n@),
                None => None,
            },
        ) + match unicode {
            Some(c) => seq![typed_key_message(c)],
            None => Seq::<AppMsg>::empty(),
        },
        r.1 == unicode is Some,
{
    let mut messages: Vec<AppMsg> = Vec::new();
    let right = "Right";
    let left = "Left";
    proof {
        reveal_strlit("Right");
        reveal_strlit("Left");
        assert(right@ =~= seq!['R', 'i', 'g', 'h', 't']);
        assert(left@ =~= seq!['L', 'e', 'f', 't']);
    }
    if let Some(name) = name {
        if str_eq(name, right) {
            messages.push(AppMsg::MoveCursor(1));
        }
        if str_eq(name, left) {
            messages.push(AppMsg::MoveCursor(-1));
        }
    }
    let ghost named = messages@;
    assert(named =~= named_key_messages(
        match name {
            Some(n) => Some(n@),
            None => None,
        },
    ));
    if let Some(c) = unicode {
        let message = if c == ' ' {
            AppMsg::Space
        } else if c == '\u{8}' {
            AppMsg::Backspace
        } else if c == '\u{7f}' {
            AppMsg::Delete
        } else if c == '\r' {
            AppMsg::EnterWord
        } else {
            AppMsg::EnterLetter(c)
        };
        messages.push(message);
        (messages, true)
    } else {
        assert(messages@ =~= named + Seq::<AppMsg>::empty());
        (messages, false)
    }
}

} // verus!
