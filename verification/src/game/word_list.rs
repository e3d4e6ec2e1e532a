//! The word list of the game: the words of one length, read from a word list file.
use vstd::prelude::*;

use crate::onscreen_button::Key;
use vstd::string::StrSliceExecFns;

use crate::text::chars_of;
use crate::word_list_format::{
    contains_word, get_available_word_lengths, get_keys_and_allowed_letters, get_words,
    header_error, header_panics, keyboard_letter, length_pieces, lengths_error, lengths_line_ok,
    lines_view, names_length, no_dup_chars, no_dup_words, public_line, row_keys, rows_ok_before,
    secret_line, word_set, WordLengths, WordListError,
};

verus! {

/// The words of one length from a word list file, with its keyboard.
#[derive(Debug)]
pub struct WordList {
    pub secret_words: Vec<String>,
    pub none_secret_words: Vec<String>,
    pub allowed_letters: Vec<char>,
    pub keys: Vec<Vec<Key>>,
    pub available_word_lengths: WordLengths,
}

impl WordList {
    /// No word and no letter is held twice.
    pub open spec fn wf(&self) -> bool {
        &&& no_dup_words(self.secret_words@)
        &&& no_dup_words(self.none_secret_words@)
        &&& no_dup_chars(self.allowed_letters@)
    }

    /// The words a guess may be: the secret ones and the public ones.
    pub open spec fn words(&self) -> Set<Seq<char>> {
        word_set(self.secret_words@).union(word_set(self.none_secret_words@))
    }

    /// A game of `length` letters can be played with the list: every word has that many
    /// letters, and there is a word to guess.
    pub open spec fn fits(&self, length: nat) -> bool {
        &&& forall|i: int| 0 <= i < self.secret_words@.len() ==> (#[trigger] self.secret_words@[i])@.len() == length
        &&& forall|i: int| 0 <= i < self.none_secret_words@.len() ==> (#[trigger] self.none_secret_words@[i])@.len() == length
        &&& self.secret_words@.len() + self.none_secret_words@.len() > 0
    }

    /// Whether a game of `length` letters can be played with the list.
    pub fn is_playable(&self, length: usize) -> (r: bool)
        ensures
            r == self.fits(length as nat),
    {
        all_of_length(&self.secret_words, length) && all_of_length(&self.none_secret_words, length)
            && (self.secret_words.len() > 0 || self.none_secret_words.len() > 0)
    }

    /// Whether `word` is in the list, secret or public.
    pub fn contains(&self, word: &str) -> (r: bool)
        ensures
            r == self.words().contains(word@),
    {
        contains_word(&self.none_secret_words, word) || contains_word(&self.secret_words, word)
    }
}

/// Whether every word of `v` has `length` letters.
fn all_of_length(v: &Vec<String>, length: usize) -> (r: bool)
    ensures
        r == forall|i: int| 0 <= i < v@.len() ==> (#[trigger] v@[i])@.len() == length,
{
    let mut i: usize = 0;
    while i < v.len()
        invariant
            i <= v@.len(),
            forall|j: int| 0 <= j < i ==> (#[trigger] v@[j])@.len() == length,
        decreases v.len() - i,
    {
        if chars_of(v[i].as_str()).len() != length {
            return false;
        }
        i += 1;
    }
    true
}

/// The file holds a keyboard and a word length line that read well.
pub open spec fn header_ok(ls: Seq<Seq<char>>) -> bool {
    rows_ok_before(ls, 3) && ls.len() > 3 && lengths_line_ok(ls[3])
}

/// `e` is the error that reading the head of the file gives.
pub open spec fn read_error(e: WordListError, ls: Seq<Seq<char>>) -> bool {
    if !rows_ok_before(ls, 3) {
        header_error(e, ls)
    } else if ls.len() <= 3 {
        e is FileTooShort
    } else {
        lengths_error(e, ls[3])
    }
}

/// Reads a word list file, given as its lines, keeping the words of `length` letters:
/// none when the file does not offer that length.
pub fn read_word_list_from_lines(lines: &Vec<String>, length: usize) -> (r: Result<
    Option<WordList>,
    WordListError,
>)
    requires
        !header_panics(lines_view(lines@)),
        header_ok(lines_view(lines@)) ==> 4 <= length <= 11,
    ensures
        r is Ok <==> header_ok(lines_view(lines@)),
        r matches Err(e) ==> read_error(e, lines_view(lines@)),
        r matches Ok(o) ==> (o is None <==> !names_length(length_pieces(lines_view(lines@)[3]), length as int)),
        r matches Ok(Some(wl)) ==> {
            let ls = lines_view(lines@);
            &&& wl.wf()
            &&& wl.keys@.len() == 3
            &&& forall|k: int| 0 <= k < 3 ==> #[trigger] wl.keys@[k]@ == row_keys(ls, k)
            &&& forall|c: char| wl.allowed_letters@.contains(c) <==> keyboard_letter(ls, c)
            &&& forall|n: int| #[trigger] wl.available_word_lengths.has(n) == names_length(length_pieces(ls[3]), n)
            &&& forall|w: Seq<char>| #[trigger] word_set(wl.secret_words@).contains(w) <==> exists|i: int|
                secret_line(ls, 4, i, Some(length)) && #[trigger] ls[i] == w
            &&& forall|w: Seq<char>| #[trigger] word_set(wl.none_secret_words@).contains(w) <==> exists|i: int|
                public_line(ls, 4, i, Some(length)) && #[trigger] ls[i] == w
        },
{
    let ghost ls = lines_view(lines@);
    let (keys, allowed_letters) = get_keys_and_allowed_letters(lines)?;
    assert(ls.len() == lines@.len());
    if lines.len() <= 3 {
        return Err(WordListError::FileTooShort);
    }
    assert(ls[3] == lines@[3]@);
    let available_word_lengths = get_available_word_lengths(lines[3].as_str())?;
    if !available_word_lengths.contains(length) {
        return Ok(None);
    }
    let (none_secret_words, secret_words) = get_words(lines, 4, Some(length));
    Ok(
        Some(
            WordList {
                none_secret_words,
                secret_words,
                allowed_letters,
                keys,
                available_word_lengths,
            },
        ),
    )
}

/// The name of the word list in the file `name`: the name without its four-character
/// extension.
pub fn word_list_name(name: &str) -> (r: String)
    requires
        name@.len() >= 4,
    ensures
        r@ == name@.take(name@.len() - 4),
{
    let count = chars_of(name).len();
    name.substring_char(0, count - 4).to_owned()
}

} // verus!
