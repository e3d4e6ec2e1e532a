//! The earlier reader of word list files: the word lengths are read as numbers, and the
//! words of the wanted length are allowed, with no secret words apart.
use vstd::prelude::*;

use crate::onscreen_button::Key;
use crate::text::{
    chars_of, digits_value, is_usize_text, parse_usize, split_at_byte, split_at_checked,
    split_commas, split_on, str_eq, unsigned_digits, views_of,
};
use crate::word_list_format::{
    get_keys_and_allowed_letters, header_error, header_panics, insert_word, keyboard_letter,
    lines_view, no_dup_chars, no_dup_words, row_keys, rows_ok_before, word_set, WordListError,
};

verus! {

/// The words of one length from a word list file, with its keyboard.
#[derive(Debug)]
pub struct WordList {
    pub allowed_words: Vec<String>,
    pub allowed_letters: Vec<char>,
    pub keys: Vec<Vec<Key>>,
    pub available_word_lengths: Vec<usize>,
}

/// The prefix of the word length line in this format.
pub open spec fn lengths_prefix() -> Seq<char> {
    seq!['4', 'L', 'E', 'N', 'G', 'T', 'H', 'S', ':']
}

/// The pieces of the word length line after its prefix.
pub open spec fn number_pieces(line: Seq<char>) -> Seq<Seq<char>> {
    match split_at_byte(line, 9) {
        Some((_, numbers)) => split_on(numbers, ','),
        None => Seq::empty(),
    }
}

/// Every piece of `ps` writes a number.
pub open spec fn all_numbers(ps: Seq<Seq<char>>) -> bool {
    forall|i: int| 0 <= i < ps.len() ==> is_usize_text(#[trigger] ps[i])
}

/// `t` is the first piece of `ps` that writes no number.
pub open spec fn first_invalid(ps: Seq<Seq<char>>, t: Seq<char>) -> bool {
    exists|i: int|
        0 <= i < ps.len() && !is_usize_text(#[trigger] ps[i]) && ps[i] == t && forall|j: int|
            0 <= j < i ==> is_usize_text(#[trigger] ps[j])
}

/// The word length line reads well: the prefix, then numbers only.
pub open spec fn lengths_line_ok(line: Seq<char>) -> bool {
    match split_at_byte(line, 9) {
        Some((prefix, numbers)) => prefix == lengths_prefix() && all_numbers(split_on(numbers, ',')),
        None => false,
    }
}

/// `e` is the error that reading `line` as the word length line gives.
pub open spec fn lengths_error(e: WordListError, line: Seq<char>) -> bool {
    match split_at_byte(line, 9) {
        None => e matches WordListError::LengthsLineTooShort(l) && l@ == line,
        Some((prefix, numbers)) => if prefix != lengths_prefix() {
            e matches WordListError::WrongLengthsPrefix(l) && l@ == line
        } else {
            e matches WordListError::InvalidLength(t) && first_invalid(split_on(numbers, ','), t@)
        },
    }
}

/// Reads the word length line: the prefix `4LENGTHS:`, then numbers separated by commas.
pub fn get_available_word_lengths(line: &str) -> (r: Result<Vec<usize>, WordListError>)
    ensures
        r is Ok <==> lengths_line_ok(line@),
        r matches Ok(v) ==> v@ == number_pieces(line@).map_values(
            |p: Seq<char>| digits_value(unsigned_digits(p)) as usize,
        ),
        r matches Err(e) ==> lengths_error(e, line@),
{
    match split_at_checked(line, 9) {
        None => Err(WordListError::LengthsLineTooShort(line.to_owned())),
        Some((prefix, numbers)) => {
            proof {
                reveal_strlit("4LENGTHS:");
            }
            assert("4LENGTHS:"@ == lengths_prefix());
            if !str_eq(prefix, "4LENGTHS:") {
                return Err(WordListError::WrongLengthsPrefix(line.to_owned()));
            }
            let pieces = split_commas(numbers);
            let ghost ps = split_on(numbers@, ',');
            let mut values: Vec<usize> = Vec::new();
            let mut i: usize = 0;
            while i < pieces.len()
                invariant
                    split_at_byte(line@, 9) == Some((prefix@, numbers@)),
                    prefix@ == lengths_prefix(),
                    views_of(pieces@) == ps,
                    ps == split_on(numbers@, ','),
                    i <= pieces@.len(),
                    forall|j: int| 0 <= j < i ==> is_usize_text(#[trigger] ps[j]),
                    values@ == ps.take(i as int).map_values(
                        |p: Seq<char>| digits_value(unsigned_digits(p)) as usize,
                    ),
                decreases pieces.len() - i,
            {
                assert(views_of(pieces@).len() == pieces@.len());
                assert(ps[i as int] == pieces@[i as int]@);
                match parse_usize(pieces[i]) {
                    Some(v) => {
                        values.push(v);
                        assert(ps.take(i + 1) =~= ps.take(i as int).push(ps[i as int]));
                        assert(values@ =~= ps.take(i + 1).map_values(
                            |p: Seq<char>| digits_value(unsigned_digits(p)) as usize,
                        ));
                    },
                    None => {
                        let piece = pieces[i].to_owned();
                        assert(first_invalid(ps, piece@));
                        assert(!all_numbers(ps));
                        return Err(WordListError::InvalidLength(piece));
                    },
                }
                i += 1;
            }
            assert(ps.take(pieces@.len() as int) =~= ps);
            Ok(values)
        },
    }
}

/// Collects every line from `from` on that has `length` characters.
pub fn get_allowed_words(lines: &Vec<String>, from: usize, length: usize) -> (r: Vec<String>)
    ensures
        no_dup_words(r@),
        forall|w: Seq<char>| #[trigger] word_set(r@).contains(w) <==> exists|i: int|
            from <= i < lines@.len() && #[trigger] lines_view(lines@)[i] == w && w.len() == length,
{
    let ghost ls = lines_view(lines@);
    let mut words: Vec<String> = Vec::new();
    let mut i: usize = from;
    while i < lines.len()
        invariant
            ls == lines_view(lines@),
            ls.len() == lines@.len(),
            from <= i,
            no_dup_words(words@),
            forall|w: Seq<char>| #[trigger] word_set(words@).contains(w) <==> exists|k: int|
                from <= k < i && k < lines@.len() && #[trigger] ls[k] == w && w.len() == length,
        decreases lines.len() - i,
    {
        assert(ls[i as int] == lines@[i as int]@);
        if chars_of(lines[i].as_str()).len() == length {
            insert_word(&mut words, lines[i].clone());
        }
        proof {
            assert forall|w: Seq<char>| #[trigger] word_set(words@).contains(w) <==> exists|k: int|
                from <= k < i + 1 && k < lines@.len() && #[trigger] ls[k] == w && w.len() == length by {
                if exists|k: int| from <= k < i + 1 && k < lines@.len() && #[trigger] ls[k] == w && w.len() == length {
                    let k = choose|k: int| from <= k < i + 1 && k < lines@.len() && #[trigger] ls[k] == w && w.len() == length;
                    if k < i {
                        assert(exists|k: int| from <= k < i && k < lines@.len() && #[trigger] ls[k] == w && w.len() == length);
                    }
                }
            }
        }
        i += 1;
    }
    proof {
        assert forall|w: Seq<char>| #[trigger] word_set(words@).contains(w) <==> exists|k: int|
            from <= k < lines@.len() && #[trigger] ls[k] == w && w.len() == length by {
            if exists|k: int| from <= k < lines@.len() && #[trigger] ls[k] == w && w.len() == length {
                let k = choose|k: int| from <= k < lines@.len() && #[trigger] ls[k] == w && w.len() == length;
                assert(k < i);
            }
        }
    }
    words
}

/// The file holds a keyboard and a word length line that read well.
pub open spec fn header_ok(ls: Seq<Seq<char>>) -> bool {
    rows_ok_before(ls, 3) && ls.len() > 3 && lengths_line_ok(ls[3])
}

/// `e` is the error that reading the head of the file gives.
pub open spec fn read_error(e: WordListError, ls: Seq<Seq<char>>) -> bool {
    if !rows_ok_before(ls, 3) {
        header_error(e, ls)
    } else if ls.len() <= 3 {
        e is FileTooShort
    } else {
        lengths_error(e, ls[3])
    }
}

/// Reads a word list file, given as its lines, allowing the words of `length` characters.
pub fn read_word_list_from_lines(lines: &Vec<String>, length: usize) -> (r: Result<WordList, WordListError>)
    requires
        !header_panics(lines_view(lines@)),
    ensures
        r is Ok <==> header_ok(lines_view(lines@)),
        r matches Err(e) ==> read_error(e, lines_view(lines@)),
        r matches Ok(wl) ==> {
            let ls = lines_view(lines@);
            &&& no_dup_words(wl.allowed_words@)
            &&& no_dup_chars(wl.allowed_letters@)
            &&& wl.keys@.len() == 3
            &&& forall|k: int| 0 <= k < 3 ==> #[trigger] wl.keys@[k]@ == row_keys(ls, k)
            &&& forall|c: char| wl.allowed_letters@.contains(c) <==> keyboard_letter(ls, c)
            &&& wl.available_word_lengths@ == number_pieces(ls[3]).map_values(
                |p: Seq<char>| digits_value(unsigned_digits(p)) as usize,
            )
            &&& forall|w: Seq<char>| #[trigger] word_set(wl.allowed_words@).contains(w) <==> exists|i: int|
                4 <= i < ls.len() && #[trigger] ls[i] == w && w.len() == length
        },
{
    let (keys, allowed_letters) = get_keys_and_allowed_letters(lines)?;
    if lines.len() <= 3 {
        return Err(WordListError::FileTooShort);
    }
    let available_word_lengths = get_available_word_lengths(lines[3].as_str())?;
    let allowed_words = get_allowed_words(lines, 4, length);
    Ok(WordList { allowed_words, allowed_letters, keys, available_word_lengths })
}

} // verus!
