//! The word list file: three keyboard rows, a line of word lengths, then the words,
//! the secret ones first, then after a line that starts with `-` the public ones.
use vstd::prelude::*;

use crate::onscreen_button::Key;
use crate::text::{
    chars_of, digits_value, is_usize_text, parse_usize, split_at_byte, split_at_checked,
    split_commas, split_on, str_eq, unsigned_digits, views_of,
};

verus! {

/// Why a word list file could not be read.
#[derive(Debug)]
pub enum WordListError {
    /// The file ends before its header does.
    FileTooShort,
    /// A keyboard line has no one-byte row number in front (the line).
    KeysLineTooShort(String),
    /// The row number of a keyboard line is no number (the row number's text).
    InvalidRowNumber(String),
    /// The keyboard rows are not numbered 1, 2, 3.
    UnexpectedRowNumber,
    /// The word length line is shorter than its prefix (the line).
    LengthsLineTooShort(String),
    /// The word length line does not start with the expected prefix (the line).
    WrongLengthsPrefix(String),
    /// A word length that is not supported (its text).
    UnsupportedLength(String),
    /// A word length that is no number (its text).
    InvalidLength(String),
}

/// The piece of a keyboard line that stands for the enter key.
pub open spec fn send_text() -> Seq<char> {
    seq!['S', 'E', 'N', 'D']
}

/// The piece of a keyboard line that stands for the delete key.
pub open spec fn del_text() -> Seq<char> {
    seq!['D', 'E', 'L']
}

/// The key that a non-empty piece of a keyboard line stands for.
pub open spec fn key_of_piece(p: Seq<char>) -> Key {
    if p == send_text() {
        Key::Enter
    } else if p == del_text() {
        Key::Del
    } else {
        Key::Letter(p[0])
    }
}

/// The keys of the keyboard line `rest` (the line without its row number).
pub open spec fn keys_of(rest: Seq<char>) -> Seq<Key> {
    split_on(rest, ',').map_values(|p: Seq<char>| key_of_piece(p))
}

/// Some piece between the commas of `rest` is empty.
pub open spec fn has_empty_piece(rest: Seq<char>) -> bool {
    exists|i: int| 0 <= i < split_on(rest, ',').len() && (#[trigger] split_on(rest, ',')[i]).len() == 0
}

/// A keyboard line whose keys hold an empty piece: reading it stops the program.
pub open spec fn keys_line_panics(line: Seq<char>) -> bool {
    match split_at_byte(line, 1) {
        Some((_, rest)) => has_empty_piece(rest),
        None => false,
    }
}

proof fn lemma_piece_not_empty(line: Seq<char>, number: Seq<char>, rest: Seq<char>, i: int)
    requires
        !keys_line_panics(line),
        split_at_byte(line, 1) == Some((number, rest)),
        0 <= i < split_on(rest, ',').len(),
    ensures
        split_on(rest, ',')[i].len() > 0,
{
    if split_on(rest, ',')[i].len() == 0 {
        assert(has_empty_piece(rest));
    }
}

fn key_of_piece_exec(p: &str) -> (k: Key)
    requires
        p@.len() > 0,
    ensures
        k == key_of_piece(p@),
{
    let cs = chars_of(p);
    if cs.len() == 4 && cs[0] == 'S' && cs[1] == 'E' && cs[2] == 'N' && cs[3] == 'D' {
        assert(p@ =~= send_text());
        Key::Enter
    } else if cs.len() == 3 && cs[0] == 'D' && cs[1] == 'E' && cs[2] == 'L' {
        assert(p@ =~= del_text());
        Key::Del
    } else {
        assert(p@ != send_text() ==> true);
        if cs.len() == 4 {
            assert(p@ != send_text()) by {
                if p@ == send_text() {
                    assert(cs@[0] == 'S' && cs@[1] == 'E' && cs@[2] == 'N' && cs@[3] == 'D');
                }
            }
        }
        if cs.len() == 3 {
            assert(p@ != del_text()) by {
                if p@ == del_text() {
                    assert(cs@[0] == 'D' && cs@[1] == 'E' && cs@[2] == 'L');
                }
            }
        }
        Key::Letter(cs[0])
    }
}

/// Reads a keyboard line: its row number, then its keys separated by commas.
pub fn line_to_keys(line: &str) -> (r: Result<(usize, Vec<Key>), WordListError>)
    requires
        !keys_line_panics(line@),
    ensures
        match split_at_byte(line@, 1) {
            None => r matches Err(WordListError::KeysLineTooShort(l)) && l@ == line@,
            Some((number, rest)) => if is_usize_text(number) {
                r matches Ok((n, keys)) && n == digits_value(unsigned_digits(number)) && keys@
                    == keys_of(rest)
            } else {
                r matches Err(WordListError::InvalidRowNumber(t)) && t@ == number
            },
        },
{
    let split = split_at_checked(line, 1);
    match split {
        None => Err(WordListError::KeysLineTooShort(line.to_owned())),
        Some((number, rest)) => {
            let pieces = split_commas(rest);
            let mut keys: Vec<Key> = Vec::new();
            let mut i: usize = 0;
            while i < pieces.len()
                invariant
                    split_at_byte(line@, 1) == Some((number@, rest@)),
                    views_of(pieces@) == split_on(rest@, ','),
                    !keys_line_panics(line@),
                    i <= pieces@.len(),
                    keys@ == split_on(rest@, ',').take(i as int).map_values(
                        |p: Seq<char>| key_of_piece(p),
                    ),
                decreases pieces.len() - i,
            {
                assert(views_of(pieces@)[i as int] == pieces@[i as int]@);
                assert(views_of(pieces@).len() == pieces@.len());
                proof {
                    lemma_piece_not_empty(line@, number@, rest@, i as int);
                }
                let key = key_of_piece_exec(pieces[i]);
                keys.push(key);
                proof {
                    assert(split_on(rest@, ',').take(i + 1) =~= split_on(rest@, ',').take(
                        i as int,
                    ).push(split_on(rest@, ',')[i as int]));
                    assert(keys@ =~= split_on(rest@, ',').take(i + 1).map_values(
                        |p: Seq<char>| key_of_piece(p),
                    ));
                }
                i += 1;
            }
            proof {
                assert(split_on(rest@, ',').take(pieces@.len() as int) =~= split_on(rest@, ','));
            }
            match parse_usize(number) {
                Some(n) => Ok((n, keys)),
                None => Err(WordListError::InvalidRowNumber(number.to_owned())),
            }
        },
    }
}

/// The contents of the lines of a file.
pub open spec fn lines_view(v: Seq<String>) -> Seq<Seq<char>> {
    v.map_values(|l: String| l@)
}

/// Line `k` of the file is there and is keyboard row `k + 1`.
pub open spec fn row_ok(ls: Seq<Seq<char>>, k: int) -> bool {
    0 <= k < ls.len() && match split_at_byte(ls[k], 1) {
        Some((number, _)) => is_usize_text(number) && digits_value(unsigned_digits(number)) == k + 1,
        None => false,
    }
}

/// The first `k` lines of the file are the first `k` keyboard rows.
pub open spec fn rows_ok_before(ls: Seq<Seq<char>>, k: int) -> bool {
    forall|j: int| 0 <= j < k ==> #[trigger] row_ok(ls, j)
}

/// The keys on line `k` of the file.
pub open spec fn row_keys(ls: Seq<Seq<char>>, k: int) -> Seq<Key> {
    match split_at_byte(ls[k], 1) {
        Some((_, rest)) => keys_of(rest),
        None => Seq::empty(),
    }
}

/// Reading the keyboard of the file stops the program: a keyboard line that is reached
/// has an empty key.
pub open spec fn header_panics(ls: Seq<Seq<char>>) -> bool {
    exists|k: int| 0 <= k < 3 && k < ls.len() && rows_ok_before(ls, k) && #[trigger] keys_line_panics(ls[k])
}

/// Whether the keyboard line `line` has an empty key, which stops the program.
fn keys_line_would_panic(line: &str) -> (r: bool)
    ensures
        r == keys_line_panics(line@),
{
    match split_at_checked(line, 1) {
        None => false,
        Some((number, rest)) => {
            let pieces = split_commas(rest);
            let ghost ps = split_on(rest@, ',');
            assert(views_of(pieces@).len() == pieces@.len());
            let mut i: usize = 0;
            while i < pieces.len()
                invariant
                    split_at_byte(line@, 1) == Some((number@, rest@)),
                    views_of(pieces@) == ps,
                    ps == split_on(rest@, ','),
                    ps.len() == pieces@.len(),
                    i <= pieces@.len(),
                    forall|j: int| 0 <= j < i ==> (#[trigger] ps[j]).len() > 0,
                decreases pieces.len() - i,
            {
                assert(ps[i as int] == pieces@[i as int]@);
                if chars_of(pieces[i]).len() == 0 {
                    assert(split_on(rest@, ',')[i as int].len() == 0);
                    assert(has_empty_piece(rest@));
                    return true;
                }
                i += 1;
            }
            false
        },
    }
}

/// Whether line `line` is keyboard row `k + 1`.
fn row_is_ok(line: &str, k: usize) -> (r: bool)
    requires
        k < 3,
    ensures
        r == (match split_at_byte(line@, 1) {
            Some((number, _)) => is_usize_text(number) && digits_value(unsigned_digits(number)) == k + 1,
            None => false,
        }),
{
    match split_at_checked(line, 1) {
        None => false,
        Some((number, _)) => match parse_usize(number) {
            Some(n) => n == k + 1,
            None => false,
        },
    }
}

/// Whether reading the keyboard of the file given by its lines would stop the program:
/// a keyboard line that is reached has an empty key.
pub fn header_would_panic(lines: &Vec<String>) -> (r: bool)
    ensures
        r == header_panics(lines_view(lines@)),
{
    let ghost ls = lines_view(lines@);
    assert(ls.len() == lines@.len());
    let mut k: usize = 0;
    while k < 3 && k < lines.len()
        invariant
            k <= 3,
            k <= lines@.len(),
            ls == lines_view(lines@),
            ls.len() == lines@.len(),
            rows_ok_before(ls, k as int),
            forall|j: int| 0 <= j < k ==> !keys_line_panics(#[trigger] ls[j]),
        decreases 3 - k,
    {
        assert(ls[k as int] == lines@[k as int]@);
        if keys_line_would_panic(lines[k].as_str()) {
            assert(keys_line_panics(ls[k as int]));
            return true;
        }
        if !row_is_ok(lines[k].as_str(), k) {
            assert(!row_ok(ls, k as int));
            proof {
                assert forall|j: int| 0 <= j < 3 && j < ls.len() && rows_ok_before(ls, j) implies !#[trigger] keys_line_panics(ls[j]) by {
                    if j > k {
                        assert(row_ok(ls, k as int));
                    }
                }
            }
            return false;
        }
        assert(row_ok(ls, k as int));
        k += 1;
    }
    false
}

/// `e` is the error that reading line `k` as keyboard row `k + 1` gives.
pub open spec fn row_error(e: WordListError, ls: Seq<Seq<char>>, k: int) -> bool {
    if k >= ls.len() {
        e is FileTooShort
    } else {
        match split_at_byte(ls[k], 1) {
            None => e matches WordListError::KeysLineTooShort(l) && l@ == ls[k],
            Some((number, _)) => if !is_usize_text(number) {
                e matches WordListError::InvalidRowNumber(t) && t@ == number
            } else {
                e is UnexpectedRowNumber
            },
        }
    }
}

/// `e` is the error that reading the keyboard rows of the file gives: that of the first
/// line that is not the keyboard row it should be.
pub open spec fn header_error(e: WordListError, ls: Seq<Seq<char>>) -> bool {
    exists|k: int|
        0 <= k < 3 && rows_ok_before(ls, k) && !row_ok(ls, k) && #[trigger] row_error(e, ls, k)
}

/// `c` is a letter key on one of the three keyboard rows of the file.
pub open spec fn keyboard_letter(ls: Seq<Seq<char>>, c: char) -> bool {
    exists|k: int| 0 <= k < 3 && #[trigger] row_keys(ls, k).contains(Key::Letter(c))
}

/// No character occurs twice in `s`.
pub open spec fn no_dup_chars(s: Seq<char>) -> bool {
    forall|a: int, b: int| 0 <= a < b < s.len() ==> s[a] != s[b]
}

/// Reads the three keyboard rows at the top of the file, and the letters they hold.
pub fn get_keys_and_allowed_letters(lines: &Vec<String>) -> (r: Result<
    (Vec<Vec<Key>>, Vec<char>),
    WordListError,
>)
    requires
        !header_panics(lines_view(lines@)),
    ensures
        r is Ok <==> rows_ok_before(lines_view(lines@), 3),
        r matches Ok((rows, letters)) ==> {
            &&& rows@.len() == 3
            &&& forall|k: int| 0 <= k < 3 ==> #[trigger] rows@[k]@ == row_keys(lines_view(lines@), k)
            &&& no_dup_chars(letters@)
            &&& forall|c: char| letters@.contains(c) <==> keyboard_letter(lines_view(lines@), c)
        },
        r matches Err(e) ==> header_error(e, lines_view(lines@)),
{
    let ghost ls = lines_view(lines@);
    let mut rows: Vec<Vec<Key>> = Vec::new();
    let mut allowed_letters: Vec<char> = Vec::new();
    let mut k: usize = 0;
    while k < 3
        invariant
            ls == lines_view(lines@),
            !header_panics(ls),
            k <= 3,
            rows_ok_before(ls, k as int),
            rows@.len() == k,
            forall|j: int| 0 <= j < k ==> #[trigger] rows@[j]@ == row_keys(ls, j),
            no_dup_chars(allowed_letters@),
            forall|c: char|
                allowed_letters@.contains(c) <==> exists|j: int|
                    0 <= j < k && #[trigger] row_keys(ls, j).contains(Key::Letter(c)),
        decreases 3 - k,
    {
        assert(ls.len() == lines@.len());
        if k >= lines.len() {
            assert(!row_ok(ls, k as int));
            assert(row_error(WordListError::FileTooShort, ls, k as int));
            return Err(WordListError::FileTooShort);
        }
        assert(ls[k as int] == lines@[k as int]@);
        assert(!keys_line_panics(ls[k as int]));
        let (number, row) = match line_to_keys(lines[k].as_str()) {
            Ok(v) => v,
            Err(e) => {
                assert(!row_ok(ls, k as int));
                assert(row_error(e, ls, k as int));
                return Err(e);
            },
        };
        if number != k + 1 {
            assert(!row_ok(ls, k as int));
            assert(row_error(WordListError::UnexpectedRowNumber, ls, k as int));
            return Err(WordListError::UnexpectedRowNumber);
        }
        assert(row_ok(ls, k as int));
        assert(row@ == row_keys(ls, k as int));
        let ghost old_letters = allowed_letters@;
        let mut i: usize = 0;
        while i < row.len()
            invariant
                no_dup_chars(allowed_letters@),
                i <= row@.len(),
                forall|c: char|
                    #![trigger allowed_letters@.contains(c)]
                    allowed_letters@.contains(c) <==> (old_letters.contains(c)
                        || letter_before(row@, i as int, c)),
            decreases row.len() - i,
        {
            let ghost before = allowed_letters@;
            if let Key::Letter(c) = row[i] {
                insert_char(&mut allowed_letters, c);
            }
            proof {
                assert forall|x: char| #![trigger allowed_letters@.contains(x)]
                    allowed_letters@.contains(x) <==> (old_letters.contains(x)
                    || letter_before(row@, i + 1, x)) by {
                    lemma_letter_before_step(row@, i as int, x);
                    assert(before.contains(x) <==> (old_letters.contains(x)
                        || letter_before(row@, i as int, x)));
                }
            }
            i += 1;
        }
        rows.push(row);
        proof {
            assert forall|c: char| allowed_letters@.contains(c) <==> exists|j: int|
                0 <= j < k + 1 && #[trigger] row_keys(ls, j).contains(Key::Letter(c)) by {
                if row_keys(ls, k as int).contains(Key::Letter(c)) {
                    let a = choose|a: int| 0 <= a < row@.len() && row@[a] == Key::Letter(c);
                    assert(letter_before(row@, row@.len() as int, c));
                }
                if letter_before(row@, row@.len() as int, c) {
                    let a = choose|a: int| 0 <= a < row@.len() && #[trigger] row@[a] == Key::Letter(c);
                    assert(row_keys(ls, k as int)[a] == Key::Letter(c));
                }
                assert(allowed_letters@.contains(c) <==> (old_letters.contains(c)
                    || letter_before(row@, row@.len() as int, c)));
            }
            assert(rows@[k as int]@ == row_keys(ls, k as int));
        }
        k += 1;
    }
    Ok((rows, allowed_letters))
}

/// The key row `row` holds the letter `c` before position `i`.
pub open spec fn letter_before(row: Seq<Key>, i: int, c: char) -> bool {
    exists|a: int| 0 <= a < i && #[trigger] row[a] == Key::Letter(c)
}

proof fn lemma_letter_before_step(row: Seq<Key>, i: int, c: char)
    requires
        0 <= i < row.len(),
    ensures
        letter_before(row, i + 1, c) <==> (letter_before(row, i, c) || row[i] == Key::Letter(c)),
{
    if letter_before(row, i + 1, c) && !(row[i] == Key::Letter(c)) {
        let a = choose|a: int| 0 <= a < i + 1 && #[trigger] row[a] == Key::Letter(c);
        assert(a < i);
    }
    if row[i] == Key::Letter(c) {
        assert(row[i] == Key::Letter(c));
    }
}

/// Adds `c` to the letters in `v`, unless it is there already.
pub fn insert_char(v: &mut Vec<char>, c: char)
    requires
        no_dup_chars(old(v)@),
    ensures
        no_dup_chars(final(v)@),
        forall|x: char| #[trigger] final(v)@.contains(x) <==> (old(v)@.contains(x) || x == c),
{
    if !contains_char(v, c) {
        let ghost before = v@;
        v.push(c);
        proof {
            assert forall|x: char| #[trigger] v@.contains(x) <==> (before.contains(x) || x == c) by {
                if v@.contains(x) {
                    let j = choose|j: int| 0 <= j < v@.len() && v@[j] == x;
                    if j < before.len() {
                        assert(before[j] == x);
                    }
                }
                if before.contains(x) {
                    let j = choose|j: int| 0 <= j < before.len() && before[j] == x;
                    assert(v@[j] == x);
                }
                if x == c {
                    assert(v@[v@.len() - 1] == x);
                }
            }
        }
    }
}

/// Whether `c` occurs in `v`.
pub fn contains_char(v: &Vec<char>, c: char) -> (r: bool)
    ensures
        r == v@.contains(c),
{
    let mut i: usize = 0;
    while i < v.len()
        invariant
            i <= v@.len(),
            forall|a: int| 0 <= a < i ==> v@[a] != c,
        decreases v.len() - i,
    {
        if v[i] == c {
            assert(v@[i as int] == c);
            return true;
        }
        i += 1;
    }
    false
}

/// The word lengths a word list offers; only lengths from 4 to 11 are supported.
#[derive(Debug, PartialEq, Eq, Structural, Clone, Copy)]
pub struct WordLengths {
    pub l4: bool,
    pub l5: bool,
    pub l6: bool,
    pub l7: bool,
    pub l8: bool,
    pub l9: bool,
    pub l10: bool,
    pub l11: bool,
}

impl Default for WordLengths {
    fn default() -> (r: WordLengths)
        ensures
            forall|n: int| !r.has(n),
    {
        WordLengths {
            l4: false,
            l5: false,
            l6: false,
            l7: false,
            l8: false,
            l9: false,
            l10: false,
            l11: false,
        }
    }
}

impl WordLengths {
    /// Words of length `n` are offered.
    pub open spec fn has(self, n: int) -> bool {
        if n == 4 {
            self.l4
        } else if n == 5 {
            self.l5
        } else if n == 6 {
            self.l6
        } else if n == 7 {
            self.l7
        } else if n == 8 {
            self.l8
        } else if n == 9 {
            self.l9
        } else if n == 10 {
            self.l10
        } else if n == 11 {
            self.l11
        } else {
            false
        }
    }

    /// Each supported length is offered exactly when the field named for it is set.
    pub proof fn law_lengths_are_their_fields(self)
        ensures
            self.has(4) == self.l4,
            self.has(5) == self.l5,
            self.has(6) == self.l6,
            self.has(7) == self.l7,
            self.has(8) == self.l8,
            self.has(9) == self.l9,
            self.has(10) == self.l10,
            self.has(11) == self.l11,
            forall|n: int| !(4 <= n <= 11) ==> !#[trigger] self.has(n),
    {
    }

    /// Whether words of `length` letters are offered; only 4 to 11 may be asked.
    pub fn contains(&self, length: usize) -> (r: bool)
        requires
            4 <= length <= 11,
        ensures
            r == self.has(length as int),
            length == 4 ==> r == self.l4,
            length == 5 ==> r == self.l5,
            length == 6 ==> r == self.l6,
            length == 7 ==> r == self.l7,
            length == 8 ==> r == self.l8,
            length == 9 ==> r == self.l9,
            length == 10 ==> r == self.l10,
            length == 11 ==> r == self.l11,
    {
        match length {
            4 => self.l4,
            5 => self.l5,
            6 => self.l6,
            7 => self.l7,
            8 => self.l8,
            9 => self.l9,
            10 => self.l10,
            _ => self.l11,
        }
    }

    fn set(&mut self, n: usize)
        requires
            4 <= n <= 11,
        ensures
            forall|m: int| #[trigger] final(self).has(m) == (old(self).has(m) || m == n),
    {
        match n {
            4 => self.l4 = true,
            5 => self.l5 = true,
            6 => self.l6 = true,
            7 => self.l7 = true,
            8 => self.l8 = true,
            9 => self.l9 = true,
            10 => self.l10 = true,
            _ => self.l11 = true,
        }
    }
}

/// The prefix of the word length line.
pub open spec fn lengths_prefix() -> Seq<char> {
    seq!['4', 'L', 'E', 'N', 'G', 'T', 'H', 'S', ':']
}

/// The supported word length that the piece `p` of the word length line names.
pub open spec fn length_of_piece(p: Seq<char>) -> Option<int> {
    if p == seq!['4'] {
        Some(4)
    } else if p == seq!['5'] {
        Some(5)
    } else if p == seq!['6'] {
        Some(6)
    } else if p == seq!['7'] {
        Some(7)
    } else if p == seq!['8'] {
        Some(8)
    } else if p == seq!['9'] {
        Some(9)
    } else if p == seq!['1', '0'] {
        Some(10)
    } else if p == seq!['1', '1'] {
        Some(11)
    } else {
        None
    }
}

/// `t` is the first piece of `ps` that names no supported word length.
pub open spec fn first_unsupported(ps: Seq<Seq<char>>, t: Seq<char>) -> bool {
    exists|i: int|
        0 <= i < ps.len() && length_of_piece(#[trigger] ps[i]) is None && ps[i] == t && forall|j: int|
            0 <= j < i ==> length_of_piece(#[trigger] ps[j]) is Some
}

/// Every piece of `ps` names a supported word length.
pub open spec fn all_supported(ps: Seq<Seq<char>>) -> bool {
    forall|i: int| 0 <= i < ps.len() ==> length_of_piece(#[trigger] ps[i]) is Some
}

/// Some piece of `ps` names the word length `n`.
pub open spec fn names_length(ps: Seq<Seq<char>>, n: int) -> bool {
    exists|i: int| 0 <= i < ps.len() && length_of_piece(#[trigger] ps[i]) == Some(n)
}

fn length_of_piece_exec(p: &str) -> (r: Option<usize>)
    ensures
        match r {
            Some(n) => length_of_piece(p@) == Some(n as int),
            None => length_of_piece(p@) is None,
        },
{
    let cs = chars_of(p);
    let r = if cs.len() == 1 && '4' <= cs[0] && cs[0] <= '9' {
        let d = cs[0];
        if d == '4' {
            Some(4)
        } else if d == '5' {
            Some(5)
        } else if d == '6' {
            Some(6)
        } else if d == '7' {
            Some(7)
        } else if d == '8' {
            Some(8)
        } else {
            Some(9)
        }
    } else if cs.len() == 2 && cs[0] == '1' && cs[1] == '0' {
        Some(10)
    } else if cs.len() == 2 && cs[0] == '1' && cs[1] == '1' {
        Some(11)
    } else {
        None
    };
    proof {
        if cs.len() == 1 {
            assert(p@ =~= seq![cs@[0]]);
        }
        if cs.len() == 2 {
            assert(p@ =~= seq![cs@[0], cs@[1]]);
        }
        if p@.len() != 1 {
            assert(p@ != seq!['4'] && p@ != seq!['5'] && p@ != seq!['6'] && p@ != seq!['7']);
            assert(p@ != seq!['8'] && p@ != seq!['9']);
        }
        if p@.len() != 2 {
            assert(p@ != seq!['1', '0'] && p@ != seq!['1', '1']);
        }
    }
    r
}

/// The supported lengths named on the word length line `line`, one piece per comma.
pub open spec fn length_pieces(line: Seq<char>) -> Seq<Seq<char>> {
    match split_at_byte(line, 9) {
        Some((_, numbers)) => split_on(numbers, ','),
        None => Seq::empty(),
    }
}

/// The word length line reads well: the prefix, then supported lengths only.
pub open spec fn lengths_line_ok(line: Seq<char>) -> bool {
    match split_at_byte(line, 9) {
        Some((prefix, numbers)) => prefix == lengths_prefix() && all_supported(split_on(numbers, ',')),
        None => false,
    }
}

/// `e` is the error that reading `line` as the word length line gives.
pub open spec fn lengths_error(e: WordListError, line: Seq<char>) -> bool {
    match split_at_byte(line, 9) {
        None => e matches WordListError::LengthsLineTooShort(l) && l@ == line,
        Some((prefix, numbers)) => if prefix != lengths_prefix() {
            e matches WordListError::WrongLengthsPrefix(l) && l@ == line
        } else {
            e matches WordListError::UnsupportedLength(t) && first_unsupported(split_on(numbers, ','), t@)
        },
    }
}

/// The order of the lengths on the word length line, and lengths named twice, do not
/// matter: two lines with the same prefix whose pieces are the same set read alike, both
/// refused or both giving the same word lengths.
pub proof fn law_length_pieces_form_a_set(l1: Seq<char>, l2: Seq<char>)
    requires
        split_at_byte(l1, 9) matches Some((p1, _)) && split_at_byte(l2, 9) matches Some((p2, _)) && p1 == p2,
        forall|p: Seq<char>| length_pieces(l1).contains(p) <==> length_pieces(l2).contains(p),
    ensures
        lengths_line_ok(l1) == lengths_line_ok(l2),
        forall|n: int| names_length(length_pieces(l1), n) == names_length(length_pieces(l2), n),
{
    let ps1 = length_pieces(l1);
    let ps2 = length_pieces(l2);
    assert forall|n: int| names_length(ps1, n) == names_length(ps2, n) by {
        if names_length(ps1, n) {
            let i = choose|i: int| 0 <= i < ps1.len() && length_of_piece(#[trigger] ps1[i]) == Some(n);
            assert(ps1.contains(ps1[i]));
            let j = choose|j: int| 0 <= j < ps2.len() && ps2[j] == ps1[i];
            assert(length_of_piece(ps2[j]) == Some(n));
        }
        if names_length(ps2, n) {
            let j = choose|j: int| 0 <= j < ps2.len() && length_of_piece(#[trigger] ps2[j]) == Some(n);
            assert(ps2.contains(ps2[j]));
            let i = choose|i: int| 0 <= i < ps1.len() && ps1[i] == ps2[j];
            assert(length_of_piece(ps1[i]) == Some(n));
        }
    }
    if all_supported(ps1) {
        assert forall|j: int| 0 <= j < ps2.len() implies length_of_piece(#[trigger] ps2[j]) is Some by {
            assert(ps2.contains(ps2[j]));
            let i = choose|i: int| 0 <= i < ps1.len() && ps1[i] == ps2[j];
            assert(length_of_piece(ps1[i]) is Some);
        }
    }
    if all_supported(ps2) {
        assert forall|i: int| 0 <= i < ps1.len() implies length_of_piece(#[trigger] ps1[i]) is Some by {
            assert(ps1.contains(ps1[i]));
            let j = choose|j: int| 0 <= j < ps2.len() && ps2[j] == ps1[i];
            assert(length_of_piece(ps2[j]) is Some);
        }
    }
}

/// Word lengths that name exactly the lengths of the pieces `ps` have the field of a
/// length set exactly when the piece that writes it is among `ps`.
proof fn lemma_fields_from_pieces(w: WordLengths, ps: Seq<Seq<char>>)
    requires
        forall|n: int| #[trigger] w.has(n) == names_length(ps, n),
    ensures
        w.l4 == ps.contains(seq!['4']),
        w.l5 == ps.contains(seq!['5']),
        w.l6 == ps.contains(seq!['6']),
        w.l7 == ps.contains(seq!['7']),
        w.l8 == ps.contains(seq!['8']),
        w.l9 == ps.contains(seq!['9']),
        w.l10 == ps.contains(seq!['1', '0']),
        w.l11 == ps.contains(seq!['1', '1']),
{
    assert(seq!['5'] != seq!['4']) by { assert(seq!['5'][0] != seq!['4'][0]); }
    assert(seq!['6'] != seq!['4']) by { assert(seq!['6'][0] != seq!['4'][0]); }
    assert(seq!['6'] != seq!['5']) by { assert(seq!['6'][0] != seq!['5'][0]); }
    assert(seq!['7'] != seq!['4']) by { assert(seq!['7'][0] != seq!['4'][0]); }
    assert(seq!['7'] != seq!['5']) by { assert(seq!['7'][0] != seq!['5'][0]); }
    assert(seq!['7'] != seq!['6']) by { assert(seq!['7'][0] != seq!['6'][0]); }
    assert(seq!['8'] != seq!['4']) by { assert(seq!['8'][0] != seq!['4'][0]); }
    assert(seq!['8'] != seq!['5']) by { assert(seq!['8'][0] != seq!['5'][0]); }
    assert(seq!['8'] != seq!['6']) by { assert(seq!['8'][0] != seq!['6'][0]); }
    assert(seq!['8'] != seq!['7']) by { assert(seq!['8'][0] != seq!['7'][0]); }
    assert(seq!['9'] != seq!['4']) by { assert(seq!['9'][0] != seq!['4'][0]); }
    assert(seq!['9'] != seq!['5']) by { assert(seq!['9'][0] != seq!['5'][0]); }
    assert(seq!['9'] != seq!['6']) by { assert(seq!['9'][0] != seq!['6'][0]); }
    assert(seq!['9'] != seq!['7']) by { assert(seq!['9'][0] != seq!['7'][0]); }
    assert(seq!['9'] != seq!['8']) by { assert(seq!['9'][0] != seq!['8'][0]); }
    assert(seq!['1', '0'] != seq!['4']) by { assert(seq!['1', '0'].len() != seq!['4'].len()); }
    assert(seq!['1', '0'] != seq!['5']) by { assert(seq!['1', '0'].len() != seq!['5'].len()); }
    assert(seq!['1', '0'] != seq!['6']) by { assert(seq!['1', '0'].len() != seq!['6'].len()); }
    assert(seq!['1', '0'] != seq!['7']) by { assert(seq!['1', '0'].len() != seq!['7'].len()); }
    assert(seq!['1', '0'] != seq!['8']) by { assert(seq!['1', '0'].len() != seq!['8'].len()); }
    assert(seq!['1', '0'] != seq!['9']) by { assert(seq!['1', '0'].len() != seq!['9'].len()); }
    assert(seq!['1', '1'] != seq!['4']) by { assert(seq!['1', '1'].len() != seq!['4'].len()); }
    assert(seq!['1', '1'] != seq!['5']) by { assert(seq!['1', '1'].len() != seq!['5'].len()); }
    assert(seq!['1', '1'] != seq!['6']) by { assert(seq!['1', '1'].len() != seq!['6'].len()); }
    assert(seq!['1', '1'] != seq!['7']) by { assert(seq!['1', '1'].len() != seq!['7'].len()); }
    assert(seq!['1', '1'] != seq!['8']) by { assert(seq!['1', '1'].len() != seq!['8'].len()); }
    assert(seq!['1', '1'] != seq!['9']) by { assert(seq!['1', '1'].len() != seq!['9'].len()); }
    assert(seq!['1', '1'] != seq!['1', '0']) by { assert(seq!['1', '1'][1] != seq!['1', '0'][1]); }
    lemma_named_by_text(ps, seq!['4'], 4);
    lemma_named_by_text(ps, seq!['5'], 5);
    lemma_named_by_text(ps, seq!['6'], 6);
    lemma_named_by_text(ps, seq!['7'], 7);
    lemma_named_by_text(ps, seq!['8'], 8);
    lemma_named_by_text(ps, seq!['9'], 9);
    lemma_named_by_text(ps, seq!['1', '0'], 10);
    lemma_named_by_text(ps, seq!['1', '1'], 11);
    assert(w.has(4) == names_length(ps, 4));
    assert(w.has(5) == names_length(ps, 5));
    assert(w.has(6) == names_length(ps, 6));
    assert(w.has(7) == names_length(ps, 7));
    assert(w.has(8) == names_length(ps, 8));
    assert(w.has(9) == names_length(ps, 9));
    assert(w.has(10) == names_length(ps, 10));
    assert(w.has(11) == names_length(ps, 11));
}

/// A length that only the text `t` names is named by the pieces exactly when `t` is one
/// of them.
proof fn lemma_named_by_text(ps: Seq<Seq<char>>, t: Seq<char>, n: int)
    requires
        length_of_piece(t) == Some(n),
        forall|p: Seq<char>| #[trigger] length_of_piece(p) == Some(n) ==> p == t,
    ensures
        names_length(ps, n) == ps.contains(t),
{
    if names_length(ps, n) {
        let j = choose|j: int| 0 <= j < ps.len() && length_of_piece(#[trigger] ps[j]) == Some(n);
        assert(ps[j] == t);
    }
    if ps.contains(t) {
        let j = choose|j: int| 0 <= j < ps.len() && ps[j] == t;
        assert(length_of_piece(ps[j]) == Some(n));
    }
}

/// Reads the word length line: the prefix `4LENGTHS:`, then the supported lengths
/// separated by commas.
pub fn get_available_word_lengths(line: &str) -> (r: Result<WordLengths, WordListError>)
    ensures
        r is Ok <==> lengths_line_ok(line@),
        r matches Ok(w) ==> forall|n: int| #[trigger] w.has(n) == names_length(length_pieces(line@), n),
        r matches Ok(w) ==> {
            let ps = length_pieces(line@);
            &&& w.l4 == ps.contains(seq!['4'])
            &&& w.l5 == ps.contains(seq!['5'])
            &&& w.l6 == ps.contains(seq!['6'])
            &&& w.l7 == ps.contains(seq!['7'])
            &&& w.l8 == ps.contains(seq!['8'])
            &&& w.l9 == ps.contains(seq!['9'])
            &&& w.l10 == ps.contains(seq!['1', '0'])
            &&& w.l11 == ps.contains(seq!['1', '1'])
        },
        r matches Err(e) ==> lengths_error(e, line@),
{
    match split_at_checked(line, 9) {
        None => Err(WordListError::LengthsLineTooShort(line.to_owned())),
        Some((prefix, numbers)) => {
            proof {
                reveal_strlit("4LENGTHS:");
            }
            assert("4LENGTHS:"@ == lengths_prefix());
            if !str_eq(prefix, "4LENGTHS:") {
                return Err(WordListError::WrongLengthsPrefix(line.to_owned()));
            }
            let pieces = split_commas(numbers);
            let ghost ps = split_on(numbers@, ',');
            let mut lengths = WordLengths::default();
            let mut i: usize = 0;
            while i < pieces.len()
                invariant
                    split_at_byte(line@, 9) == Some((prefix@, numbers@)),
                    prefix@ == lengths_prefix(),
                    views_of(pieces@) == ps,
                    ps == split_on(numbers@, ','),
                    i <= pieces@.len(),
                    forall|j: int| 0 <= j < i ==> length_of_piece(#[trigger] ps[j]) is Some,
                    forall|n: int|
                        #[trigger] lengths.has(n) == exists|j: int|
                            0 <= j < i && length_of_piece(#[trigger] ps[j]) == Some(n),
                decreases pieces.len() - i,
            {
                assert(views_of(pieces@).len() == pieces@.len());
                assert(ps[i as int] == pieces@[i as int]@);
                match length_of_piece_exec(pieces[i]) {
                    Some(n) => {
                        let ghost before = lengths;
                        lengths.set(n);
                        proof {
                            assert forall|m: int| #[trigger] lengths.has(m) == exists|j: int|
                                0 <= j < i + 1 && length_of_piece(#[trigger] ps[j]) == Some(m) by {
                                if exists|j: int| 0 <= j < i + 1 && length_of_piece(#[trigger] ps[j]) == Some(m) {
                                    let j = choose|j: int| 0 <= j < i + 1 && length_of_piece(#[trigger] ps[j]) == Some(m);
                                    if j < i {
                                        assert(before.has(m));
                                    }
                                }
                                if before.has(m) {
                                    let j = choose|j: int| 0 <= j < i && length_of_piece(#[trigger] ps[j]) == Some(m);
                                    assert(length_of_piece(ps[j]) == Some(m));
                                }
                                if m == n {
                                    assert(length_of_piece(ps[i as int]) == Some(m));
                                }
                            }
                        }
                    },
                    None => {
                        let piece = pieces[i].to_owned();
                        assert(length_of_piece(ps[i as int]) is None);
                        assert(first_unsupported(ps, piece@));
                        assert(!all_supported(ps));
                        return Err(WordListError::UnsupportedLength(piece));
                    },
                }
                i += 1;
            }
            proof {
                assert(all_supported(ps));
                assert forall|n: int| #[trigger] lengths.has(n) == names_length(ps, n) by {
                    if names_length(ps, n) {
                        let j = choose|j: int| 0 <= j < ps.len() && length_of_piece(#[trigger] ps[j]) == Some(n);
                        assert(length_of_piece(ps[j]) == Some(n));
                    }
                }
                lemma_fields_from_pieces(lengths, ps);
            }
            Ok(lengths)
        },
    }
}

/// The line that separates the secret words from the public ones starts with `-`.
pub open spec fn is_separator(l: Seq<char>) -> bool {
    l.len() > 0 && l[0] == '-'
}

/// None of the lines from `from` up to, not including, `i` is a separator.
pub open spec fn no_separator_before(ls: Seq<Seq<char>>, from: int, i: int) -> bool {
    forall|j: int| from <= j < i ==> !is_separator(#[trigger] ls[j])
}

/// The word `l` has the wanted length, if one is wanted.
pub open spec fn fits_length(l: Seq<char>, length: Option<usize>) -> bool {
    match length {
        Some(n) => l.len() == n,
        None => true,
    }
}

/// Line `i` holds a secret word: it comes before any separator after line `from`.
pub open spec fn secret_line(ls: Seq<Seq<char>>, from: int, i: int, length: Option<usize>) -> bool {
    from <= i < ls.len() && no_separator_before(ls, from, i + 1) && fits_length(ls[i], length)
}

/// Line `i` holds a public word: a separator comes before it, after line `from`.
pub open spec fn public_line(ls: Seq<Seq<char>>, from: int, i: int, length: Option<usize>) -> bool {
    from <= i < ls.len() && !no_separator_before(ls, from, i) && fits_length(ls[i], length)
}

/// The words that a list of strings holds.
pub open spec fn word_set(v: Seq<String>) -> Set<Seq<char>> {
    Set::new(|w: Seq<char>| exists|i: int| 0 <= i < v.len() && #[trigger] v[i]@ == w)
}

/// No word occurs twice in `v`.
pub open spec fn no_dup_words(v: Seq<String>) -> bool {
    forall|a: int, b: int| 0 <= a < b < v.len() ==> v[a]@ != v[b]@
}

/// Whether the word `w` occurs in `v`.
pub fn contains_word(v: &Vec<String>, w: &str) -> (r: bool)
    ensures
        r == word_set(v@).contains(w@),
{
    let mut i: usize = 0;
    while i < v.len()
        invariant
            i <= v@.len(),
            forall|a: int| 0 <= a < i ==> v@[a]@ != w@,
        decreases v.len() - i,
    {
        if str_eq(v[i].as_str(), w) {
            assert(v@[i as int]@ == w@);
            return true;
        }
        i += 1;
    }
    false
}

/// Adds the word `w` to `v`, unless it is there already.
pub fn insert_word(v: &mut Vec<String>, w: String)
    requires
        no_dup_words(old(v)@),
    ensures
        no_dup_words(final(v)@),
        word_set(final(v)@) == word_set(old(v)@).insert(w@),
{
    if !contains_word(v, w.as_str()) {
        let ghost before = v@;
        let ghost wv = w@;
        v.push(w);
        proof {
            assert(v@.last()@ == wv);
            assert forall|x: Seq<char>| #[trigger] word_set(v@).contains(x) == word_set(before).insert(wv).contains(x) by {
                if word_set(v@).contains(x) {
                    let j = choose|j: int| 0 <= j < v@.len() && #[trigger] v@[j]@ == x;
                    if j < before.len() {
                        assert(before[j]@ == x);
                    }
                }
                if word_set(before).contains(x) {
                    let j = choose|j: int| 0 <= j < before.len() && #[trigger] before[j]@ == x;
                    assert(v@[j]@ == x);
                }
                if x == wv {
                    assert(v@[v@.len() - 1]@ == x);
                }
            }
            assert(word_set(v@) =~= word_set(before).insert(wv));
        }
    } else {
        assert(word_set(v@) =~= word_set(v@).insert(w@));
    }
}

/// Collects the words from line `from` on: the secret words up to the first separator,
/// the public words after it; with `length` given, only the words of that many letters.
/// Returns the public words, then the secret words.
pub fn get_words(lines: &Vec<String>, from: usize, length: Option<usize>) -> (r: (Vec<String>, Vec<String>))
    ensures
        no_dup_words(r.0@),
        no_dup_words(r.1@),
        forall|w: Seq<char>| #[trigger] word_set(r.1@).contains(w) <==> exists|i: int|
            secret_line(lines_view(lines@), from as int, i, length) && #[trigger] lines_view(lines@)[i] == w,
        forall|w: Seq<char>| #[trigger] word_set(r.0@).contains(w) <==> exists|i: int|
            public_line(lines_view(lines@), from as int, i, length) && #[trigger] lines_view(lines@)[i] == w,
{
    let ghost ls = lines_view(lines@);
    let mut secrets = true;
    let mut none_secret_words: Vec<String> = Vec::new();
    let mut secret_words: Vec<String> = Vec::new();
    let mut i: usize = from;
    while i < lines.len()
        invariant
            ls == lines_view(lines@),
            ls.len() == lines@.len(),
            from <= i,
            secrets == no_separator_before(ls, from as int, i as int),
            no_dup_words(none_secret_words@),
            no_dup_words(secret_words@),
            forall|w: Seq<char>| #[trigger] word_set(secret_words@).contains(w) <==> exists|k: int|
                k < i && secret_line(ls, from as int, k, length) && #[trigger] ls[k] == w,
            forall|w: Seq<char>| #[trigger] word_set(none_secret_words@).contains(w) <==> exists|k: int|
                k < i && public_line(ls, from as int, k, length) && #[trigger] ls[k] == w,
        decreases lines.len() - i,
    {
        let line = &lines[i];
        let cs = chars_of(line.as_str());
        assert(ls[i as int] == line@);
        let ghost old_secret = secret_words@;
        let ghost old_public = none_secret_words@;
        if secrets && cs.len() > 0 && cs[0] == '-' {
            secrets = false;
            proof {
                assert(is_separator(ls[i as int]));
                assert(!no_separator_before(ls, from as int, i + 1));
                assert forall|w: Seq<char>| #[trigger] word_set(secret_words@).contains(w) <==> exists|k: int|
                    k < i + 1 && secret_line(ls, from as int, k, length) && #[trigger] ls[k] == w by {
                    if exists|k: int| k < i + 1 && secret_line(ls, from as int, k, length) && #[trigger] ls[k] == w {
                        let k = choose|k: int| k < i + 1 && secret_line(ls, from as int, k, length) && #[trigger] ls[k] == w;
                        assert(k != i);
                    }
                }
                assert forall|w: Seq<char>| #[trigger] word_set(none_secret_words@).contains(w) <==> exists|k: int|
                    k < i + 1 && public_line(ls, from as int, k, length) && #[trigger] ls[k] == w by {
                    if exists|k: int| k < i + 1 && public_line(ls, from as int, k, length) && #[trigger] ls[k] == w {
                        let k = choose|k: int| k < i + 1 && public_line(ls, from as int, k, length) && #[trigger] ls[k] == w;
                        assert(k != i);
                    }
                }
            }
        } else {
            let fits = match length {
                Some(n) => cs.len() == n,
                None => true,
            };
            proof {
                assert(fits == fits_length(ls[i as int], length));
                if secrets {
                    assert(no_separator_before(ls, from as int, i + 1)) by {
                        assert(!is_separator(ls[i as int]));
                    }
                } else {
                    assert(!no_separator_before(ls, from as int, i + 1));
                }
            }
            if fits {
                if secrets {
                    insert_word(&mut secret_words, line.clone());
                } else {
                    insert_word(&mut none_secret_words, line.clone());
                }
            }
            proof {
                assert forall|w: Seq<char>| #[trigger] word_set(secret_words@).contains(w) <==> exists|k: int|
                    k < i + 1 && secret_line(ls, from as int, k, length) && #[trigger] ls[k] == w by {
                    if exists|k: int| k < i + 1 && secret_line(ls, from as int, k, length) && #[trigger] ls[k] == w {
                        let k = choose|k: int| k < i + 1 && secret_line(ls, from as int, k, length) && #[trigger] ls[k] == w;
                        if k < i {
                            assert(word_set(old_secret).contains(w));
                        }
                    }
                    if word_set(old_secret).contains(w) {
                        let k = choose|k: int| k < i && secret_line(ls, from as int, k, length) && #[trigger] ls[k] == w;
                        assert(secret_line(ls, from as int, k, length));
                    }
                    if secrets && fits && w == ls[i as int] {
                        assert(secret_line(ls, from as int, i as int, length));
                    }
                }
                assert forall|w: Seq<char>| #[trigger] word_set(none_secret_words@).contains(w) <==> exists|k: int|
                    k < i + 1 && public_line(ls, from as int, k, length) && #[trigger] ls[k] == w by {
                    if exists|k: int| k < i + 1 && public_line(ls, from as int, k, length) && #[trigger] ls[k] == w {
                        let k = choose|k: int| k < i + 1 && public_line(ls, from as int, k, length) && #[trigger] ls[k] == w;
                        if k < i {
                            assert(word_set(old_public).contains(w));
                        }
                    }
                    if word_set(old_public).contains(w) {
                        let k = choose|k: int| k < i && public_line(ls, from as int, k, length) && #[trigger] ls[k] == w;
                        assert(public_line(ls, from as int, k, length));
                    }
                    if !secrets && fits && w == ls[i as int] {
                        assert(public_line(ls, from as int, i as int, length));
                    }
                }
            }
        }
        i += 1;
    }
    proof {
        assert forall|w: Seq<char>| #[trigger] word_set(secret_words@).contains(w) <==> exists|k: int|
            secret_line(ls, from as int, k, length) && #[trigger] ls[k] == w by {
            if exists|k: int| secret_line(ls, from as int, k, length) && #[trigger] ls[k] == w {
                let k = choose|k: int| secret_line(ls, from as int, k, length) && #[trigger] ls[k] == w;
                assert(k < i);
            }
        }
        assert forall|w: Seq<char>| #[trigger] word_set(none_secret_words@).contains(w) <==> exists|k: int|
            public_line(ls, from as int, k, length) && #[trigger] ls[k] == w by {
            if exists|k: int| public_line(ls, from as int, k, length) && #[trigger] ls[k] == w {
                let k = choose|k: int| public_line(ls, from as int, k, length) && #[trigger] ls[k] == w;
                assert(k < i);
            }
        }
    }
    (none_secret_words, secret_words)
}

} // verus!
