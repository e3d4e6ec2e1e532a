//! The word list checker: reads a word list file in full, cleans it up, and reports
//! what is wrong with it.
use std::collections::HashMap;

use vstd::prelude::*;

pub use crate::onscreen_button::Key;
use crate::counting::count_positions;
use crate::sorting::{sort_numbers, sort_words, strictly_increasing, words_sorted};
use crate::text::{
    chars_of, contains_text, str_contains, to_uppercase, trim, trimmed, uppercase,
};
use crate::word_list_format::{
    contains_char, get_available_word_lengths, get_keys_and_allowed_letters, get_words,
    header_panics, insert_word, is_separator, keyboard_letter, no_separator_before, length_pieces, lines_view, names_length,
    no_dup_chars, no_dup_words, public_line, row_keys, secret_line, word_set, WordLengths,
    WordListError,
};
use crate::game::word_list::{header_ok, read_error};

verus! {

/// A word list file read in full: all of its words, of any length.
#[derive(Debug)]
pub struct WordList {
    pub secret_words: Vec<String>,
    pub none_secret_words: Vec<String>,
    pub allowed_letters: Vec<char>,
    pub keys: Vec<Vec<Key>>,
    pub available_word_lengths: WordLengths,
}

/// The line that separates the secret words from the public ones in a written list.
pub open spec fn separator_line() -> Seq<char> {
    "----^^^^^-secret-^^^^----vvvv-public-vvvv----"@
}

/// The text in an answer of the dictionary at dict.leo.org that says it knows no such word.
pub open spec fn unknown_word_marker() -> Seq<char> {
    "Es existiert derzeit auch keine Diskussion"@
}

/// Word lengths from 4 to 11 can be played.
pub open spec fn legal_length(w: Seq<char>) -> bool {
    4 <= w.len() <= 11
}

/// The word `w` holds a character that is not among `letters`.
pub open spec fn has_illegal_letter(w: Seq<char>, letters: Seq<char>) -> bool {
    exists|i: int| 0 <= i < w.len() && !letters.contains(#[trigger] w[i])
}

/// The words of `ws` that hold a character not among `letters`, in their order.
pub open spec fn illegal_words(ws: Seq<String>, letters: Seq<char>) -> Seq<Seq<char>>
    decreases ws.len(),
{
    if ws.len() == 0 {
        Seq::empty()
    } else {
        let rest = illegal_words(ws.drop_last(), letters);
        if has_illegal_letter(ws.last()@, letters) {
            rest.push(ws.last()@)
        } else {
            rest
        }
    }
}

/// How many words of `ws` have `n` characters.
pub open spec fn count_of_length(ws: Seq<String>, n: int) -> nat
    decreases ws.len(),
{
    if ws.len() == 0 {
        0
    } else {
        count_of_length(ws.drop_last(), n) + (if ws.last()@.len() == n {
            1nat
        } else {
            0nat
        })
    }
}

proof fn lemma_count_of_length_prefix(ws: Seq<String>, n: int, p: spec_fn(int) -> bool, k: int)
    requires
        0 <= k <= ws.len(),
        forall|i: int| 0 <= i < ws.len() ==> p(i) == (ws[i]@.len() == n),
    ensures
        count_of_length(ws.take(k), n) == count_positions(k, p),
    decreases k,
{
    if k > 0 {
        assert(ws.take(k).drop_last() =~= ws.take(k - 1));
        lemma_count_of_length_prefix(ws, n, p, k - 1);
    } else {
        assert(ws.take(k).len() == 0);
    }
}

/// Words are counted by their number of letters (characters, not bytes): the words of
/// length `n` are as many as the positions whose word has `n` characters.
pub proof fn law_lengths_count_letters(ws: Seq<String>, n: int)
    ensures
        count_of_length(ws, n) == count_positions(ws.len() as int, |i: int| ws[i]@.len() == n),
{
    lemma_count_of_length_prefix(ws, n, |i: int| ws[i]@.len() == n, ws.len() as int);
    assert(ws.take(ws.len() as int) =~= ws);
}

/// The words of a list, each trimmed and in upper case.
pub open spec fn capitalized(ws: Seq<String>) -> Set<Seq<char>> {
    Set::new(|w: Seq<char>| exists|i: int| 0 <= i < ws.len() && w == uppercase(trimmed(#[trigger] ws[i]@)))
}

/// How many words of one length a word list holds.
#[derive(Debug, Clone, Copy, PartialEq, Eq, Structural)]
pub struct LengthStatistics {
    pub length: usize,
    pub total: usize,
    pub secret: usize,
}

/// `r` holds the lines of `wl` as they are written back: the secret words in order,
/// then, if there are public words, the separator and the public words in order.
pub open spec fn stored_lines_of(wl: &WordList, r: Seq<String>) -> bool {
    let s = wl.secret_words@.len() as int;
    &&& r.len() == s + (if wl.none_secret_words@.len() > 0 {
        1 + wl.none_secret_words@.len()
    } else {
        0
    })
    &&& words_sorted(r.take(s))
    &&& word_set(r.take(s)) == word_set(wl.secret_words@)
    &&& wl.none_secret_words@.len() > 0 ==> {
        &&& r[s]@ == separator_line()
        &&& words_sorted(r.skip(s + 1))
        &&& word_set(r.skip(s + 1)) == word_set(wl.none_secret_words@)
    }
}

/// A written list reads back as it was: put under any four header lines, the lines
/// written for `wl` give its secret words as secret and its public words as public,
/// provided no secret word looks like the separator (starts with `-`).
pub proof fn law_stored_list_reads_back(wl: WordList, header: Seq<Seq<char>>, stored: Seq<String>)
    requires
        header.len() == 4,
        stored_lines_of(&wl, stored),
        forall|i: int| 0 <= i < wl.secret_words@.len() ==> !is_separator(#[trigger] wl.secret_words@[i]@),
    ensures
        forall|w: Seq<char>|
            (exists|i: int| secret_line(header + lines_view(stored), 4, i, None) && #[trigger] (header
                + lines_view(stored))[i] == w) <==> #[trigger] word_set(wl.secret_words@).contains(w),
        forall|w: Seq<char>|
            (exists|i: int| public_line(header + lines_view(stored), 4, i, None) && #[trigger] (header
                + lines_view(stored))[i] == w) <==> #[trigger] word_set(wl.none_secret_words@).contains(w),
{
    let ls = header + lines_view(stored);
    let s = wl.secret_words@.len() as int;
    assert(ls.len() == 4 + stored.len());
    assert forall|k: int| 4 <= k < ls.len() implies #[trigger] ls[k] == stored[k - 4]@ by {}
    // no line of the secret part is a separator
    assert forall|k: int| 4 <= k < 4 + s implies !is_separator(#[trigger] ls[k]) by {
        assert(stored.take(s)[k - 4] == stored[k - 4]);
        assert(word_set(stored.take(s)).contains(stored[k - 4]@));
        let j = choose|j: int| 0 <= j < s && #[trigger] wl.secret_words@[j]@ == stored[k - 4]@;
    }
    if wl.none_secret_words@.len() > 0 {
        reveal_strlit("----^^^^^-secret-^^^^----vvvv-public-vvvv----");
        assert(is_separator(ls[4 + s]));
    }
    assert forall|w: Seq<char>|
        (exists|i: int| secret_line(ls, 4, i, None) && #[trigger] ls[i] == w) <==> #[trigger] word_set(
            wl.secret_words@,
        ).contains(w) by {
        if word_set(wl.secret_words@).contains(w) {
            assert(word_set(stored.take(s)).contains(w));
            let j = choose|j: int| 0 <= j < s && #[trigger] stored.take(s)[j]@ == w;
            assert(secret_line(ls, 4, 4 + j, None));
            assert(ls[4 + j] == w);
        }
        if exists|i: int| secret_line(ls, 4, i, None) && #[trigger] ls[i] == w {
            let i = choose|i: int| secret_line(ls, 4, i, None) && #[trigger] ls[i] == w;
            if i - 4 >= s {
                assert(!is_separator(ls[4 + s]));
            }
            assert(stored.take(s)[i - 4] == stored[i - 4]);
            assert(word_set(stored.take(s)).contains(w));
        }
    }
    assert forall|w: Seq<char>|
        (exists|i: int| public_line(ls, 4, i, None) && #[trigger] ls[i] == w) <==> #[trigger] word_set(
            wl.none_secret_words@,
        ).contains(w) by {
        if word_set(wl.none_secret_words@).contains(w) {
            assert(word_set(stored.skip(s + 1)).contains(w));
            let j = choose|j: int| 0 <= j < stored.skip(s + 1).len() && #[trigger] stored.skip(s + 1)[j]@ == w;
            assert(stored.skip(s + 1)[j] == stored[s + 1 + j]);
            assert(!no_separator_before(ls, 4, 5 + s + j));
            assert(public_line(ls, 4, 5 + s + j, None));
            assert(ls[5 + s + j] == w);
        }
        if exists|i: int| public_line(ls, 4, i, None) && #[trigger] ls[i] == w {
            let i = choose|i: int| public_line(ls, 4, i, None) && #[trigger] ls[i] == w;
            let k = choose|k: int| 4 <= k < i && is_separator(#[trigger] ls[k]);
            assert(k >= 4 + s);
            assert(wl.none_secret_words@.len() > 0);
            assert(stored.skip(s + 1)[i - 5 - s] == stored[i - 4]);
            assert(word_set(stored.skip(s + 1)).contains(w));
        }
    }
}

/// The lines of the views of a list of strings.
pub open spec fn string_views(v: Seq<String>) -> Seq<Seq<char>> {
    v.map_values(|s: String| s@)
}

impl WordList {
    /// No word and no letter is held twice.
    pub open spec fn wf(&self) -> bool {
        &&& no_dup_words(self.secret_words@)
        &&& no_dup_words(self.none_secret_words@)
        &&& no_dup_chars(self.allowed_letters@)
    }

    /// The lists trimmed and in upper case; words that become equal merge.
    pub fn upper_case_lists(&mut self)
        requires
            old(self).wf(),
        ensures
            final(self).wf(),
            word_set(final(self).secret_words@) == capitalized(old(self).secret_words@),
            word_set(final(self).none_secret_words@) == capitalized(old(self).none_secret_words@),
            final(self).allowed_letters == old(self).allowed_letters,
            final(self).keys == old(self).keys,
            final(self).available_word_lengths == old(self).available_word_lengths,
    {
        self.secret_words = trim_and_capitalize_list(&self.secret_words);
        self.none_secret_words = trim_and_capitalize_list(&self.none_secret_words);
    }

    /// A word that is secret is taken out of the public words.
    pub fn remove_duplicates(&mut self)
        requires
            old(self).wf(),
        ensures
            final(self).wf(),
            word_set(final(self).none_secret_words@) == word_set(old(self).none_secret_words@).difference(
                word_set(old(self).secret_words@),
            ),
            final(self).secret_words == old(self).secret_words,
            final(self).allowed_letters == old(self).allowed_letters,
            final(self).keys == old(self).keys,
            final(self).available_word_lengths == old(self).available_word_lengths,
    {
        let mut kept: Vec<String> = Vec::new();
        let mut i: usize = 0;
        while i < self.none_secret_words.len()
            invariant
                no_dup_words(kept@),
                i <= self.none_secret_words@.len(),
                forall|w: Seq<char>| #[trigger] word_set(kept@).contains(w) <==> (exists|j: int|
                    0 <= j < i && #[trigger] self.none_secret_words@[j]@ == w) && !word_set(
                    self.secret_words@,
                ).contains(w),
            decreases self.none_secret_words.len() - i,
        {
            let w = &self.none_secret_words[i];
            if !crate::word_list_format::contains_word(&self.secret_words, w.as_str()) {
                insert_word(&mut kept, w.clone());
            }
            proof {
                let wv = self.none_secret_words@[i as int]@;
                assert forall|x: Seq<char>| #[trigger] word_set(kept@).contains(x) <==> (exists|j: int|
                    0 <= j < i + 1 && #[trigger] self.none_secret_words@[j]@ == x) && !word_set(
                    self.secret_words@,
                ).contains(x) by {
                    if exists|j: int| 0 <= j < i + 1 && #[trigger] self.none_secret_words@[j]@ == x {
                        let j = choose|j: int| 0 <= j < i + 1 && #[trigger] self.none_secret_words@[j]@ == x;
                        if j < i {
                            assert(exists|j: int| 0 <= j < i && #[trigger] self.none_secret_words@[j]@ == x);
                        }
                    }
                    if x == wv {
                        assert(self.none_secret_words@[i as int]@ == x);
                    }
                }
            }
            i += 1;
        }
        proof {
            assert(word_set(kept@) =~= word_set(self.none_secret_words@).difference(
                word_set(self.secret_words@),
            ));
        }
        self.none_secret_words = kept;
    }

    /// The words that hold a letter missing from the keyboard: the secret ones first,
    /// then the public ones.
    pub fn check_for_illegal_letters(&self) -> (r: Vec<String>)
        ensures
            string_views(r@) == illegal_words(self.secret_words@, self.allowed_letters@) + illegal_words(
                self.none_secret_words@,
                self.allowed_letters@,
            ),
    {
        let mut r = check_list_letters(&self.allowed_letters, &self.secret_words);
        let mut more = check_list_letters(&self.allowed_letters, &self.none_secret_words);
        let ghost a = r@;
        let ghost b = more@;
        r.append(&mut more);
        proof {
            assert(string_views(r@) =~= string_views(a) + string_views(b));
        }
        r
    }

    /// Only the words of a playable length, 4 to 11 letters, are kept.
    pub fn remove_words_with_illegal_word_lengths(&mut self)
        requires
            old(self).wf(),
        ensures
            final(self).wf(),
            word_set(final(self).secret_words@) == word_set(old(self).secret_words@).filter(
                |w: Seq<char>| legal_length(w),
            ),
            word_set(final(self).none_secret_words@) == word_set(old(self).none_secret_words@).filter(
                |w: Seq<char>| legal_length(w),
            ),
            final(self).allowed_letters == old(self).allowed_letters,
            final(self).keys == old(self).keys,
            final(self).available_word_lengths == old(self).available_word_lengths,
    {
        self.secret_words = filter_words_by_length(&self.secret_words);
        self.none_secret_words = filter_words_by_length(&self.none_secret_words);
    }

    /// One entry for each word length the lists hold, in increasing order of length:
    /// how many words have that length, and how many of them are secret.
    pub fn statistics(&self) -> (r: Vec<LengthStatistics>)
        requires
            self.secret_words@.len() + self.none_secret_words@.len() <= usize::MAX,
        ensures
            strictly_increasing(r@.map_values(|s: LengthStatistics| s.length)),
            forall|n: usize| #![trigger count_of_length(self.secret_words@, n as int)]
                (exists|i: int| 0 <= i < r@.len() && r@[i].length == n) <==> count_of_length(
                    self.secret_words@,
                    n as int,
                ) + count_of_length(self.none_secret_words@, n as int) > 0,
            forall|i: int| #![trigger r@[i]] 0 <= i < r@.len() ==> {
                &&& r@[i].secret == count_of_length(self.secret_words@, r@[i].length as int)
                &&& r@[i].total == count_of_length(self.secret_words@, r@[i].length as int)
                    + count_of_length(self.none_secret_words@, r@[i].length as int)
            },
    {
        let word_counter_secret = count_word_length(&self.secret_words);
        let word_counter_none_secret = count_word_length(&self.none_secret_words);
        let mut lengths: Vec<usize> = Vec::new();
        collect_lengths(&mut lengths, &self.secret_words);
        collect_lengths(&mut lengths, &self.none_secret_words);
        let lengths = sort_numbers(&lengths);
        let mut rows: Vec<LengthStatistics> = Vec::new();
        let mut i: usize = 0;
        proof {
            lemma_count_bound(self.secret_words@);
            lemma_count_bound(self.none_secret_words@);
        }
        while i < lengths.len()
            invariant
                i <= lengths@.len(),
                rows@.len() == i,
                strictly_increasing(lengths@),
                self.secret_words@.len() + self.none_secret_words@.len() <= usize::MAX,
                forall|n: int| #[trigger] count_of_length(self.secret_words@, n) <= self.secret_words@.len(),
                forall|n: int| #[trigger] count_of_length(self.none_secret_words@, n) <= self.none_secret_words@.len(),
                forall|n: usize| #[trigger] word_counter_secret@.contains_key(n) <==> count_of_length(self.secret_words@, n as int) > 0,
                forall|n: usize| word_counter_secret@.contains_key(n) ==> #[trigger] word_counter_secret@[n] == count_of_length(self.secret_words@, n as int),
                forall|n: usize| #[trigger] word_counter_none_secret@.contains_key(n) <==> count_of_length(self.none_secret_words@, n as int) > 0,
                forall|n: usize| word_counter_none_secret@.contains_key(n) ==> #[trigger] word_counter_none_secret@[n] == count_of_length(self.none_secret_words@, n as int),
                forall|j: int| 0 <= j < i ==> (#[trigger] rows@[j]).length == lengths@[j],
                forall|j: int| #![trigger rows@[j]] 0 <= j < i ==> {
                    &&& rows@[j].secret == count_of_length(self.secret_words@, rows@[j].length as int)
                    &&& rows@[j].total == count_of_length(self.secret_words@, rows@[j].length as int)
                        + count_of_length(self.none_secret_words@, rows@[j].length as int)
                },
            decreases lengths.len() - i,
        {
            broadcast use vstd::std_specs::hash::group_hash_axioms;

            let length = lengths[i];
            let secret = match word_counter_secret.get(&length) {
                Some(c) => *c,
                None => 0,
            };
            let public = match word_counter_none_secret.get(&length) {
                Some(c) => *c,
                None => 0,
            };
            rows.push(LengthStatistics { length, total: secret + public, secret });
            i += 1;
        }
        proof {
            assert(rows@.map_values(|s: LengthStatistics| s.length) =~= lengths@);
            assert forall|n: usize| #![trigger count_of_length(self.secret_words@, n as int)]
                (exists|i: int| 0 <= i < rows@.len() && rows@[i].length == n) <==> count_of_length(
                    self.secret_words@,
                    n as int,
                ) + count_of_length(self.none_secret_words@, n as int) > 0 by {
                if lengths@.contains(n) {
                    let j = choose|j: int| 0 <= j < lengths@.len() && lengths@[j] == n;
                    assert(rows@[j].length == n);
                }
            }
        }
        rows
    }

    /// The number of words in the lists.
    pub fn total_words(&self) -> (r: usize)
        requires
            self.secret_words@.len() + self.none_secret_words@.len() <= usize::MAX,
        ensures
            r == self.secret_words@.len() + self.none_secret_words@.len(),
    {
        self.secret_words.len() + self.none_secret_words.len()
    }

    /// The lines of the cleaned list as it is written back: the secret words in order,
    /// then, if there are public words, the separator and the public words in order.
    pub fn store_lines(&self) -> (r: Vec<String>)
        requires
            self.wf(),
        ensures
            stored_lines_of(self, r@),
    {
        let mut lines = sort_words(&self.secret_words);
        let ghost first = lines@;
        if self.none_secret_words.len() > 0 {
            let sep = "----^^^^^-secret-^^^^----vvvv-public-vvvv----".to_owned();
            lines.push(sep);
            let mut rest = sort_words(&self.none_secret_words);
            let ghost second = rest@;
            lines.append(&mut rest);
            proof {
                assert(lines@.take(first.len() as int) =~= first);
                assert(lines@.skip(first.len() as int + 1) =~= second);
            }
        } else {
            assert(lines@.take(first.len() as int) =~= first);
        }
        lines
    }
}

proof fn lemma_count_bound(ws: Seq<String>)
    ensures
        forall|n: int| #[trigger] count_of_length(ws, n) <= ws.len(),
    decreases ws.len(),
{
    if ws.len() > 0 {
        lemma_count_bound(ws.drop_last());
        assert forall|n: int| #[trigger] count_of_length(ws, n) <= ws.len() by {
            assert(count_of_length(ws.drop_last(), n) <= ws.len() - 1);
        }
    }
}

/// Adds the length of each word of `ws` to `lengths`, each length once.
fn collect_lengths(lengths: &mut Vec<usize>, ws: &Vec<String>)
    requires
        forall|a: int, b: int| 0 <= a < b < old(lengths)@.len() ==> old(lengths)@[a] != old(lengths)@[b],
    ensures
        forall|a: int, b: int| 0 <= a < b < final(lengths)@.len() ==> final(lengths)@[a] != final(lengths)@[b],
        forall|n: usize| #![trigger final(lengths)@.contains(n)] final(lengths)@.contains(n) <==> (old(lengths)@.contains(n)
            || count_of_length(ws@, n as int) > 0),
{
    let ghost start = lengths@;
    let mut i: usize = 0;
    while i < ws.len()
        invariant
            i <= ws@.len(),
            forall|a: int, b: int| 0 <= a < b < lengths@.len() ==> lengths@[a] != lengths@[b],
            forall|n: usize| #![trigger lengths@.contains(n)] lengths@.contains(n) <==> (start.contains(n)
                || count_of_length(ws@.take(i as int), n as int) > 0),
        decreases ws.len() - i,
    {
        let n = chars_of(ws[i].as_str()).len();
        let ghost before = lengths@;
        let mut found = false;
        let mut k: usize = 0;
        while k < lengths.len()
            invariant
                k <= lengths@.len(),
                found == exists|a: int| 0 <= a < k && lengths@[a] == n,
            decreases lengths.len() - k,
        {
            if lengths[k] == n {
                found = true;
            }
            k += 1;
        }
        if !found {
            lengths.push(n);
        }
        proof {
            assert(ws@.take(i + 1).drop_last() =~= ws@.take(i as int));
            assert forall|m: usize| #![trigger lengths@.contains(m)] lengths@.contains(m) <==> (start.contains(m)
                || count_of_length(ws@.take(i + 1), m as int) > 0) by {
                if lengths@.contains(m) && !before.contains(m) {
                    let j = choose|j: int| 0 <= j < lengths@.len() && lengths@[j] == m;
                    assert(j == before.len());
                }
                if before.contains(m) {
                    let j = choose|j: int| 0 <= j < before.len() && before[j] == m;
                    assert(lengths@[j] == m);
                }
                if m == n {
                    if found {
                        let a = choose|a: int| 0 <= a < before.len() && before[a] == n;
                        assert(lengths@[a] == m);
                    } else {
                        assert(lengths@[before.len() as int] == m);
                    }
                }
            }
        }
        i += 1;
    }
    assert(ws@.take(ws@.len() as int) =~= ws@);
}

/// For each word length in `list`, how many of its words have it.
pub fn count_word_length(list: &Vec<String>) -> (r: HashMap<usize, usize>)
    ensures
        forall|n: usize| #[trigger] r@.contains_key(n) <==> count_of_length(list@, n as int) > 0,
        forall|n: usize| r@.contains_key(n) ==> #[trigger] r@[n] == count_of_length(list@, n as int),
{
    broadcast use vstd::std_specs::hash::group_hash_axioms;

    let mut counter: HashMap<usize, usize> = HashMap::new();
    let mut i: usize = 0;
    while i < list.len()
        invariant
            i <= list@.len(),
            forall|n: usize| #[trigger] counter@.contains_key(n) <==> count_of_length(list@.take(i as int), n as int) > 0,
            forall|n: usize| counter@.contains_key(n) ==> #[trigger] counter@[n] == count_of_length(list@.take(i as int), n as int),
        decreases list.len() - i,
    {
        let length = chars_of(list[i].as_str()).len();
        proof {
            assert(list@.take(i + 1).drop_last() =~= list@.take(i as int));
            assert(list@.take(i + 1).last() == list@[i as int]);
            lemma_count_bound(list@.take(i as int));
        }
        let count = match counter.get(&length) {
            Some(c) => *c,
            None => 0,
        };
        counter.insert(length, count + 1);
        i += 1;
    }
    assert(list@.take(list@.len() as int) =~= list@);
    counter
}

/// Keeps the words of a playable length, 4 to 11 letters.
pub fn filter_words_by_length(list: &Vec<String>) -> (r: Vec<String>)
    requires
        no_dup_words(list@),
    ensures
        no_dup_words(r@),
        word_set(r@) == word_set(list@).filter(|w: Seq<char>| legal_length(w)),
{
    let mut new_list: Vec<String> = Vec::new();
    let mut i: usize = 0;
    while i < list.len()
        invariant
            i <= list@.len(),
            no_dup_words(new_list@),
            forall|w: Seq<char>| #[trigger] word_set(new_list@).contains(w) <==> (exists|j: int|
                0 <= j < i && #[trigger] list@[j]@ == w) && legal_length(w),
        decreases list.len() - i,
    {
        let length = chars_of(list[i].as_str()).len();
        if length >= 4 && length <= 11 {
            insert_word(&mut new_list, list[i].clone());
        }
        proof {
            let wv = list@[i as int]@;
            assert forall|x: Seq<char>| #[trigger] word_set(new_list@).contains(x) <==> (exists|j: int|
                0 <= j < i + 1 && #[trigger] list@[j]@ == x) && legal_length(x) by {
                if exists|j: int| 0 <= j < i + 1 && #[trigger] list@[j]@ == x {
                    let j = choose|j: int| 0 <= j < i + 1 && #[trigger] list@[j]@ == x;
                    if j < i {
                        assert(exists|j: int| 0 <= j < i && #[trigger] list@[j]@ == x);
                    }
                }
                if x == wv {
                    assert(list@[i as int]@ == x);
                }
            }
        }
        i += 1;
    }
    assert(word_set(new_list@) =~= word_set(list@).filter(|w: Seq<char>| legal_length(w)));
    new_list
}

/// Each word trimmed of white space and in upper case; words that become equal merge.
pub fn trim_and_capitalize_list(list: &Vec<String>) -> (r: Vec<String>)
    ensures
        no_dup_words(r@),
        word_set(r@) == capitalized(list@),
{
    let mut new_list: Vec<String> = Vec::new();
    let mut i: usize = 0;
    while i < list.len()
        invariant
            i <= list@.len(),
            no_dup_words(new_list@),
            forall|w: Seq<char>| #[trigger] word_set(new_list@).contains(w) <==> exists|j: int|
                0 <= j < i && w == uppercase(trimmed(#[trigger] list@[j]@)),
        decreases list.len() - i,
    {
        let word = to_uppercase(trim(list[i].as_str()));
        insert_word(&mut new_list, word);
        proof {
            let wv = uppercase(trimmed(list@[i as int]@));
            assert forall|x: Seq<char>| #[trigger] word_set(new_list@).contains(x) <==> exists|j: int|
                0 <= j < i + 1 && x == uppercase(trimmed(#[trigger] list@[j]@)) by {
                if exists|j: int| 0 <= j < i + 1 && x == uppercase(trimmed(#[trigger] list@[j]@)) {
                    let j = choose|j: int| 0 <= j < i + 1 && x == uppercase(trimmed(#[trigger] list@[j]@));
                    if j < i {
                        assert(exists|j: int| 0 <= j < i && x == uppercase(trimmed(#[trigger] list@[j]@)));
                    }
                }
            }
        }
        i += 1;
    }
    assert(word_set(new_list@) =~= capitalized(list@));
    new_list
}

/// Whether the word `w` holds a character that is not among `letters`.
fn has_illegal_letter_exec(letters: &Vec<char>, w: &str) -> (r: bool)
    ensures
        r == has_illegal_letter(w@, letters@),
{
    let cs = chars_of(w);
    let mut i: usize = 0;
    while i < cs.len()
        invariant
            cs@ == w@,
            i <= cs@.len(),
            forall|j: int| 0 <= j < i ==> letters@.contains(#[trigger] w@[j]),
        decreases cs.len() - i,
    {
        if !contains_char(letters, cs[i]) {
            assert(!letters@.contains(w@[i as int]));
            return true;
        }
        i += 1;
    }
    false
}

/// The words of `list` that hold a character not among `letters`, in their order.
pub fn check_list_letters(letters: &Vec<char>, list: &Vec<String>) -> (r: Vec<String>)
    ensures
        string_views(r@) == illegal_words(list@, letters@),
{
    let mut r: Vec<String> = Vec::new();
    let mut i: usize = 0;
    while i < list.len()
        invariant
            i <= list@.len(),
            string_views(r@) == illegal_words(list@.take(i as int), letters@),
        decreases list.len() - i,
    {
        proof {
            assert(list@.take(i + 1).drop_last() =~= list@.take(i as int));
            assert(list@.take(i + 1).last() == list@[i as int]);
        }
        if has_illegal_letter_exec(letters, list[i].as_str()) {
            r.push(list[i].clone());
            assert(string_views(r@) =~= string_views(r@.drop_last()).push(list@[i as int]@));
        }
        i += 1;
    }
    assert(list@.take(list@.len() as int) =~= list@);
    r
}

/// Reads a whole word list file, given as its lines: the keyboard, the word lengths and
/// every word, whatever its length.
pub fn read_word_list_from_lines(lines: &Vec<String>) -> (r: Result<WordList, WordListError>)
    requires
        !header_panics(lines_view(lines@)),
    ensures
        r is Ok <==> header_ok(lines_view(lines@)),
        r matches Err(e) ==> read_error(e, lines_view(lines@)),
        r matches Ok(wl) ==> {
            let ls = lines_view(lines@);
            &&& wl.wf()
            &&& wl.keys@.len() == 3
            &&& forall|k: int| 0 <= k < 3 ==> #[trigger] wl.keys@[k]@ == row_keys(ls, k)
            &&& forall|c: char| wl.allowed_letters@.contains(c) <==> keyboard_letter(ls, c)
            &&& forall|n: int| #[trigger] wl.available_word_lengths.has(n) == names_length(length_pieces(ls[3]), n)
            &&& forall|w: Seq<char>| #[trigger] word_set(wl.secret_words@).contains(w) <==> exists|i: int|
                secret_line(ls, 4, i, None) && #[trigger] ls[i] == w
            &&& forall|w: Seq<char>| #[trigger] word_set(wl.none_secret_words@).contains(w) <==> exists|i: int|
                public_line(ls, 4, i, None) && #[trigger] ls[i] == w
        },
{
    let (keys, allowed_letters) = get_keys_and_allowed_letters(lines)?;
    if lines.len() <= 3 {
        return Err(WordListError::FileTooShort);
    }
    let available_word_lengths = get_available_word_lengths(lines[3].as_str())?;
    let (none_secret_words, secret_words) = get_words(lines, 4, None);
    Ok(WordList { none_secret_words, secret_words, allowed_letters, keys, available_word_lengths })
}

/// Whether the answer of the dictionary at dict.leo.org to a word shows that it knows the word.
pub fn leo_knows_word(response: &str) -> (r: bool)
    ensures
        r == !contains_text(response@, unknown_word_marker()),
{
    !str_contains(response, "Es existiert derzeit auch keine Diskussion")
}

} // verus!
