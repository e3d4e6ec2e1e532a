pub mod app;
pub mod game_statistics;
pub mod read_word_list;
pub mod word_list;

use rand::seq::IteratorRandom;
use vstd::prelude::*;

use crate::counting::count_positions;
use crate::letter::Format;
use vstd::string::StringSliceAdditionalSpecFns;
use crate::text::{chars_of, lemma_utf8_len_ge, str_eq, utf8_len};

verus! {

/// The number of guesses a game allows.
pub const TRIES: usize = 6;

/// Calls `IteratorRandom::choose` of the crate rand on the numbers `0..len`, with the
/// random number generator of the thread (`rand::rng`): one of them, drawn at random.
/// Nothing is claimed of which one.
#[verifier::external_body]
fn random_index(len: usize) -> (r: usize)
    requires
        len > 0,
    ensures
        r < len,
{
    (0..len).choose(&mut rand::rng()).unwrap()
}

/// A word of `words`, drawn at random.
pub fn pick_random_word(words: &Vec<String>) -> (r: String)
    requires
        words@.len() > 0,
    ensures
        exists|i: int| 0 <= i < words@.len() && r@ == (#[trigger] words@[i])@,
{
    let i = random_index(words.len());
    words[i].clone()
}

/// The first position of the word list name `s` in `vec`, if it is there.
pub fn get_index(vec: &Vec<String>, s: &str) -> (r: Option<usize>)
    ensures
        match r {
            Some(i) => i < vec@.len() && vec@[i as int]@ == s@ && forall|j: int|
                0 <= j < i ==> #[trigger] vec@[j]@ != s@,
            None => forall|j: int| 0 <= j < vec@.len() ==> #[trigger] vec@[j]@ != s@,
        },
{
    let mut i: usize = 0;
    while i < vec.len()
        invariant
            i <= vec@.len(),
            forall|j: int| 0 <= j < i ==> #[trigger] vec@[j]@ != s@,
        decreases vec.len() - i,
    {
        if str_eq(vec[i].as_str(), s) {
            return Some(i);
        }
        i += 1;
    }
    None
}

/// Position `i` holds the same letter in the secret word `c` and the guess `e`.
pub open spec fn is_exact(c: Seq<char>, e: Seq<char>, i: int) -> bool {
    0 <= i < c.len() && i < e.len() && c[i] == e[i]
}

/// How often `x` stands in `c` at a position `i < k` that the guess `e` does not hit exactly.
pub open spec fn pool_upto(c: Seq<char>, e: Seq<char>, k: int, x: char) -> nat
    decreases k,
{
    if k <= 0 {
        0
    } else {
        pool_upto(c, e, k - 1, x) + (if k - 1 < c.len() && c[k - 1] == x && !is_exact(c, e, k - 1) {
            1nat
        } else {
            0nat
        })
    }
}

/// The letters of the secret word that the guess leaves over for partial matches:
/// how often `x` stands in `c`, at the positions shared with `e`, without an exact hit.
pub open spec fn pool(c: Seq<char>, e: Seq<char>, x: char) -> nat {
    pool_upto(c, e, if c.len() < e.len() { c.len() as int } else { e.len() as int }, x)
}

/// How often `x` stands in the guess `e` before position `k`, away from exact hits.
pub open spec fn earlier(c: Seq<char>, e: Seq<char>, k: int, x: char) -> nat
    decreases k,
{
    if k <= 0 {
        0
    } else {
        earlier(c, e, k - 1, x) + (if k - 1 < e.len() && e[k - 1] == x && !is_exact(c, e, k - 1) {
            1nat
        } else {
            0nat
        })
    }
}

/// The colour of position `i` of the guess `e` against the secret word `c`: an exact hit,
/// else a partial match while unmatched copies of that letter are left, else no match.
pub open spec fn color_at(c: Seq<char>, e: Seq<char>, i: int) -> Format {
    if is_exact(c, e, i) {
        Format::ExactMatch
    } else if earlier(c, e, i, e[i]) < pool(c, e, e[i]) {
        Format::Match
    } else {
        Format::NoMatch
    }
}

/// The colouring of a whole guess: one entry per byte of the secret word; positions past
/// the end of the guess are no match.
pub open spec fn coloring(c: Seq<char>, e: Seq<char>, len: nat) -> Seq<Format> {
    Seq::new(len, |i: int| if i < e.len() { color_at(c, e, i) } else { Format::NoMatch })
}

proof fn lemma_pool_step(c: Seq<char>, e: Seq<char>, k: int, x: char)
    requires
        0 <= k,
    ensures
        pool_upto(c, e, k + 1, x) == pool_upto(c, e, k, x) + (if k < c.len() && c[k] == x
            && !is_exact(c, e, k) {
            1nat
        } else {
            0nat
        }),
{
}

proof fn lemma_earlier_step(c: Seq<char>, e: Seq<char>, k: int, x: char)
    requires
        0 <= k,
    ensures
        earlier(c, e, k + 1, x) == earlier(c, e, k, x) + (if k < e.len() && e[k] == x
            && !is_exact(c, e, k) {
            1nat
        } else {
            0nat
        }),
{
}

proof fn lemma_pool_bound(c: Seq<char>, e: Seq<char>, k: int, x: char)
    requires
        0 <= k,
    ensures
        pool_upto(c, e, k, x) <= k,
    decreases k,
{
    if k > 0 {
        lemma_pool_bound(c, e, k - 1, x);
    }
}

/// The first position of `ch` in `keys`, if it occurs there.
fn position_of_char(keys: &Vec<char>, ch: char) -> (r: Option<usize>)
    ensures
        match r {
            Some(k) => k < keys@.len() && keys@[k as int] == ch,
            None => !keys@.contains(ch),
        },
{
    let mut k: usize = 0;
    while k < keys.len()
        invariant
            k <= keys@.len(),
            forall|a: int| 0 <= a < k ==> keys@[a] != ch,
        decreases keys.len() - k,
    {
        if keys[k] == ch {
            return Some(k);
        }
        k += 1;
    }
    None
}

/// Colours a guess against the secret word: exact hits first, then partial matches,
/// each taken from the letters of the secret word that no exact hit used up.
pub fn calculate_color(correct_word: &str, entered_word: &str) -> (r: Vec<Format>)
    requires
        entered_word@.len() <= utf8_len(correct_word@),
        utf8_len(correct_word@) <= usize::MAX,
    ensures
        r@ == coloring(correct_word@, entered_word@, utf8_len(correct_word@)),
{
    let ghost c = correct_word@;
    let ghost e = entered_word@;
    let byte_len = correct_word.len();
    assert(byte_len == utf8_len(c));
    let mut format: Vec<Format> = vec![Format::NoMatch; byte_len];
    let cv = chars_of(correct_word);
    let ev = chars_of(entered_word);
    let n: usize = if cv.len() < ev.len() {
        cv.len()
    } else {
        ev.len()
    };
    let ghost ni = n as int;
    proof {
        // every character takes at least one byte
        lemma_utf8_len_ge(c);
    }
    // the letters of the secret word that are left over, with how often they are left
    let mut left_keys: Vec<char> = Vec::new();
    let mut left_counts: Vec<usize> = Vec::new();

    // first pass: exact matches, and the count of the leftover letters
    let mut i: usize = 0;
    while i < n
        invariant
            cv@ == c,
            ev@ == e,
            n as int == if c.len() < e.len() { c.len() as int } else { e.len() as int },
            e.len() <= byte_len,
            c.len() <= byte_len,
            i <= n,
            format@.len() == byte_len,
            forall|j: int|
                0 <= j < byte_len ==> #[trigger] format@[j] == (if j < i && is_exact(c, e, j) {
                    Format::ExactMatch
                } else {
                    Format::NoMatch
                }),
            left_keys@.len() == left_counts@.len(),
            forall|a: int, b: int|
                0 <= a < b < left_keys@.len() ==> left_keys@[a] != left_keys@[b],
            forall|a: int|
                0 <= a < left_keys@.len() ==> #[trigger] left_counts@[a] == pool_upto(
                    c,
                    e,
                    i as int,
                    left_keys@[a],
                ),
            forall|x: char|
                !left_keys@.contains(x) ==> #[trigger] pool_upto(c, e, i as int, x) == 0,
        decreases n - i,
    {
        let target_char = cv[i];
        let user_char = ev[i];
        let ghost old_keys = left_keys@;
        proof {
            assert forall|x: char| true implies #[trigger] pool_upto(c, e, i + 1, x)
                == pool_upto(c, e, i as int, x) + (if c[i as int] == x && !is_exact(
                c,
                e,
                i as int,
            ) {
                1nat
            } else {
                0nat
            }) by {
                lemma_pool_step(c, e, i as int, x);
            }
        }
        if target_char == user_char {
            format.set(i, Format::ExactMatch);
        } else {
            let found = position_of_char(&left_keys, target_char);
            if let Some(k) = found {
                proof {
                    lemma_pool_bound(c, e, i as int, target_char);
                }
                let old_count = left_counts[k];
                left_counts.set(k, old_count + 1);
                assert(left_keys@[k as int] == target_char);
            } else {
                proof {
                    assert(!left_keys@.contains(target_char));
                }
                left_keys.push(target_char);
                left_counts.push(1);
                assert(left_keys@[left_keys@.len() - 1] == target_char);
            }
            assert(left_keys@.contains(target_char));
        }
        proof {
            assert forall|x: char| !left_keys@.contains(x) implies #[trigger] pool_upto(
                c,
                e,
                i + 1,
                x,
            ) == 0 by {
                lemma_pool_step(c, e, i as int, x);
                if old_keys.contains(x) {
                    let j = choose|j: int| 0 <= j < old_keys.len() && old_keys[j] == x;
                    assert(left_keys@[j] == x);
                }
            }
        }
        i += 1;
    }

    // second pass: partial matches, away from the exact ones
    let mut i: usize = 0;
    while i < ev.len()
        invariant
            cv@ == c,
            ev@ == e,
            n as int == if c.len() < e.len() { c.len() as int } else { e.len() as int },
            e.len() <= byte_len,
            i <= e.len(),
            format@.len() == byte_len,
            forall|j: int|
                0 <= j < byte_len ==> #[trigger] format@[j] == (if j < i {
                    color_at(c, e, j)
                } else if is_exact(c, e, j) {
                    Format::ExactMatch
                } else {
                    Format::NoMatch
                }),
            left_keys@.len() == left_counts@.len(),
            forall|a: int, b: int|
                0 <= a < b < left_keys@.len() ==> left_keys@[a] != left_keys@[b],
            forall|a: int|
                0 <= a < left_keys@.len() ==> #[trigger] left_counts@[a] == (if earlier(
                    c,
                    e,
                    i as int,
                    left_keys@[a],
                ) >= pool(c, e, left_keys@[a]) {
                    0
                } else {
                    pool(c, e, left_keys@[a]) - earlier(c, e, i as int, left_keys@[a])
                }),
            forall|x: char| !left_keys@.contains(x) ==> #[trigger] pool(c, e, x) == 0,
        decreases e.len() - i,
    {
        let user_char = ev[i];
        proof {
            assert forall|x: char| true implies #[trigger] earlier(c, e, i + 1, x) == earlier(
                c,
                e,
                i as int,
                x,
            ) + (if e[i as int] == x && !is_exact(c, e, i as int) {
                1nat
            } else {
                0nat
            }) by {
                lemma_earlier_step(c, e, i as int, x);
            }
        }
        if format[i] == Format::ExactMatch {
            assert(is_exact(c, e, i as int));
        } else {
            let found = position_of_char(&left_keys, user_char);
            if let Some(k) = found {
                let count = left_counts[k];
                if count > 0 {
                    format.set(i, Format::Match);
                    left_counts.set(k, count - 1);
                }
            } else {
                assert(!left_keys@.contains(user_char));
            }
        }
        i += 1;
    }
    assert(format@ =~= coloring(c, e, utf8_len(correct_word@)));
    format
}

/// How many positions `i < k` of the guess hold `x` and are coloured as a partial match.
pub open spec fn matches_upto(c: Seq<char>, e: Seq<char>, k: int, x: char) -> nat
    decreases k,
{
    if k <= 0 {
        0
    } else {
        matches_upto(c, e, k - 1, x) + (if k - 1 < e.len() && e[k - 1] == x && color_at(
            c,
            e,
            k - 1,
        ) == Format::Match {
            1nat
        } else {
            0nat
        })
    }
}

/// Guessing the secret word itself colours every letter of the guess as an exact match.
pub proof fn law_identical_guess_is_exact(c: Seq<char>, e: Seq<char>, len: nat)
    requires
        c == e,
        e.len() <= len,
    ensures
        forall|i: int| 0 <= i < e.len() ==> #[trigger] coloring(c, e, len)[i] == Format::ExactMatch,
{
}

/// A letter is reported as a partial match no more often than the secret word holds it
/// unmatched: among the first `k` letters of the guess, the partial matches of `x` are
/// as many as the leftover copies of `x` allow, and no more than the guess offers.
pub proof fn law_partial_matches_are_counted(c: Seq<char>, e: Seq<char>, k: int, x: char)
    requires
        0 <= k,
    ensures
        matches_upto(c, e, k, x) == (if earlier(c, e, k, x) < pool(c, e, x) {
            earlier(c, e, k, x)
        } else {
            pool(c, e, x)
        }),
    decreases k,
{
    if k > 0 {
        law_partial_matches_are_counted(c, e, k - 1, x);
        lemma_earlier_step(c, e, k - 1, x);
    }
}

pub(crate) proof fn lemma_pool_absent(c: Seq<char>, e: Seq<char>, k: int, x: char)
    requires
        !c.contains(x),
    ensures
        pool_upto(c, e, k, x) == 0,
    decreases k,
{
    if k > 0 {
        lemma_pool_absent(c, e, k - 1, x);
        if k - 1 < c.len() && c[k - 1] == x {
            assert(c.contains(x));
        }
    }
}

/// A letter that the secret word does not hold at all is never coloured as a match.
pub proof fn law_absent_letter_is_no_match(c: Seq<char>, e: Seq<char>, len: nat, i: int)
    requires
        0 <= i < e.len(),
        e.len() <= len,
        !c.contains(e[i]),
    ensures
        coloring(c, e, len)[i] == Format::NoMatch,
{
    lemma_pool_absent(c, e, if c.len() < e.len() { c.len() as int } else { e.len() as int }, e[i]);
    if is_exact(c, e, i) {
        assert(c.contains(e[i]));
    }
}


proof fn lemma_count_colored_matches(c: Seq<char>, e: Seq<char>, len: nat, x: char, p: spec_fn(int) -> bool, k: int)
    requires
        0 <= k <= e.len(),
        e.len() <= len,
        forall|i: int| 0 <= i < e.len() ==> p(i) == (e[i] == x && coloring(c, e, len)[i] == Format::Match),
    ensures
        count_positions(k, p) == matches_upto(c, e, k, x),
    decreases k,
{
    if k > 0 {
        lemma_count_colored_matches(c, e, len, x, p, k - 1);
    }
}

proof fn lemma_count_guess_copies(c: Seq<char>, e: Seq<char>, x: char, p: spec_fn(int) -> bool, k: int)
    requires
        0 <= k <= e.len(),
        forall|i: int| 0 <= i < e.len() ==> p(i) == (e[i] == x && !(i < c.len() && c[i] == e[i])),
    ensures
        count_positions(k, p) == earlier(c, e, k, x),
    decreases k,
{
    if k > 0 {
        lemma_count_guess_copies(c, e, x, p, k - 1);
    }
}

proof fn lemma_count_secret_copies(c: Seq<char>, e: Seq<char>, x: char, p: spec_fn(int) -> bool, k: int)
    requires
        0 <= k <= c.len(),
        k <= e.len(),
        forall|i: int| 0 <= i < c.len() && i < e.len() ==> p(i) == (c[i] == x && c[i] != e[i]),
    ensures
        count_positions(k, p) == pool_upto(c, e, k, x),
    decreases k,
{
    if k > 0 {
        lemma_count_secret_copies(c, e, x, p, k - 1);
    }
}

/// Each copy of a letter that the secret word holds away from exact hits gives one partial
/// match: the letter `x` is coloured as a partial match as often as the fewer of its copies
/// in the guess and its copies in the secret word (where the guess reaches) leave over,
/// away from exact hits.
pub proof fn law_each_leftover_copy_matches_once(c: Seq<char>, e: Seq<char>, len: nat, x: char)
    requires
        e.len() <= len,
    ensures
        ({
            let matched = count_positions(e.len() as int, |i: int| e[i] == x && coloring(c, e, len)[i] == Format::Match);
            let in_guess = count_positions(e.len() as int, |i: int| e[i] == x && !(i < c.len() && c[i] == e[i]));
            let in_secret = count_positions(
                if c.len() < e.len() { c.len() as int } else { e.len() as int },
                |i: int| c[i] == x && c[i] != e[i],
            );
            matched == if in_guess < in_secret { in_guess } else { in_secret }
        }),
{
    let m = if c.len() < e.len() { c.len() as int } else { e.len() as int };
    lemma_count_colored_matches(c, e, len, x, |i: int| e[i] == x && coloring(c, e, len)[i] == Format::Match, e.len() as int);
    lemma_count_guess_copies(c, e, x, |i: int| e[i] == x && !(i < c.len() && c[i] == e[i]), e.len() as int);
    lemma_count_secret_copies(c, e, x, |i: int| c[i] == x && c[i] != e[i], m);
    law_partial_matches_are_counted(c, e, e.len() as int, x);
}

} // verus!
