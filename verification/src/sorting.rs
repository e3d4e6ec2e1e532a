//! Insertion sorts for the word lists the tools write out and the lengths they report.
use vstd::prelude::*;

use crate::text::{str_less, text_less};
use crate::word_list_format::{no_dup_words, word_set};

verus! {

/// `text_less` orders two different texts one way or the other.
pub proof fn lemma_text_less_total(a: Seq<char>, b: Seq<char>)
    requires
        a != b,
    ensures
        text_less(a, b) || text_less(b, a),
    decreases a.len(),
{
    if a.len() > 0 && b.len() > 0 && a[0] == b[0] {
        if a.drop_first() == b.drop_first() {
            assert(a =~= seq![a[0]] + a.drop_first());
            assert(b =~= seq![b[0]] + b.drop_first());
        }
        lemma_text_less_total(a.drop_first(), b.drop_first());
    } else if a.len() == 0 && b.len() == 0 {
        assert(a =~= b);
    }
}

/// `text_less` is transitive.
pub proof fn lemma_text_less_transitive(a: Seq<char>, b: Seq<char>, c: Seq<char>)
    requires
        text_less(a, b),
        text_less(b, c),
    ensures
        text_less(a, c),
    decreases a.len(),
{
    if a.len() > 0 && a[0] == b[0] && b[0] == c[0] {
        lemma_text_less_transitive(a.drop_first(), b.drop_first(), c.drop_first());
    }
}

/// `text_less` is irreflexive.
pub proof fn lemma_text_less_irreflexive(a: Seq<char>)
    ensures
        !text_less(a, a),
    decreases a.len(),
{
    if a.len() > 0 {
        lemma_text_less_irreflexive(a.drop_first());
    }
}

/// The words of `v` stand in the order of their characters.
pub open spec fn words_sorted(v: Seq<String>) -> bool {
    forall|i: int, j: int| 0 <= i < j < v.len() ==> text_less(v[i]@, v[j]@)
}

/// Sorts a list of different words into the order of their characters.
pub fn sort_words(words: &Vec<String>) -> (r: Vec<String>)
    requires
        no_dup_words(words@),
    ensures
        words_sorted(r@),
        no_dup_words(r@),
        word_set(r@) == word_set(words@),
        r@.len() == words@.len(),
{
    let mut sorted: Vec<String> = Vec::new();
    let mut k: usize = 0;
    while k < words.len()
        invariant
            no_dup_words(words@),
            k <= words@.len(),
            sorted@.len() == k,
            words_sorted(sorted@),
            forall|w: Seq<char>| #[trigger] word_set(sorted@).contains(w) <==> exists|i: int|
                0 <= i < k && #[trigger] words@[i]@ == w,
        decreases words.len() - k,
    {
        let x = words[k].clone();
        let ghost xv = x@;
        proof {
            assert forall|i: int| 0 <= i < sorted@.len() implies sorted@[i]@ != xv by {
                assert(word_set(sorted@).contains(sorted@[i]@));
                let j = choose|j: int| 0 <= j < k && #[trigger] words@[j]@ == sorted@[i]@;
            }
        }
        let mut p: usize = 0;
        while p < sorted.len() && !str_less(x.as_str(), sorted[p].as_str())
            invariant
                p <= sorted@.len(),
                forall|i: int| 0 <= i < p ==> text_less(#[trigger] sorted@[i]@, xv),
                forall|i: int| 0 <= i < sorted@.len() ==> sorted@[i]@ != xv,
                x@ == xv,
            decreases sorted.len() - p,
        {
            proof {
                lemma_text_less_total(sorted@[p as int]@, xv);
            }
            p += 1;
        }
        let ghost before = sorted@;
        sorted.insert(p, x);
        proof {
            assert forall|i: int, j: int| 0 <= i < j < sorted@.len() implies text_less(
                sorted@[i]@,
                sorted@[j]@,
            ) by {
                if j < p {
                    assert(sorted@[i] == before[i] && sorted@[j] == before[j]);
                } else if j == p {
                    assert(sorted@[i] == before[i]);
                } else if i == p {
                    assert(sorted@[j] == before[j - 1]);
                    if j - 1 > p {
                        assert(text_less(before[p as int]@, before[j - 1]@));
                        lemma_text_less_transitive(xv, before[p as int]@, before[j - 1]@);
                    }
                } else if i < p {
                    assert(sorted@[i] == before[i] && sorted@[j] == before[j - 1]);
                    if j - 1 >= p {
                        assert(text_less(before[i]@, xv));
                        if j - 1 == p as int {
                            lemma_text_less_transitive(before[i]@, xv, before[j - 1]@);
                        } else {
                            assert(text_less(before[i]@, before[j - 1]@));
                        }
                    }
                } else {
                    assert(sorted@[i] == before[i - 1] && sorted@[j] == before[j - 1]);
                }
            }
            assert forall|w: Seq<char>| #[trigger] word_set(sorted@).contains(w) <==> exists|i: int|
                0 <= i < k + 1 && #[trigger] words@[i]@ == w by {
                if word_set(sorted@).contains(w) {
                    let j = choose|j: int| 0 <= j < sorted@.len() && #[trigger] sorted@[j]@ == w;
                    if j < p {
                        assert(word_set(before).contains(before[j]@));
                    } else if j > p {
                        assert(word_set(before).contains(before[j - 1]@));
                    } else {
                        assert(words@[k as int]@ == w);
                    }
                }
                if exists|i: int| 0 <= i < k + 1 && #[trigger] words@[i]@ == w {
                    let i = choose|i: int| 0 <= i < k + 1 && #[trigger] words@[i]@ == w;
                    if i < k {
                        assert(word_set(before).contains(w));
                        let j = choose|j: int| 0 <= j < before.len() && #[trigger] before[j]@ == w;
                        if j < p {
                            assert(sorted@[j] == before[j]);
                        } else {
                            assert(sorted@[j + 1] == before[j]);
                        }
                    } else {
                        assert(sorted@[p as int]@ == w);
                    }
                }
            }
        }
        k += 1;
    }
    proof {
        assert forall|w: Seq<char>| #[trigger] word_set(sorted@).contains(w) == word_set(words@).contains(w) by {
        }
        assert(word_set(sorted@) =~= word_set(words@));
        assert forall|a: int, b: int| 0 <= a < b < sorted@.len() implies sorted@[a]@ != sorted@[b]@ by {
            if sorted@[a]@ == sorted@[b]@ {
                lemma_text_less_irreflexive(sorted@[a]@);
            }
        }
    }
    sorted
}

/// The numbers of `v` stand in increasing order, each once.
pub open spec fn strictly_increasing(v: Seq<usize>) -> bool {
    forall|i: int, j: int| 0 <= i < j < v.len() ==> v[i] < v[j]
}

/// Sorts a list of different numbers into increasing order.
pub fn sort_numbers(numbers: &Vec<usize>) -> (r: Vec<usize>)
    requires
        forall|a: int, b: int| 0 <= a < b < numbers@.len() ==> numbers@[a] != numbers@[b],
    ensures
        strictly_increasing(r@),
        forall|n: usize| r@.contains(n) <==> numbers@.contains(n),
{
    let mut sorted: Vec<usize> = Vec::new();
    let mut k: usize = 0;
    while k < numbers.len()
        invariant
            forall|a: int, b: int| 0 <= a < b < numbers@.len() ==> numbers@[a] != numbers@[b],
            k <= numbers@.len(),
            strictly_increasing(sorted@),
            forall|n: usize| sorted@.contains(n) <==> exists|i: int| 0 <= i < k && numbers@[i] == n,
        decreases numbers.len() - k,
    {
        let x = numbers[k];
        let mut p: usize = 0;
        while p < sorted.len() && sorted[p] < x
            invariant
                p <= sorted@.len(),
                forall|i: int| 0 <= i < p ==> sorted@[i] < x,
            decreases sorted.len() - p,
        {
            p += 1;
        }
        let ghost before = sorted@;
        proof {
            if p < sorted@.len() {
                assert(sorted@[p as int] != x) by {
                    if sorted@[p as int] == x {
                        assert(before.contains(x));
                        let i = choose|i: int| 0 <= i < k && numbers@[i] == x;
                        assert(numbers@[i] == numbers@[k as int]);
                    }
                }
            }
        }
        sorted.insert(p, x);
        proof {
            assert forall|i: int, j: int| 0 <= i < j < sorted@.len() implies sorted@[i] < sorted@[j] by {
                if j < p {
                    assert(sorted@[i] == before[i] && sorted@[j] == before[j]);
                } else if j == p {
                    assert(sorted@[i] == before[i]);
                } else if i == p {
                    assert(sorted@[j] == before[j - 1]);
                } else if i < p {
                    assert(sorted@[i] == before[i] && sorted@[j] == before[j - 1]);
                } else {
                    assert(sorted@[i] == before[i - 1] && sorted@[j] == before[j - 1]);
                }
            }
            assert forall|n: usize| sorted@.contains(n) <==> exists|i: int| 0 <= i < k + 1 && numbers@[i] == n by {
                if sorted@.contains(n) {
                    let j = choose|j: int| 0 <= j < sorted@.len() && sorted@[j] == n;
                    if j < p {
                        assert(before.contains(before[j]));
                    } else if j > p {
                        assert(before.contains(before[j - 1]));
                    } else {
                        assert(numbers@[k as int] == n);
                    }
                }
                if exists|i: int| 0 <= i < k + 1 && numbers@[i] == n {
                    let i = choose|i: int| 0 <= i < k + 1 && numbers@[i] == n;
                    if i < k {
                        assert(before.contains(n));
                        let j = choose|j: int| 0 <= j < before.len() && before[j] == n;
                        if j < p {
                            assert(sorted@[j] == before[j]);
                        } else {
                            assert(sorted@[j + 1] == before[j]);
                        }
                    } else {
                        assert(sorted@[p as int] == n);
                    }
                }
            }
        }
        k += 1;
    }
    sorted
}

} // verus!
