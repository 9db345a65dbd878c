//! The word list: dictionary lines filtered down to candidate words, with an
//! index of the words that can seed a puzzle (exactly seven distinct letters).

use vstd::prelude::*;
use vstd::string::StrSliceExecFns;
use crate::letters::{
    is_lower, is_wordlike, letter_set, collect_unique, contains_char, distinct_count,
    lemma_unique_letters, unique_letters,
};

verus! {

/// The dictionary lines that the filter keeps, in file order: pure lowercase
/// a-z and length at least four.
pub open spec fn kept_words(lines: Seq<Seq<char>>) -> Seq<Seq<char>>
    decreases lines.len(),
{
    if lines.len() == 0 {
        Seq::empty()
    } else {
        let pre = kept_words(lines.drop_last());
        if is_wordlike(lines.last()) {
            pre.push(lines.last())
        } else {
            pre
        }
    }
}

/// A kept word that can seed a puzzle: exactly seven distinct letters.
pub open spec fn is_seed_word(w: Seq<char>) -> bool {
    letter_set(w).len() == 7
}

/// The indices of the seed-eligible words, in order.
pub open spec fn seed_indices(ws: Seq<Seq<char>>) -> Seq<usize>
    decreases ws.len(),
{
    if ws.len() == 0 {
        Seq::empty()
    } else {
        let pre = seed_indices(ws.drop_last());
        if is_seed_word(ws.last()) {
            pre.push((ws.len() - 1) as usize)
        } else {
            pre
        }
    }
}

/// A line survives the filter if and only if it is pure lowercase a-z and has
/// length at least four; the kept words keep the file order and multiplicity.
pub proof fn lemma_filtering(lines: Seq<Seq<char>>, w: Seq<char>)
    ensures
        kept_words(lines).contains(w) <==> lines.contains(w) && is_wordlike(w),
    decreases lines.len(),
{
    if lines.len() == 0 {
    } else {
        let pre = kept_words(lines.drop_last());
        lemma_filtering(lines.drop_last(), w);
        if kept_words(lines).contains(w) {
            if pre.contains(w) {
                let i = choose|i: int|
                    0 <= i < lines.drop_last().len() && lines.drop_last()[i] == w;
                assert(lines[i] == w);
            } else {
                assert(w == lines.last());
                assert(lines[lines.len() - 1] == w);
            }
        }
        if lines.contains(w) && is_wordlike(w) {
            let i = choose|i: int| 0 <= i < lines.len() && lines[i] == w;
            if i < lines.len() - 1 {
                assert(lines.drop_last()[i] == w);
                assert(lines.drop_last().contains(w));
                let j = choose|j: int| 0 <= j < pre.len() && pre[j] == w;
                if is_wordlike(lines.last()) {
                    assert(pre.push(lines.last())[j] == w);
                }
            } else {
                assert(lines.last() == w);
                assert(kept_words(lines)[kept_words(lines).len() - 1] == w);
            }
        }
    }
}

/// Every entry of `seed_indices(ws)` is an index of a seed-eligible word, and
/// every seed-eligible word's index is an entry.
pub proof fn lemma_seed_indices(ws: Seq<Seq<char>>)
    requires
        ws.len() <= usize::MAX,
    ensures
        forall|k: int|
            0 <= k < seed_indices(ws).len() ==> (#[trigger] seed_indices(ws)[k]) < ws.len()
                && is_seed_word(ws[seed_indices(ws)[k] as int]),
        forall|j: int|
            0 <= j < ws.len() && is_seed_word(#[trigger] ws[j]) ==> seed_indices(ws).contains(
                j as usize,
            ),
    decreases ws.len(),
{
    if ws.len() == 0 {
    } else {
        let pre = seed_indices(ws.drop_last());
        lemma_seed_indices(ws.drop_last());
        assert forall|k: int|
            0 <= k < seed_indices(ws).len() implies (#[trigger] seed_indices(ws)[k]) < ws.len()
            && is_seed_word(ws[seed_indices(ws)[k] as int]) by {
            if k < pre.len() {
                assert(seed_indices(ws)[k] == pre[k]);
                assert(ws.drop_last()[pre[k] as int] == ws[pre[k] as int]);
            } else {
                assert(is_seed_word(ws.last()));
                assert(seed_indices(ws)[k] == (ws.len() - 1) as usize);
            }
        }
        assert forall|j: int|
            0 <= j < ws.len() && is_seed_word(#[trigger] ws[j]) implies seed_indices(ws).contains(
            j as usize,
        ) by {
            if j < ws.len() - 1 {
                assert(ws.drop_last()[j] == ws[j]);
                assert(pre.contains(j as usize));
                let k = choose|k: int| 0 <= k < pre.len() && pre[k] == j as usize;
                assert(seed_indices(ws)[k] == j as usize);
            } else {
                assert(is_seed_word(ws.last()));
                assert(seed_indices(ws)[seed_indices(ws).len() - 1] == j as usize);
            }
        }
    }
}

/// The filtered dictionary: candidate words in file order, and the indices of
/// the words that can seed a puzzle.
pub struct Wordlist {
    pub words: Vec<Vec<char>>,
    pub seven_letter_words: Vec<usize>,
}

impl Wordlist {
    /// Well-formedness: every word passed the filter, and
    /// `seven_letter_words` holds exactly the indices of the words with seven
    /// distinct letters.
    pub open spec fn wf(self) -> bool {
        &&& forall|i: int|
            0 <= i < self.words@.len() ==> is_wordlike(#[trigger] self.words@[i]@)
        &&& forall|k: int|
            0 <= k < self.seven_letter_words@.len() ==> (#[trigger] self.seven_letter_words@[k])
                < self.words@.len() && is_seed_word(
                self.words@[self.seven_letter_words@[k] as int]@,
            )
        &&& forall|j: int|
            0 <= j < self.words@.len() && is_seed_word(#[trigger] self.words@[j]@)
                ==> self.seven_letter_words@.contains(j as usize)
    }

    /// Builds the word list from raw dictionary lines: a line is kept iff it
    /// is pure lowercase a-z and at least four characters long; a kept word
    /// with exactly seven distinct letters is also recorded as seed-eligible.
    pub fn from_lines(lines: &Vec<String>) -> (r: Wordlist)
        ensures
            r.words.deep_view() == kept_words(lines.deep_view()),
            r.seven_letter_words@ == seed_indices(r.words.deep_view()),
            r.wf(),
    {
        let mut words: Vec<Vec<char>> = Vec::new();
        let mut pool: Vec<usize> = Vec::new();
        let n = lines.len();
        for i in 0..n
            invariant
                n == lines@.len(),
                words.deep_view() == kept_words(lines.deep_view().take(i as int)),
                pool@ == seed_indices(words.deep_view()),
        {
            let w = chars_of(&lines[i]);
            let ghost pre_words = words.deep_view();
            proof {
                assert(lines.deep_view().take(i + 1).drop_last() =~= lines.deep_view().take(
                    i as int,
                ));
                assert(lines.deep_view().take(i + 1).last() == lines@[i as int]@);
            }
            if is_wordlike_exec(&w) {
                if distinct_count(&w) == 7 {
                    pool.push(words.len());
                }
                words.push(w);
                proof {
                    assert(words.deep_view() =~~= pre_words.push(lines@[i as int]@));
                    assert(words.deep_view().drop_last() =~= pre_words);
                }
            }
        }
        proof {
            assert(lines.deep_view().take(n as int) =~= lines.deep_view());
        }
        let wn = words.len();
        let r = Wordlist { words, seven_letter_words: pool };
        proof {
            assert(r.words.deep_view().len() == wn);
            lemma_seed_indices(r.words.deep_view());
            assert forall|i: int| 0 <= i < r.words@.len() implies is_wordlike(
                #[trigger] r.words@[i]@,
            ) by {
                lemma_kept_words_wordlike(lines.deep_view());
                assert(kept_words(lines.deep_view())[i] == r.words@[i]@);
            }
            assert forall|k: int|
                0 <= k < r.seven_letter_words@.len() implies (#[trigger] r.seven_letter_words@[k])
                < r.words@.len() && is_seed_word(
                r.words@[r.seven_letter_words@[k] as int]@,
            ) by {
                assert(seed_indices(r.words.deep_view())[k] == r.seven_letter_words@[k]);
                assert(r.words.deep_view()[r.seven_letter_words@[k] as int] == r.words@[r.seven_letter_words@[k] as int]@);
            }
            assert forall|j: int|
                0 <= j < r.words@.len() && is_seed_word(#[trigger] r.words@[j]@)
                implies r.seven_letter_words@.contains(j as usize) by {
                assert(r.words.deep_view()[j] == r.words@[j]@);
            }
        }
        r
    }
}

/// Every kept word satisfies the filter predicate.
pub proof fn lemma_kept_words_wordlike(lines: Seq<Seq<char>>)
    ensures
        forall|i: int|
            0 <= i < kept_words(lines).len() ==> is_wordlike(#[trigger] kept_words(lines)[i]),
    decreases lines.len(),
{
    if lines.len() == 0 {
    } else {
        lemma_kept_words_wordlike(lines.drop_last());
        let pre = kept_words(lines.drop_last());
        assert forall|i: int|
            0 <= i < kept_words(lines).len() implies is_wordlike(
            #[trigger] kept_words(lines)[i],
        ) by {
            if i < pre.len() {
                assert(kept_words(lines)[i] == pre[i]);
            }
        }
    }
}

/// The characters of `s`, in order, as a vector.
pub fn chars_of(s: &str) -> (v: Vec<char>)
    ensures
        v@ == s@,
{
    let n = s.unicode_len();
    let mut v: Vec<char> = Vec::new();
    for i in 0..n
        invariant
            n == s@.len(),
            v@ == s@.take(i as int),
    {
        let c = s.get_char(i);
        v.push(c);
        proof {
            assert(s@.take(i + 1) =~= s@.take(i as int).push(s@[i as int]));
        }
    }
    proof {
        assert(s@.take(n as int) =~= s@);
    }
    v
}

/// Whether `w` passes the dictionary filter.
pub fn is_wordlike_exec(w: &Vec<char>) -> (r: bool)
    ensures
        r == is_wordlike(w@),
{
    if w.len() < 4 {
        return false;
    }
    let n = w.len();
    for i in 0..n
        invariant
            n == w@.len(),
            n >= 4,
            forall|j: int| 0 <= j < i ==> is_lower(#[trigger] w@[j]),
    {
        let c = w[i];
        if c < 'a' || c > 'z' {
            return false;
        }
    }
    true
}

} // verus!
