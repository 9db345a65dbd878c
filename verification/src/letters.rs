//! Letters and words: the basic predicates on lowercase words and the
//! first-occurrence deduplication used to derive a puzzle's letter set.

use vstd::prelude::*;

verus! {

/// A character the dictionary filter accepts: lowercase ASCII a-z.
pub open spec fn is_lower(c: char) -> bool {
    'a' <= c && c <= 'z'
}

/// A line that survives the dictionary filter: only lowercase ASCII letters,
/// and at least four of them.
pub open spec fn is_wordlike(w: Seq<char>) -> bool {
    w.len() >= 4 && forall|i: int| 0 <= i < w.len() ==> is_lower(#[trigger] w[i])
}

/// The distinct characters of a word, as a set.
pub open spec fn letter_set(w: Seq<char>) -> Set<char> {
    w.to_set()
}

/// The distinct characters of `w`, each kept at its first occurrence.
pub open spec fn unique_letters(w: Seq<char>) -> Seq<char>
    decreases w.len(),
{
    if w.len() == 0 {
        Seq::empty()
    } else {
        let pre = unique_letters(w.drop_last());
        if pre.contains(w.last()) {
            pre
        } else {
            pre.push(w.last())
        }
    }
}

/// `unique_letters` keeps exactly the characters of `w`, without duplicates.
pub proof fn lemma_unique_letters(w: Seq<char>)
    ensures
        unique_letters(w).no_duplicates(),
        forall|c: char| unique_letters(w).contains(c) <==> w.contains(c),
        unique_letters(w).to_set() =~= w.to_set(),
    decreases w.len(),
{
    if w.len() == 0 {
        assert(forall|c: char| !w.contains(c));
    } else {
        let pre = unique_letters(w.drop_last());
        lemma_unique_letters(w.drop_last());
        assert forall|c: char| unique_letters(w).contains(c) <==> w.contains(c) by {
            if unique_letters(w).contains(c) {
                if pre.contains(c) {
                    assert(w.drop_last().contains(c));
                    let i = choose|i: int| 0 <= i < w.drop_last().len() && w.drop_last()[i] == c;
                    assert(w[i] == c);
                } else {
                    assert(c == w.last());
                    assert(w[w.len() - 1] == c);
                }
            }
            if w.contains(c) {
                let i = choose|i: int| 0 <= i < w.len() && w[i] == c;
                if i < w.len() - 1 {
                    assert(w.drop_last()[i] == c);
                    assert(w.drop_last().contains(c));
                    assert(pre.contains(c));
                    if !pre.contains(w.last()) {
                        assert(pre.push(w.last()).contains(c)) by {
                            assert(pre.push(w.last())[choose|j: int|
                                0 <= j < pre.len() && pre[j] == c] == c);
                        }
                    }
                } else {
                    assert(w.last() == c);
                    if pre.contains(c) {
                    } else {
                        assert(pre.push(c)[pre.len() as int] == c);
                    }
                }
            }
        }
    }
}

/// Number of distinct characters of `w`, computed by collecting each character
/// at its first occurrence.
pub fn distinct_count(w: &Vec<char>) -> (n: usize)
    ensures
        n == letter_set(w@).len(),
{
    let uniques = collect_unique(w);
    proof {
        lemma_unique_letters(w@);
        uniques@.unique_seq_to_set();
    }
    uniques.len()
}

/// The characters of `w` with duplicates dropped, each at its first occurrence.
pub fn collect_unique(w: &Vec<char>) -> (u: Vec<char>)
    ensures
        u@ == unique_letters(w@),
{
    let mut u: Vec<char> = Vec::new();
    let n = w.len();
    for i in 0..n
        invariant
            n == w@.len(),
            u@ == unique_letters(w@.take(i as int)),
    {
        let c = w[i];
        proof {
            assert(w@.take(i + 1).drop_last() =~= w@.take(i as int));
            assert(w@.take(i + 1).last() == c);
        }
        if !contains_char(&u, c) {
            u.push(c);
        }
    }
    proof {
        assert(w@.take(n as int) =~= w@);
    }
    u
}

/// Whether `v` holds the character `c`.
pub fn contains_char(v: &Vec<char>, c: char) -> (r: bool)
    ensures
        r == v@.contains(c),
{
    let n = v.len();
    for i in 0..n
        invariant
            n == v@.len(),
            forall|j: int| 0 <= j < i ==> v@[j] != c,
    {
        if v[i] == c {
            return true;
        }
    }
    false
}

} // verus!
