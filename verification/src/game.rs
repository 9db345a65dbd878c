//! Puzzle generation and scoring: from a word list and a seed (or entropy),
//! draw a seed pangram, derive the seven-letter configuration, compute the
//! exact solution set, and score validated guesses.

use vstd::prelude::*;
use crate::letters::{is_lower, is_wordlike, letter_set, contains_char};
use crate::wordlist::{is_seed_word, Wordlist};
use crate::rng::{pick_of, shuffle_of, seeded_pick, seeded_shuffle, entropy_seed};

verus! {

/// A word is a solution for a configuration iff it holds the center letter
/// and every one of its characters is the center or a radial letter.
pub open spec fn word_fits(w: Seq<char>, center: char, radials: Seq<char>) -> bool {
    w.contains(center) && forall|i: int|
        0 <= i < w.len() ==> (#[trigger] w[i]) == center || radials.contains(w[i])
}

/// A word is a pangram for a configuration iff it uses the center letter and
/// every radial letter at least once.
pub open spec fn is_pangram_word(w: Seq<char>, center: char, radials: Seq<char>) -> bool {
    w.contains(center) && forall|i: int|
        0 <= i < radials.len() ==> w.contains(#[trigger] radials[i])
}

/// The radial letters derived from a seed pangram: its distinct characters
/// other than the center, each at its first occurrence.
pub open spec fn radials_of(p: Seq<char>, center: char) -> Seq<char>
    decreases p.len(),
{
    if p.len() == 0 {
        Seq::empty()
    } else {
        let pre = radials_of(p.drop_last(), center);
        if p.last() != center && !pre.contains(p.last()) {
            pre.push(p.last())
        } else {
            pre
        }
    }
}

/// `radials_of` holds exactly the non-center characters of `p`, without
/// duplicates.
pub proof fn lemma_radials_of(p: Seq<char>, center: char)
    ensures
        radials_of(p, center).no_duplicates(),
        forall|c: char| radials_of(p, center).contains(c) <==> p.contains(c) && c != center,
        radials_of(p, center).to_set() =~= letter_set(p).remove(center),
    decreases p.len(),
{
    if p.len() == 0 {
        assert(forall|c: char| !p.contains(c));
    } else {
        let pre = radials_of(p.drop_last(), center);
        lemma_radials_of(p.drop_last(), center);
        assert forall|c: char| radials_of(p, center).contains(c) <==> p.contains(c) && c
            != center by {
            if radials_of(p, center).contains(c) {
                if pre.contains(c) {
                    assert(p.drop_last().contains(c));
                    let i = choose|i: int|
                        0 <= i < p.drop_last().len() && p.drop_last()[i] == c;
                    assert(p[i] == c);
                } else {
                    assert(c == p.last());
                    assert(p[p.len() - 1] == c);
                }
            }
            if p.contains(c) && c != center {
                let i = choose|i: int| 0 <= i < p.len() && p[i] == c;
                if i < p.len() - 1 {
                    assert(p.drop_last()[i] == c);
                    assert(p.drop_last().contains(c));
                    assert(pre.contains(c));
                    let j = choose|j: int| 0 <= j < pre.len() && pre[j] == c;
                    assert(radials_of(p, center)[j] == c);
                } else {
                    assert(p.last() == c);
                    if pre.contains(c) {
                    } else {
                        assert(radials_of(p, center)[pre.len() as int] == c);
                    }
                }
            }
        }
    }
}

/// The solutions that a scan of `ws` yields for a configuration: every word
/// that fits, in order of first occurrence, each value kept once.
pub open spec fn solutions_of(ws: Seq<Seq<char>>, center: char, radials: Seq<char>) -> Seq<
    Seq<char>,
>
    decreases ws.len(),
{
    if ws.len() == 0 {
        Seq::empty()
    } else {
        let pre = solutions_of(ws.drop_last(), center, radials);
        if word_fits(ws.last(), center, radials) && !pre.contains(ws.last()) {
            pre.push(ws.last())
        } else {
            pre
        }
    }
}

/// Solution completeness: a word is in `solutions_of(ws, ...)` iff it occurs
/// in `ws` and fits the configuration; and no solution is listed twice.
pub proof fn lemma_solutions_of(ws: Seq<Seq<char>>, center: char, radials: Seq<char>)
    ensures
        solutions_of(ws, center, radials).no_duplicates(),
        forall|w: Seq<char>|
            solutions_of(ws, center, radials).contains(w) <==> ws.contains(w) && word_fits(
                w,
                center,
                radials,
            ),
    decreases ws.len(),
{
    if ws.len() == 0 {
        assert(forall|w: Seq<char>| !ws.contains(w));
    } else {
        let pre = solutions_of(ws.drop_last(), center, radials);
        lemma_solutions_of(ws.drop_last(), center, radials);
        assert forall|w: Seq<char>|
            solutions_of(ws, center, radials).contains(w) <==> ws.contains(w) && word_fits(
                w,
                center,
                radials,
            ) by {
            if solutions_of(ws, center, radials).contains(w) {
                if pre.contains(w) {
                    assert(ws.drop_last().contains(w));
                    let i = choose|i: int|
                        0 <= i < ws.drop_last().len() && ws.drop_last()[i] == w;
                    assert(ws[i] == w);
                } else {
                    assert(w == ws.last());
                    assert(ws[ws.len() - 1] == w);
                }
            }
            if ws.contains(w) && word_fits(w, center, radials) {
                let i = choose|i: int| 0 <= i < ws.len() && ws[i] == w;
                if i < ws.len() - 1 {
                    assert(ws.drop_last()[i] == w);
                    assert(ws.drop_last().contains(w));
                    assert(pre.contains(w));
                    let j = choose|j: int| 0 <= j < pre.len() && pre[j] == w;
                    assert(solutions_of(ws, center, radials)[j] == w);
                } else {
                    assert(ws.last() == w);
                    if pre.contains(w) {
                    } else {
                        assert(solutions_of(ws, center, radials)[pre.len() as int] == w);
                    }
                }
            }
        }
    }
}

/// The mathematical content of a generated puzzle.
pub ghost struct GameModel {
    pub center: char,
    pub radials: Seq<char>,
    pub solutions: Seq<Seq<char>>,
}

impl GameModel {
    /// Well-formedness of a generated puzzle: a lowercase center letter, six
    /// distinct lowercase radial letters none of which is the center,
    /// solutions that all fit the configuration without repetition, and at
    /// least one pangram among them.
    pub open spec fn wf(self) -> bool {
        &&& is_lower(self.center)
        &&& self.radials.len() == 6
        &&& self.radials.no_duplicates()
        &&& forall|i: int|
            0 <= i < self.radials.len() ==> is_lower(#[trigger] self.radials[i])
                && self.radials[i] != self.center
        &&& self.solutions.no_duplicates()
        &&& forall|k: int|
            0 <= k < self.solutions.len() ==> is_wordlike(#[trigger] self.solutions[k])
                && word_fits(self.solutions[k], self.center, self.radials)
        &&& exists|k: int|
            0 <= k < self.solutions.len() && is_pangram_word(
                #[trigger] self.solutions[k],
                self.center,
                self.radials,
            )
    }
}

/// Why puzzle generation can fail.
#[derive(Clone, Copy, Debug, PartialEq, Eq, Structural)]
pub enum GenError {
    /// The word list holds no word with exactly seven distinct letters, so no
    /// puzzle can be built from it.
    EmptyPangramPool,
}

/// A generated puzzle: the letter configuration, with the radial letters in
/// the display order fixed at creation, and the full solution set.
pub struct Game {
    pub center_letter: char,
    pub radial_letters: Vec<char>,
    pub solutions: Vec<Vec<char>>,
}

impl View for Game {
    type V = GameModel;

    open spec fn view(&self) -> GameModel {
        GameModel {
            center: self.center_letter,
            radials: self.radial_letters@,
            solutions: self.solutions.deep_view(),
        }
    }
}

impl Game {
    /// Well-formedness of a generated puzzle, stated over its model.
    pub open spec fn wf(self) -> bool {
        self@.wf()
    }
}

/// The puzzle that a run seeded with `seed` builds from `wl`: a pure function
/// of the word list and the seed.
pub open spec fn spec_generate(wl: Wordlist, seed: u64) -> GameModel {
    let pool = wl.seven_letter_words@;
    let pos = pick_of(seed, pool.len() as usize) as int;
    let pangram = wl.words@[pool[pos] as int]@;
    let cpos = pick_of(seed ^ 1, pangram.len() as usize) as int;
    let center = pangram[cpos];
    let radials = shuffle_of(seed ^ 2, radials_of(pangram, center));
    GameModel {
        center: center,
        radials: radials,
        solutions: solutions_of(wl.words.deep_view(), center, radials),
    }
}

impl Wordlist {
    /// Generates one puzzle. With `Some(seed)` the result is a pure function
    /// of the word list and the seed, so a seeded run is reproducible; with
    /// `None` the seed is drawn from entropy. Fails, with
    /// `GenError::EmptyPangramPool`, exactly when no word of the list has
    /// seven distinct letters.
    pub fn gen_game(&self, seed: Option<u64>) -> (r: Result<Game, GenError>)
        requires
            self.wf(),
        ensures
            r is Err <==> self.seven_letter_words@.len() == 0,
            r matches Err(e) ==> e == GenError::EmptyPangramPool,
            r matches Ok(g) ==> g.wf() && g@.solutions == solutions_of(
                self.words.deep_view(),
                g@.center,
                g@.radials,
            ),
            r matches Ok(g) ==> exists|j: int|
                0 <= j < self.seven_letter_words@.len() && g@.solutions.contains(
                    #[trigger] self.words@[self.seven_letter_words@[j] as int]@,
                ),
            r matches Ok(g) ==> exists|s: u64| g@ == #[trigger] spec_generate(*self, s),
            match seed {
                Some(s) => self.seven_letter_words@.len() > 0 ==> (r matches Ok(g) && g@
                    == spec_generate(*self, s)),
                None => true,
            },
    {
        if self.seven_letter_words.len() == 0 {
            return Err(GenError::EmptyPangramPool);
        }
        let s = match seed {
            Some(inner) => inner,
            None => entropy_seed(),
        };
        Ok(self.gen_from(s))
    }

    /// One deterministic generation run from an already-fixed seed.
    fn gen_from(&self, s: u64) -> (g: Game)
        requires
            self.wf(),
            self.seven_letter_words@.len() > 0,
        ensures
            g@ == spec_generate(*self, s),
            g.wf(),
            g@.solutions == solutions_of(self.words.deep_view(), g@.center, g@.radials),
            exists|j: int|
                0 <= j < self.seven_letter_words@.len() && g@.solutions.contains(
                    #[trigger] self.words@[self.seven_letter_words@[j] as int]@,
                ),
    {
        let pool_n = self.seven_letter_words.len();
        let pos = seeded_pick(s, pool_n);
        let widx = self.seven_letter_words[pos];
        let pangram = clone_word(&self.words[widx]);
        let ghost p = pangram@;
        proof {
            assert(is_seed_word(p));
            assert(is_wordlike(p));
        }
        let m = pangram.len();
        let cpos = seeded_pick(s ^ 1, m);
        let center = pangram[cpos];
        let mut radials = compute_radials(&pangram, center);
        let ghost base = radials@;
        seeded_shuffle(s ^ 2, &mut radials);
        proof {
            broadcast use vstd::seq_lib::group_to_multiset_ensures;

            lemma_radials_of(p, center);
            base.lemma_multiset_has_no_duplicates();
            radials@.lemma_multiset_has_no_duplicates_conv();
            assert(radials@.no_duplicates());
            assert forall|c: char| radials@.contains(c) <==> base.contains(c) by {
                assert(radials@.contains(c) <==> radials@.to_multiset().count(c) > 0);
                assert(base.contains(c) <==> base.to_multiset().count(c) > 0);
            }
            // the radial letters count six: the seven distinct letters of the
            // seed pangram, less the center
            assert(letter_set(p).contains(center)) by {
                assert(p[cpos as int] == center);
            }
            assert(letter_set(p).finite()) by {
                broadcast use vstd::seq_lib::seq_to_set_is_finite;

            }
            vstd::set::axiom_set_remove_len(letter_set(p), center);
            assert(base.to_set().len() == 6);
            base.unique_seq_to_set();
            assert(base.len() == 6);
            assert(radials@.len() == radials@.to_multiset().len());
            assert(base.len() == base.to_multiset().len());
            assert(radials@.len() == 6);
        }
        let solutions = compute_solutions(&self.words, center, &radials);
        let g = Game { center_letter: center, radial_letters: radials, solutions };
        proof {
            let wsv = self.words.deep_view();
            lemma_solutions_of(wsv, center, g@.radials);
            // the seed pangram fits its own configuration, so it is a solution
            assert(word_fits(p, center, g@.radials)) by {
                assert(p.contains(center)) by {
                    assert(p[cpos as int] == center);
                }
                assert forall|i: int| 0 <= i < p.len() implies (#[trigger] p[i]) == center
                    || g@.radials.contains(p[i]) by {
                    if p[i] != center {
                        assert(p.contains(p[i]));
                        assert(base.contains(p[i]));
                    }
                }
            }
            assert(wsv.contains(p)) by {
                assert(wsv[widx as int] == p);
            }
            assert(g@.solutions.contains(p));
            // and it is a pangram: it uses every radial letter
            assert(is_pangram_word(p, center, g@.radials)) by {
                assert forall|i: int| 0 <= i < g@.radials.len() implies p.contains(
                    #[trigger] g@.radials[i],
                ) by {
                    assert(g@.radials.contains(g@.radials[i]));
                    assert(base.contains(g@.radials[i]));
                }
            }
            // well-formedness of the result
            assert forall|i: int| 0 <= i < g@.radials.len() implies is_lower(
                #[trigger] g@.radials[i],
            ) && g@.radials[i] != center by {
                assert(g@.radials.contains(g@.radials[i]));
                assert(base.contains(g@.radials[i]));
                assert(p.contains(g@.radials[i]));
                let k = choose|k: int| 0 <= k < p.len() && p[k] == g@.radials[i];
                assert(is_lower(p[k]));
            }
            assert forall|k: int| 0 <= k < g@.solutions.len() implies is_wordlike(
                #[trigger] g@.solutions[k],
            ) && word_fits(g@.solutions[k], center, g@.radials) by {
                assert(g@.solutions.contains(g@.solutions[k]));
                assert(wsv.contains(g@.solutions[k]));
                let j = choose|j: int| 0 <= j < wsv.len() && wsv[j] == g@.solutions[k];
                assert(is_wordlike(self.words@[j]@));
            }
            // a witness that some solution is a pangram
            let kp = choose|k: int| 0 <= k < g@.solutions.len() && g@.solutions[k] == p;
            assert(is_pangram_word(g@.solutions[kp], center, g@.radials));
            assert(is_lower(center)) by {
                assert(is_lower(p[cpos as int]));
            }
            assert(g.wf());
            // the result is exactly the seeded specification
            assert(g@ == spec_generate(*self, s));
            assert(g@.solutions.contains(self.words@[self.seven_letter_words@[pos as int] as int]@));
        }
        g
    }
}

/// Generation determinism: a seeded run is a pure function of the word list
/// and the seed, so two runs with the same inputs build the same puzzle.
pub proof fn lemma_generation_deterministic(wl: Wordlist, seed: u64, m1: GameModel, m2: GameModel)
    requires
        m1 == spec_generate(wl, seed),
        m2 == spec_generate(wl, seed),
    ensures
        m1 == m2,
{
}

/// A word that the solutions list without duplicates -- in particular the
/// seed pangram of a generated puzzle -- occurs in them exactly once.
pub proof fn lemma_listed_once(sols: Seq<Seq<char>>, w: Seq<char>)
    requires
        sols.no_duplicates(),
        sols.contains(w),
    ensures
        sols.to_multiset().count(w) == 1,
{
    broadcast use vstd::seq_lib::group_to_multiset_ensures;

    sols.lemma_multiset_has_no_duplicates();
}

impl Game {
    /// The score of a validated guess: one point per letter, and seven more
    /// if the guess is a pangram.
    pub fn score(&self, guess: &Vec<char>) -> (points: usize)
        requires
            guess@.len() + 7 <= usize::MAX,
        ensures
            points == guess@.len() + (if is_pangram_word(guess@, self@.center, self@.radials) {
                7int
            } else {
                0int
            }),
    {
        let base = guess.len();
        if is_pangram_exec(guess, self.center_letter, &self.radial_letters) {
            base + 7
        } else {
            base
        }
    }
}

/// Whether `w` uses the center letter and every radial letter at least once.
pub fn is_pangram_exec(w: &Vec<char>, center: char, radials: &Vec<char>) -> (r: bool)
    ensures
        r == is_pangram_word(w@, center, radials@),
{
    if !contains_char(w, center) {
        return false;
    }
    let n = radials.len();
    for i in 0..n
        invariant
            n == radials@.len(),
            w@.contains(center),
            forall|j: int| 0 <= j < i ==> w@.contains(#[trigger] radials@[j]),
    {
        if !contains_char(w, radials[i]) {
            return false;
        }
    }
    true
}

/// Whether `w` fits the configuration: holds the center letter, and every
/// character is the center or a radial letter.
pub fn word_fits_exec(w: &Vec<char>, center: char, radials: &Vec<char>) -> (r: bool)
    ensures
        r == word_fits(w@, center, radials@),
{
    if !contains_char(w, center) {
        return false;
    }
    let n = w.len();
    for i in 0..n
        invariant
            n == w@.len(),
            w@.contains(center),
            forall|j: int| 0 <= j < i ==> (#[trigger] w@[j]) == center || radials@.contains(w@[j]),
    {
        let c = w[i];
        if c != center && !contains_char(radials, c) {
            return false;
        }
    }
    true
}

/// The radial letters of a seed pangram, in first-occurrence order.
fn compute_radials(p: &Vec<char>, center: char) -> (r: Vec<char>)
    ensures
        r@ == radials_of(p@, center),
{
    let mut r: Vec<char> = Vec::new();
    let n = p.len();
    for i in 0..n
        invariant
            n == p@.len(),
            r@ == radials_of(p@.take(i as int), center),
    {
        let c = p[i];
        proof {
            assert(p@.take(i + 1).drop_last() =~= p@.take(i as int));
            assert(p@.take(i + 1).last() == c);
        }
        if c != center && !contains_char(&r, c) {
            r.push(c);
        }
    }
    proof {
        assert(p@.take(n as int) =~= p@);
    }
    r
}

/// The scan of the word list: every word that fits the configuration, in
/// order, each value kept once.
fn compute_solutions(words: &Vec<Vec<char>>, center: char, radials: &Vec<char>) -> (sols: Vec<
    Vec<char>,
>)
    ensures
        sols.deep_view() == solutions_of(words.deep_view(), center, radials@),
{
    let mut sols: Vec<Vec<char>> = Vec::new();
    let n = words.len();
    for i in 0..n
        invariant
            n == words@.len(),
            sols.deep_view() == solutions_of(words.deep_view().take(i as int), center, radials@),
    {
        let w = &words[i];
        let ghost pre = sols.deep_view();
        proof {
            assert(words.deep_view().take(i + 1).drop_last() =~= words.deep_view().take(i as int));
            assert(words.deep_view().take(i + 1).last() == words@[i as int]@);
        }
        if word_fits_exec(w, center, radials) && !contains_word(&sols, w) {
            let wc = clone_word(w);
            sols.push(wc);
            proof {
                assert(sols.deep_view() =~~= pre.push(words@[i as int]@));
            }
        }
    }
    proof {
        assert(words.deep_view().take(n as int) =~= words.deep_view());
    }
    sols
}

/// Whether `sols` already holds the word `w`.
fn contains_word(sols: &Vec<Vec<char>>, w: &Vec<char>) -> (r: bool)
    ensures
        r == sols.deep_view().contains(w@),
{
    let n = sols.len();
    for i in 0..n
        invariant
            n == sols@.len(),
            forall|j: int| 0 <= j < i ==> sols.deep_view()[j] != w@,
    {
        let hit = word_eq(&sols[i], w);
        proof {
            assert(sols.deep_view()[i as int] =~= sols@[i as int]@);
        }
        if hit {
            return true;
        }
    }
    false
}

/// Whether two words are equal, character for character.
fn word_eq(a: &Vec<char>, b: &Vec<char>) -> (r: bool)
    ensures
        r == (a@ == b@),
{
    if a.len() != b.len() {
        return false;
    }
    let n = a.len();
    for i in 0..n
        invariant
            n == a@.len(),
            n == b@.len(),
            forall|j: int| 0 <= j < i ==> a@[j] == b@[j],
    {
        if a[i] != b[i] {
            return false;
        }
    }
    proof {
        assert(a@ =~= b@);
    }
    true
}

/// A copy of a word.
fn clone_word(w: &Vec<char>) -> (r: Vec<char>)
    ensures
        r@ == w@,
{
    let mut r: Vec<char> = Vec::new();
    let n = w.len();
    for i in 0..n
        invariant
            n == w@.len(),
            r@ == w@.take(i as int),
    {
        r.push(w[i]);
        proof {
            assert(w@.take(i + 1) =~= w@.take(i as int).push(w@[i as int]));
        }
    }
    proof {
        assert(w@.take(n as int) =~= w@);
    }
    r
}

} // verus!
