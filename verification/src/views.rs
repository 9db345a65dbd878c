//! Display views of a puzzle: the letter-by-length grid of solution counts
//! and the two-letter prefix index, each with an exact counting contract.

use vstd::prelude::*;
use crate::letters::is_lower;
use crate::game::{Game, GameModel, word_fits};

verus! {

/// The grid: one row per configuration letter, each row the solution counts
/// by word length, bucket `j` counting the words of length `j + 4`.
pub type Grid = Vec<(char, Vec<usize>)>;

/// How many solutions of length `l` start with the letter `c`.
pub open spec fn cell_count(sols: Seq<Seq<char>>, c: char, l: nat) -> nat
    decreases sols.len(),
{
    if sols.len() == 0 {
        0
    } else {
        cell_count(sols.drop_last(), c, l) + if sols.last().len() == l && sols.last()[0] == c {
            1nat
        } else {
            0nat
        }
    }
}

/// How many solutions start with the two characters `a`, `b`.
pub open spec fn prefix_count(sols: Seq<Seq<char>>, a: char, b: char) -> nat
    decreases sols.len(),
{
    if sols.len() == 0 {
        0
    } else {
        prefix_count(sols.drop_last(), a, b) + if sols.last().len() >= 2 && sols.last()[0] == a
            && sols.last()[1] == b {
            1nat
        } else {
            0nat
        }
    }
}

/// The length of the longest solution.
pub open spec fn max_word_len(sols: Seq<Seq<char>>) -> nat
    decreases sols.len(),
{
    if sols.len() == 0 {
        0
    } else {
        let m = max_word_len(sols.drop_last());
        if sols.last().len() > m {
            sols.last().len()
        } else {
            m
        }
    }
}

/// How many length buckets the grid has: lengths four through the longest
/// solution's length.
pub open spec fn grid_width(sols: Seq<Seq<char>>) -> nat {
    if max_word_len(sols) < 4 {
        0
    } else {
        (max_word_len(sols) - 3) as nat
    }
}

/// No solution is longer than `max_word_len`.
pub proof fn lemma_max_word_len(sols: Seq<Seq<char>>)
    ensures
        forall|i: int| 0 <= i < sols.len() ==> (#[trigger] sols[i]).len() <= max_word_len(sols),
    decreases sols.len(),
{
    if sols.len() > 0 {
        lemma_max_word_len(sols.drop_last());
        assert forall|i: int|
            0 <= i < sols.len() implies (#[trigger] sols[i]).len() <= max_word_len(sols) by {
            if i < sols.len() - 1 {
                assert(sols.drop_last()[i] == sols[i]);
            }
        }
    }
}

/// The sum of one grid row: the counts of one letter over all buckets.
pub open spec fn row_total(sols: Seq<Seq<char>>, c: char, k: nat) -> nat
    decreases k,
{
    if k == 0 {
        0
    } else {
        row_total(sols, c, (k - 1) as nat) + cell_count(sols, c, (k - 1 + 4) as nat)
    }
}

/// The sum of the whole grid over a sequence of row letters.
pub open spec fn grid_total(sols: Seq<Seq<char>>, letters: Seq<char>, k: nat) -> nat
    decreases letters.len(),
{
    if letters.len() == 0 {
        0
    } else {
        grid_total(sols, letters.drop_last(), k) + row_total(sols, letters.last(), k)
    }
}

proof fn lemma_row_total_empty(c: char, k: nat)
    ensures
        row_total(Seq::<Seq<char>>::empty(), c, k) == 0,
    decreases k,
{
    if k > 0 {
        lemma_row_total_empty(c, (k - 1) as nat);
    }
}

proof fn lemma_grid_total_empty(letters: Seq<char>, k: nat)
    ensures
        grid_total(Seq::<Seq<char>>::empty(), letters, k) == 0,
    decreases letters.len(),
{
    if letters.len() > 0 {
        lemma_grid_total_empty(letters.drop_last(), k);
        lemma_row_total_empty(letters.last(), k);
    }
}

/// Dropping the last solution lowers a row total by one exactly when that
/// solution's first letter is the row's and its length is in range.
proof fn lemma_row_total_step(sols: Seq<Seq<char>>, c: char, k: nat)
    requires
        sols.len() > 0,
    ensures
        row_total(sols, c, k) == row_total(sols.drop_last(), c, k) + if sols.last()[0] == c && 4
            <= sols.last().len() < k + 4 {
            1nat
        } else {
            0nat
        },
    decreases k,
{
    if k > 0 {
        lemma_row_total_step(sols, c, (k - 1) as nat);
    }
}

/// Dropping the last solution lowers the grid total by one exactly when its
/// first letter is a row letter and its length is in range; with distinct row
/// letters it is counted in at most one row.
proof fn lemma_grid_total_step(sols: Seq<Seq<char>>, letters: Seq<char>, k: nat)
    requires
        sols.len() > 0,
        letters.no_duplicates(),
    ensures
        grid_total(sols, letters, k) == grid_total(sols.drop_last(), letters, k) + if
            letters.contains(sols.last()[0]) && 4 <= sols.last().len() < k + 4 {
            1nat
        } else {
            0nat
        },
    decreases letters.len(),
{
    if letters.len() > 0 {
        let pre = letters.drop_last();
        let c = letters.last();
        lemma_grid_total_step(sols, pre, k);
        lemma_row_total_step(sols, c, k);
        let w0 = sols.last()[0];
        assert(letters.contains(w0) <==> pre.contains(w0) || c == w0) by {
            if letters.contains(w0) {
                let i = choose|i: int| 0 <= i < letters.len() && letters[i] == w0;
                if i < letters.len() - 1 {
                    assert(pre[i] == w0);
                }
            }
            if pre.contains(w0) {
                let i = choose|i: int| 0 <= i < pre.len() && pre[i] == w0;
                assert(letters[i] == w0);
            }
            if c == w0 {
                assert(letters[letters.len() - 1] == w0);
            }
        }
        if c == w0 {
            assert(!pre.contains(c)) by {
                if pre.contains(c) {
                    let i = choose|i: int| 0 <= i < pre.len() && pre[i] == c;
                    assert(letters[i] == letters[letters.len() - 1]);
                }
            }
        }
    } else {
        assert(!letters.contains(sols.last()[0]));
    }
}

/// The grid partitions the solutions: with distinct row letters, every
/// solution's first letter among them, and every solution's length in range,
/// the grid's counts sum to the number of solutions.
pub proof fn lemma_grid_partition(sols: Seq<Seq<char>>, letters: Seq<char>, k: nat)
    requires
        letters.no_duplicates(),
        forall|i: int| 0 <= i < sols.len() ==> 4 <= (#[trigger] sols[i]).len() < k + 4,
        forall|i: int| 0 <= i < sols.len() ==> letters.contains(#[trigger] sols[i][0]),
    ensures
        grid_total(sols, letters, k) == sols.len(),
    decreases sols.len(),
{
    if sols.len() == 0 {
        assert(sols =~= Seq::<Seq<char>>::empty());
        lemma_grid_total_empty(letters, k);
    } else {
        let pre = sols.drop_last();
        assert(forall|i: int| 0 <= i < pre.len() ==> pre[i] == sols[i]);
        lemma_grid_partition(pre, letters, k);
        lemma_grid_total_step(sols, letters, k);
        assert(sols[sols.len() - 1] == sols.last());
    }
}

/// The grid of a well-formed puzzle, rows keyed by the center letter and the
/// radial letters, partitions its solutions: the counts sum to the number of
/// solutions.
pub proof fn lemma_grid_partition_wf(m: GameModel)
    requires
        m.wf(),
    ensures
        grid_total(m.solutions, seq![m.center] + m.radials, grid_width(m.solutions))
            == m.solutions.len(),
{
    let letters = seq![m.center] + m.radials;
    let k = grid_width(m.solutions);
    assert(letters[0] == m.center);
    assert(forall|i: int| 0 <= i < m.radials.len() ==> letters[i + 1] == m.radials[i]);
    assert(letters.no_duplicates()) by {
        assert(forall|i: int, j: int|
            0 <= i < j < letters.len() ==> letters[i] != letters[j]) by {
            assert forall|i: int, j: int|
                0 <= i < j < letters.len() implies letters[i] != letters[j] by {
                if i == 0 {
                    assert(letters[j] == m.radials[j - 1]);
                } else {
                    assert(letters[i] == m.radials[i - 1]);
                    assert(letters[j] == m.radials[j - 1]);
                }
            }
        }
    }
    lemma_max_word_len(m.solutions);
    assert forall|i: int| 0 <= i < m.solutions.len() implies 4 <= (
    #[trigger] m.solutions[i]).len() < k + 4 by {
        assert(m.solutions[i].len() <= max_word_len(m.solutions));
        assert(m.solutions[i].len() >= 4);
    }
    assert forall|i: int| 0 <= i < m.solutions.len() implies letters.contains(
        #[trigger] m.solutions[i][0],
    ) by {
        assert(word_fits(m.solutions[i], m.center, m.radials));
        assert(m.solutions[i].len() > 0);
        let c0 = m.solutions[i][0];
        if c0 == m.center {
            assert(letters[0] == c0);
        } else {
            assert(m.radials.contains(c0));
            let j = choose|j: int| 0 <= j < m.radials.len() && m.radials[j] == c0;
            assert(letters[j + 1] == c0);
        }
    }
    lemma_grid_partition(m.solutions, letters, k);
}


impl Game {
    /// The grid view: one row per configuration letter (the center letter
    /// first, then the radial letters in display order), each row holding,
    /// for every length from four up to the longest solution, how many
    /// solutions of that length start with the row's letter.
    pub fn grid(&self) -> (g: Grid)
        requires
            forall|i: int|
                0 <= i < self@.solutions.len() ==> (#[trigger] self@.solutions[i]).len() >= 4,
        ensures
            g@.len() == 1 + self@.radials.len(),
            g@[0].0 == self@.center,
            forall|i: int| 0 <= i < self@.radials.len() ==> g@[i + 1].0 == self@.radials[i],
            forall|i: int|
                0 <= i < g@.len() ==> (#[trigger] g@[i].1)@.len() == grid_width(self@.solutions),
            forall|i: int, j: int|
                0 <= i < g@.len() && 0 <= j < grid_width(self@.solutions) ==> (#[trigger] g@[i].1@[j])
                    == cell_count(self@.solutions, g@[i].0, (j + 4) as nat),
    {
        proof {
            assert(self@.solutions == self.solutions.deep_view());
        }
        let k = grid_width_exec(&self.solutions);
        let mut g: Grid = Vec::new();
        let row0 = build_row(&self.solutions, self.center_letter, k);
        g.push((self.center_letter, row0));
        let rn = self.radial_letters.len();
        for i in 0..rn
            invariant
                rn == self.radial_letters@.len(),
                k == grid_width(self.solutions.deep_view()),
                k <= usize::MAX - 3,
                forall|t: int|
                    0 <= t < self.solutions.deep_view().len() ==> (#[trigger] self.solutions.deep_view()[t]).len() >= 4,
                g@.len() == 1 + i,
                g@[0].0 == self.center_letter,
                forall|t: int| 0 <= t < i ==> g@[t + 1].0 == self.radial_letters@[t],
                forall|t: int| 0 <= t < g@.len() ==> (#[trigger] g@[t].1)@.len() == k,
                forall|t: int, j: int|
                    0 <= t < g@.len() && 0 <= j < k ==> (#[trigger] g@[t].1@[j]) == cell_count(
                        self.solutions.deep_view(),
                        g@[t].0,
                        (j + 4) as nat,
                    ),
        {
            proof {
                assert(self@.solutions == self.solutions.deep_view());
            }
            let c = self.radial_letters[i];
            let row = build_row(&self.solutions, c, k);
            g.push((c, row));
        }
        g
    }
}

/// The number of length buckets the grid of `sols` needs.
fn grid_width_exec(sols: &Vec<Vec<char>>) -> (k: usize)
    ensures
        k == grid_width(sols.deep_view()),
        k <= usize::MAX - 3,
{
    let mut m: usize = 0;
    let n = sols.len();
    for i in 0..n
        invariant
            n == sols@.len(),
            m == max_word_len(sols.deep_view().take(i as int)),
    {
        let l = sols[i].len();
        proof {
            assert(sols.deep_view().take(i + 1).drop_last() =~= sols.deep_view().take(i as int));
            assert(sols.deep_view().take(i + 1).last() =~= sols@[i as int]@);
        }
        if l > m {
            m = l;
        }
    }
    proof {
        assert(sols.deep_view().take(n as int) =~= sols.deep_view());
    }
    if m < 4 {
        0
    } else {
        m - 3
    }
}

/// One grid row: the counts for letter `c` over every length bucket.
fn build_row(sols: &Vec<Vec<char>>, c: char, k: usize) -> (row: Vec<usize>)
    requires
        forall|i: int|
            0 <= i < sols.deep_view().len() ==> (#[trigger] sols.deep_view()[i]).len() >= 1,
        k <= usize::MAX - 3,
    ensures
        row@.len() == k,
        forall|j: int|
            0 <= j < k ==> (#[trigger] row@[j]) == cell_count(sols.deep_view(), c, (j + 4) as nat),
{
    let mut row: Vec<usize> = Vec::new();
    for j in 0..k
        invariant
            k <= usize::MAX - 3,
            forall|t: int|
                0 <= t < sols.deep_view().len() ==> (#[trigger] sols.deep_view()[t]).len() >= 1,
            row@.len() == j,
            forall|t: int|
                0 <= t < j ==> (#[trigger] row@[t]) == cell_count(
                    sols.deep_view(),
                    c,
                    (t + 4) as nat,
                ),
    {
        let cnt = count_cell(sols, c, j + 4);
        row.push(cnt);
    }
    row
}

/// How many solutions have length `l` and start with `c`.
fn count_cell(sols: &Vec<Vec<char>>, c: char, l: usize) -> (n: usize)
    requires
        forall|i: int|
            0 <= i < sols.deep_view().len() ==> (#[trigger] sols.deep_view()[i]).len() >= 1,
    ensures
        n == cell_count(sols.deep_view(), c, l as nat),
{
    let mut n: usize = 0;
    let total = sols.len();
    for i in 0..total
        invariant
            total == sols@.len(),
            forall|t: int|
                0 <= t < sols.deep_view().len() ==> (#[trigger] sols.deep_view()[t]).len() >= 1,
            n == cell_count(sols.deep_view().take(i as int), c, l as nat),
            n <= i,
    {
        proof {
            assert(sols.deep_view().take(i + 1).drop_last() =~= sols.deep_view().take(i as int));
            assert(sols.deep_view().take(i + 1).last() =~= sols@[i as int]@);
            assert(sols.deep_view()[i as int].len() == sols@[i as int]@.len());
        }
        let w = &sols[i];
        if w.len() == l && w[0] == c {
            n = n + 1;
        }
    }
    proof {
        assert(sols.deep_view().take(total as int) =~= sols.deep_view());
    }
    n
}

/// How many solutions start with the two characters `a`, `b`.
fn count_prefix(sols: &Vec<Vec<char>>, a: char, b: char) -> (n: usize)
    requires
        forall|i: int|
            0 <= i < sols.deep_view().len() ==> (#[trigger] sols.deep_view()[i]).len() >= 2,
    ensures
        n == prefix_count(sols.deep_view(), a, b),
{
    let mut n: usize = 0;
    let total = sols.len();
    for i in 0..total
        invariant
            total == sols@.len(),
            forall|t: int|
                0 <= t < sols.deep_view().len() ==> (#[trigger] sols.deep_view()[t]).len() >= 2,
            n == prefix_count(sols.deep_view().take(i as int), a, b),
            n <= i,
    {
        proof {
            assert(sols.deep_view().take(i + 1).drop_last() =~= sols.deep_view().take(i as int));
            assert(sols.deep_view().take(i + 1).last() =~= sols@[i as int]@);
            assert(sols.deep_view()[i as int].len() == sols@[i as int]@.len());
        }
        let w = &sols[i];
        if w.len() >= 2 && w[0] == a && w[1] == b {
            n = n + 1;
        }
    }
    proof {
        assert(sols.deep_view().take(total as int) =~= sols.deep_view());
    }
    n
}

/// Lexicographic order on two-letter prefixes.
pub open spec fn prefix_lt(p: (char, char), q: (char, char)) -> bool {
    p.0 < q.0 || (p.0 == q.0 && p.1 < q.1)
}

impl Game {
    /// The two-letter index: every two-character prefix that occurs among the
    /// solutions, with how many solutions share it, in lexicographic order.
    pub fn two_letter_index(&self) -> (idx: Vec<(char, char, usize)>)
        requires
            forall|i: int|
                0 <= i < self@.solutions.len() ==> (#[trigger] self@.solutions[i]).len() >= 2,
        ensures
            forall|t: int, u: int|
                #![trigger idx@[t], idx@[u]]
                0 <= t < u < idx@.len() ==> prefix_lt(
                    (idx@[t].0, idx@[t].1),
                    (idx@[u].0, idx@[u].1),
                ),
            forall|t: int|
                0 <= t < idx@.len() ==> (#[trigger] idx@[t]).2 == prefix_count(
                    self@.solutions,
                    idx@[t].0,
                    idx@[t].1,
                ) && idx@[t].2 > 0,
            forall|a: char, b: char|
                is_lower(a) && is_lower(b) && prefix_count(self@.solutions, a, b) > 0
                    ==> exists|t: int|
                    0 <= t < idx@.len() && (#[trigger] idx@[t]).0 == a && idx@[t].1 == b,
    {
        let mut idx: Vec<(char, char, usize)> = Vec::new();
        let mut x: u8 = 97;
        while x <= 122
            invariant
                97 <= x <= 123,
                forall|i: int|
                    0 <= i < self@.solutions.len() ==> (#[trigger] self@.solutions[i]).len() >= 2,
                forall|t: int, u: int|
                    #![trigger idx@[t], idx@[u]]
                    0 <= t < u < idx@.len() ==> prefix_lt(
                        (idx@[t].0, idx@[t].1),
                        (idx@[u].0, idx@[u].1),
                    ),
                forall|t: int|
                    0 <= t < idx@.len() ==> is_lower((#[trigger] idx@[t]).0) && is_lower(idx@[t].1)
                        && (idx@[t].0 as int) < x as int,
                forall|t: int|
                    0 <= t < idx@.len() ==> (#[trigger] idx@[t]).2 == prefix_count(
                        self@.solutions,
                        idx@[t].0,
                        idx@[t].1,
                    ) && idx@[t].2 > 0,
                forall|a: char, b: char|
                    is_lower(a) && is_lower(b) && (a as int) < x as int && prefix_count(
                        self@.solutions,
                        a,
                        b,
                    ) > 0 ==> exists|t: int|
                        0 <= t < idx@.len() && (#[trigger] idx@[t]).0 == a && idx@[t].1 == b,
            decreases 123 - x,
        {
            let a = x as char;
            proof {
                assert(a as int == x as int);
                assert(is_lower(a));
            }
            let mut y: u8 = 97;
            while y <= 122
                invariant
                    97 <= x <= 122,
                    97 <= y <= 123,
                    a == x as char,
                    a as int == x as int,
                    is_lower(a),
                    forall|i: int|
                        0 <= i < self@.solutions.len() ==> (#[trigger] self@.solutions[i]).len()
                            >= 2,
                    forall|t: int, u: int|
                        #![trigger idx@[t], idx@[u]]
                        0 <= t < u < idx@.len() ==> prefix_lt(
                            (idx@[t].0, idx@[t].1),
                            (idx@[u].0, idx@[u].1),
                        ),
                    forall|t: int|
                        0 <= t < idx@.len() ==> is_lower((#[trigger] idx@[t]).0) && is_lower(
                            idx@[t].1,
                        ) && ((idx@[t].0 as int) < x as int || (idx@[t].0 == a && (idx@[t].1 as int)
                            < y as int)),
                    forall|t: int|
                        0 <= t < idx@.len() ==> (#[trigger] idx@[t]).2 == prefix_count(
                            self@.solutions,
                            idx@[t].0,
                            idx@[t].1,
                        ) && idx@[t].2 > 0,
                    forall|c: char, b2: char|
                        is_lower(c) && is_lower(b2) && ((c as int) < x as int || (c == a && (
                        b2 as int) < y as int)) && prefix_count(self@.solutions, c, b2) > 0
                            ==> exists|t: int|
                            0 <= t < idx@.len() && (#[trigger] idx@[t]).0 == c && idx@[t].1 == b2,
                decreases 123 - y,
            {
                let b = y as char;
                proof {
                    assert(b as int == y as int);
                    assert(is_lower(b));
                    assert(self@.solutions == self.solutions.deep_view());
                }
                let cnt = count_prefix(&self.solutions, a, b);
                let ghost idx0 = idx@;
                if cnt > 0 {
                    idx.push((a, b, cnt));
                }
                proof {
                    assert forall|c: char, b2: char|
                        is_lower(c) && is_lower(b2) && ((c as int) < x as int || (c == a && (
                        b2 as int) < y as int + 1)) && prefix_count(self@.solutions, c, b2) > 0
                            implies exists|t: int|
                            0 <= t < idx@.len() && (#[trigger] idx@[t]).0 == c && idx@[t].1
                            == b2 by {
                        if (c as int) < x as int || (c == a && (b2 as int) < y as int) {
                            let t = choose|t: int|
                                0 <= t < idx0.len() && (#[trigger] idx0[t]).0 == c && idx0[t].1
                                    == b2;
                            assert(idx@[t] == idx0[t]);
                            assert(0 <= t < idx@.len() && idx@[t].0 == c && idx@[t].1 == b2);
                        } else {
                            assert(c == a && b2 as int == y as int);
                            assert(b2 == b);
                            assert(cnt == prefix_count(self@.solutions, a, b));
                            assert(cnt > 0);
                            let t = idx@.len() - 1;
                            assert(idx@[t].0 == a && idx@[t].1 == b);
                        }
                    }
                }
                y = y + 1;
            }
            x = x + 1;
        }
        idx
    }
}

} // verus!
