use freebee::game::Game;
use freebee::game::GenError;
use freebee::wordlist::Wordlist;

fn w(s: &str) -> Vec<char> {
    s.chars().collect()
}

fn lines(items: &[&str]) -> Vec<String> {
    items.iter().map(|s| s.to_string()).collect()
}

#[test]
fn filtering_keeps_only_lowercase_words_of_length_four_or_more() {
    let wl = Wordlist::from_lines(&lines(&[
        "abcdefg", "abc", "Word", "word1", "hello", "aabcdef", "dé jà", "",
    ]));
    let expected: Vec<Vec<char>> = vec![w("abcdefg"), w("hello"), w("aabcdef")];
    assert_eq!(wl.words, expected);
}

#[test]
fn pangram_candidates_need_exactly_seven_distinct_letters() {
    // "abcdefg" has seven distinct letters; "aabcdef" has only six;
    // "abcdefgh" has eight.
    let wl = Wordlist::from_lines(&lines(&["aabcdef", "abcdefg", "abcdefgh", "abcd"]));
    assert_eq!(wl.seven_letter_words, vec![1]);
}

#[test]
fn filtering_keeps_duplicates_and_file_order() {
    let wl = Wordlist::from_lines(&lines(&["wordy", "abcd", "wordy"]));
    let expected: Vec<Vec<char>> = vec![w("wordy"), w("abcd"), w("wordy")];
    assert_eq!(wl.words, expected);
}

#[test]
fn generation_is_deterministic_for_a_fixed_seed() {
    let wl = Wordlist::from_lines(&lines(&[
        "abcdefg", "abcd", "gfedcba", "aaaa", "efga", "bagdefc", "deaf", "face",
    ]));
    let g1 = wl.gen_game(Some(42)).unwrap();
    let g2 = wl.gen_game(Some(42)).unwrap();
    assert_eq!(g1.center_letter, g2.center_letter);
    assert_eq!(g1.radial_letters, g2.radial_letters);
    assert_eq!(g1.solutions, g2.solutions);
}

#[test]
fn generated_configuration_is_well_formed() {
    let wl = Wordlist::from_lines(&lines(&["abcdefg", "abcd", "xyzw"]));
    let g = wl.gen_game(Some(7)).unwrap();
    // the center letter and the six radial letters are the seven distinct
    // letters of the only seed candidate
    assert!(('a'..='g').contains(&g.center_letter));
    assert_eq!(g.radial_letters.len(), 6);
    let mut all: Vec<char> = g.radial_letters.clone();
    all.push(g.center_letter);
    all.sort();
    assert_eq!(all, w("abcdefg"));
}

#[test]
fn solutions_hold_exactly_the_words_that_fit_the_configuration() {
    let words = [
        "abcdefg", "abcd", "gfedcba", "aaaa", "efga", "bagdefc", "deaf", "face", "xyzw",
        "abcx",
    ];
    let wl = Wordlist::from_lines(&lines(&words));
    for seed in 0..20u64 {
        let g = wl.gen_game(Some(seed)).unwrap();
        for word in &wl.words {
            let fits = word.contains(&g.center_letter)
                && word
                    .iter()
                    .all(|c| *c == g.center_letter || g.radial_letters.contains(c));
            assert_eq!(g.solutions.contains(word), fits);
        }
        // and every solution comes from the word list
        for sol in &g.solutions {
            assert!(wl.words.contains(sol));
        }
    }
}

#[test]
fn seed_pangram_is_a_solution_exactly_once() {
    // the only seed candidate appears twice in the dictionary; the solution
    // scan must still list it once
    let wl = Wordlist::from_lines(&lines(&["abcdefg", "abcd", "abcdefg"]));
    for seed in 0..10u64 {
        let g = wl.gen_game(Some(seed)).unwrap();
        let count = g.solutions.iter().filter(|s| **s == w("abcdefg")).count();
        assert_eq!(count, 1);
    }
}

#[test]
fn no_solution_is_listed_twice() {
    let wl = Wordlist::from_lines(&lines(&[
        "abcdefg", "abcd", "abcd", "efga", "efga", "abcdefg",
    ]));
    let g = wl.gen_game(Some(3)).unwrap();
    for (i, a) in g.solutions.iter().enumerate() {
        for b in g.solutions.iter().skip(i + 1) {
            assert_ne!(a, b);
        }
    }
}

#[test]
fn empty_pangram_pool_fails_generation() {
    // every word has fewer than seven distinct letters
    let wl = Wordlist::from_lines(&lines(&["abcd", "aabcdef", "xyzw"]));
    assert!(matches!(wl.gen_game(Some(1)), Err(GenError::EmptyPangramPool)));
    assert!(matches!(wl.gen_game(None), Err(GenError::EmptyPangramPool)));
    let empty = Wordlist::from_lines(&lines(&[]));
    assert!(matches!(empty.gen_game(Some(1)), Err(GenError::EmptyPangramPool)));
}

#[test]
fn scoring_is_length_plus_pangram_bonus() {
    let game = Game {
        center_letter: 'g',
        radial_letters: vec!['a', 'b', 'c', 'd', 'e', 'f'],
        solutions: vec![w("cabbage"), w("bead"), w("gfedcba")],
    };
    // seven letters, but no 'd' or 'f': no pangram bonus
    assert_eq!(game.score(&w("cabbage")), 7);
    // four letters, no bonus
    assert_eq!(game.score(&w("bead")), 4);
    // uses all seven letters: length plus the bonus of seven
    assert_eq!(game.score(&w("gfedcba")), 14);
    // a longer pangram still scores length plus seven
    assert_eq!(game.score(&w("cabbagedf")), 16);
}

#[test]
fn two_letter_index_counts_prefixes_in_lexicographic_order() {
    let game = Game {
        center_letter: 'a',
        radial_letters: vec!['b', 'c', 'd', 'e', 'f', 'g'],
        solutions: vec![w("abcd"), w("abef"), w("cdef")],
    };
    let idx = game.two_letter_index();
    assert_eq!(idx, vec![('a', 'b', 2), ('c', 'd', 1)]);
}

#[test]
fn two_letter_index_of_generated_game_is_sorted_and_complete() {
    let wl = Wordlist::from_lines(&lines(&[
        "abcdefg", "abcd", "gfedcba", "efga", "bagdefc", "deaf", "face", "gagagaga",
    ]));
    let g = wl.gen_game(Some(11)).unwrap();
    let idx = g.two_letter_index();
    for pair in idx.windows(2) {
        assert!((pair[0].0, pair[0].1) < (pair[1].0, pair[1].1));
    }
    let total: usize = idx.iter().map(|e| e.2).sum();
    assert_eq!(total, g.solutions.len());
    for e in &idx {
        let n = g
            .solutions
            .iter()
            .filter(|s| s[0] == e.0 && s[1] == e.1)
            .count();
        assert_eq!(n, e.2);
        assert!(n > 0);
    }
}

#[test]
fn grid_counts_each_solution_once() {
    let wl = Wordlist::from_lines(&lines(&[
        "abcdefg", "abcd", "gfedcba", "efga", "bagdefc", "deaf", "face", "aaaa", "gabble",
    ]));
    for seed in 0..10u64 {
        let g = wl.gen_game(Some(seed)).unwrap();
        let grid = g.grid();
        assert_eq!(grid.len(), 7);
        let total: usize = grid.iter().map(|(_, row)| row.iter().sum::<usize>()).sum();
        assert_eq!(total, g.solutions.len());
    }
}

#[test]
fn grid_rows_count_solutions_by_first_letter_and_length() {
    let game = Game {
        center_letter: 'g',
        radial_letters: vec!['a', 'b', 'c', 'd', 'e', 'f'],
        solutions: vec![w("gaag"), w("agga"), w("gaaag")],
    };
    let grid = game.grid();
    // rows keyed center first, then radials in display order
    assert_eq!(grid[0].0, 'g');
    assert_eq!(grid[1].0, 'a');
    // buckets cover lengths four and five
    assert_eq!(grid[0].1, vec![1, 1]);
    assert_eq!(grid[1].1, vec![1, 0]);
    for row in grid.iter().skip(2) {
        assert_eq!(row.1, vec![0, 0]);
    }
}

#[test]
fn grid_of_empty_solutions_has_empty_rows() {
    let game = Game {
        center_letter: 'g',
        radial_letters: vec!['a', 'b', 'c', 'd', 'e', 'f'],
        solutions: vec![],
    };
    let grid = game.grid();
    assert_eq!(grid.len(), 7);
    for row in &grid {
        assert!(row.1.is_empty());
    }
}

#[test]
fn radial_letters_are_shuffled_copies_of_the_seed_letters() {
    // whatever order the shuffle fixes, the radial letters must be exactly
    // the seed pangram's letters other than the center
    let wl = Wordlist::from_lines(&lines(&["mightwo"]));
    for seed in 0..25u64 {
        let g = wl.gen_game(Some(seed)).unwrap();
        let mut sorted = g.radial_letters.clone();
        sorted.sort();
        let mut expected: Vec<char> = w("mightwo")
            .into_iter()
            .filter(|c| *c != g.center_letter)
            .collect();
        expected.sort();
        expected.dedup();
        assert_eq!(sorted, expected);
    }
}

#[test]
fn unseeded_generation_builds_a_valid_puzzle() {
    let wl = Wordlist::from_lines(&lines(&["abcdefg", "abcd", "efga"]));
    let g = wl.gen_game(None).unwrap();
    assert_eq!(g.radial_letters.len(), 6);
    assert!(g.solutions.contains(&w("abcdefg")));
}
