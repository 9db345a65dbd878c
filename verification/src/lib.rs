//! A "spelling bee" word-puzzle engine: a dictionary is filtered into a word
//! list, a seven-letter configuration (one center letter, six radial letters)
//! is drawn from a pangram-eligible word, and the full solution set, its
//! display views and the scoring rule are computed with verified contracts.

pub mod game;
pub mod letters;
pub mod rng;
pub mod views;
pub mod wordlist;

pub use game::Game;
pub use game::GenError;
pub use views::Grid;
pub use wordlist::Wordlist;
