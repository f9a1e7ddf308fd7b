//! Guess recommendation for a five-letter word puzzle with positional feedback.
//!
//! The library tracks what the feedback received so far says about the hidden
//! word, filters a word list against that knowledge, and ranks the remaining
//! words by the share of the list each is expected to eliminate when played.
//!
//! - [`word`] and [`word_list`]: words and the text they are read from.
//! - [`feedback`]: the feedback for a guess against a hidden word, with
//!   [`leftovers`] for the letters that the greens leave over.
//! - [`knowledge`]: the mathematical model of what is known, and of an update.
//! - [`state`]: the constraint state that holds the knowledge in bit masks
//!   and counters, with [`letter_set`] for the masks.
//! - [`soundness`]: an update never rules out the hidden word.
//! - [`search`] and [`presort`]: scoring guesses and finding the best one.

pub mod feedback;
pub mod knowledge;
pub mod leftovers;
pub mod letter_set;
pub mod presort;
pub mod search;
pub mod soundness;
pub mod state;
pub mod word;
pub mod word_list;
