//! Byte-pair-encoding vocabulary training and longest-match text segmentation.
//!
//! Training (`trainer`, with its model in `training`) starts from one token
//! for each character of a text and merges the most frequent pair of
//! neighbouring symbols, again and again, until the vocabulary has the size
//! asked for. Segmentation (`segment`) cuts a text into tokens of a ranked
//! vocabulary, longer tokens first. Three segmenters share that engine and
//! give the same result: `Decoder` looks for each token at every offset and
//! refuses texts it cannot cover, `Tokeniser` finds the tokens with a
//! matching automaton and reports what it could not cover, `Tokenizer` finds
//! them in a sorted index.
//!
//! The laws of segmentation are proved in `segment_laws`, those of training
//! in `training_laws`, `canonical` and `run_laws`.

pub mod automaton;
pub mod candidates;
pub mod canonical;
pub mod colour;
pub mod corpus;
pub mod decoder;
pub mod error;
pub mod pair_counts;
pub mod persist;
pub mod ranking;
pub mod run_laws;
pub mod search;
pub mod segment;
pub mod segment_laws;
pub mod text;
pub mod tokenize;
pub mod tokeniser;
pub mod trainer;
pub mod training;
pub mod training_laws;
pub mod utf8;
pub mod vocabulary;

pub use crate::decoder::Decoder;
pub use crate::error::{TrainOutcome, UnknownCharacter, VocabError, VocabWriteError};
pub use crate::pair_counts::PairCounts;
pub use crate::ranking::Ranked;
pub use crate::search::Match;
pub use crate::segment::CharInfo;
pub use crate::tokenize::Tokenizer;
pub use crate::tokeniser::Tokeniser;
pub use crate::trainer::{train, Training};
pub use crate::vocabulary::{Token, Vocabulary};
