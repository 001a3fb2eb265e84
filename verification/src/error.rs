//! What can go wrong, and how training can end.

use vstd::prelude::*;

verus! {

/// Why a stored vocabulary could not be loaded.
#[derive(Clone, Copy, Debug, PartialEq, Eq)]
pub enum VocabError {
    /// There is no stored vocabulary.
    VocabNotFound,
    /// The stored text is not a mapping from token texts to weights.
    VocabParseError,
}

/// A vocabulary could not be written as JSON.
#[derive(Clone, Copy, Debug, PartialEq, Eq)]
pub struct VocabWriteError;

/// How a training run ended.
#[derive(Clone, Copy, Debug, PartialEq, Eq)]
pub enum TrainOutcome {
    /// The vocabulary has the size that was asked for, or had it from the
    /// start.
    TargetReached,
    /// No pair of neighbours was left to merge before the vocabulary reached
    /// the size asked for.
    NoMergeableFound,
}

/// The text holds characters that no token of the vocabulary covers.
#[derive(Debug)]
pub struct UnknownCharacter {
    /// The offsets of those characters in the text, in rising order.
    pub offsets: Vec<usize>,
}

} // verus!
