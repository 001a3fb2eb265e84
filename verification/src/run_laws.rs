//! What holds of every training run: the corpus always spells the training
//! text, every character of the text is a token, no token is lost or
//! changed, and the vocabulary grows by exactly one token with each merge.

use vstd::prelude::*;
use crate::canonical::{lemma_initial_trainable, lemma_merge_step_keeps, trainable};
use crate::error::TrainOutcome;
use crate::segment::{decode, segmentation};
use crate::segment_laws::{has_char_token, knows_chars, lemma_round_trip};
use crate::training::{
    best_pair, initial_entries, initial_model, is_best, lemma_counted_pair_stands,
    lemma_merge_shortens, merge_step, pair_counts, train_from, trained, Model,
};
use crate::training_laws::lemma_initial_model;
use crate::vocabulary::entry_texts;

verus! {

/// How many merges a run from `model` makes until the vocabulary has `target`
/// tokens or no pair is left.
pub open spec fn merges(model: Model, target: nat) -> nat
    decreases model.corpus.len(),
    via merges_end
{
    if model.entries.len() >= target {
        0
    } else {
        match best_pair(entry_texts(model.entries), pair_counts(model.corpus)) {
            Some(p) => 1 + merges(merge_step(model, p), target),
            None => 0,
        }
    }
}

/// Each merge shortens the corpus, so the count of merges is well defined.
#[via_fn]
proof fn merges_end(model: Model, target: nat) {
    let texts = entry_texts(model.entries);
    if model.entries.len() < target {
        if let Some(p) = best_pair(texts, pair_counts(model.corpus)) {
            assert(is_best(texts, pair_counts(model.corpus), p));
            lemma_counted_pair_stands(model.corpus, p.0, p.1, 0, model.corpus.len() - 1);
            lemma_merge_shortens(model.corpus, p.0, p.1, model.entries.len() as usize, 0);
        }
    }
}

/// What a whole run of merges keeps: the last state is fit for training, its
/// corpus spells the text of the first, every token of the first vocabulary
/// is still in its place and unchanged, the vocabulary has grown by exactly
/// one token with each merge, and it has not grown beyond `target` unless it
/// was beyond it from the start. The run ends with the target reached exactly
/// when the vocabulary has that size.
pub proof fn lemma_train_from_keeps(model: Model, target: nat)
    requires
        trainable(model),
        target <= usize::MAX,
    ensures
        ({
            let (last, outcome) = train_from(model, target);
            &&& trainable(last)
            &&& decode(entry_texts(last.entries), last.corpus) == decode(
                entry_texts(model.entries),
                model.corpus,
            )
            &&& last.corpus.len() <= model.corpus.len()
            &&& model.entries.len() <= last.entries.len()
            &&& last.entries.len() == model.entries.len() + merges(model, target)
            &&& last.entries.len() <= if model.entries.len() <= target {
                target
            } else {
                model.entries.len()
            }
            &&& forall|i: int|
                0 <= i < model.entries.len() ==> #[trigger] last.entries[i] == model.entries[i]
            &&& (outcome == TrainOutcome::TargetReached <==> last.entries.len() >= target)
            &&& (outcome == TrainOutcome::NoMergeableFound ==> best_pair(
                entry_texts(last.entries),
                pair_counts(last.corpus),
            ) is None)
        }),
    decreases model.corpus.len(),
{
    if model.entries.len() < target {
        let texts = entry_texts(model.entries);
        if let Some(p) = best_pair(texts, pair_counts(model.corpus)) {
            assert(is_best(texts, pair_counts(model.corpus), p));
            lemma_merge_step_keeps(model, p);
            lemma_train_from_keeps(merge_step(model, p), target);
        }
    }
}

/// What training on a text gives: every character of the text is a token of
/// the trained vocabulary, the trained corpus spells the text, and the
/// vocabulary has one token for each distinct character of the text and one
/// for each merge of the run, as many as `target` at most unless the text has
/// more distinct characters than that. The run ends with the target reached
/// exactly when the vocabulary has that size.
pub proof fn lemma_trained(text: Seq<char>, target: nat)
    requires
        text.len() <= usize::MAX,
        target <= usize::MAX,
    ensures
        ({
            let (last, outcome) = trained(text, target);
            let first = initial_entries(text);
            &&& trainable(last)
            &&& decode(entry_texts(last.entries), last.corpus) == text
            &&& forall|j: int|
                0 <= j < text.len() ==> has_char_token(
                    entry_texts(last.entries),
                    #[trigger] text[j],
                )
            &&& last.entries.len() == first.len() + merges(initial_model(text), target)
            &&& last.entries.len() <= if first.len() <= target {
                target
            } else {
                first.len()
            }
            &&& forall|i: int| 0 <= i < first.len() ==> #[trigger] last.entries[i] == first[i]
            &&& (outcome == TrainOutcome::TargetReached <==> last.entries.len() >= target)
        }),
{
    lemma_initial_model(text);
    lemma_initial_trainable(text);
    lemma_train_from_keeps(initial_model(text), target);
    let (last, outcome) = trained(text, target);
    let first_texts = entry_texts(initial_entries(text));
    assert forall|j: int| 0 <= j < text.len() implies has_char_token(
        entry_texts(last.entries),
        #[trigger] text[j],
    ) by {
        assert(has_char_token(first_texts, text[j]));
        let i = choose|i: int| 0 <= i < first_texts.len() && #[trigger] first_texts[i] == seq![text[j]];
        assert(last.entries[i] == initial_entries(text)[i]);
        assert(entry_texts(last.entries)[i] == seq![text[j]]);
    }
}

/// Round trip after training: with the tokens of a vocabulary trained on
/// `training`, in whatever order, a text made only of characters of
/// `training` is decoded from its segmentation unchanged.
pub proof fn lemma_trained_round_trip(
    training: Seq<char>,
    target: nat,
    vocab: Seq<Seq<char>>,
    text: Seq<char>,
)
    requires
        training.len() <= usize::MAX,
        target <= usize::MAX,
        vocab.len() <= usize::MAX,
        text.len() <= usize::MAX,
        vocab.to_multiset() == entry_texts(trained(training, target).0.entries).to_multiset(),
        forall|j: int| 0 <= j < text.len() ==> training.contains(#[trigger] text[j]),
    ensures
        decode(vocab, segmentation(text, vocab)) == text,
{
    broadcast use vstd::seq_lib::group_to_multiset_ensures;

    lemma_trained(training, target);
    let texts = entry_texts(trained(training, target).0.entries);
    assert forall|j: int| 0 <= j < text.len() implies has_char_token(vocab, #[trigger] text[j]) by {
        let k = choose|k: int| 0 <= k < training.len() && training[k] == text[j];
        assert(has_char_token(texts, training[k]));
        let i = choose|i: int| 0 <= i < texts.len() && #[trigger] texts[i] == seq![text[j]];
        texts.to_multiset_ensures();
        vocab.to_multiset_ensures();
        assert(texts.contains(texts[i]));
        assert(texts.to_multiset().count(seq![text[j]]) > 0);
        assert(vocab.contains(seq![text[j]]));
        let v = choose|v: int| 0 <= v < vocab.len() && vocab[v] == seq![text[j]];
        assert(vocab[v] == seq![text[j]]);
    }
    assert(knows_chars(vocab, text));
    lemma_round_trip(text, vocab);
}

} // verus!
