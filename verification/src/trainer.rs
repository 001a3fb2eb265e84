//! The vocabulary trainer: it counts the pairs of neighbouring symbols, picks
//! the most frequent one, merges it everywhere in the corpus, and goes on
//! until the vocabulary has the size asked for or no pair is left.

use vstd::prelude::*;
use crate::canonical::{lemma_initial_trainable, lemma_merge_step_keeps, trainable};
use crate::error::TrainOutcome;
use crate::pair_counts::PairCounts;
use crate::run_laws::{lemma_train_from_keeps, merges};
use crate::segment::decode;
use crate::segment_laws::has_char_token;
use crate::text::{comes_before, same_chars};
use crate::training::{
    alphabet, alphabet_upto, beats, best_pair, initial_corpus, initial_entries, initial_model,
    is_best, lemma_alphabet_distinct, lemma_alphabet_holds, lemma_occurrences_bound, merge_from,
    merge_step, merged_text, occurrences_upto, pair_at, pair_counts, train_from, trained,
    window_counts, window_pairs, Model,
};
use crate::training_laws::{
    counts_within, lemma_beats_total, lemma_beats_transitive, lemma_best_unique,
    lemma_initial_model, lemma_pair_count_bound, lemma_pair_counts_within,
};
use crate::vocabulary::{distinct_texts, entry_texts, Entry, Vocabulary};

verus! {

/// The vocabulary and the corpus that training starts from: one token for
/// each distinct character of `data`, in order of first occurrence and
/// weighted with the number of its occurrences, and for each character of
/// `data` the identifier of its token.
pub fn initialize_vocab(data: &Vec<char>) -> (r: (Vocabulary, Vec<usize>))
    ensures
        r.0.wf(),
        r.0@ == initial_entries(data@),
        r.1@ == initial_corpus(data@),
{
    let mut vocab = Vocabulary::new();
    let mut corpus: Vec<usize> = Vec::new();
    let mut j: usize = 0;
    while j < data.len()
        invariant
            j <= data.len(),
            vocab.wf(),
            vocab@.len() == alphabet_upto(data@, j as int).len(),
            forall|i: int|
                0 <= i < vocab@.len() ==> (#[trigger] vocab@[i]) == (Entry {
                    text: seq![alphabet_upto(data@, j as int)[i]],
                    weight: occurrences_upto(data@, alphabet_upto(data@, j as int)[i], j as int),
                }),
            corpus.len() == j,
            forall|k: int|
                0 <= k < j ==> (#[trigger] corpus@[k]) < vocab@.len() && alphabet_upto(
                    data@,
                    j as int,
                )[corpus@[k] as int] == data@[k],
        decreases data.len() - j,
    {
        let c = data[j];
        let ghost before = alphabet_upto(data@, j as int);
        let ghost entries = vocab@;
        proof {
            vocab.lemma_wf();
        }
        match vocab.find_char(c) {
            Some(id) => {
                proof {
                    assert(entries[id as int].text == seq![before[id as int]]);
                    assert(seq![c][0] == seq![before[id as int]][0]);
                    assert(before[id as int] == c);
                    assert(before.contains(c));
                    lemma_occurrences_bound(data@, c, j as int);
                }
                vocab.add_weight(id, 1);
                corpus.push(id);
                proof {
                    assert forall|i: int| 0 <= i < vocab@.len() implies (#[trigger] vocab@[i])
                        == (Entry {
                        text: seq![before[i]],
                        weight: occurrences_upto(data@, before[i], j + 1),
                    }) by {
                        let old_texts = entry_texts(entries);
                        assert(entries[i].text == seq![before[i]]);
                        if i != id {
                            assert(vocab@[i] == entries[i]);
                            assert(old_texts[i] == seq![before[i]]);
                            assert(old_texts[id as int] == seq![c]);
                            assert(old_texts[i] != old_texts[id as int]);
                        }
                    }
                }
            },
            None => {
                proof {
                    if before.contains(c) {
                        let i = choose|i: int| 0 <= i < before.len() && before[i] == c;
                        assert(vocab.texts()[i] == seq![c]);
                    }
                    assert forall|k: int| 0 <= k < j implies data@[k] != c by {
                        lemma_alphabet_holds(data@, j as int, k);
                    }
                    lemma_occurrences_bound(data@, c, j as int);
                    assert(!vocab.texts().contains(seq![c]));
                }
                let mut single: Vec<char> = Vec::new();
                single.push(c);
                assert(single@ =~= seq![c]);
                let id = vocab.push(single, 1);
                corpus.push(id);
                proof {
                    let now = alphabet_upto(data@, j + 1);
                    assert(now == before.push(c));
                    assert forall|i: int| 0 <= i < vocab@.len() implies (#[trigger] vocab@[i])
                        == (Entry {
                        text: seq![now[i]],
                        weight: occurrences_upto(data@, now[i], j + 1),
                    }) by {
                        if i < entries.len() {
                            assert(vocab@[i] == entries[i]);
                            if before[i] == c {
                                assert(before.contains(c));
                            }
                        }
                    }
                }
            },
        }
        j += 1;
    }
    proof {
        let all = alphabet(data@);
        assert(vocab@ =~= initial_entries(data@));
        lemma_alphabet_distinct(data@, data@.len() as int);
        assert forall|k: int| 0 <= k < corpus@.len() implies corpus@[k] == #[trigger] initial_corpus(
            data@,
        )[k] by {
            let i = corpus@[k] as int;
            assert(all[i] == data@[k]);
            assert(all.contains(data@[k]));
            let chosen = all.index_of(data@[k]);
            assert(all[chosen] == data@[k]);
        }
        assert(corpus@ =~= initial_corpus(data@));
    }
    (vocab, corpus)
}

/// The frequencies of the pairs that stand at the offsets `from .. to` of
/// `tokens`. Windows that meet can be counted apart and combined.
pub fn count_window_pairs(tokens: &[usize], from: usize, to: usize) -> (counts: PairCounts)
    requires
        from <= to < tokens.len(),
    ensures
        counts.wf(),
        counts@ == window_counts(tokens@, from as int, to as int),
        counts.listed() == window_pairs(tokens@, from as int, to as int),
{
    let mut counts = PairCounts::new();
    let mut i: usize = from;
    assert(counts@ =~= window_counts(tokens@, from as int, from as int));
    assert(counts.listed() =~= window_pairs(tokens@, from as int, from as int));
    while i < to
        invariant
            from <= i <= to < tokens.len(),
            counts.wf(),
            counts@ == window_counts(tokens@, from as int, i as int),
            counts.listed() == window_pairs(tokens@, from as int, i as int),
        decreases to - i,
    {
        let left = tokens[i];
        let right = tokens[i + 1];
        proof {
            lemma_pair_count_bound(tokens@, left, right, from as int, i as int);
        }
        let ghost before = counts@;
        counts.add(left, right, 1);
        proof {
            let p = (left, right);
            let now = window_counts(tokens@, from as int, i + 1);
            assert(pair_at(tokens@, i as int) == p);
            assert forall|q: (usize, usize)| counts@.contains_key(q) <==> #[trigger] now.contains_key(
                q,
            ) by {}
            assert(counts@ =~= now);
        }
        i += 1;
    }
    counts
}

/// The frequencies of all pairs of neighbours in `tokens`.
pub fn count_adjacent_pairs(tokens: &[usize]) -> (counts: PairCounts)
    ensures
        counts.wf(),
        counts@ == pair_counts(tokens@),
        counts.listed() == window_pairs(tokens@, 0, tokens.len() - 1),
{
    if tokens.len() < 2 {
        let counts = PairCounts::new();
        assert(counts@ =~= pair_counts(tokens@));
        assert(counts.listed() =~= window_pairs(tokens@, 0, tokens.len() - 1));
        counts
    } else {
        count_window_pairs(tokens, 0, tokens.len() - 1)
    }
}

/// Whether the pair `p` is to be merged rather than the pair `q`.
fn is_better(
    pair_count: &PairCounts,
    vocab: &Vocabulary,
    p: (usize, usize),
    q: (usize, usize),
) -> (r: bool)
    requires
        vocab.wf(),
        p.0 < vocab@.len(),
        p.1 < vocab@.len(),
        q.0 < vocab@.len(),
        q.1 < vocab@.len(),
    ensures
        r == beats(vocab.texts(), pair_count@, p, q),
{
    let mine = pair_count.get(p.0, p.1);
    let theirs = pair_count.get(q.0, q.1);
    if mine != theirs {
        mine > theirs
    } else if comes_before(vocab.symbol(p.0), vocab.symbol(q.0)) {
        true
    } else {
        same_chars(vocab.symbol(p.0), vocab.symbol(q.0)) && comes_before(
            vocab.symbol(p.1),
            vocab.symbol(q.1),
        )
    }
}

/// The pair to merge next: the most frequent of the counted pairs, and among
/// equally frequent ones the first in the order of pairs. `None` where no
/// pair was counted.
pub fn find_most_frequent_pair(pair_count: &PairCounts, vocab: &Vocabulary) -> (best: Option<
    (usize, usize),
>)
    requires
        pair_count.wf(),
        vocab.wf(),
        counts_within(pair_count@, vocab@.len()),
    ensures
        best == best_pair(vocab.texts(), pair_count@),
        best matches Some(p) ==> pair_count@.contains_key(p),
{
    let list = pair_count.pairs();
    let ghost texts = vocab.texts();
    let ghost counts = pair_count@;
    proof {
        pair_count.lemma_wf();
        vocab.lemma_wf();
    }
    if list.len() == 0 {
        proof {
            assert forall|p: (usize, usize)| !counts.contains_key(p) by {
                if counts.contains_key(p) {
                    assert(pair_count.listed().contains(p));
                }
            }
        }
        return None;
    }
    let mut best = list[0];
    let mut i: usize = 1;
    proof {
        assert(pair_count.listed().contains(best));
        assert(counts.contains_key(best));
        lemma_beats_total(texts, counts, best, best);
    }
    while i < list.len()
        invariant
            1 <= i <= list.len(),
            list@ == pair_count.listed(),
            texts == vocab.texts(),
            counts == pair_count@,
            vocab.wf(),
            distinct_texts(vocab.texts()),
            counts_within(counts, vocab@.len()),
            forall|p: (usize, usize)| #[trigger] counts.contains_key(p) <==> list@.contains(p),
            counts.contains_key(best),
            forall|k: int| 0 <= k < i ==> !beats(texts, counts, #[trigger] list@[k], best),
        decreases list.len() - i,
    {
        let candidate = list[i];
        assert(list@.contains(candidate));
        assert(counts.contains_key(candidate));
        if is_better(pair_count, vocab, candidate, best) {
            proof {
                assert forall|k: int| 0 <= k < i + 1 implies !beats(
                    texts,
                    counts,
                    #[trigger] list@[k],
                    candidate,
                ) by {
                    if k < i {
                        if beats(texts, counts, list@[k], candidate) {
                            lemma_beats_transitive(texts, counts, list@[k], candidate, best);
                        }
                    } else {
                        lemma_beats_total(texts, counts, candidate, candidate);
                    }
                }
            }
            best = candidate;
        }
        i += 1;
    }
    proof {
        assert forall|q: (usize, usize)| #[trigger] counts.contains_key(q) implies !beats(
            texts,
            counts,
            q,
            best,
        ) by {
            assert(list@.contains(q));
            let k = choose|k: int| 0 <= k < list@.len() && list@[k] == q;
            assert(!beats(texts, counts, list@[k], best));
        }
        assert(is_best(texts, counts, best));
        lemma_best_unique(texts, counts, best);
    }
    Some(best)
}

/// Merges the pair everywhere in the corpus. The vocabulary gains the merged
/// token, with the texts of the two put together and the sum of their
/// weights, under the next free identifier. The corpus is rewritten from left
/// to right: where the left symbol stands with the right one behind it, the
/// two give way to the merged token.
pub fn merge_pair(pair: (usize, usize), vocab: &mut Vocabulary, data: &mut Vec<usize>)
    requires
        old(vocab).wf(),
        old(vocab)@.len() < usize::MAX,
        trainable(Model { entries: old(vocab)@, corpus: old(data)@ }),
        pair_counts(old(data)@).contains_key(pair),
    ensures
        final(vocab).wf(),
        (Model { entries: final(vocab)@, corpus: final(data)@ }) == merge_step(
            Model { entries: old(vocab)@, corpus: old(data)@ },
            pair,
        ),
        trainable(Model { entries: final(vocab)@, corpus: final(data)@ }),
        final(vocab)@.len() == old(vocab)@.len() + 1,
        final(data).len() < old(data).len(),
{
    let ghost model = Model { entries: vocab@, corpus: data@ };
    let ghost texts = vocab.texts();
    let ghost n = decode(texts, data@).len() as int;
    proof {
        lemma_merge_step_keeps(model, pair);
        vocab.lemma_wf();
    }
    let mut text: Vec<char> = Vec::new();
    let left = vocab.symbol(pair.0);
    let mut k: usize = 0;
    while k < left.len()
        invariant
            k <= left.len(),
            text@ == left@.take(k as int),
        decreases left.len() - k,
    {
        text.push(left[k]);
        k += 1;
    }
    let right = vocab.symbol(pair.1);
    k = 0;
    while k < right.len()
        invariant
            k <= right.len(),
            text@ == left@ + right@.take(k as int),
        decreases right.len() - k,
    {
        text.push(right[k]);
        k += 1;
    }
    assert(text@ =~= merged_text(model.entries, pair));
    proof {
        let next = merge_step(model, pair);
        let sum = next.entries[model.entries.len() as int].weight as int;
        let len = text@.len() as int;
        assert(sum <= len * n);
        assert(len <= n && n <= usize::MAX);
        assert(sum <= 0xFFFF_FFFF_FFFF_FFFF * 0xFFFF_FFFF_FFFF_FFFF) by (nonlinear_arith)
            requires
                sum <= len * n,
                0 <= len <= n,
                n <= 0xFFFF_FFFF_FFFF_FFFF,
        ;
    }
    let weight = vocab.weight(pair.0) + vocab.weight(pair.1);
    let id = vocab.push(text, weight);
    let mut out: Vec<usize> = Vec::new();
    let mut i: usize = 0;
    assert(out@ + merge_from(data@, pair.0, pair.1, id, 0) =~= merge_from(
        data@,
        pair.0,
        pair.1,
        id,
        0,
    ));
    while i < data.len()
        invariant
            i <= data.len(),
            out@ + merge_from(data@, pair.0, pair.1, id, i as int) == merge_from(
                data@,
                pair.0,
                pair.1,
                id,
                0,
            ),
        decreases data.len() - i,
    {
        let ghost rest = merge_from(data@, pair.0, pair.1, id, i as int);
        let ghost done = out@;
        if i + 1 < data.len() && data[i] == pair.0 && data[i + 1] == pair.1 {
            out.push(id);
            assert(pair_at(data@, i as int) == pair);
            assert(out@ + merge_from(data@, pair.0, pair.1, id, i + 2) =~= done + rest);
            i += 2;
        } else {
            out.push(data[i]);
            assert(!(i + 1 < data.len() && pair_at(data@, i as int) == pair));
            assert(out@ + merge_from(data@, pair.0, pair.1, id, i + 1) =~= done + rest);
            i += 1;
        }
    }
    assert(out@ + merge_from(data@, pair.0, pair.1, id, i as int) =~= out@);
    *data = out;
}

/// One round of training: the pairs of neighbours in the corpus are counted
/// and the best pair is merged. Returns whether there was a pair to merge;
/// where there was none, nothing is changed. A caller that must be able to
/// stop a run calls this round by round.
pub fn train_step(vocab: &mut Vocabulary, data: &mut Vec<usize>) -> (merged: bool)
    requires
        old(vocab).wf(),
        old(vocab)@.len() < usize::MAX,
        trainable(Model { entries: old(vocab)@, corpus: old(data)@ }),
    ensures
        final(vocab).wf(),
        trainable(Model { entries: final(vocab)@, corpus: final(data)@ }),
        match best_pair(old(vocab).texts(), pair_counts(old(data)@)) {
            Some(pair) => merged && (Model { entries: final(vocab)@, corpus: final(data)@ })
                == merge_step(Model { entries: old(vocab)@, corpus: old(data)@ }, pair),
            None => !merged && final(vocab)@ == old(vocab)@ && final(data)@ == old(data)@,
        },
        merged ==> final(data).len() < old(data).len() && final(vocab)@.len() == old(vocab)@.len()
            + 1,
{
    let ghost model = Model { entries: vocab@, corpus: data@ };
    let counts = count_adjacent_pairs(data.as_slice());
    proof {
        lemma_pair_counts_within(data@, vocab@.len());
    }
    match find_most_frequent_pair(&counts, vocab) {
        Some(pair) => {
            merge_pair(pair, vocab, data);
            true
        },
        None => false,
    }
}

/// The run of merges: while the vocabulary is smaller than `vocab_size`, the
/// pairs of neighbours in the corpus are counted and the best pair is merged.
/// The run ends early where no pair is left to merge. It returns the last
/// vocabulary, the last corpus, and how it ended.
pub fn bpe(corpus: Vec<usize>, vocab_size: usize, initial_vocab: Vocabulary) -> (r: (
    Vocabulary,
    Vec<usize>,
    TrainOutcome,
))
    requires
        initial_vocab.wf(),
        trainable(Model { entries: initial_vocab@, corpus: corpus@ }),
    ensures
        r.0.wf(),
        (Model { entries: r.0@, corpus: r.1@ }, r.2) == train_from(
            Model { entries: initial_vocab@, corpus: corpus@ },
            vocab_size as nat,
        ),
        trainable(Model { entries: r.0@, corpus: r.1@ }),
        decode(r.0.texts(), r.1@) == decode(initial_vocab.texts(), corpus@),
        r.0@.len() == initial_vocab@.len() + merges(
            Model { entries: initial_vocab@, corpus: corpus@ },
            vocab_size as nat,
        ),
        r.0@.len() <= vocab_size || r.0@.len() == initial_vocab@.len(),
        forall|i: int| 0 <= i < initial_vocab@.len() ==> #[trigger] r.0@[i] == initial_vocab@[i],
        r.2 == TrainOutcome::TargetReached <==> r.0@.len() >= vocab_size,
{
    let ghost start = Model { entries: initial_vocab@, corpus: corpus@ };
    let mut vocab = initial_vocab;
    let mut symbols = corpus;
    while vocab.len() < vocab_size
        invariant
            start == (Model { entries: initial_vocab@, corpus: corpus@ }),
            trainable(start),
            vocab.wf(),
            trainable(Model { entries: vocab@, corpus: symbols@ }),
            train_from(Model { entries: vocab@, corpus: symbols@ }, vocab_size as nat)
                == train_from(start, vocab_size as nat),
        decreases symbols.len(),
    {
        let ghost model = Model { entries: vocab@, corpus: symbols@ };
        if !train_step(&mut vocab, &mut symbols) {
            proof {
                assert(train_from(model, vocab_size as nat) == (
                    model,
                    TrainOutcome::NoMergeableFound,
                ));
                lemma_train_from_keeps(start, vocab_size as nat);
            }
            return (vocab, symbols, TrainOutcome::NoMergeableFound);
        }
    }
    proof {
        assert(train_from(Model { entries: vocab@, corpus: symbols@ }, vocab_size as nat) == (
            Model { entries: vocab@, corpus: symbols@ },
            TrainOutcome::TargetReached,
        ));
        lemma_train_from_keeps(start, vocab_size as nat);
    }
    (vocab, symbols, TrainOutcome::TargetReached)
}

/// What a training run leaves behind.
pub struct Training {
    /// The trained vocabulary.
    pub vocabulary: Vocabulary,
    /// The training text as the identifiers of the symbols it was cut into.
    pub corpus: Vec<usize>,
    /// Whether the vocabulary reached the size asked for.
    pub outcome: TrainOutcome,
}

/// Trains a vocabulary on `corpus`, a text given character by character.
/// The vocabulary starts with one token for each distinct character; then
/// the most frequent pair of neighbours is merged, again and again, until the
/// vocabulary has `target_size` tokens or no pair is left. The corpus of the
/// result spells the text, every character of the text is a token of the
/// vocabulary, each merge has added exactly one token, and the vocabulary is
/// no larger than `target_size` unless the text has more distinct characters
/// than that.
pub fn train(corpus: &Vec<char>, target_size: usize) -> (r: Training)
    ensures
        r.vocabulary.wf(),
        (Model { entries: r.vocabulary@, corpus: r.corpus@ }, r.outcome) == trained(
            corpus@,
            target_size as nat,
        ),
        decode(r.vocabulary.texts(), r.corpus@) == corpus@,
        forall|j: int|
            0 <= j < corpus.len() ==> has_char_token(r.vocabulary.texts(), #[trigger] corpus@[j]),
        r.vocabulary@.len() == initial_entries(corpus@).len() + merges(
            initial_model(corpus@),
            target_size as nat,
        ),
        r.vocabulary@.len() <= target_size || r.vocabulary@.len() == initial_entries(
            corpus@,
        ).len(),
        r.outcome == TrainOutcome::TargetReached <==> r.vocabulary@.len() >= target_size,
        trainable(Model { entries: r.vocabulary@, corpus: r.corpus@ }),
{
    let (first, symbols) = initialize_vocab(corpus);
    proof {
        assert(corpus@.len() == corpus.len());
        lemma_initial_model(corpus@);
        lemma_initial_trainable(corpus@);
    }
    let ghost first_texts = first.texts();
    let (vocabulary, symbols, outcome) = bpe(symbols, target_size, first);
    proof {
        assert forall|j: int| 0 <= j < corpus.len() implies has_char_token(
            vocabulary.texts(),
            #[trigger] corpus@[j],
        ) by {
            assert(has_char_token(first_texts, corpus@[j]));
            let i = choose|i: int|
                0 <= i < first_texts.len() && #[trigger] first_texts[i] == seq![corpus@[j]];
            assert(vocabulary@[i] == initial_entries(corpus@)[i]);
            assert(vocabulary.texts()[i] == seq![corpus@[j]]);
        }
    }
    Training { vocabulary, corpus: symbols, outcome }
}

} // verus!
