//! What training computes, as mathematics: the first vocabulary of a text,
//! the frequencies of neighbouring symbols, the choice of the pair to merge,
//! the rewritten corpus, and the run of merges to the end.

use vstd::prelude::*;
use crate::error::TrainOutcome;
use crate::segment::decode;
use crate::text::lex_less;
use crate::vocabulary::{distinct_texts, entry_texts, Entry};

verus! {

/// The state of a training run: the vocabulary so far, and the corpus as the
/// identifiers of its symbols.
pub struct Model {
    pub entries: Seq<Entry>,
    pub corpus: Seq<usize>,
}

/// The distinct characters among the first `n` of `text`, each where it first
/// occurred.
pub open spec fn alphabet_upto(text: Seq<char>, n: int) -> Seq<char>
    decreases n,
{
    if n <= 0 {
        Seq::empty()
    } else if alphabet_upto(text, n - 1).contains(text[n - 1]) {
        alphabet_upto(text, n - 1)
    } else {
        alphabet_upto(text, n - 1).push(text[n - 1])
    }
}

/// The distinct characters of `text`, in order of first occurrence.
pub open spec fn alphabet(text: Seq<char>) -> Seq<char> {
    alphabet_upto(text, text.len() as int)
}

/// How often `c` occurs among the first `n` characters of `text`.
pub open spec fn occurrences_upto(text: Seq<char>, c: char, n: int) -> nat
    decreases n,
{
    if n <= 0 {
        0
    } else if text[n - 1] == c {
        occurrences_upto(text, c, n - 1) + 1
    } else {
        occurrences_upto(text, c, n - 1)
    }
}

/// How often `c` occurs in `text`.
pub open spec fn occurrences(text: Seq<char>, c: char) -> nat {
    occurrences_upto(text, c, text.len() as int)
}

/// The vocabulary that training starts from: one token for each distinct
/// character of the text, weighted with the number of its occurrences.
pub open spec fn initial_entries(text: Seq<char>) -> Seq<Entry> {
    Seq::new(
        alphabet(text).len(),
        |i: int|
            Entry {
                text: seq![alphabet(text)[i]],
                weight: occurrences(text, alphabet(text)[i]),
            },
    )
}

/// The corpus that training starts from: for each character of the text the
/// identifier of its token.
pub open spec fn initial_corpus(text: Seq<char>) -> Seq<usize> {
    Seq::new(text.len(), |j: int| alphabet(text).index_of(text[j]) as usize)
}

/// The state in which training starts on `text`.
pub open spec fn initial_model(text: Seq<char>) -> Model {
    Model { entries: initial_entries(text), corpus: initial_corpus(text) }
}

/// Each of the first `n` characters of the text is in their alphabet.
pub proof fn lemma_alphabet_holds(text: Seq<char>, n: int, k: int)
    requires
        0 <= k < n <= text.len(),
    ensures
        alphabet_upto(text, n).contains(text[k]),
    decreases n,
{
    let before = alphabet_upto(text, n - 1);
    if k < n - 1 {
        lemma_alphabet_holds(text, n - 1, k);
        let i = choose|i: int| 0 <= i < before.len() && before[i] == text[k];
        assert(alphabet_upto(text, n)[i] == text[k]);
    } else if before.contains(text[n - 1]) {
    } else {
        assert(alphabet_upto(text, n)[before.len() as int] == text[k]);
    }
}

/// No character stands twice in an alphabet.
pub proof fn lemma_alphabet_distinct(text: Seq<char>, n: int)
    ensures
        alphabet_upto(text, n).no_duplicates(),
    decreases n,
{
    if n > 0 {
        lemma_alphabet_distinct(text, n - 1);
    }
}

/// A character occurs among the first `n` at most `n` times, and not at all
/// where none of them is that character.
pub proof fn lemma_occurrences_bound(text: Seq<char>, c: char, n: int)
    requires
        0 <= n,
    ensures
        occurrences_upto(text, c, n) <= n,
        (forall|k: int| 0 <= k < n ==> text[k] != c) ==> occurrences_upto(text, c, n) == 0,
    decreases n,
{
    if n > 0 {
        lemma_occurrences_bound(text, c, n - 1);
    }
}

/// The two neighbours at offset `i` of the corpus.
pub open spec fn pair_at(corpus: Seq<usize>, i: int) -> (usize, usize) {
    (corpus[i], corpus[i + 1])
}

/// At how many of the offsets `from .. to` the symbol `left` stands with
/// `right` behind it.
pub open spec fn pair_count_in(
    corpus: Seq<usize>,
    left: usize,
    right: usize,
    from: int,
    to: int,
) -> nat
    decreases to - from,
{
    if to <= from {
        0
    } else if 0 < to < corpus.len() && pair_at(corpus, to - 1) == (left, right) {
        pair_count_in(corpus, left, right, from, to - 1) + 1
    } else {
        pair_count_in(corpus, left, right, from, to - 1)
    }
}

/// How often `left` stands in the corpus with `right` behind it. Occurrences
/// may overlap.
pub open spec fn pair_count(corpus: Seq<usize>, left: usize, right: usize) -> nat {
    pair_count_in(corpus, left, right, 0, corpus.len() - 1)
}

/// Frequencies of pairs: each pair that occurs, with the number of its
/// occurrences.
pub type Counts = Map<(usize, usize), nat>;

/// The frequency of `p` in `counts`: none for a pair that the map does not
/// hold.
pub open spec fn count_in(counts: Counts, p: (usize, usize)) -> nat {
    if counts.contains_key(p) {
        counts[p]
    } else {
        0
    }
}

/// The frequencies of the pairs that stand at the offsets `from .. to` of the
/// corpus.
pub open spec fn window_counts(corpus: Seq<usize>, from: int, to: int) -> Counts {
    Map::new(
        |p: (usize, usize)| pair_count_in(corpus, p.0, p.1, from, to) > 0,
        |p: (usize, usize)| pair_count_in(corpus, p.0, p.1, from, to),
    )
}

/// The frequencies of all pairs of neighbours in the corpus.
pub open spec fn pair_counts(corpus: Seq<usize>) -> Counts {
    window_counts(corpus, 0, corpus.len() - 1)
}

/// The distinct pairs that stand at the offsets `from .. to` of the corpus,
/// each where it first stands.
pub open spec fn window_pairs(corpus: Seq<usize>, from: int, to: int) -> Seq<(usize, usize)>
    decreases to - from,
{
    if to <= from {
        Seq::empty()
    } else if window_counts(corpus, from, to - 1).contains_key(pair_at(corpus, to - 1)) {
        window_pairs(corpus, from, to - 1)
    } else {
        window_pairs(corpus, from, to - 1).push(pair_at(corpus, to - 1))
    }
}

/// Two frequency maps combined: each pair with the sum of its frequencies.
pub open spec fn sum_counts(a: Counts, b: Counts) -> Counts {
    Map::new(
        |p: (usize, usize)| a.contains_key(p) || b.contains_key(p),
        |p: (usize, usize)| count_in(a, p) + count_in(b, p),
    )
}

/// The order that breaks ties between pairs: by the text of the left symbol,
/// then by that of the right one, each lexicographically.
pub open spec fn pair_before(texts: Seq<Seq<char>>, p: (usize, usize), q: (usize, usize)) -> bool {
    lex_less(texts[p.0 as int], texts[q.0 as int]) || (texts[p.0 as int] == texts[q.0 as int]
        && lex_less(texts[p.1 as int], texts[q.1 as int]))
}

/// `p` is to be merged rather than `q`: it is more frequent, or as frequent
/// and before `q` in the order of pairs.
pub open spec fn beats(
    texts: Seq<Seq<char>>,
    counts: Counts,
    p: (usize, usize),
    q: (usize, usize),
) -> bool {
    count_in(counts, p) > count_in(counts, q) || (count_in(counts, p) == count_in(counts, q)
        && pair_before(texts, p, q))
}

/// `p` is among the counted pairs, and none of them beats it.
pub open spec fn is_best(texts: Seq<Seq<char>>, counts: Counts, p: (usize, usize)) -> bool {
    &&& counts.contains_key(p)
    &&& forall|q: (usize, usize)| #[trigger] counts.contains_key(q) ==> !beats(texts, counts, q, p)
}

/// The pair to merge next: the most frequent of the counted pairs, ties
/// broken by the order of pairs. There is none where nothing was counted.
pub open spec fn best_pair(texts: Seq<Seq<char>>, counts: Counts) -> Option<(usize, usize)> {
    if exists|p: (usize, usize)| is_best(texts, counts, p) {
        Some(choose|p: (usize, usize)| is_best(texts, counts, p))
    } else {
        None
    }
}

/// A pair with a frequency stands somewhere in the window.
pub proof fn lemma_counted_pair_stands(
    corpus: Seq<usize>,
    left: usize,
    right: usize,
    from: int,
    to: int,
)
    requires
        0 <= from,
        pair_count_in(corpus, left, right, from, to) > 0,
    ensures
        exists|i: int|
            from <= i < to && i < corpus.len() - 1 && #[trigger] pair_at(corpus, i) == (left, right),
    decreases to - from,
{
    if to <= from {
    } else if 0 < to < corpus.len() && pair_at(corpus, to - 1) == (left, right) {
        assert(pair_at(corpus, to - 1) == (left, right));
    } else {
        lemma_counted_pair_stands(corpus, left, right, from, to - 1);
    }
}

/// The corpus from offset `from` on, rewritten from left to right: where
/// `left` stands with `right` behind it, the two give way to `merged`, and
/// the rewriting goes on behind them.
pub open spec fn merge_from(
    corpus: Seq<usize>,
    left: usize,
    right: usize,
    merged: usize,
    from: int,
) -> Seq<usize>
    decreases corpus.len() - from,
{
    if from < 0 || from >= corpus.len() {
        Seq::empty()
    } else if from + 1 < corpus.len() && pair_at(corpus, from) == (left, right) {
        seq![merged] + merge_from(corpus, left, right, merged, from + 2)
    } else {
        seq![corpus[from]] + merge_from(corpus, left, right, merged, from + 1)
    }
}

/// The text of the token that merging the pair `p` makes.
pub open spec fn merged_text(entries: Seq<Entry>, p: (usize, usize)) -> Seq<char> {
    entries[p.0 as int].text + entries[p.1 as int].text
}

/// The vocabulary after the pair `p` was merged: it has one token more, with
/// the texts of the two put together and the sum of their weights.
pub open spec fn merged_entries(entries: Seq<Entry>, p: (usize, usize)) -> Seq<Entry> {
    entries.push(
        Entry {
            text: merged_text(entries, p),
            weight: entries[p.0 as int].weight + entries[p.1 as int].weight,
        },
    )
}

/// One merge: the vocabulary gains the merged token under the next free
/// identifier, and the corpus is rewritten with it.
pub open spec fn merge_step(model: Model, p: (usize, usize)) -> Model {
    Model {
        entries: merged_entries(model.entries, p),
        corpus: merge_from(model.corpus, p.0, p.1, model.entries.len() as usize, 0),
    }
}

/// Where the pair stands in the corpus at or behind `from`, rewriting makes
/// the rest of the corpus shorter; it never makes it longer.
pub proof fn lemma_merge_shortens(
    corpus: Seq<usize>,
    left: usize,
    right: usize,
    merged: usize,
    from: int,
)
    requires
        0 <= from,
    ensures
        merge_from(corpus, left, right, merged, from).len() <= if from <= corpus.len() {
            corpus.len() - from
        } else {
            0
        },
        (exists|i: int| from <= i < corpus.len() - 1 && #[trigger] pair_at(corpus, i) == (left, right))
            ==> merge_from(corpus, left, right, merged, from).len() < corpus.len() - from,
    decreases corpus.len() - from,
{
    if from >= corpus.len() {
    } else if from + 1 < corpus.len() && pair_at(corpus, from) == (left, right) {
        lemma_merge_shortens(corpus, left, right, merged, from + 2);
    } else {
        lemma_merge_shortens(corpus, left, right, merged, from + 1);
        if exists|i: int| from <= i < corpus.len() - 1 && #[trigger] pair_at(corpus, i) == (left, right) {
            let i = choose|i: int|
                from <= i < corpus.len() - 1 && #[trigger] pair_at(corpus, i) == (left, right);
            assert(from + 1 <= i);
        }
    }
}

/// The run of merges from `model` on: while the vocabulary is smaller than
/// `target` and there is a pair to merge, the best pair is merged.
pub open spec fn train_from(model: Model, target: nat) -> (Model, TrainOutcome)
    decreases model.corpus.len(),
    via train_from_ends
{
    if model.entries.len() >= target {
        (model, TrainOutcome::TargetReached)
    } else {
        match best_pair(entry_texts(model.entries), pair_counts(model.corpus)) {
            Some(p) => train_from(merge_step(model, p), target),
            None => (model, TrainOutcome::NoMergeableFound),
        }
    }
}

/// Each merge shortens the corpus, so a run comes to an end.
#[via_fn]
proof fn train_from_ends(model: Model, target: nat) {
    let texts = entry_texts(model.entries);
    if model.entries.len() < target {
        if let Some(p) = best_pair(texts, pair_counts(model.corpus)) {
            assert(is_best(texts, pair_counts(model.corpus), p));
            lemma_counted_pair_stands(model.corpus, p.0, p.1, 0, model.corpus.len() - 1);
            lemma_merge_shortens(model.corpus, p.0, p.1, model.entries.len() as usize, 0);
        }
    }
}

/// What training on `text` up to `target` tokens gives: the last state and
/// how the run ended.
pub open spec fn trained(text: Seq<char>, target: nat) -> (Model, TrainOutcome) {
    train_from(initial_model(text), target)
}

/// The state holds together: the texts of the vocabulary are distinct, the
/// corpus names tokens of the vocabulary, the text it spells has a length
/// that fits the machine, and no token is longer than that text or weighs
/// more than its length times that of the text.
pub open spec fn sound(model: Model) -> bool {
    let texts = entry_texts(model.entries);
    let n = decode(texts, model.corpus).len();
    &&& distinct_texts(texts)
    &&& model.entries.len() <= usize::MAX
    &&& forall|k: int|
        0 <= k < model.corpus.len() ==> (#[trigger] model.corpus[k]) < model.entries.len()
    &&& n <= usize::MAX
    &&& forall|i: int|
        0 <= i < model.entries.len() ==> (#[trigger] model.entries[i]).text.len() <= n
            && model.entries[i].weight <= model.entries[i].text.len() * n
}

} // verus!
