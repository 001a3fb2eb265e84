//! What holds of the steps of training: counting may be shared out, the
//! choice of the pair to merge is unique, and a merge changes how the text is
//! cut into symbols and nothing else.

use vstd::prelude::*;
use vstd::seq_lib::lemma_flatten_concat;
use crate::segment::{decode, token_texts};
use crate::segment_laws::has_char_token;
use crate::text::{lemma_lex_total, lemma_lex_transitive};
use crate::training::{
    alphabet, alphabet_upto, beats, best_pair, count_in, initial_corpus, initial_entries,
    initial_model, is_best, lemma_alphabet_distinct, lemma_alphabet_holds,
    lemma_counted_pair_stands, lemma_merge_shortens, lemma_occurrences_bound, merge_from,
    merge_step, merged_text, occurrences, pair_at, pair_before, pair_count_in,
    pair_counts, sound, sum_counts, window_counts, Counts, Model,
};
use crate::vocabulary::{distinct_texts, entry_texts};

verus! {

/// A pair is counted in a window at most once for each offset of the window.
pub proof fn lemma_pair_count_bound(
    corpus: Seq<usize>,
    left: usize,
    right: usize,
    from: int,
    to: int,
)
    requires
        from <= to,
    ensures
        pair_count_in(corpus, left, right, from, to) <= to - from,
    decreases to - from,
{
    if from < to {
        lemma_pair_count_bound(corpus, left, right, from, to - 1);
    }
}

/// The frequencies in a window are those in its left part plus those in its
/// right part.
pub proof fn lemma_pair_count_split(
    corpus: Seq<usize>,
    left: usize,
    right: usize,
    from: int,
    mid: int,
    to: int,
)
    requires
        from <= mid <= to,
    ensures
        pair_count_in(corpus, left, right, from, to) == pair_count_in(
            corpus,
            left,
            right,
            from,
            mid,
        ) + pair_count_in(corpus, left, right, mid, to),
    decreases to - mid,
{
    if mid < to {
        lemma_pair_count_split(corpus, left, right, from, mid, to - 1);
    }
}

/// Counting may be shared out: the frequencies of two windows that meet,
/// combined, are the frequencies of the two windows taken as one.
pub proof fn lemma_window_counts_split(corpus: Seq<usize>, from: int, mid: int, to: int)
    requires
        from <= mid <= to,
    ensures
        sum_counts(window_counts(corpus, from, mid), window_counts(corpus, mid, to))
            == window_counts(corpus, from, to),
{
    let a = window_counts(corpus, from, mid);
    let b = window_counts(corpus, mid, to);
    let whole = window_counts(corpus, from, to);
    assert forall|p: (usize, usize)|
        sum_counts(a, b).contains_key(p) <==> #[trigger] whole.contains_key(p) by {
        lemma_pair_count_split(corpus, p.0, p.1, from, mid, to);
    }
    assert forall|p: (usize, usize)| #[trigger] whole.contains_key(p) implies sum_counts(a, b)[p]
        == whole[p] by {
        lemma_pair_count_split(corpus, p.0, p.1, from, mid, to);
    }
    assert(sum_counts(a, b) =~= whole);
}

/// The cuts never fall from one to the next.
pub open spec fn rising_cuts(cuts: Seq<int>) -> bool {
    forall|i: int, j: int| 0 <= i <= j < cuts.len() ==> cuts[i] <= cuts[j]
}

/// The frequencies of the first `k` windows that the cuts mark off, combined
/// one after the other.
pub open spec fn parts_counts(corpus: Seq<usize>, cuts: Seq<int>, k: int) -> Counts
    decreases k,
{
    if k <= 0 {
        Map::empty()
    } else {
        sum_counts(parts_counts(corpus, cuts, k - 1), window_counts(corpus, cuts[k - 1], cuts[k]))
    }
}

/// However the offsets of a corpus are cut into windows that follow one
/// another, the frequencies of the windows combine to the frequencies of the
/// whole: the count does not depend on how the work is shared out.
pub proof fn lemma_parts_counts(corpus: Seq<usize>, cuts: Seq<int>, k: int)
    requires
        rising_cuts(cuts),
        0 <= k < cuts.len(),
    ensures
        parts_counts(corpus, cuts, k) == window_counts(corpus, cuts[0], cuts[k]),
    decreases k,
{
    if k == 0 {
        assert(window_counts(corpus, cuts[0], cuts[0]) =~= Map::<(usize, usize), nat>::empty());
    } else {
        lemma_parts_counts(corpus, cuts, k - 1);
        lemma_window_counts_split(corpus, cuts[0], cuts[k - 1], cuts[k]);
    }
}

/// Combining frequencies does not depend on the order of the two maps.
pub proof fn lemma_sum_counts_commutes(a: Counts, b: Counts)
    ensures
        sum_counts(a, b) == sum_counts(b, a),
{
    assert(sum_counts(a, b) =~= sum_counts(b, a));
}

/// Combining frequencies does not depend on how the maps are grouped.
pub proof fn lemma_sum_counts_associates(a: Counts, b: Counts, c: Counts)
    ensures
        sum_counts(sum_counts(a, b), c) == sum_counts(a, sum_counts(b, c)),
{
    assert(sum_counts(sum_counts(a, b), c) =~= sum_counts(a, sum_counts(b, c)));
}

/// The map without pairs changes nothing when it is combined with another.
pub proof fn lemma_sum_counts_empty(a: Counts)
    ensures
        sum_counts(a, Map::empty()) == a,
        sum_counts(Map::empty(), a) == a,
{
    assert(sum_counts(a, Map::empty()) =~= a);
    assert(sum_counts(Map::empty(), a) =~= a);
}

/// The order of pairs carries over.
pub proof fn lemma_pair_before_transitive(
    texts: Seq<Seq<char>>,
    a: (usize, usize),
    b: (usize, usize),
    c: (usize, usize),
)
    requires
        pair_before(texts, a, b),
        pair_before(texts, b, c),
    ensures
        pair_before(texts, a, c),
{
    let (a0, a1) = (texts[a.0 as int], texts[a.1 as int]);
    let (b0, b1) = (texts[b.0 as int], texts[b.1 as int]);
    let (c0, c1) = (texts[c.0 as int], texts[c.1 as int]);
    lemma_lex_total(a0, b0);
    lemma_lex_total(b0, c0);
    if a0 != b0 && b0 != c0 {
        lemma_lex_transitive(a0, b0, c0);
    } else if a0 == b0 && b0 == c0 {
        lemma_lex_transitive(a1, b1, c1);
    }
}

/// What beats a pair beats all that the pair beats.
pub proof fn lemma_beats_transitive(
    texts: Seq<Seq<char>>,
    counts: Counts,
    a: (usize, usize),
    b: (usize, usize),
    c: (usize, usize),
)
    requires
        beats(texts, counts, a, b),
        beats(texts, counts, b, c),
    ensures
        beats(texts, counts, a, c),
{
    if count_in(counts, a) == count_in(counts, b) && count_in(counts, b) == count_in(counts, c) {
        lemma_pair_before_transitive(texts, a, b, c);
    }
}

/// No pair beats itself, and of two different pairs of tokens with distinct
/// texts one beats the other.
pub proof fn lemma_beats_total(
    texts: Seq<Seq<char>>,
    counts: Counts,
    a: (usize, usize),
    b: (usize, usize),
)
    requires
        distinct_texts(texts),
        a.0 < texts.len(),
        a.1 < texts.len(),
        b.0 < texts.len(),
        b.1 < texts.len(),
    ensures
        !beats(texts, counts, a, a),
        a != b ==> beats(texts, counts, a, b) || beats(texts, counts, b, a),
{
    lemma_lex_total(texts[a.0 as int], texts[a.0 as int]);
    lemma_lex_total(texts[a.1 as int], texts[a.1 as int]);
    lemma_lex_total(texts[a.0 as int], texts[b.0 as int]);
    lemma_lex_total(texts[a.1 as int], texts[b.1 as int]);
    if a != b && !beats(texts, counts, a, b) && !beats(texts, counts, b, a) {
        if a.0 != b.0 {
            let (i, j) = if a.0 < b.0 {
                (a.0 as int, b.0 as int)
            } else {
                (b.0 as int, a.0 as int)
            };
            assert(texts[i] != texts[j]);
        } else {
            let (i, j) = if a.1 < b.1 {
                (a.1 as int, b.1 as int)
            } else {
                (b.1 as int, a.1 as int)
            };
            assert(texts[i] != texts[j]);
        }
    }
}

/// All counted pairs are pairs of tokens of a vocabulary of `size` tokens.
pub open spec fn counts_within(counts: Counts, size: nat) -> bool {
    forall|p: (usize, usize)| #[trigger] counts.contains_key(p) ==> p.0 < size && p.1 < size
}

/// The choice of the pair to merge is unique: a pair that no counted pair
/// beats is the best pair.
pub proof fn lemma_best_unique(texts: Seq<Seq<char>>, counts: Counts, p: (usize, usize))
    requires
        distinct_texts(texts),
        counts_within(counts, texts.len()),
        is_best(texts, counts, p),
    ensures
        best_pair(texts, counts) == Some(p),
{
    let q = choose|q: (usize, usize)| is_best(texts, counts, q);
    assert(is_best(texts, counts, q));
    assert(counts.contains_key(p));
    assert(counts.contains_key(q));
    lemma_beats_total(texts, counts, p, q);
}

/// The pairs counted in a corpus are pairs of the symbols of the corpus.
pub proof fn lemma_pair_counts_within(corpus: Seq<usize>, size: nat)
    requires
        forall|k: int| 0 <= k < corpus.len() ==> (#[trigger] corpus[k]) < size,
    ensures
        counts_within(pair_counts(corpus), size),
{
    assert forall|p: (usize, usize)| #[trigger]
        pair_counts(corpus).contains_key(p) implies p.0 < size && p.1 < size by {
        lemma_counted_pair_stands(corpus, p.0, p.1, 0, corpus.len() - 1);
        let i = choose|i: int|
            0 <= i < corpus.len() - 1 && i < corpus.len() - 1 && #[trigger] pair_at(corpus, i) == p;
        assert(corpus[i] < size);
        assert(corpus[i + 1] < size);
    }
}

/// What two lists of identifiers spell one after the other is what the two
/// spell put together.
pub proof fn lemma_decode_concat(texts: Seq<Seq<char>>, a: Seq<usize>, b: Seq<usize>)
    ensures
        decode(texts, a + b) == decode(texts, a) + decode(texts, b),
{
    assert(token_texts(texts, a + b) =~= token_texts(texts, a) + token_texts(texts, b));
    lemma_flatten_concat(token_texts(texts, a), token_texts(texts, b));
}

/// One identifier spells the text of its token; none spell nothing.
pub proof fn lemma_decode_one(texts: Seq<Seq<char>>, id: usize)
    ensures
        decode(texts, seq![id]) == texts[id as int],
        decode(texts, Seq::<usize>::empty()) == Seq::<char>::empty(),
{
    assert(token_texts(texts, seq![id]) =~= seq![texts[id as int]]);
    seq![texts[id as int]].lemma_flatten_one_element();
    assert(token_texts(texts, Seq::<usize>::empty()) =~= Seq::<Seq<char>>::empty());
}

/// The rewritten corpus spells what the corpus spelled: a merge changes how
/// the text is cut into symbols and nothing else.
pub proof fn lemma_merge_spells(
    old_texts: Seq<Seq<char>>,
    new_texts: Seq<Seq<char>>,
    corpus: Seq<usize>,
    left: usize,
    right: usize,
    merged: usize,
    from: int,
)
    requires
        0 <= from <= corpus.len(),
        forall|k: int| 0 <= k < corpus.len() ==> (#[trigger] corpus[k]) < old_texts.len(),
        old_texts.len() <= new_texts.len(),
        forall|i: int| 0 <= i < old_texts.len() ==> old_texts[i] == new_texts[i],
        left < old_texts.len(),
        right < old_texts.len(),
        merged < new_texts.len(),
        new_texts[merged as int] == old_texts[left as int] + old_texts[right as int],
    ensures
        decode(new_texts, merge_from(corpus, left, right, merged, from)) == decode(
            old_texts,
            corpus.skip(from),
        ),
    decreases corpus.len() - from,
{
    if from >= corpus.len() {
        assert(corpus.skip(from) =~= Seq::<usize>::empty());
        lemma_decode_one(old_texts, 0);
        lemma_decode_one(new_texts, 0);
    } else if from + 1 < corpus.len() && pair_at(corpus, from) == (left, right) {
        let rest = merge_from(corpus, left, right, merged, from + 2);
        lemma_merge_spells(old_texts, new_texts, corpus, left, right, merged, from + 2);
        lemma_decode_concat(new_texts, seq![merged], rest);
        lemma_decode_one(new_texts, merged);
        assert(corpus.skip(from) =~= seq![left] + (seq![right] + corpus.skip(from + 2)));
        lemma_decode_concat(old_texts, seq![left], seq![right] + corpus.skip(from + 2));
        lemma_decode_concat(old_texts, seq![right], corpus.skip(from + 2));
        lemma_decode_one(old_texts, left);
        lemma_decode_one(old_texts, right);
        assert(decode(old_texts, corpus.skip(from)) =~= old_texts[left as int]
            + old_texts[right as int] + decode(old_texts, corpus.skip(from + 2)));
    } else {
        let rest = merge_from(corpus, left, right, merged, from + 1);
        lemma_merge_spells(old_texts, new_texts, corpus, left, right, merged, from + 1);
        lemma_decode_concat(new_texts, seq![corpus[from]], rest);
        lemma_decode_one(new_texts, corpus[from]);
        assert(corpus.skip(from) =~= seq![corpus[from]] + corpus.skip(from + 1));
        lemma_decode_concat(old_texts, seq![corpus[from]], corpus.skip(from + 1));
        lemma_decode_one(old_texts, corpus[from]);
    }
}

/// The rewritten corpus names only symbols of the corpus and the merged
/// token.
pub proof fn lemma_merge_ids(
    corpus: Seq<usize>,
    left: usize,
    right: usize,
    merged: usize,
    from: int,
    size: nat,
)
    requires
        0 <= from,
        forall|k: int| 0 <= k < corpus.len() ==> (#[trigger] corpus[k]) < size,
        merged < size,
    ensures
        forall|k: int|
            0 <= k < merge_from(corpus, left, right, merged, from).len() ==> (#[trigger] merge_from(
                corpus,
                left,
                right,
                merged,
                from,
            )[k]) < size,
    decreases corpus.len() - from,
{
    let all = merge_from(corpus, left, right, merged, from);
    if from >= corpus.len() {
    } else if from + 1 < corpus.len() && pair_at(corpus, from) == (left, right) {
        lemma_merge_ids(corpus, left, right, merged, from + 2, size);
        let rest = merge_from(corpus, left, right, merged, from + 2);
        assert forall|k: int| 0 <= k < all.len() implies (#[trigger] all[k]) < size by {
            if k > 0 {
                assert(all[k] == rest[k - 1]);
            }
        }
    } else {
        lemma_merge_ids(corpus, left, right, merged, from + 1, size);
        let rest = merge_from(corpus, left, right, merged, from + 1);
        assert forall|k: int| 0 <= k < all.len() implies (#[trigger] all[k]) < size by {
            if k > 0 {
                assert(all[k] == rest[k - 1]);
            }
        }
    }
}

/// Two neighbours in the corpus are together no longer than the text that the
/// corpus spells.
pub proof fn lemma_pair_length(texts: Seq<Seq<char>>, corpus: Seq<usize>, i: int)
    requires
        0 <= i < corpus.len() - 1,
    ensures
        texts[corpus[i] as int].len() + texts[corpus[i + 1] as int].len() <= decode(
            texts,
            corpus,
        ).len(),
{
    let head = corpus.take(i);
    let pair = seq![corpus[i]] + seq![corpus[i + 1]];
    let tail = corpus.skip(i + 2);
    assert(corpus =~= head + (pair + tail));
    lemma_decode_concat(texts, head, pair + tail);
    lemma_decode_concat(texts, pair, tail);
    lemma_decode_concat(texts, seq![corpus[i]], seq![corpus[i + 1]]);
    lemma_decode_one(texts, corpus[i]);
    lemma_decode_one(texts, corpus[i + 1]);
}

/// What a merge that makes a new text keeps and changes: the state still
/// holds together, the corpus gets shorter and spells the same text, and the
/// vocabulary keeps every token as it was and gains one.
pub proof fn lemma_merge_keeps_sound(model: Model, p: (usize, usize))
    requires
        sound(model),
        model.entries.len() < usize::MAX,
        pair_counts(model.corpus).contains_key(p),
        !entry_texts(model.entries).contains(merged_text(model.entries, p)),
    ensures
        ({
            let next = merge_step(model, p);
            &&& sound(next)
            &&& decode(entry_texts(next.entries), next.corpus) == decode(
                entry_texts(model.entries),
                model.corpus,
            )
            &&& next.corpus.len() < model.corpus.len()
            &&& next.entries.len() == model.entries.len() + 1
            &&& forall|i: int|
                0 <= i < model.entries.len() ==> #[trigger] next.entries[i] == model.entries[i]
            &&& p.0 < model.entries.len()
            &&& p.1 < model.entries.len()
            &&& merged_text(model.entries, p).len() > 0
        }),
{
    let next = merge_step(model, p);
    let texts = entry_texts(model.entries);
    let new_texts = entry_texts(next.entries);
    let corpus = model.corpus;
    let n = decode(texts, corpus).len() as int;
    let text = merged_text(model.entries, p);
    let m = model.entries.len() as int;
    lemma_counted_pair_stands(corpus, p.0, p.1, 0, corpus.len() - 1);
    let i = choose|i: int|
        0 <= i < corpus.len() - 1 && i < corpus.len() - 1 && #[trigger] pair_at(corpus, i) == p;
    assert(corpus[i] == p.0 && corpus[i + 1] == p.1);
    assert(corpus[i] < model.entries.len());
    assert(corpus[i + 1] < model.entries.len());
    lemma_pair_length(texts, corpus, i);
    let left = model.entries[p.0 as int];
    let right = model.entries[p.1 as int];
    assert(texts[p.0 as int] == left.text);
    assert(texts[p.1 as int] == right.text);
    assert(text.len() == left.text.len() + right.text.len());
    assert(left.text.len() > 0);
    assert(next.entries[m].text == text);
    assert(new_texts[m] == texts[p.0 as int] + texts[p.1 as int]);
    assert forall|k: int| 0 <= k < texts.len() implies texts[k] == new_texts[k] by {}
    lemma_merge_spells(texts, new_texts, corpus, p.0, p.1, m as usize, 0);
    assert(corpus.skip(0) =~= corpus);
    lemma_merge_ids(corpus, p.0, p.1, m as usize, 0, next.entries.len());
    lemma_merge_shortens(corpus, p.0, p.1, m as usize, 0);
    assert(distinct_texts(new_texts)) by {
        assert forall|a: int, b: int| 0 <= a < b < new_texts.len() implies #[trigger] new_texts[a]
            != #[trigger] new_texts[b] by {
            if b < texts.len() {
                assert(texts[a] != texts[b]);
            } else {
                assert(texts[a] == new_texts[a]);
            }
        }
        assert forall|a: int| 0 <= a < new_texts.len() implies (#[trigger] new_texts[a]).len()
            > 0 by {
            if a < texts.len() {
                assert(texts[a].len() > 0);
            }
        }
    }
    assert forall|a: int| 0 <= a < next.entries.len() implies (
    #[trigger] next.entries[a]).text.len() <= n && next.entries[a].weight
        <= next.entries[a].text.len() * n by {
        if a < model.entries.len() {
            assert(next.entries[a] == model.entries[a]);
        } else {
            let (x, y) = (left.text.len() as int, right.text.len() as int);
            assert(left.weight <= x * n);
            assert(right.weight <= y * n);
            assert((x + y) * n == x * n + y * n) by (nonlinear_arith);
        }
    }
}

/// An alphabet is no longer than the text it was taken from.
pub proof fn lemma_alphabet_len(text: Seq<char>, n: int)
    requires
        0 <= n,
    ensures
        alphabet_upto(text, n).len() <= n,
    decreases n,
{
    if n > 0 {
        lemma_alphabet_len(text, n - 1);
    }
}

/// The first `k` symbols of the first corpus spell the first `k` characters
/// of the text.
proof fn lemma_initial_spells(text: Seq<char>, k: int)
    requires
        0 <= k <= text.len(),
        text.len() <= usize::MAX,
    ensures
        decode(entry_texts(initial_entries(text)), initial_corpus(text).take(k)) == text.take(k),
    decreases k,
{
    let texts = entry_texts(initial_entries(text));
    let corpus = initial_corpus(text);
    if k == 0 {
        lemma_decode_one(texts, 0);
        assert(corpus.take(0) =~= Seq::<usize>::empty());
        assert(text.take(0) =~= Seq::<char>::empty());
    } else {
        lemma_initial_spells(text, k - 1);
        lemma_alphabet_holds(text, text.len() as int, k - 1);
        let id = alphabet(text).index_of(text[k - 1]);
        assert(0 <= id < alphabet(text).len() && alphabet(text)[id] == text[k - 1]);
        lemma_alphabet_len(text, text.len() as int);
        assert(corpus[k - 1] == id as usize);
        assert(corpus.take(k) =~= corpus.take(k - 1) + seq![corpus[k - 1]]);
        lemma_decode_concat(texts, corpus.take(k - 1), seq![corpus[k - 1]]);
        lemma_decode_one(texts, corpus[k - 1]);
        assert(texts[id] == seq![text[k - 1]]);
        assert(text.take(k) =~= text.take(k - 1) + seq![text[k - 1]]);
    }
}

/// The state in which training starts holds together, its corpus spells
/// the text, and each character of the text is a token of its own.
pub proof fn lemma_initial_model(text: Seq<char>)
    requires
        text.len() <= usize::MAX,
    ensures
        sound(initial_model(text)),
        decode(entry_texts(initial_entries(text)), initial_corpus(text)) == text,
        initial_entries(text).len() <= text.len(),
        forall|j: int|
            0 <= j < text.len() ==> has_char_token(
                entry_texts(initial_entries(text)),
                #[trigger] text[j],
            ),
{
    let model = initial_model(text);
    let texts = entry_texts(model.entries);
    let all = alphabet(text);
    lemma_alphabet_distinct(text, text.len() as int);
    lemma_alphabet_len(text, text.len() as int);
    lemma_initial_spells(text, text.len() as int);
    assert(model.corpus.take(text.len() as int) =~= model.corpus);
    assert(text.take(text.len() as int) =~= text);
    assert forall|i: int, j: int| 0 <= i < j < texts.len() implies #[trigger] texts[i]
        != #[trigger] texts[j] by {
        assert(texts[i][0] == all[i]);
        assert(texts[j][0] == all[j]);
    }
    assert forall|k: int| 0 <= k < model.corpus.len() implies (#[trigger] model.corpus[k])
        < model.entries.len() by {
        lemma_alphabet_holds(text, text.len() as int, k);
        let id = all.index_of(text[k]);
        assert(all[id] == text[k]);
    }
    assert forall|i: int| 0 <= i < model.entries.len() implies (#[trigger] model.entries[i]).text.len()
        <= text.len() && model.entries[i].weight <= model.entries[i].text.len() * text.len() by {
        lemma_occurrences_bound(text, all[i], text.len() as int);
        assert(model.entries[i].text.len() == 1);
        assert(model.entries[i].weight == occurrences(text, all[i]));
        assert(1 * text.len() == text.len());
    }
    assert forall|j: int| 0 <= j < text.len() implies has_char_token(texts, #[trigger] text[j]) by {
        lemma_alphabet_holds(text, text.len() as int, j);
        let id = all.index_of(text[j]);
        assert(all[id] == text[j]);
        assert(texts[id] == seq![text[j]]);
    }
}

} // verus!
