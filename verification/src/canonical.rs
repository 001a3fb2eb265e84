//! Why every merge makes a new token. The symbols into which training has
//! cut a stretch of text depend on that stretch alone, not on what stands
//! around it: they are what the merges made so far give when they are applied
//! to the stretch by itself. A token is one symbol of its own text, two
//! neighbours are two symbols of theirs, so the text of two neighbours is
//! never the text of a token.

use vstd::prelude::*;
use crate::segment::decode;
use crate::training::{
    alphabet, initial_model, lemma_alphabet_distinct, lemma_counted_pair_stands, merge_from,
    merge_step, merged_text, pair_at, pair_counts, sound, Model,
};
use crate::training_laws::{
    lemma_alphabet_len, lemma_decode_concat, lemma_decode_one, lemma_initial_model,
    lemma_merge_keeps_sound, lemma_merge_spells,
};
use crate::vocabulary::entry_texts;

verus! {

/// The symbols after the first `k` merges of `history` were applied, one
/// after the other, to `symbols`. The merges make the tokens `base`,
/// `base + 1` and so on.
pub open spec fn replay(
    history: Seq<(usize, usize)>,
    base: int,
    symbols: Seq<usize>,
    k: int,
) -> Seq<usize>
    decreases k,
{
    if k <= 0 {
        symbols
    } else {
        merge_from(
            replay(history, base, symbols, k - 1),
            history[k - 1].0,
            history[k - 1].1,
            (base + k - 1) as usize,
            0,
        )
    }
}

/// The text as symbols before any merge: for each character its place among
/// the letters.
pub open spec fn char_ids(letters: Seq<char>, text: Seq<char>) -> Seq<usize> {
    Seq::new(text.len(), |i: int| letters.index_of(text[i]) as usize)
}

/// The symbols into which the merges of `history` cut `text` where it stands
/// alone.
pub open spec fn alone(letters: Seq<char>, history: Seq<(usize, usize)>, text: Seq<char>) -> Seq<
    usize,
> {
    replay(history, letters.len() as int, char_ids(letters, text), history.len() as int)
}

/// The state came about by the merges of `history` from a first vocabulary
/// with the given letters: each token is the one symbol of its text, and each
/// stretch of the corpus is cut as its text is cut alone.
pub open spec fn derived(model: Model, letters: Seq<char>, history: Seq<(usize, usize)>) -> bool {
    let texts = entry_texts(model.entries);
    &&& model.entries.len() == letters.len() + history.len()
    &&& forall|m: int|
        0 <= m < texts.len() ==> alone(letters, history, #[trigger] texts[m]) == seq![m as usize]
    &&& forall|i: int, j: int|
        0 <= i <= j <= model.corpus.len() ==> alone(
            letters,
            history,
            decode(texts, #[trigger] model.corpus.subrange(i, j)),
        ) == model.corpus.subrange(i, j)
}

/// The corpus of the state is cut as some history of merges cuts its text.
pub open spec fn canonical(model: Model) -> bool {
    exists|letters: Seq<char>, history: Seq<(usize, usize)>| derived(model, letters, history)
}

/// Rewriting from an offset is rewriting what stands from that offset on.
proof fn lemma_merge_shift(corpus: Seq<usize>, x: usize, y: usize, z: usize, from: int)
    requires
        0 <= from <= corpus.len(),
    ensures
        merge_from(corpus, x, y, z, from) == merge_from(corpus.skip(from), x, y, z, 0),
    decreases corpus.len() - from,
{
    let rest = corpus.skip(from);
    if from >= corpus.len() {
    } else if from + 1 < corpus.len() && pair_at(corpus, from) == (x, y) {
        lemma_merge_shift(corpus, x, y, z, from + 2);
        lemma_merge_shift(rest, x, y, z, 2);
        assert(rest.skip(2) =~= corpus.skip(from + 2));
        assert(pair_at(rest, 0) == (x, y));
    } else {
        lemma_merge_shift(corpus, x, y, z, from + 1);
        lemma_merge_shift(rest, x, y, z, 1);
        assert(rest.skip(1) =~= corpus.skip(from + 1));
        assert(rest[0] == corpus[from]);
        if 1 < rest.len() {
            assert(pair_at(rest, 0) == pair_at(corpus, from));
        }
    }
}

/// What is left of the rewritten corpus behind its first `n` symbols is the
/// corpus rewritten from some offset on.
proof fn lemma_merge_suffix(corpus: Seq<usize>, x: usize, y: usize, z: usize, n: int) -> (p: int)
    requires
        0 <= n <= merge_from(corpus, x, y, z, 0).len(),
    ensures
        0 <= p <= corpus.len(),
        merge_from(corpus, x, y, z, 0).skip(n) == merge_from(corpus, x, y, z, p),
    decreases n,
{
    let all = merge_from(corpus, x, y, z, 0);
    if n == 0 {
        assert(all.skip(0) =~= all);
        0
    } else {
        let q = lemma_merge_suffix(corpus, x, y, z, n - 1);
        let rest = merge_from(corpus, x, y, z, q);
        assert(rest.len() == all.len() - (n - 1));
        if q + 1 < corpus.len() && pair_at(corpus, q) == (x, y) {
            assert(all.skip(n) =~= all.skip(n - 1).skip(1));
            assert(rest.skip(1) =~= merge_from(corpus, x, y, z, q + 2));
            q + 2
        } else {
            assert(all.skip(n) =~= all.skip(n - 1).skip(1));
            assert(rest.skip(1) =~= merge_from(corpus, x, y, z, q + 1));
            q + 1
        }
    }
}

/// The first `n` symbols of a corpus rewritten from `from` on are the
/// rewriting of the corpus cut off at some offset.
proof fn lemma_merge_prefix(
    corpus: Seq<usize>,
    x: usize,
    y: usize,
    z: usize,
    from: int,
    n: int,
) -> (q: int)
    requires
        0 <= from <= corpus.len(),
        0 <= n <= merge_from(corpus, x, y, z, from).len(),
    ensures
        from <= q <= corpus.len(),
        merge_from(corpus, x, y, z, from).take(n) == merge_from(corpus.take(q), x, y, z, from),
    decreases n,
{
    let all = merge_from(corpus, x, y, z, from);
    if n == 0 {
        assert(all.take(0) =~= Seq::<usize>::empty());
        from
    } else if from + 1 < corpus.len() && pair_at(corpus, from) == (x, y) {
        let q = lemma_merge_prefix(corpus, x, y, z, from + 2, n - 1);
        let rest = merge_from(corpus, x, y, z, from + 2);
        assert(all.take(n) =~= seq![z] + rest.take(n - 1));
        assert(pair_at(corpus.take(q), from) == (x, y));
        q
    } else {
        let q = lemma_merge_prefix(corpus, x, y, z, from + 1, n - 1);
        let rest = merge_from(corpus, x, y, z, from + 1);
        assert(all.take(n) =~= seq![corpus[from]] + rest.take(n - 1));
        if from + 1 < q {
            assert(pair_at(corpus.take(q), from) == pair_at(corpus, from));
        }
        assert(corpus.take(q)[from] == corpus[from]);
        q
    }
}

/// Every stretch of the rewritten corpus is the rewriting of a stretch of the
/// corpus.
proof fn lemma_merge_local(
    corpus: Seq<usize>,
    x: usize,
    y: usize,
    z: usize,
    i: int,
    j: int,
) -> (r: (int, int))
    requires
        0 <= i <= j <= merge_from(corpus, x, y, z, 0).len(),
    ensures
        0 <= r.0 <= r.1 <= corpus.len(),
        merge_from(corpus, x, y, z, 0).subrange(i, j) == merge_from(
            corpus.subrange(r.0, r.1),
            x,
            y,
            z,
            0,
        ),
{
    let all = merge_from(corpus, x, y, z, 0);
    let p = lemma_merge_suffix(corpus, x, y, z, i);
    let q = lemma_merge_prefix(corpus, x, y, z, p, j - i);
    assert(all.subrange(i, j) =~= all.skip(i).take(j - i));
    lemma_merge_shift(corpus.take(q), x, y, z, p);
    assert(corpus.take(q).skip(p) =~= corpus.subrange(p, q));
    (p, q)
}

/// A longer history replays as the shorter one as far as that one goes.
proof fn lemma_replay_extends(
    history: Seq<(usize, usize)>,
    p: (usize, usize),
    base: int,
    symbols: Seq<usize>,
    k: int,
)
    requires
        0 <= k <= history.len(),
    ensures
        replay(history.push(p), base, symbols, k) == replay(history, base, symbols, k),
    decreases k,
{
    if k > 0 {
        lemma_replay_extends(history, p, base, symbols, k - 1);
        assert(history.push(p)[k - 1] == history[k - 1]);
    }
}

/// With one more merge, a text alone is cut as before and then rewritten with
/// that merge.
proof fn lemma_alone_step(
    letters: Seq<char>,
    history: Seq<(usize, usize)>,
    p: (usize, usize),
    text: Seq<char>,
)
    ensures
        alone(letters, history.push(p), text) == merge_from(
            alone(letters, history, text),
            p.0,
            p.1,
            (letters.len() + history.len()) as usize,
            0,
        ),
{
    let longer = history.push(p);
    lemma_replay_extends(
        history,
        p,
        letters.len() as int,
        char_ids(letters, text),
        history.len() as int,
    );
    assert(longer[history.len() as int] == p);
}

/// In a state that merges made, the text of two neighbours is the text of no
/// token.
pub proof fn lemma_merged_text_is_new(model: Model, p: (usize, usize))
    requires
        sound(model),
        canonical(model),
        pair_counts(model.corpus).contains_key(p),
    ensures
        !entry_texts(model.entries).contains(merged_text(model.entries, p)),
{
    let texts = entry_texts(model.entries);
    let text = merged_text(model.entries, p);
    let (letters, history) = choose|letters: Seq<char>, history: Seq<(usize, usize)>|
        derived(model, letters, history);
    lemma_counted_pair_stands(model.corpus, p.0, p.1, 0, model.corpus.len() - 1);
    let i = choose|i: int|
        0 <= i < model.corpus.len() - 1 && i < model.corpus.len() - 1 && #[trigger] pair_at(
            model.corpus,
            i,
        ) == p;
    let two = model.corpus.subrange(i, i + 2);
    assert(two =~= seq![p.0] + seq![p.1]);
    assert(model.corpus[i] < model.entries.len() && model.corpus[i + 1] < model.entries.len());
    lemma_decode_concat(texts, seq![p.0], seq![p.1]);
    lemma_decode_one(texts, p.0);
    lemma_decode_one(texts, p.1);
    assert(decode(texts, two) == text);
    assert(alone(letters, history, decode(texts, two)) == two);
    if texts.contains(text) {
        let m = choose|m: int| 0 <= m < texts.len() && texts[m] == text;
        assert(alone(letters, history, texts[m]) == seq![m as usize]);
        assert(two.len() == 2);
        assert(seq![m as usize].len() == 1);
    }
}

/// The state is fit for training: it holds together and merges made it.
pub open spec fn trainable(model: Model) -> bool {
    sound(model) && canonical(model)
}

/// What one merge keeps and changes: the state stays fit for training, the
/// corpus gets shorter and spells the same text, and the vocabulary keeps
/// every token as it was and gains exactly one, whose text is new to it.
pub proof fn lemma_merge_step_keeps(model: Model, p: (usize, usize))
    requires
        trainable(model),
        model.entries.len() < usize::MAX,
        pair_counts(model.corpus).contains_key(p),
    ensures
        ({
            let next = merge_step(model, p);
            &&& trainable(next)
            &&& !entry_texts(model.entries).contains(merged_text(model.entries, p))
            &&& decode(entry_texts(next.entries), next.corpus) == decode(
                entry_texts(model.entries),
                model.corpus,
            )
            &&& next.corpus.len() < model.corpus.len()
            &&& next.entries.len() == model.entries.len() + 1
            &&& forall|i: int|
                0 <= i < model.entries.len() ==> #[trigger] next.entries[i] == model.entries[i]
            &&& p.0 < model.entries.len()
            &&& p.1 < model.entries.len()
            &&& merged_text(model.entries, p).len() > 0
        }),
{
    let next = merge_step(model, p);
    let texts = entry_texts(model.entries);
    let new_texts = entry_texts(next.entries);
    let (letters, history) = choose|letters: Seq<char>, history: Seq<(usize, usize)>|
        derived(model, letters, history);
    let longer = history.push(p);
    let z = model.entries.len() as usize;
    lemma_merged_text_is_new(model, p);
    lemma_merge_keeps_sound(model, p);
    assert(next.corpus == merge_from(model.corpus, p.0, p.1, z, 0));
    assert forall|m: int| 0 <= m < new_texts.len() implies alone(
        letters,
        longer,
        #[trigger] new_texts[m],
    ) == seq![m as usize] by {
        lemma_alone_step(letters, history, p, new_texts[m]);
        if m < texts.len() {
            assert(new_texts[m] == texts[m]);
            assert(alone(letters, history, texts[m]) == seq![m as usize]);
            lemma_merge_single(m as usize, p.0, p.1, z);
        } else {
            lemma_counted_pair_stands(model.corpus, p.0, p.1, 0, model.corpus.len() - 1);
            let i = choose|i: int|
                0 <= i < model.corpus.len() - 1 && i < model.corpus.len() - 1 && #[trigger] pair_at(
                    model.corpus,
                    i,
                ) == p;
            let two = model.corpus.subrange(i, i + 2);
            assert(two =~= seq![p.0] + seq![p.1]);
            lemma_decode_concat(texts, seq![p.0], seq![p.1]);
            lemma_decode_one(texts, p.0);
            lemma_decode_one(texts, p.1);
            assert(alone(letters, history, decode(texts, two)) == two);
            lemma_merge_two(p.0, p.1, z);
        }
    }
    assert forall|i: int, j: int| 0 <= i <= j <= next.corpus.len() implies alone(
        letters,
        longer,
        decode(new_texts, #[trigger] next.corpus.subrange(i, j)),
    ) == next.corpus.subrange(i, j) by {
        let (a, b) = lemma_merge_local(model.corpus, p.0, p.1, z, i, j);
        let part = model.corpus.subrange(a, b);
        assert(next.corpus.subrange(i, j) == merge_from(part, p.0, p.1, z, 0));
        assert forall|k: int| 0 <= k < texts.len() implies texts[k] == new_texts[k] by {}
        lemma_merge_spells(texts, new_texts, part, p.0, p.1, z, 0);
        assert(part.skip(0) =~= part);
        lemma_alone_step(letters, history, p, decode(texts, part));
        assert(alone(letters, history, decode(texts, part)) == part);
    }
    assert(derived(next, letters, longer));
    assert(canonical(next));
}

/// One symbol alone is rewritten to itself.
proof fn lemma_merge_single(m: usize, x: usize, y: usize, z: usize)
    ensures
        merge_from(seq![m], x, y, z, 0) == seq![m],
{
    reveal_with_fuel(merge_from, 2);
    assert(merge_from(seq![m], x, y, z, 1) =~= Seq::<usize>::empty());
    assert(merge_from(seq![m], x, y, z, 0) =~= seq![m]);
}

/// The pair alone is rewritten to the merged token.
proof fn lemma_merge_two(x: usize, y: usize, z: usize)
    ensures
        merge_from(seq![x] + seq![y], x, y, z, 0) == seq![z],
{
    let two = seq![x] + seq![y];
    reveal_with_fuel(merge_from, 2);
    assert(pair_at(two, 0) == (x, y));
    assert(merge_from(two, x, y, z, 2) =~= Seq::<usize>::empty());
    assert(merge_from(two, x, y, z, 0) =~= seq![z]);
}

/// What symbols with texts of one letter each spell.
proof fn lemma_letters_spell(letters: Seq<char>, texts: Seq<Seq<char>>, symbols: Seq<usize>)
    requires
        letters.len() <= texts.len(),
        forall|b: int| 0 <= b < letters.len() ==> #[trigger] texts[b] == seq![letters[b]],
        forall|k: int| 0 <= k < symbols.len() ==> (#[trigger] symbols[k]) < letters.len(),
    ensures
        decode(texts, symbols) == Seq::new(symbols.len(), |k: int| letters[symbols[k] as int]),
    decreases symbols.len(),
{
    let spelled = Seq::new(symbols.len(), |k: int| letters[symbols[k] as int]);
    if symbols.len() == 0 {
        lemma_decode_one(texts, 0);
        assert(symbols =~= Seq::<usize>::empty());
        assert(spelled =~= Seq::<char>::empty());
    } else {
        let head = symbols.drop_last();
        let last = symbols.last();
        lemma_letters_spell(letters, texts, head);
        assert(symbols =~= head + seq![last]);
        lemma_decode_concat(texts, head, seq![last]);
        lemma_decode_one(texts, last);
        assert(decode(texts, symbols) =~= spelled);
    }
}

/// The state in which training starts is fit for training: it holds
/// together, and the merges that made it are none.
pub proof fn lemma_initial_trainable(text: Seq<char>)
    requires
        text.len() <= usize::MAX,
    ensures
        trainable(initial_model(text)),
{
    let model = initial_model(text);
    let texts = entry_texts(model.entries);
    let letters = alphabet(text);
    let history = Seq::<(usize, usize)>::empty();
    lemma_alphabet_distinct(text, text.len() as int);
    lemma_alphabet_len(text, text.len() as int);
    lemma_initial_model(text);
    assert forall|m: int| 0 <= m < texts.len() implies alone(letters, history, #[trigger] texts[m])
        == seq![m as usize] by {
        assert(texts[m] == seq![letters[m]]);
        let id = letters.index_of(letters[m]);
        assert(letters.contains(letters[m]));
        assert(letters[id] == letters[m]);
        assert(char_ids(letters, texts[m]) =~= seq![m as usize]);
    }
    assert forall|i: int, j: int| 0 <= i <= j <= model.corpus.len() implies alone(
        letters,
        history,
        decode(texts, #[trigger] model.corpus.subrange(i, j)),
    ) == model.corpus.subrange(i, j) by {
        let part = model.corpus.subrange(i, j);
        assert forall|k: int| 0 <= k < part.len() implies (#[trigger] part[k]) < letters.len() by {
            assert(part[k] == model.corpus[i + k]);
        }
        lemma_letters_spell(letters, texts, part);
        assert forall|k: int| 0 <= k < part.len() implies char_ids(
            letters,
            decode(texts, part),
        )[k] == part[k] by {
            let c = letters[part[k] as int];
            assert(letters.contains(c));
            let id = letters.index_of(c);
            assert(letters[id] == c);
        }
        assert(char_ids(letters, decode(texts, part)) =~= part);
    }
    assert(derived(model, letters, history));
}

} // verus!
