//! What holds of every tagging that the segmentation engine produces: covered
//! slots form whole token occurrences, earlier tokens win over later ones, and
//! the collapsed indices spell the covered part of the text.

use vstd::prelude::*;
use crate::segment::{
    claim, collapse_upto, decode, is_free, occurs_at, scan_from, segmentation, starts_run,
    tag_tokens, tagging, token_texts, uncovered, uncovered_upto, Tag,
};

verus! {

/// The slots that carry the tag of slot `j` are exactly the slots of one
/// occurrence of that tag's token, which starts at `s`.
pub open spec fn block_at(
    text: Seq<char>,
    vocab: Seq<Seq<char>>,
    tags: Seq<Tag>,
    j: int,
    s: int,
) -> bool {
    let tag = tags[j].unwrap();
    let token = vocab[tag.0 as int];
    &&& (tag.0 as int) < vocab.len()
    &&& token.len() > 0
    &&& s <= j < s + token.len()
    &&& occurs_at(text, token, s)
    &&& forall|i: int|
        0 <= i < tags.len() ==> ((s <= i < s + token.len()) <==> #[trigger] tags[i] == Some(tag))
}

/// Every covered slot belongs to a block.
pub open spec fn well_tagged(text: Seq<char>, vocab: Seq<Seq<char>>, tags: Seq<Tag>) -> bool {
    &&& tags.len() == text.len()
    &&& forall|j: int|
        0 <= j < tags.len() && (#[trigger] tags[j]) is Some ==> exists|s: int|
            block_at(text, vocab, tags, j, s)
}

/// Every tag names a token before `id`, or the token `id` with an occurrence
/// number under `count`.
pub open spec fn tags_below(tags: Seq<Tag>, id: int, count: int) -> bool {
    forall|j: int|
        0 <= j < tags.len() && (#[trigger] tags[j]) is Some ==> {
            let t = tags[j].unwrap();
            t.0 < id || (t.0 == id && t.1 < count)
        }
}

/// Some slot of `at .. at + len` is covered by a token that is not behind
/// `id` in the vocabulary.
pub open spec fn blocked(tags: Seq<Tag>, at: int, len: int, id: int) -> bool {
    exists|j: int|
        at <= j < at + len && 0 <= j < tags.len() && (#[trigger] tags[j]) is Some
            && tags[j].unwrap().0 <= id
}

/// Every occurrence of each of the first `upto` tokens has a slot that a token
/// no later in the vocabulary covers.
pub open spec fn saturated(
    text: Seq<char>,
    vocab: Seq<Seq<char>>,
    tags: Seq<Tag>,
    upto: int,
) -> bool {
    forall|i: int, s: int|
        0 <= i < upto && i < vocab.len() && vocab[i].len() > 0 && #[trigger] occurs_at(
            text,
            vocab[i],
            s,
        ) ==> blocked(tags, s, vocab[i].len() as int, i)
}

/// The occurrences of `token` that start before `from` each have a slot that a
/// token no later than `id` covers.
pub open spec fn passed(
    text: Seq<char>,
    token: Seq<char>,
    tags: Seq<Tag>,
    id: int,
    from: int,
) -> bool {
    forall|s: int|
        0 <= s < from && token.len() > 0 && #[trigger] occurs_at(text, token, s) ==> blocked(
            tags,
            s,
            token.len() as int,
            id,
        )
}

/// The freshly claimed slots form a block of their own.
proof fn lemma_new_block(
    text: Seq<char>,
    vocab: Seq<Seq<char>>,
    id: usize,
    tags: Seq<Tag>,
    from: int,
    count: nat,
    j: int,
)
    requires
        (id as int) < vocab.len(),
        0 <= from,
        count <= usize::MAX,
        vocab[id as int].len() > 0,
        tags.len() == text.len(),
        tags_below(tags, id as int, count as int),
        occurs_at(text, vocab[id as int], from),
        from <= j < from + vocab[id as int].len(),
    ensures
        block_at(
            text,
            vocab,
            claim(tags, from, vocab[id as int].len() as int, (id, count as usize)),
            j,
            from,
        ),
{
    let len = vocab[id as int].len() as int;
    let tag = (id, count as usize);
    let next = claim(tags, from, len, tag);
    assert(next[j] == Some(tag));
    assert forall|i: int| 0 <= i < next.len() implies ((from <= i < from + len)
        <==> #[trigger] next[i] == Some(tag)) by {
        if !(from <= i < from + len) {
            assert(next[i] == tags[i]);
            if tags[i] is Some {
                let t = tags[i].unwrap();
                assert(t.0 < id || (t.0 == id && t.1 < count));
            }
        }
    }
}

/// A block stays a block when free slots elsewhere are claimed under a new tag.
proof fn lemma_old_block(
    text: Seq<char>,
    vocab: Seq<Seq<char>>,
    id: usize,
    tags: Seq<Tag>,
    from: int,
    len: int,
    count: nat,
    j: int,
    s: int,
)
    requires
        count <= usize::MAX,
        tags.len() == text.len(),
        tags_below(tags, id as int, count as int),
        is_free(tags, from, len),
        0 <= j < tags.len(),
        tags[j] is Some,
        block_at(text, vocab, tags, j, s),
    ensures
        block_at(text, vocab, claim(tags, from, len, (id, count as usize)), j, s),
{
    let tag = (id, count as usize);
    let next = claim(tags, from, len, tag);
    let t = tags[j].unwrap();
    let old_len = vocab[t.0 as int].len() as int;
    assert(t.0 < id || (t.0 == id && t.1 < count));
    assert(next[j] == tags[j]);
    assert forall|i: int| 0 <= i < next.len() implies ((s <= i < s + old_len)
        <==> #[trigger] next[i] == Some(t)) by {
        assert((s <= i < s + old_len) <==> tags[i] == Some(t));
        if from <= i < from + len {
            assert(tags[i] is None);
            assert(next[i] == Some(tag));
        } else {
            assert(next[i] == tags[i]);
        }
    }
}

/// Claiming a free occurrence keeps the tags well formed.
proof fn lemma_claim_well_tagged(
    text: Seq<char>,
    vocab: Seq<Seq<char>>,
    id: usize,
    tags: Seq<Tag>,
    from: int,
    count: nat,
)
    requires
        (id as int) < vocab.len(),
        0 <= from,
        count <= usize::MAX,
        vocab[id as int].len() > 0,
        well_tagged(text, vocab, tags),
        tags_below(tags, id as int, count as int),
        occurs_at(text, vocab[id as int], from),
        is_free(tags, from, vocab[id as int].len() as int),
    ensures
        well_tagged(
            text,
            vocab,
            claim(tags, from, vocab[id as int].len() as int, (id, count as usize)),
        ),
{
    let len = vocab[id as int].len() as int;
    let next = claim(tags, from, len, (id, count as usize));
    assert forall|j: int| 0 <= j < next.len() && (#[trigger] next[j]) is Some implies exists|
        s: int,
    |
        block_at(text, vocab, next, j, s) by {
        if from <= j < from + len {
            lemma_new_block(text, vocab, id, tags, from, count, j);
        } else {
            assert(next[j] == tags[j]);
            let s = choose|s: int| block_at(text, vocab, tags, j, s);
            lemma_old_block(text, vocab, id, tags, from, len, count, j, s);
        }
    }
}

/// Claiming a free occurrence of the token whose pass is under way keeps all
/// that the pass relies on.
proof fn lemma_claim_keeps(
    text: Seq<char>,
    vocab: Seq<Seq<char>>,
    id: usize,
    tags: Seq<Tag>,
    from: int,
    count: nat,
)
    requires
        (id as int) < vocab.len(),
        0 <= from,
        count <= from,
        text.len() <= usize::MAX,
        vocab[id as int].len() > 0,
        well_tagged(text, vocab, tags),
        tags_below(tags, id as int, count as int),
        saturated(text, vocab, tags, id as int),
        passed(text, vocab[id as int], tags, id as int, from),
        occurs_at(text, vocab[id as int], from),
        is_free(tags, from, vocab[id as int].len() as int),
    ensures
        ({
            let len = vocab[id as int].len() as int;
            let next = claim(tags, from, len, (id, count as usize));
            &&& well_tagged(text, vocab, next)
            &&& tags_below(next, id as int, count as int + 1)
            &&& saturated(text, vocab, next, id as int)
            &&& passed(text, vocab[id as int], next, id as int, from + len)
            &&& forall|j: int|
                0 <= j < tags.len() && (#[trigger] tags[j]) is Some ==> next[j] == tags[j]
        }),
{
    let token = vocab[id as int];
    let len = token.len() as int;
    let tag = (id, count as usize);
    let next = claim(tags, from, len, tag);
    lemma_claim_well_tagged(text, vocab, id, tags, from, count);
    assert forall|j: int| 0 <= j < tags.len() && (#[trigger] tags[j]) is Some implies next[j]
        == tags[j] by {}
    assert(tags_below(next, id as int, count as int + 1)) by {
        assert forall|j: int| 0 <= j < next.len() && (#[trigger] next[j]) is Some implies ({
            let t = next[j].unwrap();
            t.0 < id || (t.0 == id && t.1 < count + 1)
        }) by {
            if !(from <= j < from + len) {
                assert(next[j] == tags[j]);
            }
        }
    }
    assert(saturated(text, vocab, next, id as int)) by {
        assert forall|i: int, s: int|
            0 <= i < id && i < vocab.len() && vocab[i].len() > 0 && #[trigger] occurs_at(
                text,
                vocab[i],
                s,
            ) implies blocked(next, s, vocab[i].len() as int, i) by {
            lemma_blocked_stays(tags, next, s, vocab[i].len() as int, i);
        }
    }
    assert(passed(text, token, next, id as int, from + len)) by {
        assert forall|s: int|
            0 <= s < from + len && token.len() > 0 && #[trigger] occurs_at(
                text,
                token,
                s,
            ) implies blocked(next, s, len, id as int) by {
            if s < from {
                lemma_blocked_stays(tags, next, s, len, id as int);
            } else {
                assert(next[s] == Some(tag));
            }
        }
    }
}

/// A slot that is covered stays covered where covered slots keep their tags.
proof fn lemma_blocked_stays(tags: Seq<Tag>, next: Seq<Tag>, at: int, len: int, id: int)
    requires
        next.len() == tags.len(),
        forall|j: int| 0 <= j < tags.len() && (#[trigger] tags[j]) is Some ==> next[j] == tags[j],
        blocked(tags, at, len, id),
    ensures
        blocked(next, at, len, id),
{
    let j = choose|j: int|
        at <= j < at + len && 0 <= j < tags.len() && (#[trigger] tags[j]) is Some
            && tags[j].unwrap().0 <= id;
    assert(next[j] == tags[j]);
}

/// What one token's pass keeps and adds.
pub proof fn lemma_scan_keeps(
    text: Seq<char>,
    vocab: Seq<Seq<char>>,
    id: usize,
    tags: Seq<Tag>,
    from: int,
    count: nat,
)
    requires
        (id as int) < vocab.len(),
        0 <= from,
        count <= from,
        text.len() <= usize::MAX,
        well_tagged(text, vocab, tags),
        tags_below(tags, id as int, count as int),
        saturated(text, vocab, tags, id as int),
        passed(text, vocab[id as int], tags, id as int, from),
    ensures
        ({
            let r = scan_from(text, vocab[id as int], id, tags, from, count);
            &&& well_tagged(text, vocab, r)
            &&& tags_below(r, id + 1, 0)
            &&& saturated(text, vocab, r, id + 1)
            &&& forall|j: int|
                0 <= j < tags.len() && (#[trigger] tags[j]) is Some ==> r[j] == tags[j]
        }),
    decreases text.len() - from,
{
    let token = vocab[id as int];
    let len = token.len() as int;
    if token.len() == 0 || from + token.len() > text.len() {
        assert forall|i: int, s: int|
            0 <= i < id + 1 && i < vocab.len() && vocab[i].len() > 0 && #[trigger] occurs_at(
                text,
                vocab[i],
                s,
            ) implies blocked(tags, s, vocab[i].len() as int, i) by {
            if i == id {
                assert(s < from);
            }
        }
    } else if occurs_at(text, token, from) && is_free(tags, from, len) {
        let next = claim(tags, from, len, (id, count as usize));
        lemma_claim_keeps(text, vocab, id, tags, from, count);
        lemma_scan_keeps(text, vocab, id, next, from + len, count + 1);
        let r = scan_from(text, token, id, next, from + len, count + 1);
        assert forall|j: int| 0 <= j < tags.len() && (#[trigger] tags[j]) is Some implies r[j]
            == tags[j] by {
            assert(next[j] == tags[j]);
            assert(next[j] is Some);
        }
    } else {
        assert forall|s: int|
            0 <= s < from + 1 && token.len() > 0 && #[trigger] occurs_at(
                text,
                token,
                s,
            ) implies blocked(tags, s, len, id as int) by {
            if s == from {
                assert(!is_free(tags, from, len));
                let j = choose|j: int| from <= j < from + len && !((#[trigger] tags[j]) is None);
                assert(tags[j] is Some);
                let t = tags[j].unwrap();
                assert(t.0 < id || (t.0 == id && t.1 < count));
            }
        }
        lemma_scan_keeps(text, vocab, id, tags, from + 1, count);
    }
}

/// The tags after any number of passes are well formed: covered slots make up
/// whole occurrences, and each occurrence of a token that has had its pass is
/// covered somewhere by that token or by one before it.
pub proof fn lemma_tag_tokens_keeps(text: Seq<char>, vocab: Seq<Seq<char>>, upto: int)
    requires
        0 <= upto <= vocab.len(),
        vocab.len() <= usize::MAX,
        text.len() <= usize::MAX,
    ensures
        well_tagged(text, vocab, tag_tokens(text, vocab, upto)),
        tags_below(tag_tokens(text, vocab, upto), upto, 0),
        saturated(text, vocab, tag_tokens(text, vocab, upto), upto),
    decreases upto,
{
    if upto > 0 {
        lemma_tag_tokens_keeps(text, vocab, upto - 1);
        let before = tag_tokens(text, vocab, upto - 1);
        lemma_scan_keeps(text, vocab, (upto - 1) as usize, before, 0, 0);
    }
}

/// A covered slot keeps its tag through the passes of all later tokens: a
/// token that comes later in the vocabulary never takes a slot from one that
/// came before.
pub proof fn lemma_claimed_stays(
    text: Seq<char>,
    vocab: Seq<Seq<char>>,
    done: int,
    upto: int,
    j: int,
)
    requires
        0 <= done <= upto <= vocab.len(),
        vocab.len() <= usize::MAX,
        text.len() <= usize::MAX,
        0 <= j < text.len(),
        tag_tokens(text, vocab, done)[j] is Some,
    ensures
        tag_tokens(text, vocab, upto)[j] == tag_tokens(text, vocab, done)[j],
    decreases upto - done,
{
    if done < upto {
        lemma_claimed_stays(text, vocab, done, upto - 1, j);
        lemma_tag_tokens_keeps(text, vocab, upto - 1);
        lemma_scan_keeps(
            text,
            vocab,
            (upto - 1) as usize,
            tag_tokens(text, vocab, upto - 1),
            0,
            0,
        );
    }
}

/// Wherever a token of the vocabulary occurs in the text, one of the slots of
/// that occurrence is covered by this token or by one before it in the
/// vocabulary.
pub proof fn lemma_earlier_token_wins(text: Seq<char>, vocab: Seq<Seq<char>>, i: int, s: int)
    requires
        vocab.len() <= usize::MAX,
        text.len() <= usize::MAX,
        0 <= i < vocab.len(),
        vocab[i].len() > 0,
        occurs_at(text, vocab[i], s),
    ensures
        blocked(tagging(text, vocab), s, vocab[i].len() as int, i),
{
    lemma_tag_tokens_keeps(text, vocab, vocab.len() as int);
}

/// The vocabulary lists no token before a longer one.
pub open spec fn longest_first(vocab: Seq<Seq<char>>) -> bool {
    forall|a: int, b: int|
        0 <= a <= b < vocab.len() ==> (#[trigger] vocab[a]).len() >= (#[trigger] vocab[b]).len()
}

/// Longest match wins: with the vocabulary in order of falling length, every
/// occurrence of a token in the text shares a slot with an accepted token that
/// is at least as long.
pub proof fn lemma_longest_match_priority(
    text: Seq<char>,
    vocab: Seq<Seq<char>>,
    i: int,
    s: int,
)
    requires
        vocab.len() <= usize::MAX,
        text.len() <= usize::MAX,
        longest_first(vocab),
        0 <= i < vocab.len(),
        vocab[i].len() > 0,
        occurs_at(text, vocab[i], s),
    ensures
        exists|j: int|
            s <= j < s + vocab[i].len() && (#[trigger] tagging(text, vocab)[j]) is Some
                && tagging(text, vocab)[j].unwrap().0 < vocab.len() && vocab[tagging(
                text,
                vocab,
            )[j].unwrap().0 as int].len() >= vocab[i].len(),
{
    let tags = tagging(text, vocab);
    lemma_earlier_token_wins(text, vocab, i, s);
    let j = choose|j: int|
        s <= j < s + vocab[i].len() && 0 <= j < tags.len() && (#[trigger] tags[j]) is Some
            && tags[j].unwrap().0 <= i;
    assert(vocab[tags[j].unwrap().0 as int].len() >= vocab[i].len());
}

/// The collapsed indices of well-formed tags all name tokens of the
/// vocabulary.
pub proof fn lemma_collapse_ids(text: Seq<char>, vocab: Seq<Seq<char>>, tags: Seq<Tag>, n: int)
    requires
        well_tagged(text, vocab, tags),
        0 <= n <= tags.len(),
    ensures
        forall|k: int|
            0 <= k < collapse_upto(tags, n).len() ==> (#[trigger] collapse_upto(tags, n)[k])
                < vocab.len(),
    decreases n,
{
    if n > 0 {
        lemma_collapse_ids(text, vocab, tags, n - 1);
        let before = collapse_upto(tags, n - 1);
        if starts_run(tags, n - 1) {
            let last = n - 1;
            let s = choose|s: int| block_at(text, vocab, tags, last, s);
            assert(block_at(text, vocab, tags, last, s));
            assert forall|k: int| 0 <= k < collapse_upto(tags, n).len() implies (
            #[trigger] collapse_upto(tags, n)[k]) < vocab.len() by {
                if k < before.len() {
                    assert(collapse_upto(tags, n)[k] == before[k]);
                }
            }
        }
    }
}

/// Every index of a segmentation names a token of the vocabulary.
pub proof fn lemma_segmentation_ids(text: Seq<char>, vocab: Seq<Seq<char>>)
    requires
        vocab.len() <= usize::MAX,
        text.len() <= usize::MAX,
    ensures
        forall|k: int|
            0 <= k < segmentation(text, vocab).len() ==> (#[trigger] segmentation(text, vocab)[k])
                < vocab.len(),
{
    lemma_tag_tokens_keeps(text, vocab, vocab.len() as int);
    let tags = tagging(text, vocab);
    lemma_collapse_ids(text, vocab, tags, tags.len() as int);
}

/// The characters of the covered slots among the first `n`, in order.
pub open spec fn covered_upto(text: Seq<char>, tags: Seq<Tag>, n: int) -> Seq<char>
    decreases n,
{
    if n <= 0 {
        Seq::empty()
    } else if tags[n - 1] is Some {
        covered_upto(text, tags, n - 1).push(text[n - 1])
    } else {
        covered_upto(text, tags, n - 1)
    }
}

/// The text with the characters of its uncovered slots left out.
pub open spec fn covered_text(text: Seq<char>, tags: Seq<Tag>) -> Seq<char> {
    covered_upto(text, tags, tags.len() as int)
}

/// No run of equal tags goes across the offset `n`.
pub open spec fn is_boundary(tags: Seq<Tag>, n: int) -> bool {
    n <= 0 || n >= tags.len() || tags[n - 1] is None || tags[n - 1] != tags[n]
}

/// A run of slots with one tag collapses into the one index of its token.
proof fn lemma_run_collapses(tags: Seq<Tag>, s: int, n: int, tag: (usize, usize))
    requires
        0 <= s < n <= tags.len(),
        forall|i: int| s <= i < n ==> #[trigger] tags[i] == Some(tag),
        s == 0 || tags[s - 1] != Some(tag),
    ensures
        collapse_upto(tags, n) == collapse_upto(tags, s).push(tag.0),
    decreases n - s,
{
    if n == s + 1 {
        assert(starts_run(tags, s));
    } else {
        lemma_run_collapses(tags, s, n - 1, tag);
        assert(tags[n - 2] == Some(tag));
        assert(!starts_run(tags, n - 1));
    }
}

/// A stretch of covered slots adds its characters to the covered text.
proof fn lemma_run_covered(text: Seq<char>, tags: Seq<Tag>, s: int, n: int)
    requires
        0 <= s <= n <= tags.len(),
        tags.len() == text.len(),
        forall|i: int| s <= i < n ==> (#[trigger] tags[i]) is Some,
    ensures
        covered_upto(text, tags, n) == covered_upto(text, tags, s) + text.subrange(s, n),
    decreases n - s,
{
    if s == n {
        assert(covered_upto(text, tags, s) + text.subrange(s, n) =~= covered_upto(text, tags, s));
    } else {
        lemma_run_covered(text, tags, s, n - 1);
        assert(tags[n - 1] is Some);
        assert(covered_upto(text, tags, s) + text.subrange(s, n) =~= (covered_upto(text, tags, s)
            + text.subrange(s, n - 1)).push(text[n - 1]));
    }
}

/// Decoding one more index appends the text of its token.
pub proof fn lemma_decode_push(vocab: Seq<Seq<char>>, ids: Seq<usize>, id: usize)
    ensures
        decode(vocab, ids.push(id)) == decode(vocab, ids) + vocab[id as int],
{
    assert(token_texts(vocab, ids.push(id)) =~= token_texts(vocab, ids).push(vocab[id as int]));
    token_texts(vocab, ids).lemma_flatten_push(vocab[id as int]);
}

/// Up to any offset that no run goes across, the collapsed indices spell the
/// characters of the covered slots.
pub proof fn lemma_collapse_spells(text: Seq<char>, vocab: Seq<Seq<char>>, tags: Seq<Tag>, n: int)
    requires
        well_tagged(text, vocab, tags),
        0 <= n <= tags.len(),
        is_boundary(tags, n),
    ensures
        decode(vocab, collapse_upto(tags, n)) == covered_upto(text, tags, n),
    decreases n,
{
    if n == 0 {
        assert(token_texts(vocab, collapse_upto(tags, 0)) =~= Seq::<Seq<char>>::empty());
    } else if tags[n - 1] is None {
        assert(!starts_run(tags, n - 1));
        lemma_collapse_spells(text, vocab, tags, n - 1);
    } else {
        let tag = tags[n - 1].unwrap();
        let token = vocab[tag.0 as int];
        let last = n - 1;
        let s = choose|s: int| block_at(text, vocab, tags, last, s);
        assert(block_at(text, vocab, tags, last, s));
        if n < s + token.len() {
            assert(tags[n] == Some(tag));
        }
        assert(s + token.len() == n);
        if s > 0 {
            assert(tags[s - 1] != Some(tag));
            assert(tags[s] == Some(tag));
        }
        lemma_collapse_spells(text, vocab, tags, s);
        lemma_run_collapses(tags, s, n, tag);
        lemma_run_covered(text, tags, s, n);
        lemma_decode_push(vocab, collapse_upto(tags, s), tag.0);
        assert(text.subrange(s, n) =~= token);
    }
}

/// The vocabulary holds `c` as a token of its own.
pub open spec fn has_char_token(vocab: Seq<Seq<char>>, c: char) -> bool {
    exists|i: int| 0 <= i < vocab.len() && #[trigger] vocab[i] == seq![c]
}

/// Every character of the text is a token of the vocabulary.
pub open spec fn knows_chars(vocab: Seq<Seq<char>>, text: Seq<char>) -> bool {
    forall|j: int| 0 <= j < text.len() ==> has_char_token(vocab, #[trigger] text[j])
}

/// A character that is a token of the vocabulary never stays uncovered.
pub proof fn lemma_known_char_covered(text: Seq<char>, vocab: Seq<Seq<char>>, j: int)
    requires
        vocab.len() <= usize::MAX,
        text.len() <= usize::MAX,
        0 <= j < text.len(),
        has_char_token(vocab, text[j]),
    ensures
        tagging(text, vocab)[j] is Some,
{
    let i = choose|i: int| 0 <= i < vocab.len() && #[trigger] vocab[i] == seq![text[j]];
    assert(occurs_at(text, vocab[i], j));
    lemma_earlier_token_wins(text, vocab, i, j);
}

/// Segmenting a text and decoding the result gives the text back with the
/// characters that no token covers left out.
pub proof fn lemma_decode_segmentation(text: Seq<char>, vocab: Seq<Seq<char>>)
    requires
        vocab.len() <= usize::MAX,
        text.len() <= usize::MAX,
    ensures
        decode(vocab, segmentation(text, vocab)) == covered_text(text, tagging(text, vocab)),
{
    lemma_tag_tokens_keeps(text, vocab, vocab.len() as int);
    let tags = tagging(text, vocab);
    lemma_collapse_spells(text, vocab, tags, tags.len() as int);
}

/// Where the list of uncovered offsets is empty up to `n`, the first `n`
/// slots are all covered.
pub proof fn lemma_none_uncovered(tags: Seq<Tag>, n: int)
    requires
        0 <= n <= tags.len(),
        uncovered_upto(tags, n).len() == 0,
    ensures
        forall|j: int| 0 <= j < n ==> (#[trigger] tags[j]) is Some,
    decreases n,
{
    if n > 0 {
        if tags[n - 1] is None {
            assert(uncovered_upto(tags, n).len() == uncovered_upto(tags, n - 1).len() + 1);
        }
        lemma_none_uncovered(tags, n - 1);
    }
}

/// A segmentation that leaves no character uncovered spells the whole text.
pub proof fn lemma_covered_round_trip(text: Seq<char>, vocab: Seq<Seq<char>>)
    requires
        vocab.len() <= usize::MAX,
        text.len() <= usize::MAX,
        uncovered(tagging(text, vocab)).len() == 0,
    ensures
        decode(vocab, segmentation(text, vocab)) == text,
{
    lemma_decode_segmentation(text, vocab);
    lemma_tag_tokens_keeps(text, vocab, vocab.len() as int);
    let tags = tagging(text, vocab);
    lemma_none_uncovered(tags, tags.len() as int);
    lemma_run_covered(text, tags, 0, tags.len() as int);
    assert(covered_upto(text, tags, 0) + text.subrange(0, tags.len() as int) =~= text);
}

/// Round trip: a text made only of characters that the vocabulary holds as
/// tokens is decoded from its segmentation unchanged.
pub proof fn lemma_round_trip(text: Seq<char>, vocab: Seq<Seq<char>>)
    requires
        vocab.len() <= usize::MAX,
        text.len() <= usize::MAX,
        knows_chars(vocab, text),
    ensures
        decode(vocab, segmentation(text, vocab)) == text,
{
    lemma_decode_segmentation(text, vocab);
    lemma_tag_tokens_keeps(text, vocab, vocab.len() as int);
    let tags = tagging(text, vocab);
    assert forall|j: int| 0 <= j < tags.len() implies (#[trigger] tags[j]) is Some by {
        lemma_known_char_covered(text, vocab, j);
    }
    lemma_run_covered(text, tags, 0, tags.len() as int);
    assert(covered_upto(text, tags, 0) + text.subrange(0, tags.len() as int) =~= text);
}

} // verus!
