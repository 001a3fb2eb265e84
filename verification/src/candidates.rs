//! Tagging from lists of candidate offsets. A matching structure may find,
//! in one pass over the text, where each token can stand; the passes of the
//! tokens then visit only those offsets and give the same tags as passes
//! over every offset.

use vstd::prelude::*;
use crate::segment::{
    claim_slots, fits, occurs_at, scan_from, tag_tokens, tagging, texts_of, Tag,
};

verus! {

/// The offsets of the list rise strictly.
pub open spec fn rising(list: Seq<usize>) -> bool {
    forall|i: int, j: int| 0 <= i < j < list.len() ==> list[i] < list[j]
}

/// The list names every offset at which `token` stands in `text`. Nothing is
/// asked for an empty token, which claims no slot.
pub open spec fn lists_occurrences(text: Seq<char>, token: Seq<char>, list: Seq<usize>) -> bool {
    token.len() > 0 ==> forall|at: int| #[trigger]
        occurs_at(text, token, at) ==> list.contains(at as usize)
}

/// For each token of the vocabulary there is a rising list that names all its
/// occurrences in the text.
pub open spec fn candidates_for(
    text: Seq<char>,
    vocab: Seq<Seq<char>>,
    candidates: Seq<Vec<usize>>,
) -> bool {
    &&& candidates.len() == vocab.len()
    &&& forall|id: int|
        0 <= id < vocab.len() ==> rising((#[trigger] candidates[id])@) && lists_occurrences(
            text,
            vocab[id],
            candidates[id]@,
        )
}

/// Each offset of each list is one at which the token of the list stands in
/// the text.
pub open spec fn only_occurrences(
    text: Seq<char>,
    vocab: Seq<Seq<char>>,
    candidates: Seq<Vec<usize>>,
) -> bool {
    forall|id: int, i: int|
        0 <= id < candidates.len() && 0 <= i < candidates[id]@.len() ==> occurs_at(
            text,
            vocab[id],
            (#[trigger] candidates[id]@[i]) as int,
        )
}

/// A pass goes over offsets at which the token does not stand without any
/// effect.
pub proof fn lemma_scan_skips(
    text: Seq<char>,
    token: Seq<char>,
    id: usize,
    tags: Seq<Tag>,
    from: int,
    to: int,
    count: nat,
)
    requires
        0 <= from <= to,
        forall|p: int| from <= p < to ==> !occurs_at(text, token, p),
    ensures
        scan_from(text, token, id, tags, from, count) == scan_from(
            text,
            token,
            id,
            tags,
            to,
            count,
        ),
    decreases to - from,
{
    if from < to {
        lemma_scan_skips(text, token, id, tags, from + 1, to, count);
        assert(!occurs_at(text, token, from));
    }
}

/// One token's pass over the offsets of its candidate list.
fn scan_candidates(
    chars: &Vec<char>,
    token: &Vec<char>,
    id: usize,
    list: &Vec<usize>,
    tags: &mut Vec<Tag>,
)
    requires
        old(tags).len() == chars.len(),
        rising(list@),
        lists_occurrences(chars@, token@, list@),
    ensures
        final(tags).len() == old(tags).len(),
        final(tags)@ == scan_from(chars@, token@, id, old(tags)@, 0, 0),
{
    let n = chars.len();
    let w = token.len();
    if w == 0 || w > n {
        return ;
    }
    let ghost before = tags@;
    let mut from: usize = 0;
    let mut count: usize = 0;
    let mut k: usize = 0;
    while k < list.len() && list[k] <= n - w
        invariant
            0 < w <= n,
            n == chars.len(),
            w == token.len(),
            tags.len() == n,
            from <= n,
            count <= from,
            k <= list.len(),
            rising(list@),
            lists_occurrences(chars@, token@, list@),
            forall|i: int| 0 <= i < k ==> list@[i] < from,
            scan_from(chars@, token@, id, tags@, from as int, count as nat) == scan_from(
                chars@,
                token@,
                id,
                before,
                0,
                0,
            ),
        decreases list.len() - k,
    {
        let at = list[k];
        if at >= from {
            proof {
                assert forall|p: int| from <= p < at implies !occurs_at(chars@, token@, p) by {
                    if occurs_at(chars@, token@, p) {
                        let i = choose|i: int| 0 <= i < list@.len() && list@[i] == p as usize;
                        if i < k {
                            assert(list@[i] < from);
                        } else if i > k {
                            assert(list@[k as int] < list@[i]);
                        }
                    }
                }
                lemma_scan_skips(
                    chars@,
                    token@,
                    id,
                    tags@,
                    from as int,
                    at as int,
                    count as nat,
                );
            }
            if fits(chars, token, tags, at) {
                claim_slots(tags, at, w, (id, count));
                count += 1;
                from = at + w;
            } else {
                from = at + 1;
            }
        }
        k += 1;
    }
    proof {
        assert forall|p: int| from <= p < n implies !occurs_at(chars@, token@, p) by {
            if occurs_at(chars@, token@, p) {
                let i = choose|i: int| 0 <= i < list@.len() && list@[i] == p as usize;
                if i < k {
                    assert(list@[i] < from);
                } else if i > k {
                    assert(list@[k as int] < list@[i]);
                }
            }
        }
        lemma_scan_skips(chars@, token@, id, tags@, from as int, n as int, count as nat);
    }
}

/// Tags every slot of `chars` that a token of `vocab` can claim, as
/// `tag_text` does, but lets each token visit only the offsets of its
/// candidate list: the work grows with the number of candidates, not with
/// the number of tokens times the length of the text.
pub(crate) fn tag_candidates(
    chars: &Vec<char>,
    vocab: &Vec<Vec<char>>,
    candidates: &Vec<Vec<usize>>,
) -> (tags: Vec<Tag>)
    requires
        candidates_for(chars@, texts_of(vocab@), candidates@),
    ensures
        tags.len() == chars.len(),
        tags@ == tagging(chars@, texts_of(vocab@)),
{
    let mut tags: Vec<Tag> = Vec::new();
    let mut j: usize = 0;
    while j < chars.len()
        invariant
            j <= chars.len(),
            tags@ == Seq::new(j as nat, |k: int| None::<(usize, usize)>),
        decreases chars.len() - j,
    {
        tags.push(None);
        j += 1;
    }
    let mut t: usize = 0;
    while t < vocab.len()
        invariant
            t <= vocab.len(),
            tags.len() == chars.len(),
            candidates_for(chars@, texts_of(vocab@), candidates@),
            tags@ == tag_tokens(chars@, texts_of(vocab@), t as int),
        decreases vocab.len() - t,
    {
        assert(rising(candidates@[t as int]@));
        scan_candidates(chars, &vocab[t], t, &candidates[t], &mut tags);
        t += 1;
    }
    tags
}

} // verus!
