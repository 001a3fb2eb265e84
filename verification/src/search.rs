//! The search for all places where tokens stand in a text.

use vstd::prelude::*;
use crate::candidates::{candidates_for, lists_occurrences, rising};
use crate::segment::{occurs_at, texts_of};

verus! {

/// A place where a token stands in a text.
#[derive(Clone, Copy, Debug, PartialEq, Eq)]
pub struct Match {
    /// The offset of the first character of the occurrence.
    pub start: usize,
    /// The number of characters of the token.
    pub length: usize,
    /// The index of the token in the vocabulary.
    pub token: usize,
}

/// `m` names a token that is not empty and a place where it stands in the
/// text.
pub open spec fn is_match(vocab: Seq<Seq<char>>, text: Seq<char>, m: Match) -> bool {
    &&& m.token < vocab.len()
    &&& m.length == vocab[m.token as int].len()
    &&& m.length > 0
    &&& occurs_at(text, vocab[m.token as int], m.start as int)
}

/// The order of a list of matches: by token, and for one token from left to
/// right.
pub open spec fn match_before(a: Match, b: Match) -> bool {
    a.token < b.token || (a.token == b.token && a.start < b.start)
}

/// The list holds every occurrence of every token that is not empty, and
/// nothing else, ordered by token and then from left to right.
pub open spec fn all_matches(vocab: Seq<Seq<char>>, text: Seq<char>, list: Seq<Match>) -> bool {
    &&& forall|k: int| 0 <= k < list.len() ==> is_match(vocab, text, #[trigger] list[k])
    &&& forall|m: Match| #[trigger] is_match(vocab, text, m) ==> list.contains(m)
    &&& forall|i: int, j: int|
        0 <= i < j < list.len() ==> match_before(#[trigger] list[i], #[trigger] list[j])
}

/// Whether `token` stands in `chars` at `at`.
pub fn stands_at(chars: &Vec<char>, token: &Vec<char>, at: usize) -> (r: bool)
    ensures
        r == occurs_at(chars@, token@, at as int),
{
    if token.len() > chars.len() || at > chars.len() - token.len() {
        return false;
    }
    let mut j: usize = 0;
    while j < token.len()
        invariant
            at + token.len() <= chars.len(),
            j <= token.len(),
            forall|k: int| 0 <= k < j ==> chars@[at + k] == #[trigger] token@[k],
        decreases token.len() - j,
    {
        if chars[at + j] != token[j] {
            assert(chars@[at + j] != token@[j as int]);
            return false;
        }
        j += 1;
    }
    true
}

/// The offsets at which the token `t` is looked for: those of its candidate
/// list, or each offset of the text where there are no candidate lists.
pub open spec fn offsets_for(candidates: Option<Seq<Vec<usize>>>, t: int, n: nat) -> Seq<usize> {
    match candidates {
        Some(lists) => lists[t]@,
        None => Seq::new(n, |i: int| i as usize),
    }
}

/// All matches of the tokens of `vocab` in `chars`, looked for at the offsets
/// of the candidate lists only, or at every offset where there are no such
/// lists.
pub(crate) fn matches_among(
    chars: &Vec<char>,
    vocab: &Vec<Vec<char>>,
    candidates: Option<&Vec<Vec<usize>>>,
) -> (list: Vec<Match>)
    requires
        candidates matches Some(lists) ==> candidates_for(chars@, texts_of(vocab@), lists@),
    ensures
        all_matches(texts_of(vocab@), chars@, list@),
{
    let ghost text = chars@;
    let ghost tokens = texts_of(vocab@);
    let ghost given = match candidates {
        Some(lists) => Some(lists@),
        None => None,
    };
    let mut list: Vec<Match> = Vec::new();
    let mut t: usize = 0;
    while t < vocab.len()
        invariant
            t <= vocab.len(),
            text == chars@,
            tokens == texts_of(vocab@),
            given == match candidates {
                Some(lists) => Some(lists@),
                None => None::<Seq<Vec<usize>>>,
            },
            candidates matches Some(lists) ==> candidates_for(text, tokens, lists@),
            forall|k: int| 0 <= k < list.len() ==> is_match(tokens, text, #[trigger] list[k]),
            forall|k: int| 0 <= k < list.len() ==> (#[trigger] list[k]).token < t,
            forall|m: Match|
                #[trigger] is_match(tokens, text, m) && m.token < t ==> list@.contains(m),
            forall|i: int, j: int|
                0 <= i < j < list.len() ==> match_before(#[trigger] list[i], #[trigger] list[j]),
        decreases vocab.len() - t,
    {
        let token = &vocab[t];
        let ghost offsets = offsets_for(given, t as int, chars@.len());
        let count = match candidates {
            Some(lists) => lists[t].len(),
            None => chars.len(),
        };
        proof {
            match candidates {
                Some(lists) => {
                    assert(rising(lists@[t as int]@));
                    assert(lists_occurrences(text, tokens[t as int], lists@[t as int]@));
                },
                None => {
                    if tokens[t as int].len() > 0 {
                        assert forall|at: int| #[trigger]
                            occurs_at(text, tokens[t as int], at) implies offsets.contains(
                            at as usize,
                        ) by {
                            assert(offsets[at] == at as usize);
                        }
                    }
                },
            }
        }
        let mut k: usize = 0;
        while k < count
            invariant
                t < vocab.len(),
                k <= count,
                count == offsets.len(),
                text == chars@,
                tokens == texts_of(vocab@),
                token@ == tokens[t as int],
                given == match candidates {
                    Some(lists) => Some(lists@),
                    None => None::<Seq<Vec<usize>>>,
                },
                offsets == offsets_for(given, t as int, chars@.len()),
                candidates matches Some(lists) ==> lists.len() == vocab.len(),
                rising(offsets),
                forall|i: int| 0 <= i < list.len() ==> is_match(tokens, text, #[trigger] list[i]),
                forall|i: int|
                    0 <= i < list.len() ==> (#[trigger] list[i]).token < t || (list[i].token == t
                        && exists|q: int| 0 <= q < k && offsets[q] == list[i].start),
                forall|m: Match|
                    #[trigger] is_match(tokens, text, m) && m.token < t ==> list@.contains(m),
                forall|q: int|
                    0 <= q < k && token@.len() > 0 && occurs_at(text, token@, offsets[q] as int)
                        ==> list@.contains(
                        Match { start: #[trigger] offsets[q], length: token@.len() as usize, token: t },
                    ),
                forall|i: int, j: int|
                    0 <= i < j < list.len() ==> match_before(
                        #[trigger] list[i],
                        #[trigger] list[j],
                    ),
            decreases offsets.len() - k,
        {
            let at = match candidates {
                Some(lists) => lists[t][k],
                None => k,
            };
            assert(at == offsets[k as int]);
            let ghost before = list@;
            if token.len() > 0 && stands_at(chars, token, at) {
                let found = Match { start: at, length: token.len(), token: t };
                list.push(found);
                proof {
                    assert forall|i: int, j: int| 0 <= i < j < list.len() implies match_before(
                        #[trigger] list[i],
                        #[trigger] list[j],
                    ) by {
                        if j == before.len() {
                            assert(list[i] == before[i]);
                            if before[i].token == t {
                                let q = choose|q: int| 0 <= q < k && offsets[q] == before[i].start;
                                assert(offsets[q] < offsets[k as int]);
                            }
                        } else {
                            assert(list[i] == before[i] && list[j] == before[j]);
                        }
                    }
                    assert(list@[before.len() as int] == found);
                }
            }
            proof {
                assert forall|m: Match| #[trigger]
                    is_match(tokens, text, m) && m.token < t implies list@.contains(m) by {
                    assert(before.contains(m));
                    let i = choose|i: int| 0 <= i < before.len() && before[i] == m;
                    assert(list@[i] == m);
                }
                assert forall|q: int|
                    0 <= q < k + 1 && token@.len() > 0 && occurs_at(
                        text,
                        token@,
                        offsets[q] as int,
                    ) implies list@.contains(
                    Match { start: #[trigger] offsets[q], length: token@.len() as usize, token: t },
                ) by {
                    let m = Match { start: offsets[q], length: token@.len() as usize, token: t };
                    if q < k {
                        assert(before.contains(m));
                        let i = choose|i: int| 0 <= i < before.len() && before[i] == m;
                        assert(list@[i] == m);
                    } else {
                        assert(list@[before.len() as int] == m);
                    }
                }
                assert forall|i: int| 0 <= i < list.len() implies (#[trigger] list[i]).token < t
                    || (list[i].token == t && exists|q: int|
                    0 <= q < k + 1 && offsets[q] == list[i].start) by {
                    if i < before.len() {
                        assert(list[i] == before[i]);
                        if before[i].token == t {
                            let q = choose|q: int| 0 <= q < k && offsets[q] == before[i].start;
                            assert(offsets[q] == list[i].start);
                        }
                    } else {
                        assert(offsets[k as int] == list[i].start);
                    }
                }
            }
            k += 1;
        }
        proof {
            assert forall|m: Match| #[trigger]
                is_match(tokens, text, m) && m.token < t + 1 implies list@.contains(m) by {
                if m.token == t {
                    assert(lists_occurrences(text, tokens[t as int], offsets));
                    assert(offsets.contains(m.start as int as usize));
                    let q = choose|q: int| 0 <= q < offsets.len() && offsets[q] == m.start;
                    assert(list@.contains(
                        Match { start: offsets[q], length: token@.len() as usize, token: t },
                    ));
                }
            }
        }
        t += 1;
    }
    list
}

} // verus!
