//! The matching automaton: built once from a vocabulary, it finds in one pass
//! over a text every place where a token of the vocabulary stands.

use daachorse::CharwiseDoubleArrayAhoCorasick;
use vstd::prelude::*;
use vstd::utf8::encode_utf8;
use crate::candidates::{candidates_for, lists_occurrences, only_occurrences, rising};
use crate::segment::{occurs_at, string_texts, texts_of};
use crate::utf8::{
    byte_offset, byte_offsets, lemma_byte_offset_at_least, lemma_byte_offset_rises,
};
use crate::vocabulary::distinct_texts;

verus! {

/// The character-wise Aho-Corasick automaton of the daachorse crate. Its
/// states are not read here; what it was built from has a name below.
#[verifier::external_type_specification]
#[verifier::external_body]
#[verifier::reject_recursive_types(V)]
pub struct ExCharwiseAutomaton<V>(CharwiseDoubleArrayAhoCorasick<V>);

/// The error type of the daachorse crate. Nothing is read from it.
#[verifier::external_type_specification]
#[verifier::external_body]
pub struct ExAutomatonError(daachorse::errors::DaachorseError);

/// The patterns that an automaton was built from, in the order in which they
/// were given. The value that the automaton reports for a pattern is its
/// index in this list.
pub uninterp spec fn automaton_patterns(a: CharwiseDoubleArrayAhoCorasick<usize>) -> Seq<Seq<char>>;

/// The automaton was built in the plain way: it matches in the standard
/// manner of Aho and Corasick, and the value of each pattern is its index.
pub uninterp spec fn automaton_is_plain(a: CharwiseDoubleArrayAhoCorasick<usize>) -> bool;

/// Whether the daachorse crate builds a plain automaton from the given
/// patterns, in their order.
pub uninterp spec fn automaton_builds(patterns: Seq<Seq<char>>) -> bool;

/// A match as the automaton reports it: where the match starts and where it
/// ends, both as offsets in bytes, and the index of the pattern.
pub type Found = (usize, usize, usize);

/// `found` is the report of the pattern `id` standing in `text` at the
/// character offset `at`.
pub open spec fn reports(
    patterns: Seq<Seq<char>>,
    text: Seq<char>,
    found: Found,
    id: int,
    at: int,
) -> bool {
    &&& 0 <= id < patterns.len()
    &&& occurs_at(text, patterns[id], at)
    &&& found.2 == id
    &&& found.0 == byte_offset(text, at)
    &&& found.1 == byte_offset(text, at + patterns[id].len())
}

/// `CharwiseDoubleArrayAhoCorasick::new` with `usize` values: where it
/// succeeds, the automaton stands for the given patterns, each with its index
/// as value, and its match kind is the standard one. It fails on an empty
/// list, an empty pattern, a pattern given twice, or too large a scale;
/// whether it succeeds depends on the patterns alone and is left to the name
/// `automaton_builds`.
#[verifier::external_body]
fn build_automaton(patterns: &Vec<String>) -> (r: Result<
    CharwiseDoubleArrayAhoCorasick<usize>,
    daachorse::errors::DaachorseError,
>)
    ensures
        r is Ok <==> automaton_builds(string_texts(patterns@)),
        r is Ok ==> patterns.len() > 0 && distinct_texts(string_texts(patterns@)),
        r matches Ok(a) ==> automaton_is_plain(a) && automaton_patterns(a) == string_texts(
            patterns@,
        ),
{
    CharwiseDoubleArrayAhoCorasick::new(patterns)
}

/// `found` reports a place where the pattern that it names stands in the
/// text.
pub open spec fn is_report(patterns: Seq<Seq<char>>, text: Seq<char>, found: Found) -> bool {
    exists|at: int| reports(patterns, text, found, found.2 as int, at)
}

/// The matches come as a scan from left to right finds them: the end of a
/// match never lies before the end of one that came earlier, and no pattern
/// comes twice with the same end.
pub open spec fn in_scan_order(found: Seq<Found>) -> bool {
    forall|i: int, j: int|
        0 <= i < j < found.len() ==> (#[trigger] found[i]).1 <= (#[trigger] found[j]).1 && !(
        found[i].1 == found[j].1 && found[i].2 == found[j].2)
}

/// Each match reports a place where its pattern stands in the text, and the
/// matches come in the order of a scan.
pub open spec fn well_reported(
    patterns: Seq<Seq<char>>,
    text: Seq<char>,
    found: Seq<Found>,
) -> bool {
    &&& forall|k: int| 0 <= k < found.len() ==> is_report(patterns, text, #[trigger] found[k])
    &&& in_scan_order(found)
}

/// Every place where a pattern stands in the text is reported by a match.
pub open spec fn all_reported(
    patterns: Seq<Seq<char>>,
    text: Seq<char>,
    found: Seq<Found>,
) -> bool {
    forall|id: int, at: int|
        0 <= id < patterns.len() && #[trigger] occurs_at(text, patterns[id], at) ==> exists|
            k: int,
        |
            0 <= k < found.len() && reports(patterns, text, #[trigger] found[k], id, at)
}

/// `find_overlapping_iter` on a plain automaton, its matches collected: each
/// match reports a place where one of the patterns stands in the text, and
/// every such place is reported. The iterator reads the text from left to
/// right and yields, at each character, the patterns that end there, each
/// once: so the matches come in the order of a scan. On an automaton of
/// another match kind the call would panic; that is ruled out.
#[verifier::external_body]
fn find_all(a: &CharwiseDoubleArrayAhoCorasick<usize>, text: &str) -> (found: Vec<Found>)
    requires
        automaton_is_plain(*a),
    ensures
        well_reported(automaton_patterns(*a), text@, found@),
        all_reported(automaton_patterns(*a), text@, found@),
{
    a.find_overlapping_iter(text).map(|m| (m.start(), m.end(), m.value())).collect()
}

/// The automaton of a vocabulary, exactly where one can be built: there is
/// none for a vocabulary without tokens, with an empty token or with a token
/// twice.
pub(crate) fn automaton_of(vocab: &Vec<String>) -> (r: Option<
    CharwiseDoubleArrayAhoCorasick<usize>,
>)
    ensures
        r is Some <==> automaton_builds(string_texts(vocab@)),
        r is Some ==> vocab.len() > 0 && distinct_texts(string_texts(vocab@)),
        r matches Some(a) ==> automaton_is_plain(a) && automaton_patterns(a) == string_texts(
            vocab@,
        ),
{
    match build_automaton(vocab) {
        Ok(a) => Some(a),
        Err(_) => None,
    }
}

/// For each byte offset of the encoding the character that starts there, if
/// one does; the end of the text counts as a start.
fn char_starts(offsets: &Vec<usize>, text: Ghost<Seq<char>>) -> (starts: Vec<Option<usize>>)
    requires
        offsets.len() == text@.len() + 1,
        forall|i: int| 0 <= i <= text@.len() ==> #[trigger] offsets[i] == byte_offset(text@, i),
    ensures
        starts.len() == encode_utf8(text@).len() + 1,
        forall|i: int|
            0 <= i <= text@.len() ==> starts[byte_offset(text@, i) as int] == Some(i as usize),
{
    let n = offsets.len() - 1;
    let total = offsets[n];
    proof {
        lemma_byte_offset_rises(text@, 0, n as int);
    }
    let mut starts: Vec<Option<usize>> = Vec::new();
    let mut b: usize = 0;
    while b < total
        invariant
            b <= total,
            starts.len() == b,
        decreases total - b,
    {
        starts.push(None);
        b += 1;
    }
    starts.push(None);
    let mut i: usize = 0;
    while i <= n
        invariant
            i <= n + 1,
            n + 1 == offsets.len(),
            n == text@.len(),
            total == encode_utf8(text@).len(),
            starts.len() == total + 1,
            forall|k: int| 0 <= k <= n ==> #[trigger] offsets[k] == byte_offset(text@, k),
            forall|k: int| 0 <= k < i ==> starts[byte_offset(text@, k) as int] == Some(k as usize),
        decreases n + 1 - i,
    {
        let ghost before = starts@;
        proof {
            lemma_byte_offset_rises(text@, i as int, n as int);
            assert(offsets[i as int] == byte_offset(text@, i as int));
        }
        starts.set(offsets[i], Some(i));
        proof {
            assert forall|k: int| 0 <= k < i + 1 implies starts[byte_offset(text@, k) as int]
                == Some(k as usize) by {
                lemma_byte_offset_rises(text@, k, i as int);
                if k < i {
                    assert(before[byte_offset(text@, k) as int] == Some(k as usize));
                }
            }
        }
        i += 1;
    }
    starts
}

/// The offsets of a list of lists.
pub open spec fn list_views(lists: Seq<Vec<usize>>) -> Seq<Seq<usize>> {
    Seq::new(lists.len(), |i: int| lists[i]@)
}

/// The lists after one more match was sorted in: the character offset at
/// which the match starts goes to the end of the list of its pattern. There
/// is no result where the match names no pattern, starts at no character, or
/// starts no further right than the match before it in that list.
pub open spec fn sort_in(
    lists: Seq<Seq<usize>>,
    starts: Seq<Option<usize>>,
    found: Found,
) -> Option<Seq<Seq<usize>>> {
    if found.2 >= lists.len() || found.0 >= starts.len() {
        None
    } else {
        let list = lists[found.2 as int];
        match starts[found.0 as int] {
            Some(at) => if list.len() > 0 && list.last() >= at {
                None
            } else {
                Some(lists.update(found.2 as int, list.push(at)))
            },
            None => None,
        }
    }
}

/// The lists, one for each of `tokens` patterns, after the first `k` matches
/// were sorted in, one after the other.
pub open spec fn sorted_upto(
    found: Seq<Found>,
    starts: Seq<Option<usize>>,
    tokens: nat,
    k: int,
) -> Option<Seq<Seq<usize>>>
    decreases k,
{
    if k <= 0 {
        Some(Seq::new(tokens, |i: int| Seq::<usize>::empty()))
    } else {
        match sorted_upto(found, starts, tokens, k - 1) {
            Some(lists) => sort_in(lists, starts, found[k - 1]),
            None => None,
        }
    }
}

/// The matches sorted by pattern: for each pattern the character offsets at
/// which its matches start, in the order of the matches.
pub open spec fn sorted(found: Seq<Found>, starts: Seq<Option<usize>>, tokens: nat) -> Option<
    Seq<Seq<usize>>,
> {
    sorted_upto(found, starts, tokens, found.len() as int)
}

/// Once a match could not be sorted in, there is no result.
proof fn lemma_sorting_fails(
    found: Seq<Found>,
    starts: Seq<Option<usize>>,
    tokens: nat,
    k: int,
    n: int,
)
    requires
        0 <= k <= n,
        sorted_upto(found, starts, tokens, k) is None,
    ensures
        sorted_upto(found, starts, tokens, n) is None,
    decreases n - k,
{
    if k < n {
        lemma_sorting_fails(found, starts, tokens, k, n - 1);
    }
}

/// One of the first `k` matches reports the pattern `id` at the character
/// offset `at`.
pub open spec fn reported_before(
    patterns: Seq<Seq<char>>,
    text: Seq<char>,
    found: Seq<Found>,
    k: int,
    id: int,
    at: usize,
) -> bool {
    exists|j: int| 0 <= j < k && reports(patterns, text, #[trigger] found[j], id, at as int)
}

/// A match that reports a place in the text can be sorted in behind matches
/// that came before it in a scan.
proof fn lemma_report_fits(
    patterns: Seq<Seq<char>>,
    text: Seq<char>,
    found: Seq<Found>,
    starts: Seq<Option<usize>>,
    k: int,
)
    requires
        0 <= k < found.len(),
        well_reported(patterns, text, found),
        text.len() <= usize::MAX,
        starts.len() == encode_utf8(text).len() + 1,
        forall|i: int|
            0 <= i <= text.len() ==> starts[byte_offset(text, i) as int] == Some(i as usize),
    ensures
        found[k].2 < patterns.len(),
        found[k].0 < starts.len(),
        starts[found[k].0 as int] is Some,
        reports(
            patterns,
            text,
            found[k],
            found[k].2 as int,
            starts[found[k].0 as int].unwrap() as int,
        ),
        forall|at: usize|
            reported_before(patterns, text, found, k, found[k].2 as int, at) ==> at
                < starts[found[k].0 as int].unwrap(),
{
    let m = found[k];
    let id = m.2 as int;
    assert(is_report(patterns, text, m));
    let here = choose|here: int| reports(patterns, text, m, id, here);
    let len = patterns[id].len() as int;
    lemma_byte_offset_rises(text, here, text.len() as int);
    assert(starts[byte_offset(text, here) as int] == Some(here as usize));
    assert forall|at: usize| reported_before(patterns, text, found, k, id, at) implies at
        < here by {
        let j = choose|j: int|
            0 <= j < k && reports(patterns, text, #[trigger] found[j], id, at as int);
        assert(found[j].1 <= found[k].1 && !(found[j].1 == found[k].1 && found[j].2 == found[k].2));
        if at >= here {
            lemma_byte_offset_rises(text, here + len, at + len);
        }
    }
}

/// Sorts the matches that the automaton found by pattern: for each token the
/// character offsets at which it was found, in the order of the matches.
/// `None` where a match names no token, starts at no character of the text,
/// or starts no further right than the match of its token before it. Matches
/// that report places in the text in the order of a scan are always sorted,
/// and each list then holds only places where its token stands.
fn sort_matches(
    found: &Vec<Found>,
    starts: &Vec<Option<usize>>,
    tokens: usize,
    text: Ghost<Seq<char>>,
    patterns: Ghost<Seq<Seq<char>>>,
) -> (r: Option<Vec<Vec<usize>>>)
    requires
        patterns@.len() == tokens,
        starts.len() == encode_utf8(text@).len() + 1,
        forall|i: int|
            0 <= i <= text@.len() ==> starts[byte_offset(text@, i) as int] == Some(i as usize),
        all_reported(patterns@, text@, found@),
    ensures
        match r {
            Some(lists) => sorted(found@, starts@, tokens as nat) == Some(list_views(lists@))
                && candidates_for(text@, patterns@, lists@),
            None => sorted(found@, starts@, tokens as nat) is None,
        },
        well_reported(patterns@, text@, found@) ==> (r matches Some(lists) && only_occurrences(
            text@,
            patterns@,
            lists@,
        )),
{
    let ghost good = well_reported(patterns@, text@, found@);
    let mut lists: Vec<Vec<usize>> = Vec::new();
    let mut t: usize = 0;
    while t < tokens
        invariant
            t <= tokens,
            lists.len() == t,
            forall|id: int| 0 <= id < t ==> (#[trigger] lists[id])@.len() == 0,
        decreases tokens - t,
    {
        lists.push(Vec::new());
        t += 1;
    }
    proof {
        assert forall|i: int| 0 <= i < tokens implies #[trigger] list_views(lists@)[i]
            == Seq::<usize>::empty() by {
            assert(lists@[i]@ =~= Seq::<usize>::empty());
        }
        assert(list_views(lists@) =~= Seq::new(tokens as nat, |i: int| Seq::<usize>::empty()));
        lemma_byte_offset_at_least(text@, text@.len() as int);
        lemma_byte_offset_rises(text@, 0, text@.len() as int);
    }
    let mut k: usize = 0;
    while k < found.len()
        invariant
            k <= found.len(),
            lists.len() == tokens,
            patterns@.len() == tokens,
            text@.len() <= usize::MAX,
            starts.len() == encode_utf8(text@).len() + 1,
            forall|i: int|
                0 <= i <= text@.len() ==> starts[byte_offset(text@, i) as int] == Some(
                    i as usize,
                ),
            good == well_reported(patterns@, text@, found@),
            sorted_upto(found@, starts@, tokens as nat, k as int) == Some(list_views(lists@)),
            forall|id: int| 0 <= id < tokens ==> rising((#[trigger] lists[id])@),
            forall|j: int|
                0 <= j < k ==> (#[trigger] found[j]).2 < tokens && found[j].0 < starts.len()
                    && starts[found[j].0 as int] is Some && lists[found[j].2 as int]@.contains(
                    starts[found[j].0 as int].unwrap(),
                ),
            good ==> forall|id: int, i: int|
                0 <= id < tokens && 0 <= i < lists[id]@.len() ==> reported_before(
                    patterns@,
                    text@,
                    found@,
                    k as int,
                    id,
                    #[trigger] lists[id]@[i],
                ),
        decreases found.len() - k,
    {
        let (start, _, id) = found[k];
        let ghost before = lists@;
        let ghost views = list_views(before);
        proof {
            if good {
                lemma_report_fits(patterns@, text@, found@, starts@, k as int);
            }
        }
        if id >= tokens || start >= starts.len() {
            proof {
                lemma_sorting_fails(found@, starts@, tokens as nat, k + 1, found.len() as int);
            }
            return None;
        }
        let at = match starts[start] {
            Some(at) => at,
            None => {
                proof {
                    lemma_sorting_fails(found@, starts@, tokens as nat, k + 1, found.len() as int);
                }
                return None;
            },
        };
        let list = &mut lists[id];
        if list.len() > 0 && list[list.len() - 1] >= at {
            proof {
                assert(views[id as int].last() == before[id as int]@[before[id as int]@.len() - 1]);
                lemma_sorting_fails(found@, starts@, tokens as nat, k + 1, found.len() as int);
                if good {
                    let last = before[id as int]@[before[id as int]@.len() - 1];
                    assert(reported_before(patterns@, text@, found@, k as int, id as int, last));
                }
            }
            return None;
        }
        list.push(at);
        proof {
            assert(lists@[id as int]@ == before[id as int]@.push(at));
            assert forall|other: int| 0 <= other < tokens && other != id implies lists@[other]
                == before[other] by {}
            assert(list_views(lists@) =~= views.update(id as int, views[id as int].push(at)));
            assert forall|j: int| 0 <= j < k + 1 implies (#[trigger] found[j]).2 < tokens
                && found[j].0 < starts.len() && starts[found[j].0 as int] is Some
                && lists[found[j].2 as int]@.contains(starts[found[j].0 as int].unwrap()) by {
                if j < k {
                    let that = found[j].2 as int;
                    let value = starts[found[j].0 as int].unwrap();
                    assert(before[that]@.contains(value));
                    let held = before[that]@;
                    let i = choose|i: int| 0 <= i < held.len() && held[i] == value;
                    assert(lists@[that]@[i] == value);
                } else {
                    assert(lists@[id as int]@[before[id as int]@.len() as int] == at);
                }
            }
            if good {
                assert forall|other: int, i: int|
                    0 <= other < tokens && 0 <= i < lists[other]@.len() implies reported_before(
                    patterns@,
                    text@,
                    found@,
                    k + 1,
                    other,
                    #[trigger] lists[other]@[i],
                ) by {
                    if other == id && i == before[id as int]@.len() {
                        assert(reports(patterns@, text@, found@[k as int], id as int, at as int));
                    } else {
                        assert(lists[other]@[i] == before[other]@[i]);
                        assert(reported_before(
                            patterns@,
                            text@,
                            found@,
                            k as int,
                            other,
                            before[other]@[i],
                        ));
                        let j = choose|j: int|
                            0 <= j < k && reports(
                                patterns@,
                                text@,
                                #[trigger] found@[j],
                                other,
                                before[other]@[i] as int,
                            );
                        let same = lists[other]@[i];
                        assert(reports(patterns@, text@, found@[j], other, same as int));
                    }
                }
            }
        }
        k += 1;
    }
    proof {
        assert forall|id: int| 0 <= id < patterns@.len() implies rising((#[trigger] lists@[id])@)
            && lists_occurrences(text@, patterns@[id], lists@[id]@) by {
            let list = lists@[id]@;
            assert forall|at: int| #[trigger]
                occurs_at(text@, patterns@[id], at) implies list.contains(at as usize) by {
                let j = choose|j: int|
                    0 <= j < found.len() && reports(patterns@, text@, #[trigger] found[j], id, at);
                assert(starts[byte_offset(text@, at) as int] == Some(at as usize));
            }
        }
        if good {
            assert forall|id: int, i: int|
                0 <= id < lists@.len() && 0 <= i < lists@[id]@.len() implies occurs_at(
                text@,
                patterns@[id],
                (#[trigger] lists@[id]@[i]) as int,
            ) by {
                assert(reported_before(patterns@, text@, found@, k as int, id, lists[id]@[i]));
            }
        }
    }
    Some(lists)
}

/// For each token of the vocabulary the offsets at which the automaton finds
/// it in the text: exactly the offsets at which the token stands there, in
/// rising order. The result is always `Some`: the report of a plain automaton
/// comes in the order of a scan, which is all that sorting it asks for.
pub(crate) fn find_candidates(
    a: &CharwiseDoubleArrayAhoCorasick<usize>,
    text: &str,
    chars: &Vec<char>,
    vocab: &Vec<Vec<char>>,
) -> (r: Option<Vec<Vec<usize>>>)
    requires
        chars@ == text@,
        automaton_is_plain(*a),
        automaton_patterns(*a) == texts_of(vocab@),
    ensures
        r matches Some(lists) && candidates_for(chars@, texts_of(vocab@), lists@)
            && only_occurrences(chars@, texts_of(vocab@), lists@),
{
    let bytes = text.as_bytes();
    assert(encode_utf8(chars@).len() == bytes.len());
    let offsets = byte_offsets(chars);
    let starts = char_starts(&offsets, Ghost(chars@));
    let found = find_all(a, text);
    sort_matches(&found, &starts, vocab.len(), Ghost(chars@), Ghost(texts_of(vocab@)))
}

} // verus!
