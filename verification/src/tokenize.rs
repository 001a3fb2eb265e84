//! The segmenter over a sorted index: the vocabulary is kept in an ordered
//! map from the bytes of each token to its rank, and the places where tokens
//! stand are found by looking up the parts of the text in that map.

use vstd::prelude::*;
use vstd::slice::slice_subrange;
use vstd::string::StrSliceExecFns;
use vstd::utf8::encode_utf8;
use crate::candidates::{
    candidates_for, lists_occurrences, only_occurrences, rising, tag_candidates,
};
use crate::error::VocabError;
use crate::persist::{json_weights, key_views, load_vocabulary, stored_texts};
use crate::ranking::{lex_order, lex_ordered, ranked, Ranked};
use crate::segment::{
    collapse_tags, occurs_at, segmentation, string_texts, tag_text, tagging, texts_for,
    texts_of, token_texts, Tag,
};
use crate::segment_laws::lemma_segmentation_ids;
use crate::text::chars_of_str;
use crate::utf8::{byte_offset, byte_offsets, lemma_encode_injective, lemma_encode_part};

verus! {

/// The ordered map of the fst crate. Its bytes are not read here; what it
/// holds has a name below.
#[verifier::external_type_specification]
#[verifier::external_body]
#[verifier::reject_recursive_types(D)]
pub struct ExIndex<D>(fst::Map<D>);

/// The error type of the fst crate. Nothing is read from it.
#[verifier::external_type_specification]
#[verifier::external_body]
pub struct ExIndexError(fst::Error);

/// What an index holds: its keys, each with its value.
pub uninterp spec fn index_entries(m: fst::Map<Vec<u8>>) -> Map<Seq<u8>, u64>;

/// The index was built from keys and values, so that its bytes are those of
/// a sound map.
pub uninterp spec fn index_is_sound(m: fst::Map<Vec<u8>>) -> bool;

/// Keys and values as the contracts see them.
pub open spec fn entry_views(entries: Seq<(Vec<u8>, u64)>) -> Seq<(Seq<u8>, u64)> {
    Seq::new(entries.len(), |i: int| (entries[i].0@, entries[i].1))
}

/// Whether the fst crate builds a map from the given keys and values, in
/// their order.
pub uninterp spec fn index_builds(entries: Seq<(Seq<u8>, u64)>) -> bool;

/// `fst::Map::from_iter` on the given keys and values in their order. It
/// succeeds only where the keys rise strictly from one to the next in the
/// order of byte strings, so that no key comes twice; the map then holds the
/// given keys with their values and no other key. Whether it succeeds
/// depends on the keys and values alone and is left to the name
/// `index_builds`.
#[verifier::external_body]
fn build_index(entries: &Vec<(Vec<u8>, u64)>) -> (r: Result<fst::Map<Vec<u8>>, fst::Error>)
    ensures
        r is Ok <==> index_builds(entry_views(entries@)),
        r matches Ok(m) ==> {
            &&& index_is_sound(m)
            &&& forall|i: int, j: int|
                0 <= i < j < entries.len() ==> (#[trigger] entries[i]).0@ != (
                #[trigger] entries[j]).0@
            &&& forall|i: int|
                0 <= i < entries.len() ==> index_entries(m).contains_key(
                    (#[trigger] entries[i]).0@,
                ) && index_entries(m)[entries[i].0@] == entries[i].1
            &&& forall|key: Seq<u8>| #[trigger]
                index_entries(m).contains_key(key) ==> exists|i: int|
                    0 <= i < entries.len() && (#[trigger] entries[i]).0@ == key
        },
{
    fst::Map::from_iter(entries.iter().map(|e| (&e.0, e.1)))
}

/// `fst::Map::get` on a sound map: the value that the map holds for the key,
/// if it holds the key. On a map over bytes that are no sound map the call
/// could panic; that is ruled out.
#[verifier::external_body]
fn index_get(m: &fst::Map<Vec<u8>>, key: &[u8]) -> (r: Option<u64>)
    requires
        index_is_sound(*m),
    ensures
        r == if index_entries(*m).contains_key(key@) {
            Some(index_entries(*m)[key@])
        } else {
            None::<u64>
        },
{
    m.get(key)
}

/// `key` holds the bytes of a token of the vocabulary.
pub open spec fn is_token_key(tokens: Seq<Seq<char>>, key: Seq<u8>) -> bool {
    exists|id: int| 0 <= id < tokens.len() && key == encode_utf8(#[trigger] tokens[id])
}

/// The index is sound and holds the bytes of each token of the vocabulary
/// with the rank of the token, and no other key.
pub open spec fn indexes(m: fst::Map<Vec<u8>>, tokens: Seq<Seq<char>>) -> bool {
    &&& index_is_sound(m)
    &&& forall|id: int|
        0 <= id < tokens.len() ==> index_entries(m).contains_key(
            encode_utf8(#[trigger] tokens[id]),
        ) && index_entries(m)[encode_utf8(tokens[id])] == id
    &&& forall|key: Seq<u8>| #[trigger]
        index_entries(m).contains_key(key) ==> is_token_key(tokens, key)
}

/// The keys and values from which the index of a vocabulary is built: the
/// bytes of each token with its rank, in the given order of the ranks.
pub open spec fn keyed(tokens: Seq<Seq<char>>, order: Seq<usize>) -> Seq<(Seq<u8>, u64)> {
    Seq::new(order.len(), |q: int| (encode_utf8(tokens[order[q] as int]), order[q] as u64))
}

/// The index of a ranked vocabulary, exactly where one can be built from the
/// bytes of the tokens, taken in the lexicographic order of the tokens, each
/// with its rank: there is none for a vocabulary that holds a token twice.
/// That order is the only one of its kind (`lemma_lex_ordered_unique`).
fn index_of(tokens: &Vec<String>, symbols: &Vec<Vec<char>>) -> (r: Option<fst::Map<Vec<u8>>>)
    requires
        texts_of(symbols@) == string_texts(tokens@),
    ensures
        exists|order: Seq<usize>| #[trigger]
            lex_ordered(string_texts(tokens@), order) && (r is Some <==> index_builds(
                keyed(string_texts(tokens@), order),
            )),
        r is Some ==> forall|a: int, b: int|
            0 <= a < b < tokens.len() ==> #[trigger] string_texts(tokens@)[a]
                != #[trigger] string_texts(tokens@)[b],
        r matches Some(m) ==> indexes(m, string_texts(tokens@)),
{
    let order = lex_order(symbols);
    let mut entries: Vec<(Vec<u8>, u64)> = Vec::new();
    let mut i: usize = 0;
    assert(tokens.len() == symbols.len()) by {
        assert(texts_of(symbols@).len() == string_texts(tokens@).len());
    }
    while i < order.len()
        invariant
            i <= order.len(),
            order.len() == tokens.len(),
            forall|q: int| 0 <= q < order.len() ==> (#[trigger] order@[q]) < tokens.len(),
            entries.len() == i,
            forall|q: int|
                0 <= q < i ==> (#[trigger] entries[q]).0@ == encode_utf8(
                    tokens@[order@[q] as int]@,
                ) && entries[q].1 == order@[q],
        decreases order.len() - i,
    {
        let id = order[i];
        entries.push((tokens[id].as_str().as_bytes_vec(), id as u64));
        i += 1;
    }
    proof {
        assert(entry_views(entries@) =~= keyed(string_texts(tokens@), order@));
        assert(lex_ordered(string_texts(tokens@), order@));
    }
    match build_index(&entries) {
        Ok(m) => {
            proof {
                let texts = string_texts(tokens@);
                assert forall|id: int| 0 <= id < texts.len() implies index_entries(m).contains_key(
                    encode_utf8(#[trigger] texts[id]),
                ) && index_entries(m)[encode_utf8(texts[id])] == id by {
                    assert(order@.contains(id as usize));
                    let q = choose|q: int| 0 <= q < order@.len() && order@[q] == id as usize;
                    assert(entries[q].0@ == encode_utf8(texts[id]));
                }
                assert forall|a: int, b: int| 0 <= a < b < tokens.len() implies #[trigger] texts[a]
                    != #[trigger] texts[b] by {
                    assert(order@.contains(a as usize));
                    assert(order@.contains(b as usize));
                    let qa = choose|q: int| 0 <= q < order@.len() && order@[q] == a as usize;
                    let qb = choose|q: int| 0 <= q < order@.len() && order@[q] == b as usize;
                    assert(entries[qa].0@ == encode_utf8(texts[a]));
                    assert(entries[qb].0@ == encode_utf8(texts[b]));
                    if qa < qb {
                        assert(entries[qa].0@ != entries[qb].0@);
                    } else {
                        assert(entries[qb].0@ != entries[qa].0@);
                    }
                }
                assert forall|key: Seq<u8>| #[trigger]
                    index_entries(m).contains_key(key) implies is_token_key(texts, key) by {
                    let q = choose|q: int|
                        0 <= q < entries.len() && (#[trigger] entries[q]).0@ == key;
                    assert(key == encode_utf8(texts[order@[q] as int]));
                }
            }
            Some(m)
        },
        Err(_) => None,
    }
}

/// The length of the longest token.
fn longest_token(vocab: &Vec<Vec<char>>) -> (longest: usize)
    ensures
        forall|id: int| 0 <= id < vocab.len() ==> (#[trigger] vocab[id]).len() <= longest,
{
    let mut longest: usize = 0;
    let mut t: usize = 0;
    while t < vocab.len()
        invariant
            t <= vocab.len(),
            forall|id: int| 0 <= id < t ==> (#[trigger] vocab[id]).len() <= longest,
        decreases vocab.len() - t,
    {
        if vocab[t].len() > longest {
            longest = vocab[t].len();
        }
        t += 1;
    }
    longest
}

/// `lists` names, for each token, every offset before `at` at which it
/// stands, and the offset `at` itself for each token shorter than `len` that
/// stands there.
spec fn looked_up(
    text: Seq<char>,
    vocab: Seq<Seq<char>>,
    lists: Seq<Vec<usize>>,
    at: int,
    len: int,
) -> bool {
    forall|id: int, p: int|
        0 <= id < vocab.len() && vocab[id].len() > 0 && #[trigger] occurs_at(text, vocab[id], p)
            && (p < at || (p == at && vocab[id].len() < len)) ==> lists[id]@.contains(p as usize)
}

/// Each listed offset lies before `at`, or is `at` in the list of a token
/// shorter than `len`.
spec fn listed_behind(tokens: Seq<Seq<char>>, lists: Seq<Vec<usize>>, at: int, len: int) -> bool {
    forall|id: int, i: int|
        0 <= id < lists.len() && 0 <= i < lists[id]@.len() ==> (#[trigger] lists[id]@[i]) < at
            || (lists[id]@[i] == at && tokens[id].len() < len)
}

/// For each token of the vocabulary the offsets at which the index finds it
/// in the text: exactly the offsets at which the token stands there, in
/// rising order. Each part of the text that is no longer than the longest
/// token is looked up in the index. The result is always `Some`: an index
/// that holds the tokens with their ranks and nothing else returns only what
/// can be listed.
fn index_candidates(
    m: &fst::Map<Vec<u8>>,
    text: &str,
    chars: &Vec<char>,
    vocab: &Vec<Vec<char>>,
) -> (r: Option<Vec<Vec<usize>>>)
    requires
        chars@ == text@,
        indexes(*m, texts_of(vocab@)),
    ensures
        r matches Some(lists) && candidates_for(chars@, texts_of(vocab@), lists@)
            && only_occurrences(chars@, texts_of(vocab@), lists@),
{
    let ghost tokens = texts_of(vocab@);
    let bytes = text.as_bytes();
    assert(encode_utf8(chars@).len() == bytes.len());
    let offsets = byte_offsets(chars);
    let longest = longest_token(vocab);
    let n = chars.len();
    let mut lists: Vec<Vec<usize>> = Vec::new();
    let mut t: usize = 0;
    while t < vocab.len()
        invariant
            t <= vocab.len(),
            lists.len() == t,
            forall|id: int| 0 <= id < t ==> (#[trigger] lists[id])@.len() == 0,
        decreases vocab.len() - t,
    {
        lists.push(Vec::new());
        t += 1;
    }
    let mut at: usize = 0;
    while at < n
        invariant
            at <= n,
            n == chars.len(),
            chars@ == text@,
            tokens == texts_of(vocab@),
            bytes@ == encode_utf8(chars@),
            offsets.len() == n + 1,
            forall|i: int| 0 <= i <= n ==> #[trigger] offsets[i] == byte_offset(chars@, i),
            forall|id: int| 0 <= id < vocab.len() ==> (#[trigger] vocab[id]).len() <= longest,
            indexes(*m, tokens),
            lists.len() == vocab.len(),
            forall|id: int| 0 <= id < lists.len() ==> rising((#[trigger] lists[id])@),
            looked_up(chars@, tokens, lists@, at as int, 0),
            only_occurrences(chars@, tokens, lists@),
            listed_behind(tokens, lists@, at as int, 0),
        decreases n - at,
    {
        let mut len: usize = 1;
        while len <= longest && len <= n - at
            invariant
                at < n,
                1 <= len,
                n == chars.len(),
                chars@ == text@,
                tokens == texts_of(vocab@),
                bytes@ == encode_utf8(chars@),
                offsets.len() == n + 1,
                forall|i: int| 0 <= i <= n ==> #[trigger] offsets[i] == byte_offset(chars@, i),
                indexes(*m, tokens),
                lists.len() == vocab.len(),
                forall|id: int| 0 <= id < lists.len() ==> rising((#[trigger] lists[id])@),
                looked_up(chars@, tokens, lists@, at as int, len as int),
                only_occurrences(chars@, tokens, lists@),
                listed_behind(tokens, lists@, at as int, len as int),
            decreases longest + 1 - len,
        {
            proof {
                lemma_encode_part(chars@, at as int, at + len);
            }
            let key = slice_subrange(bytes, offsets[at], offsets[at + len]);
            let ghost before = lists@;
            let ghost part = chars@.subrange(at as int, at + len);
            assert(key@ == encode_utf8(part));
            match index_get(m, key) {
                Some(value) => {
                    proof {
                        assert(index_entries(*m).contains_key(key@));
                        assert(is_token_key(tokens, key@));
                        let found = choose|id: int|
                            0 <= id < tokens.len() && key@ == encode_utf8(#[trigger] tokens[id]);
                        lemma_encode_injective(part, tokens[found]);
                        assert(value == found);
                        assert(occurs_at(chars@, tokens[found], at as int));
                    }
                    if value >= vocab.len() as u64 {
                        return None;
                    }
                    let id = value as usize;
                    let list = &mut lists[id];
                    if list.len() > 0 && list[list.len() - 1] >= at {
                        proof {
                            let last = before[id as int]@.len() - 1;
                            assert(before[id as int]@[last] < at || (before[id as int]@[last] == at
                                && tokens[id as int].len() < len));
                        }
                        return None;
                    }
                    list.push(at);
                    proof {
                        assert(lists@[id as int]@ == before[id as int]@.push(at));
                        assert forall|other: int|
                            0 <= other < lists.len() && other != id implies lists@[other]
                            == before[other] by {}
                        assert forall|other: int, i: int|
                            0 <= other < lists.len() && 0 <= i < lists@[other]@.len()
                            implies occurs_at(
                            chars@,
                            tokens[other],
                            (#[trigger] lists@[other]@[i]) as int,
                        ) && (lists@[other]@[i] < at || (lists@[other]@[i] == at
                            && tokens[other].len() < len + 1)) by {
                            if other == id && i == before[id as int]@.len() {
                            } else {
                                assert(lists@[other]@[i] == before[other]@[i]);
                            }
                        }
                    }
                },
                None => {},
            }
            proof {
                assert forall|id: int, p: int|
                    0 <= id < tokens.len() && tokens[id].len() > 0 && #[trigger] occurs_at(
                        chars@,
                        tokens[id],
                        p,
                    ) && (p < at || (p == at && tokens[id].len() < len + 1))
                    implies lists@[id]@.contains(p as usize) by {
                    if p == at && tokens[id].len() == len {
                        assert(part =~= tokens[id]);
                        assert(index_entries(*m).contains_key(encode_utf8(tokens[id])));
                        let last = lists@[id]@.len() - 1;
                        assert(lists@[id]@[last] == at);
                    } else {
                        assert(before[id]@.contains(p as usize));
                        let i = choose|i: int|
                            0 <= i < before[id]@.len() && before[id]@[i] == p as usize;
                        assert(lists@[id]@[i] == p as usize);
                    }
                }
            }
            len += 1;
        }
        proof {
            assert forall|id: int, p: int|
                0 <= id < tokens.len() && tokens[id].len() > 0 && #[trigger] occurs_at(
                    chars@,
                    tokens[id],
                    p,
                ) && (p < at + 1 || (p == at + 1 && tokens[id].len() < 0))
                implies lists@[id]@.contains(p as usize) by {
                assert(vocab[id].len() <= longest);
            }
        }
        at += 1;
    }
    proof {
        assert forall|id: int| 0 <= id < tokens.len() implies rising((#[trigger] lists@[id])@)
            && lists_occurrences(chars@, tokens[id], lists@[id]@) by {
            if tokens[id].len() > 0 {
                let list = lists@[id]@;
                assert forall|p: int| #[trigger]
                    occurs_at(chars@, tokens[id], p) implies list.contains(p as usize) by {}
            }
        }
    }
    Some(lists)
}

/// A text and the vocabulary with which it is to be segmented.
pub struct Tokenizer {
    vocab: Option<fst::Map<Vec<u8>>>,
    tokens: Ranked,
    input: String,
}

impl Tokenizer {
    /// The texts of the tokens, in ranked order.
    pub closed spec fn tokens(&self) -> Seq<Seq<char>> {
        self.tokens.tokens()
    }

    /// The text to be segmented.
    pub closed spec fn input(&self) -> Seq<char> {
        self.input@
    }

    /// An index could be built for the vocabulary.
    pub closed spec fn index_built(&self) -> bool {
        self.vocab is Some
    }

    /// The vocabulary is ranked, each token has its characters at hand, and
    /// the index, where there is one, holds the tokens with their ranks.
    pub closed spec fn wf(&self) -> bool {
        &&& self.tokens.wf()
        &&& self.vocab matches Some(m) ==> indexes(m, self.tokens())
    }

    /// A tokenizer for `input` over `tokens`, which it puts in ranked order.
    pub fn from_tokens(input: String, tokens: Vec<String>) -> (t: Tokenizer)
        ensures
            t.wf(),
            t.input() == input@,
            ranked(t.tokens()),
            t.tokens().to_multiset() == string_texts(tokens@).to_multiset(),
            exists|order: Seq<usize>| #[trigger]
                lex_ordered(t.tokens(), order) && (t.index_built() <==> index_builds(
                    keyed(t.tokens(), order),
                )),
    {
        let tokens = Ranked::new(tokens);
        let vocab = index_of(tokens.strings(), tokens.symbols());
        Tokenizer { vocab, tokens, input }
    }

    /// A tokenizer for `input` over a stored vocabulary. `stored` is what was found
    /// where the vocabulary is kept: `None` if nothing was found, else the
    /// text, a JSON map from token texts to weights. The token texts are put
    /// in ranked order; the weights are not used.
    pub fn new(input: String, stored: Option<&str>) -> (r: Result<Tokenizer, VocabError>)
        ensures
            match r {
                Ok(t) => {
                    &&& stored matches Some(json) && json_weights(json@) is Some
                    &&& t.wf()
                    &&& t.input() == input@
                    &&& exists|order: Seq<usize>| #[trigger]
                        lex_ordered(t.tokens(), order) && (t.index_built() <==> index_builds(
                            keyed(t.tokens(), order),
                        ))
                    &&& ranked(t.tokens())
                    &&& t.tokens().to_multiset() == Seq::new(
                        json_weights(stored.unwrap()@).unwrap().len(),
                        |i: int| json_weights(stored.unwrap()@).unwrap()[i].0,
                    ).to_multiset()
                },
                Err(e) => match stored {
                    None => e == VocabError::VocabNotFound,
                    Some(json) => e == VocabError::VocabParseError && json_weights(json@) is None,
                },
            },
    {
        match load_vocabulary(stored) {
            Ok(list) => {
                let texts = stored_texts(&list);
                assert(key_views(list@) =~= Seq::new(
                    json_weights(stored.unwrap()@).unwrap().len(),
                    |i: int| json_weights(stored.unwrap()@).unwrap()[i].0,
                ));
                Ok(Tokenizer::from_tokens(input, texts))
            },
            Err(e) => Err(e),
        }
    }

    /// The number of tokens.
    pub fn len(&self) -> (n: usize)
        ensures
            n == self.tokens().len(),
    {
        self.tokens.len()
    }

    /// The text of the token with index `id`.
    pub fn token(&self, id: usize) -> (text: &String)
        requires
            id < self.tokens().len(),
        ensures
            text@ == self.tokens()[id as int],
    {
        self.tokens.token(id)
    }

    /// Whether the tokenizer has an index of its vocabulary. Without one it
    /// looks for each token at every offset of the text.
    pub fn has_index(&self) -> (r: bool)
        ensures
            r == self.index_built(),
    {
        self.vocab.is_some()
    }

    /// The tags of the text.
    fn tag(&self, chars: &Vec<char>) -> (tags: Vec<Tag>)
        requires
            self.wf(),
            chars@ == self.input@,
        ensures
            tags.len() == chars.len(),
            tags@ == tagging(chars@, self.tokens()),
    {
        match &self.vocab {
            Some(m) => match index_candidates(
                m,
                self.input.as_str(),
                chars,
                self.tokens.symbols(),
            ) {
                Some(lists) => tag_candidates(chars, self.tokens.symbols(), &lists),
                None => tag_text(chars, self.tokens.symbols()),
            },
            None => tag_text(chars, self.tokens.symbols()),
        }
    }

    /// Segments the text into token texts. Characters that no token covers
    /// are left out.
    pub fn tokenize(&self) -> (out: Vec<String>)
        requires
            self.wf(),
        ensures
            string_texts(out@) == token_texts(
                self.tokens(),
                segmentation(self.input(), self.tokens()),
            ),
    {
        let chars = chars_of_str(self.input.as_str());
        let tags = self.tag(&chars);
        let ids = collapse_tags(&tags);
        proof {
            assert(chars@.len() == chars.len());
            self.tokens.lemma_wf();
            lemma_segmentation_ids(chars@, self.tokens());
            assert(ids@ == segmentation(chars@, self.tokens()));
        }
        texts_for(self.tokens.strings(), &ids)
    }
}

} // verus!
