//! The stored form of a vocabulary: a JSON object that maps each token text
//! to its weight. The order of its members carries no meaning.

use std::collections::BTreeMap;
use vstd::prelude::*;
use crate::error::{VocabError, VocabWriteError};
use crate::vocabulary::{Entry, Vocabulary};

verus! {

/// The error type of the serde_json crate. Nothing is read from it.
#[verifier::external_type_specification]
#[verifier::external_body]
pub struct ExJsonError(serde_json::Error);

/// A list of stored entries as the contracts see it: each text with its
/// weight.
pub open spec fn weight_views(list: Seq<(String, u128)>) -> Seq<(Seq<char>, u128)> {
    Seq::new(list.len(), |i: int| (list[i].0@, list[i].1))
}

/// No text occurs twice in the list.
pub open spec fn distinct_keys(list: Seq<(Seq<char>, u128)>) -> bool {
    forall|i: int, j: int|
        0 <= i < j < list.len() ==> (#[trigger] list[i]).0 != (#[trigger] list[j]).0
}

/// The texts of a list of stored entries.
pub open spec fn key_views(list: Seq<(String, u128)>) -> Seq<Seq<char>> {
    Seq::new(list.len(), |i: int| list[i].0@)
}

/// The entries of a vocabulary as they are stored.
pub open spec fn stored(entries: Seq<Entry>) -> Seq<(Seq<char>, u128)> {
    Seq::new(entries.len(), |i: int| (entries[i].text, entries[i].weight as u128))
}

/// What serde_json reads from `json` as a map from strings to unsigned
/// 128-bit numbers, its members in the rising order of their keys; `None`
/// where it reads no such map.
pub uninterp spec fn json_weights(json: Seq<char>) -> Option<Seq<(Seq<char>, u128)>>;

/// What serde_json writes, pretty-printed, for the map from strings to
/// numbers that holds the members of `list`; `None` where it fails.
pub uninterp spec fn weights_json(list: Seq<(Seq<char>, u128)>) -> Option<Seq<char>>;

/// `serde_json::from_str` at the type of an ordered map from `String` to
/// `u128`. It succeeds exactly where the text is such a map, and the members
/// then come out of the map in the rising order of their keys, so that no key
/// comes twice. What the members are is left to the name `json_weights`.
#[verifier::external_body]
fn read_weights(json: &str) -> (r: Result<Vec<(String, u128)>, serde_json::Error>)
    ensures
        match r {
            Ok(list) => json_weights(json@) == Some(weight_views(list@)) && distinct_keys(
                weight_views(list@),
            ),
            Err(_) => json_weights(json@) is None,
        },
{
    serde_json::from_str::<BTreeMap<String, u128>>(json).map(|map| map.into_iter().collect())
}

/// `serde_json::to_string_pretty` on the ordered map that holds the members
/// of `list`, whose keys are distinct. The text that comes out is left to the
/// name `weights_json`.
#[verifier::external_body]
fn write_weights(list: &Vec<(String, u128)>) -> (r: Result<String, serde_json::Error>)
    requires
        distinct_keys(weight_views(list@)),
    ensures
        match r {
            Ok(json) => weights_json(weight_views(list@)) == Some(json@),
            Err(_) => weights_json(weight_views(list@)) is None,
        },
{
    let map: BTreeMap<&str, u128> = list.iter().map(|e| (e.0.as_str(), e.1)).collect();
    serde_json::to_string_pretty(&map)
}

/// Reads a stored vocabulary: the token texts with their weights, no text
/// twice. A text that is no JSON map from strings to weights is refused.
pub fn parse_vocabulary(json: &str) -> (r: Result<Vec<(String, u128)>, VocabError>)
    ensures
        match r {
            Ok(list) => json_weights(json@) == Some(weight_views(list@)) && distinct_keys(
                weight_views(list@),
            ),
            Err(e) => e == VocabError::VocabParseError && json_weights(json@) is None,
        },
{
    match read_weights(json) {
        Ok(list) => Ok(list),
        Err(_) => Err(VocabError::VocabParseError),
    }
}

/// Loads a stored vocabulary from what was found where it is kept: `None`
/// says that nothing was found there, `Some` holds the text that was.
pub fn load_vocabulary(stored: Option<&str>) -> (r: Result<Vec<(String, u128)>, VocabError>)
    ensures
        match r {
            Ok(list) => stored matches Some(json) && json_weights(json@) == Some(
                weight_views(list@),
            ) && distinct_keys(weight_views(list@)),
            Err(e) => match stored {
                None => e == VocabError::VocabNotFound,
                Some(json) => e == VocabError::VocabParseError && json_weights(json@) is None,
            },
        },
{
    match stored {
        Some(json) => parse_vocabulary(json),
        None => Err(VocabError::VocabNotFound),
    }
}

/// The token texts of a list of stored entries, in the order of the list.
pub(crate) fn stored_texts(list: &Vec<(String, u128)>) -> (texts: Vec<String>)
    ensures
        crate::segment::string_texts(texts@) == key_views(list@),
{
    let mut texts: Vec<String> = Vec::new();
    let mut i: usize = 0;
    while i < list.len()
        invariant
            i <= list.len(),
            texts.len() == i,
            forall|k: int| 0 <= k < i ==> (#[trigger] texts@[k])@ == list@[k].0@,
        decreases list.len() - i,
    {
        texts.push(list[i].0.clone());
        i += 1;
    }
    assert(crate::segment::string_texts(texts@) =~= key_views(list@));
    texts
}

/// The text and weight of `item` are those of one of the entries.
pub open spec fn is_entry(entries: Seq<Entry>, item: (Seq<char>, u128)) -> bool {
    exists|id: int|
        0 <= id < entries.len() && (#[trigger] entries[id]).text == item.0 && entries[id].weight
            == item.1
}

/// The text reads as a map with as many members as there are entries, each
/// of which is an entry: since no key comes twice in such a map and no text
/// twice among the entries, the text reads back as exactly the entries.
pub open spec fn reads_back(json: Seq<char>, entries: Seq<Entry>) -> bool {
    &&& json_weights(json) matches Some(list)
    &&& list.len() == entries.len()
    &&& forall|i: int| 0 <= i < list.len() ==> is_entry(entries, #[trigger] list[i])
}

/// Whether the text reads back as the entries of the vocabulary.
fn read_back(json: &str, vocab: &Vocabulary) -> (r: bool)
    requires
        vocab.wf(),
    ensures
        r == reads_back(json@, vocab@),
{
    let list = match parse_vocabulary(json) {
        Ok(list) => list,
        Err(_) => {
            return false;
        },
    };
    let ghost read = json_weights(json@).unwrap();
    assert(read.len() == list.len());
    if list.len() != vocab.len() {
        return false;
    }
    let mut i: usize = 0;
    while i < list.len()
        invariant
            i <= list.len(),
            vocab.wf(),
            list.len() == vocab@.len(),
            json_weights(json@) == Some(read),
            read == weight_views(list@),
            forall|k: int| 0 <= k < i ==> is_entry(vocab@, #[trigger] read[k]),
        decreases list.len() - i,
    {
        let chars = crate::text::chars_of_str(list[i].0.as_str());
        let looked = vocab.find(&chars);
        let found = match looked {
            Some(id) => vocab.weight(id) == list[i].1,
            None => false,
        };
        if !found {
            proof {
                vocab.lemma_wf();
                let missing = read[i as int];
                assert(missing == (list@[i as int].0@, list@[i as int].1));
                if reads_back(json@, vocab@) {
                    assert(is_entry(vocab@, missing));
                    let id = choose|id: int|
                        0 <= id < vocab@.len() && (#[trigger] vocab@[id]).text == missing.0
                            && vocab@[id].weight == missing.1;
                    let texts = vocab.texts();
                    assert(texts[id] == missing.0);
                    match looked {
                        Some(other) => {
                            assert(texts[other as int] == missing.0);
                            if id < other {
                                assert(texts[id] != texts[other as int]);
                            } else if other < id {
                                assert(texts[other as int] != texts[id]);
                            }
                            assert(id == other);
                        },
                        None => {
                            assert(texts.contains(chars@));
                        },
                    }
                    assert(false);
                }
            }
            return false;
        }
        proof {
            let id = looked.unwrap() as int;
            assert(vocab@[id].text == read[i as int].0 && vocab@[id].weight == read[i as int].1);
            assert(is_entry(vocab@, read[i as int]));
        }
        i += 1;
    }
    true
}

/// The stored form of a vocabulary: the JSON text that maps each token text
/// to its weight. The text is handed out only after it was read back and
/// found to hold exactly the entries of the vocabulary.
pub fn vocabulary_json(vocab: &Vocabulary) -> (r: Result<String, VocabWriteError>)
    requires
        vocab.wf(),
    ensures
        match r {
            Ok(json) => weights_json(stored(vocab@)) == Some(json@) && reads_back(json@, vocab@),
            Err(_) => match weights_json(stored(vocab@)) {
                Some(json) => !reads_back(json, vocab@),
                None => true,
            },
        },
{
    let list = vocab.weights();
    proof {
        vocab.lemma_wf();
        assert(weight_views(list@) =~= stored(vocab@));
        assert forall|i: int, j: int| 0 <= i < j < list.len() implies (#[trigger] weight_views(
            list@,
        )[i]).0 != (#[trigger] weight_views(list@)[j]).0 by {
            assert(vocab.texts()[i] != vocab.texts()[j]);
        }
    }
    match write_weights(&list) {
        Ok(json) => {
            if read_back(json.as_str(), vocab) {
                Ok(json)
            } else {
                Err(VocabWriteError)
            }
        },
        Err(_) => Err(VocabWriteError),
    }
}

} // verus!
