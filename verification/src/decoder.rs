//! The strict segmenter: a text with a character that no token covers is
//! refused, with the offsets of all such characters. It looks for each token
//! at every offset of the text.

use vstd::prelude::*;
use crate::colour::{random_colours, Colour};
use crate::error::{UnknownCharacter, VocabError};
use crate::persist::{json_weights, key_views, load_vocabulary, stored_texts};
use crate::ranking::{first_index, ranked, Ranked};
use crate::segment::{
    collapse, collapse_tags, copy_strings, segmentation, slot_tags, slots_of, string_texts,
    tag_text, tagging, tags_in, texts_for, token_texts, uncovered, uncovered_slots, CharInfo,
};
use crate::segment_laws::{lemma_covered_round_trip, lemma_none_uncovered, lemma_segmentation_ids};
use crate::text::chars_of_str;

verus! {

/// A vocabulary in ranked order that segments only texts it covers wholly.
pub struct Decoder {
    vocab: Ranked,
    decoded: Option<Vec<String>>,
    colour_map: Vec<Colour>,
}

impl Decoder {
    /// The texts of the tokens, in ranked order.
    pub closed spec fn tokens(&self) -> Seq<Seq<char>> {
        self.vocab.tokens()
    }

    /// The token texts of the last segmentation that went through, if any.
    pub closed spec fn decoded(&self) -> Option<Seq<Seq<char>>> {
        match self.decoded {
            Some(out) => Some(string_texts(out@)),
            None => None,
        }
    }

    /// The colour of each token, by index.
    pub closed spec fn colours(&self) -> Seq<Colour> {
        self.colour_map@
    }

    /// The vocabulary is ranked, and each token has its colour.
    pub closed spec fn wf(&self) -> bool {
        &&& self.vocab.wf()
        &&& self.colour_map.len() == self.vocab.tokens().len()
    }

    /// In a well-formed decoder there is a colour for each token, and the
    /// tokens stand in ranked order.
    pub proof fn lemma_wf(&self)
        requires
            self.wf(),
        ensures
            ranked(self.tokens()),
            self.colours().len() == self.tokens().len(),
            self.tokens().len() <= usize::MAX,
    {
        self.vocab.lemma_wf();
    }

    /// A decoder over `tokens`, which it puts in ranked order. Each token gets
    /// a colour drawn at random.
    pub fn from_tokens(tokens: Vec<String>) -> (d: Decoder)
        ensures
            d.wf(),
            ranked(d.tokens()),
            d.tokens().to_multiset() == string_texts(tokens@).to_multiset(),
            d.decoded() is None,
    {
        let vocab = Ranked::new(tokens);
        let colour_map = random_colours(vocab.len());
        Decoder { vocab, decoded: None, colour_map }
    }

    /// A decoder over a stored vocabulary. `stored` is what was found where
    /// the vocabulary is kept: `None` if nothing was found, else the text, a
    /// JSON map from token texts to weights. The token texts are put in
    /// ranked order; the weights are not used.
    pub fn new(stored: Option<&str>) -> (r: Result<Decoder, VocabError>)
        ensures
            match r {
                Ok(d) => {
                    &&& stored matches Some(json) && json_weights(json@) is Some
                    &&& d.wf()
                    &&& d.decoded() is None
                    &&& ranked(d.tokens())
                    &&& d.tokens().to_multiset() == Seq::new(
                        json_weights(stored.unwrap()@).unwrap().len(),
                        |i: int| json_weights(stored.unwrap()@).unwrap()[i].0,
                    ).to_multiset()
                },
                Err(e) => match stored {
                    None => e == VocabError::VocabNotFound,
                    Some(json) => e == VocabError::VocabParseError && json_weights(json@) is None,
                },
            },
    {
        match load_vocabulary(stored) {
            Ok(list) => {
                let texts = stored_texts(&list);
                assert(key_views(list@) =~= Seq::new(
                    json_weights(stored.unwrap()@).unwrap().len(),
                    |i: int| json_weights(stored.unwrap()@).unwrap()[i].0,
                ));
                Ok(Decoder::from_tokens(texts))
            },
            Err(e) => Err(e),
        }
    }

    /// The number of tokens.
    pub fn len(&self) -> (n: usize)
        ensures
            n == self.tokens().len(),
    {
        self.vocab.len()
    }

    /// The text of the token with index `id`.
    pub fn token(&self, id: usize) -> (text: &String)
        requires
            id < self.tokens().len(),
        ensures
            text@ == self.tokens()[id as int],
    {
        self.vocab.token(id)
    }

    /// Segments `input` into token texts, which spell `input` when put
    /// together. A text with characters that no token covers is refused, and
    /// the error lists their offsets; the decoder is then left as it was.
    pub fn tokenize(&mut self, input: String) -> (r: Result<Vec<String>, UnknownCharacter>)
        requires
            old(self).wf(),
        ensures
            final(self).wf(),
            final(self).tokens() == old(self).tokens(),
            final(self).colours() == old(self).colours(),
            match r {
                Ok(out) => {
                    &&& uncovered(tagging(input@, old(self).tokens())).len() == 0
                    &&& string_texts(out@) == token_texts(
                        old(self).tokens(),
                        segmentation(input@, old(self).tokens()),
                    )
                    &&& string_texts(out@).flatten() == input@
                    &&& final(self).decoded() == Some(string_texts(out@))
                },
                Err(e) => {
                    &&& e.offsets@ == uncovered(tagging(input@, old(self).tokens()))
                    &&& e.offsets.len() > 0
                    &&& final(self).decoded() == old(self).decoded()
                },
            },
    {
        let chars = chars_of_str(input.as_str());
        let tags = tag_text(&chars, self.vocab.symbols());
        let offsets = uncovered_slots(&tags);
        if offsets.len() > 0 {
            return Err(UnknownCharacter { offsets });
        }
        proof {
            assert(chars@.len() == chars.len());
            self.vocab.lemma_wf();
            lemma_segmentation_ids(chars@, self.tokens());
            lemma_covered_round_trip(chars@, self.tokens());
            lemma_none_uncovered(tags@, tags.len() as int);
        }
        let position = slots_of(&chars, &tags);
        assert(collapse(slot_tags(position@)) == segmentation(chars@, self.tokens()));
        assert forall|j: int| 0 <= j < position.len() implies (#[trigger] position@[j]).1
            is Some by {
            assert(slot_tags(position@)[j] == tags@[j]);
        }
        let out = self.recreate_string(&position);
        self.decoded = Some(copy_strings(&out));
        Ok(out)
    }

    /// The token texts of the runs in `position_vector`, every slot of which
    /// is covered: one text for each run of slots that carry one tag.
    pub fn recreate_string(&self, position_vector: &Vec<CharInfo>) -> (out: Vec<String>)
        requires
            self.wf(),
            forall|j: int|
                0 <= j < position_vector.len() ==> (#[trigger] position_vector@[j]).1 is Some,
            forall|k: int|
                0 <= k < collapse(slot_tags(position_vector@)).len() ==> (#[trigger] collapse(
                    slot_tags(position_vector@),
                )[k]) < self.tokens().len(),
        ensures
            string_texts(out@) == token_texts(
                self.tokens(),
                collapse(slot_tags(position_vector@)),
            ),
    {
        let tags = tags_in(position_vector.as_slice());
        let ids = collapse_tags(&tags);
        texts_for(self.vocab.strings(), &ids)
    }

    /// The token texts of the last segmentation that went through, if any.
    pub fn last_decoded(&self) -> (out: Option<Vec<String>>)
        ensures
            match out {
                Some(texts) => self.decoded() == Some(string_texts(texts@)),
                None => self.decoded() is None,
            },
    {
        match &self.decoded {
            Some(texts) => Some(copy_strings(texts)),
            None => None,
        }
    }

    /// The colour in which `token` is shown: the colour of the first token
    /// with that text, black for a text that is no token.
    pub fn colour_of(&self, token: &String) -> (colour: Colour)
        requires
            self.wf(),
        ensures
            colour == match first_index(self.tokens(), token@) {
                Some(i) => self.colours()[i],
                None => (0u8, 0u8, 0u8),
            },
    {
        match self.vocab.index_of(token) {
            Some(i) => self.colour_map[i],
            None => (0, 0, 0),
        }
    }
}

} // verus!
