//! The lenient segmenter: it covers what the vocabulary can cover and reports
//! the offsets of the characters that it could not. It looks for its tokens
//! with a matching automaton where one can be built for its vocabulary.

use daachorse::CharwiseDoubleArrayAhoCorasick;
use vstd::prelude::*;
use crate::automaton::{
    automaton_builds, automaton_is_plain, automaton_of, automaton_patterns, find_candidates,
};
use crate::candidates::{candidates_for, only_occurrences, tag_candidates};
use crate::colour::{random_colours, Colour};
use crate::error::VocabError;
use crate::persist::{json_weights, key_views, load_vocabulary, stored_texts};
use crate::ranking::{first_index, ranked, Ranked};
use crate::search::{all_matches, matches_among, Match};
use crate::segment::{
    collapse, collapse_tags, copy_strings, decode, segmentation, slot_tags, slots_of, spell,
    string_texts, tag_text, tagging, tags_in, texts_for, token_texts, uncovered,
    uncovered_slots, CharInfo, Tag,
};
use crate::segment_laws::{knows_chars, lemma_round_trip, lemma_segmentation_ids};
use crate::text::chars_of_str;
use crate::vocabulary::Vocabulary;

verus! {

/// A vocabulary in ranked order, ready to segment texts. A token is known by
/// its index in that order.
pub struct Tokeniser {
    vocab: Ranked,
    decoded: Option<Vec<String>>,
    unknown: Vec<usize>,
    colour_map: Vec<Colour>,
    automaton: Option<CharwiseDoubleArrayAhoCorasick<usize>>,
}

impl Tokeniser {
    /// The texts of the tokens, in ranked order.
    pub closed spec fn tokens(&self) -> Seq<Seq<char>> {
        self.vocab.tokens()
    }

    /// The token texts of the last segmentation, if there was one.
    pub closed spec fn decoded(&self) -> Option<Seq<Seq<char>>> {
        match self.decoded {
            Some(out) => Some(string_texts(out@)),
            None => None,
        }
    }

    /// The offsets that the last segmentation left uncovered.
    pub closed spec fn unknown(&self) -> Seq<usize> {
        self.unknown@
    }

    /// The colour of each token, by index.
    pub closed spec fn colours(&self) -> Seq<Colour> {
        self.colour_map@
    }

    /// An automaton could be built for the vocabulary.
    pub closed spec fn automaton_built(&self) -> bool {
        self.automaton is Some
    }

    /// The vocabulary is ranked, each token has its colour, and the
    /// automaton, where there is one, stands for the vocabulary.
    pub closed spec fn wf(&self) -> bool {
        &&& self.vocab.wf()
        &&& self.colour_map.len() == self.vocab.tokens().len()
        &&& self.automaton matches Some(a) ==> automaton_is_plain(a) && automaton_patterns(a)
            == self.tokens()
    }

    /// In a well-formed tokeniser there is a colour for each token, and the
    /// tokens stand in ranked order.
    pub proof fn lemma_wf(&self)
        requires
            self.wf(),
        ensures
            ranked(self.tokens()),
            self.colours().len() == self.tokens().len(),
            self.tokens().len() <= usize::MAX,
    {
        self.vocab.lemma_wf();
    }

    /// Round trip: the indices into which a well-formed tokeniser segments a
    /// text made only of characters that it holds as tokens spell that text.
    pub proof fn lemma_round_trip(&self, text: Seq<char>)
        requires
            self.wf(),
            text.len() <= usize::MAX,
            knows_chars(self.tokens(), text),
        ensures
            decode(self.tokens(), segmentation(text, self.tokens())) == text,
    {
        self.vocab.lemma_wf();
        lemma_round_trip(text, self.tokens());
    }

    /// A tokeniser over `tokens`, which it puts in ranked order. Each token
    /// gets a colour drawn at random.
    pub fn from_tokens(tokens: Vec<String>) -> (t: Tokeniser)
        ensures
            t.wf(),
            ranked(t.tokens()),
            t.tokens().to_multiset() == string_texts(tokens@).to_multiset(),
            t.decoded() is None,
            t.unknown().len() == 0,
            t.automaton_built() <==> automaton_builds(t.tokens()),
    {
        let vocab = Ranked::new(tokens);
        let colour_map = random_colours(vocab.len());
        let automaton = automaton_of(vocab.strings());
        Tokeniser { vocab, decoded: None, unknown: Vec::new(), colour_map, automaton }
    }

    /// A tokeniser over the tokens of a vocabulary, in ranked order.
    pub fn from_vocabulary(vocabulary: &Vocabulary) -> (t: Tokeniser)
        requires
            vocabulary.wf(),
        ensures
            t.wf(),
            ranked(t.tokens()),
            t.tokens().to_multiset() == vocabulary.texts().to_multiset(),
            t.decoded() is None,
            t.unknown().len() == 0,
            t.automaton_built() <==> automaton_builds(t.tokens()),
    {
        Tokeniser::from_tokens(vocabulary.token_strings())
    }

    /// A tokeniser over a stored vocabulary. `stored` is what was found
    /// where the vocabulary is kept: `None` if nothing was found, else the
    /// text, a JSON map from token texts to weights. The token texts are put
    /// in ranked order; the weights are not used.
    pub fn new(stored: Option<&str>) -> (r: Result<Tokeniser, VocabError>)
        ensures
            match r {
                Ok(t) => {
                    &&& stored matches Some(json) && json_weights(json@) is Some
                    &&& t.wf()
                    &&& t.decoded() is None
                    &&& (t.automaton_built() <==> automaton_builds(t.tokens()))
                    &&& ranked(t.tokens())
                    &&& t.tokens().to_multiset() == Seq::new(
                        json_weights(stored.unwrap()@).unwrap().len(),
                        |i: int| json_weights(stored.unwrap()@).unwrap()[i].0,
                    ).to_multiset()
                },
                Err(e) => match stored {
                    None => e == VocabError::VocabNotFound,
                    Some(json) => e == VocabError::VocabParseError && json_weights(json@) is None,
                },
            },
    {
        match load_vocabulary(stored) {
            Ok(list) => {
                let texts = stored_texts(&list);
                assert(key_views(list@) =~= Seq::new(
                    json_weights(stored.unwrap()@).unwrap().len(),
                    |i: int| json_weights(stored.unwrap()@).unwrap()[i].0,
                ));
                Ok(Tokeniser::from_tokens(texts))
            },
            Err(e) => Err(e),
        }
    }

    /// The number of tokens.
    pub fn len(&self) -> (n: usize)
        ensures
            n == self.tokens().len(),
    {
        self.vocab.len()
    }

    /// The text of the token with index `id`.
    pub fn token(&self, id: usize) -> (text: &String)
        requires
            id < self.tokens().len(),
        ensures
            text@ == self.tokens()[id as int],
    {
        self.vocab.token(id)
    }

    /// Whether the tokeniser has a matching automaton for its vocabulary.
    /// Without one it looks for each token at every offset of a text.
    pub fn has_automaton(&self) -> (r: bool)
        ensures
            r == self.automaton_built(),
    {
        self.automaton.is_some()
    }

    /// For each token the offsets at which the automaton finds it in the
    /// text: exactly the offsets at which the token stands there, in rising
    /// order. `None` exactly where the tokeniser has no automaton.
    fn candidates(&self, text: &str, chars: &Vec<char>) -> (r: Option<Vec<Vec<usize>>>)
        requires
            self.wf(),
            chars@ == text@,
        ensures
            r is Some <==> self.automaton_built(),
            r matches Some(lists) ==> candidates_for(chars@, self.tokens(), lists@)
                && only_occurrences(chars@, self.tokens(), lists@),
    {
        match &self.automaton {
            Some(a) => find_candidates(a, text, chars, self.vocab.symbols()),
            None => None,
        }
    }

    /// The tags of the text.
    fn tag(&self, text: &str, chars: &Vec<char>) -> (tags: Vec<Tag>)
        requires
            self.wf(),
            chars@ == text@,
        ensures
            tags.len() == chars.len(),
            tags@ == tagging(chars@, self.tokens()),
    {
        match self.candidates(text, chars) {
            Some(lists) => tag_candidates(chars, self.vocab.symbols(), &lists),
            None => tag_text(chars, self.vocab.symbols()),
        }
    }

    /// Every place where a token of the vocabulary stands in the text, by
    /// token and then from left to right. Empty tokens stand nowhere.
    pub fn search(&self, text: &String) -> (list: Vec<Match>)
        requires
            self.wf(),
        ensures
            all_matches(self.tokens(), text@, list@),
    {
        let chars = chars_of_str(text.as_str());
        let lists = self.candidates(text.as_str(), &chars);
        matches_among(&chars, self.vocab.symbols(), lists.as_ref())
    }

    /// Segments `input` into token texts. Characters that no token covers are
    /// left out of the result; their offsets are kept and can be read with
    /// `unknown_offsets`. The result is also kept for `last_decoded`.
    pub fn tokenise(&mut self, input: &String) -> (out: Vec<String>)
        requires
            old(self).wf(),
        ensures
            final(self).wf(),
            final(self).tokens() == old(self).tokens(),
            final(self).colours() == old(self).colours(),
            string_texts(out@) == token_texts(
                old(self).tokens(),
                segmentation(input@, old(self).tokens()),
            ),
            final(self).decoded() == Some(string_texts(out@)),
            final(self).unknown() == uncovered(tagging(input@, old(self).tokens())),
            final(self).automaton_built() == old(self).automaton_built(),
    {
        let chars = chars_of_str(input.as_str());
        let tags = self.tag(input.as_str(), &chars);
        proof {
            assert(chars@.len() == chars.len());
            self.vocab.lemma_wf();
            lemma_segmentation_ids(chars@, self.tokens());
        }
        let position = slots_of(&chars, &tags);
        assert(collapse(slot_tags(position@)) == segmentation(chars@, self.tokens()));
        let out = self.recreate_string(position.as_slice());
        self.unknown = uncovered_slots(&tags);
        self.decoded = Some(copy_strings(&out));
        out
    }

    /// The token texts of the runs in `position_vector`: one text for each run
    /// of slots that carry one tag. Uncovered slots give nothing.
    pub fn recreate_string(&self, position_vector: &[CharInfo]) -> (out: Vec<String>)
        requires
            self.wf(),
            forall|k: int|
                0 <= k < collapse(slot_tags(position_vector@)).len() ==> (#[trigger] collapse(
                    slot_tags(position_vector@),
                )[k]) < self.tokens().len(),
        ensures
            string_texts(out@) == token_texts(
                self.tokens(),
                collapse(slot_tags(position_vector@)),
            ),
    {
        let tags = tags_in(position_vector);
        let ids = collapse_tags(&tags);
        texts_for(self.vocab.strings(), &ids)
    }

    /// Segments `text` into token indices. Characters that no token covers
    /// are left out.
    pub fn get_tokens_from_text(&self, text: &String) -> (ids: Vec<usize>)
        requires
            self.wf(),
        ensures
            ids@ == segmentation(text@, self.tokens()),
    {
        let chars = chars_of_str(text.as_str());
        let tags = self.tag(text.as_str(), &chars);
        collapse_tags(&tags)
    }

    /// The text that the token indices `tokens` spell.
    pub fn reconstruct(&self, tokens: &[usize]) -> (text: String)
        requires
            self.wf(),
            forall|k: int| 0 <= k < tokens.len() ==> (#[trigger] tokens@[k]) < self.tokens().len(),
        ensures
            text@ == decode(self.tokens(), tokens@),
    {
        spell(self.vocab.strings(), tokens)
    }

    /// The token texts of the last call of `tokenise`, if there was one.
    pub fn last_decoded(&self) -> (out: Option<Vec<String>>)
        ensures
            match out {
                Some(texts) => self.decoded() == Some(string_texts(texts@)),
                None => self.decoded() is None,
            },
    {
        match &self.decoded {
            Some(texts) => Some(copy_strings(texts)),
            None => None,
        }
    }

    /// The offsets of the characters that the last call of `tokenise` could
    /// not cover, in rising order.
    pub fn unknown_offsets(&self) -> (offsets: &Vec<usize>)
        ensures
            offsets@ == self.unknown(),
    {
        &self.unknown
    }

    /// The index of the first token whose text is `token`.
    pub fn index_of(&self, token: &String) -> (found: Option<usize>)
        requires
            self.wf(),
        ensures
            match found {
                Some(i) => first_index(self.tokens(), token@) == Some(i as int) && i
                    < self.tokens().len(),
                None => first_index(self.tokens(), token@) is None,
            },
    {
        self.vocab.index_of(token)
    }

    /// The colour in which `token` is shown: the colour of the first token
    /// with that text, black for a text that is no token.
    pub fn colour_of(&self, token: &String) -> (colour: Colour)
        requires
            self.wf(),
        ensures
            colour == match first_index(self.tokens(), token@) {
                Some(i) => self.colours()[i],
                None => (0u8, 0u8, 0u8),
            },
    {
        match self.vocab.index_of(token) {
            Some(i) => self.colour_map[i],
            None => (0, 0, 0),
        }
    }
}

impl Default for Tokeniser {
    /// The tokeniser of the empty vocabulary.
    fn default() -> (t: Tokeniser)
        ensures
            t.wf(),
            t.tokens().len() == 0,
            t.decoded() is None,
            !t.automaton_built(),
    {
        Tokeniser {
            vocab: Ranked::empty(),
            decoded: None,
            unknown: Vec::new(),
            colour_map: Vec::new(),
            automaton: None,
        }
    }
}

} // verus!
