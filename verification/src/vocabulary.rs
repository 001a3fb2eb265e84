//! The vocabulary: tokens in the order in which they were inserted, no two
//! with the same text.

use vstd::prelude::*;
use crate::segment::{string_texts, strings_of, texts_of};
use crate::text::{chars_of_str, same_chars, string_of};

verus! {

/// A vocabulary entry: a text of one or more characters, the weight it had
/// when it was made, and its place in the vocabulary.
#[derive(Debug)]
pub struct Token {
    pub text: String,
    pub weight: u128,
    pub id: usize,
}

/// What a token is to the contracts: its text and its weight. Its identifier
/// is its index in the vocabulary.
pub struct Entry {
    pub text: Seq<char>,
    pub weight: nat,
}

/// The texts of a list of entries.
pub open spec fn entry_texts(entries: Seq<Entry>) -> Seq<Seq<char>> {
    Seq::new(entries.len(), |i: int| entries[i].text)
}

/// No two entries have the same text, and no text is empty.
pub open spec fn distinct_texts(texts: Seq<Seq<char>>) -> bool {
    &&& forall|i: int, j: int|
        0 <= i < j < texts.len() ==> #[trigger] texts[i] != #[trigger] texts[j]
    &&& forall|i: int| 0 <= i < texts.len() ==> (#[trigger] texts[i]).len() > 0
}

/// An insertion-ordered collection of tokens, keyed by text.
pub struct Vocabulary {
    tokens: Vec<Token>,
    symbols: Vec<Vec<char>>,
}

impl View for Vocabulary {
    type V = Seq<Entry>;

    /// The entries of the vocabulary, in order of insertion.
    closed spec fn view(&self) -> Seq<Entry> {
        Seq::new(
            self.tokens.len() as nat,
            |i: int| Entry { text: self.tokens[i].text@, weight: self.tokens[i].weight as nat },
        )
    }
}

impl Vocabulary {
    /// The texts of the tokens, in order of insertion.
    pub open spec fn texts(&self) -> Seq<Seq<char>> {
        entry_texts(self@)
    }

    /// Each token knows its index, no text occurs twice and none is empty.
    pub closed spec fn wf(&self) -> bool {
        &&& self.symbols.len() == self.tokens.len()
        &&& forall|i: int|
            0 <= i < self.tokens.len() ==> (#[trigger] self.tokens[i]).id == i
        &&& forall|i: int|
            0 <= i < self.tokens.len() ==> (#[trigger] self.symbols[i])@ == self.tokens[i].text@
        &&& distinct_texts(self.texts())
    }

    /// What a well-formed vocabulary is to its users.
    pub proof fn lemma_wf(&self)
        requires
            self.wf(),
        ensures
            distinct_texts(self.texts()),
            self@.len() <= usize::MAX,
            forall|i: int| 0 <= i < self@.len() ==> (#[trigger] self@[i]).weight <= u128::MAX,
    {
    }

    /// The vocabulary without tokens.
    pub fn new() -> (v: Vocabulary)
        ensures
            v.wf(),
            v@.len() == 0,
    {
        Vocabulary { tokens: Vec::new(), symbols: Vec::new() }
    }

    /// The number of tokens.
    pub fn len(&self) -> (n: usize)
        ensures
            n == self@.len(),
    {
        self.tokens.len()
    }

    /// The token with identifier `id`.
    pub fn get(&self, id: usize) -> (token: &Token)
        requires
            self.wf(),
            id < self@.len(),
        ensures
            token.text@ == self@[id as int].text,
            token.weight == self@[id as int].weight,
            token.id == id,
    {
        &self.tokens[id]
    }

    /// The weight of the token with identifier `id`.
    pub fn weight(&self, id: usize) -> (weight: u128)
        requires
            id < self@.len(),
        ensures
            weight == self@[id as int].weight,
    {
        self.tokens[id].weight
    }

    /// The characters of the token with identifier `id`.
    pub fn symbol(&self, id: usize) -> (chars: &Vec<char>)
        requires
            self.wf(),
            id < self@.len(),
        ensures
            chars@ == self@[id as int].text,
    {
        &self.symbols[id]
    }

    /// The identifier of the token whose text is `text`, if there is one.
    pub fn find(&self, text: &Vec<char>) -> (found: Option<usize>)
        requires
            self.wf(),
        ensures
            match found {
                Some(id) => id < self@.len() && self@[id as int].text == text@,
                None => !self.texts().contains(text@),
            },
    {
        let mut i: usize = 0;
        while i < self.symbols.len()
            invariant
                self.wf(),
                i <= self.symbols.len(),
                forall|k: int| 0 <= k < i ==> self.texts()[k] != text@,
            decreases self.symbols.len() - i,
        {
            if same_chars(&self.symbols[i], text) {
                return Some(i);
            }
            i += 1;
        }
        None
    }

    /// The identifier of the token whose text is the one character `c`, if
    /// there is one.
    pub fn find_char(&self, c: char) -> (found: Option<usize>)
        requires
            self.wf(),
        ensures
            match found {
                Some(id) => id < self@.len() && self@[id as int].text == seq![c],
                None => !self.texts().contains(seq![c]),
            },
    {
        let mut i: usize = 0;
        while i < self.symbols.len()
            invariant
                self.wf(),
                i <= self.symbols.len(),
                forall|k: int| 0 <= k < i ==> self.texts()[k] != seq![c],
            decreases self.symbols.len() - i,
        {
            if self.symbols[i].len() == 1 && self.symbols[i][0] == c {
                assert(self.symbols[i as int]@ =~= seq![c]);
                return Some(i);
            }
            assert(self.texts()[i as int] != seq![c]) by {
                if self.texts()[i as int] == seq![c] {
                    assert(seq![c].len() == 1);
                    assert(seq![c][0] == c);
                }
            }
            i += 1;
        }
        None
    }

    /// Adds `amount` to the weight of the token with identifier `id`.
    pub(crate) fn add_weight(&mut self, id: usize, amount: u128)
        requires
            old(self).wf(),
            id < old(self)@.len(),
            old(self)@[id as int].weight + amount <= u128::MAX,
        ensures
            final(self).wf(),
            final(self)@ == old(self)@.update(
                id as int,
                Entry {
                    text: old(self)@[id as int].text,
                    weight: old(self)@[id as int].weight + amount as nat,
                },
            ),
    {
        let ghost before = self@;
        let text = self.tokens[id].text.clone();
        let weight = self.tokens[id].weight + amount;
        self.tokens.set(id, Token { text, weight, id });
        proof {
            assert(self@ =~= before.update(
                id as int,
                Entry {
                    text: before[id as int].text,
                    weight: before[id as int].weight + amount as nat,
                },
            ));
            assert(self.texts() =~= entry_texts(before));
        }
    }

    /// Appends a token with a text that the vocabulary does not hold yet, and
    /// returns its identifier, the next free one.
    pub fn push(&mut self, text: Vec<char>, weight: u128) -> (id: usize)
        requires
            old(self).wf(),
            text.len() > 0,
            !old(self).texts().contains(text@),
        ensures
            final(self).wf(),
            id == old(self)@.len(),
            final(self)@ == old(self)@.push(Entry { text: text@, weight: weight as nat }),
    {
        let id = self.tokens.len();
        let ghost before = self@;
        let ghost given = text@;
        self.tokens.push(Token { text: string_of(&text), weight, id });
        self.symbols.push(text);
        proof {
            assert(self@ =~= before.push(Entry { text: given, weight: weight as nat }));
            let now = self.texts();
            assert forall|i: int, j: int| 0 <= i < j < now.len() implies #[trigger] now[i]
                != #[trigger] now[j] by {
                if j == id {
                    assert(entry_texts(before)[i] == now[i]);
                } else {
                    assert(entry_texts(before)[i] == now[i]);
                    assert(entry_texts(before)[j] == now[j]);
                }
            }
            assert forall|i: int| 0 <= i < now.len() implies (#[trigger] now[i]).len() > 0 by {
                if i < id {
                    assert(entry_texts(before)[i] == now[i]);
                }
            }
        }
        id
    }

    /// The identifier under which the vocabulary holds `text`: that of the
    /// token it has with this text, which stays as it is, or else that of a
    /// new token with the given weight.
    pub fn insert(&mut self, text: &String, weight: u128) -> (id: usize)
        requires
            old(self).wf(),
            text@.len() > 0,
        ensures
            final(self).wf(),
            id < final(self)@.len(),
            final(self)@[id as int].text == text@,
            old(self).texts().contains(text@) ==> final(self)@ == old(self)@,
            !old(self).texts().contains(text@) ==> final(self)@ == old(self)@.push(
                Entry { text: text@, weight: weight as nat },
            ),
    {
        let chars = chars_of_str(text.as_str());
        match self.find(&chars) {
            Some(id) => {
                assert(self.texts()[id as int] == text@);
                id
            },
            None => self.push(chars, weight),
        }
    }

    /// The texts of the tokens, in order of insertion.
    pub fn token_strings(&self) -> (texts: Vec<String>)
        requires
            self.wf(),
        ensures
            string_texts(texts@) == self.texts(),
    {
        let texts = strings_of(&self.symbols);
        assert(texts_of(self.symbols@) =~= self.texts());
        texts
    }

    /// The text and weight of each token, in order of insertion.
    pub fn weights(&self) -> (list: Vec<(String, u128)>)
        requires
            self.wf(),
        ensures
            list.len() == self@.len(),
            forall|i: int|
                0 <= i < list.len() ==> (#[trigger] list[i]).0@ == self@[i].text && list[i].1
                    == self@[i].weight,
    {
        let mut list: Vec<(String, u128)> = Vec::new();
        let mut i: usize = 0;
        while i < self.tokens.len()
            invariant
                i <= self.tokens.len(),
                list.len() == i,
                forall|k: int|
                    0 <= k < i ==> (#[trigger] list[k]).0@ == self@[k].text && list[k].1
                        == self@[k].weight,
            decreases self.tokens.len() - i,
        {
            list.push((self.tokens[i].text.clone(), self.tokens[i].weight));
            i += 1;
        }
        list
    }
}

} // verus!
