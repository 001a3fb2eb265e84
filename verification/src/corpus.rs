//! From raw text to the characters that training and segmentation work on:
//! words in lower case with one space between them, and text in lower case
//! without line breaks.

use vstd::prelude::*;
use crate::text::{chars_of_str, string_of};

verus! {

/// `c` is white space: a character with the Unicode property `White_Space`.
pub open spec fn is_space(c: char) -> bool {
    let v = c as u32;
    ||| 0x09 <= v <= 0x0D
    ||| v == 0x20
    ||| v == 0x85
    ||| v == 0xA0
    ||| v == 0x1680
    ||| 0x2000 <= v <= 0x200A
    ||| v == 0x2028
    ||| v == 0x2029
    ||| v == 0x202F
    ||| v == 0x205F
    ||| v == 0x3000
}

/// `c` in lower case, where it is one of the letters `A` to `Z`; any other
/// character as it is.
pub open spec fn lower(c: char) -> char {
    if 0x41 <= c as u32 <= 0x5A {
        (c as u32 + 0x20) as char
    } else {
        c
    }
}

/// The symbols of the words of `text` from offset `from` on, where `begun`
/// words have begun before and `inside` says whether the character before
/// `from` belongs to a word. Words are runs of characters that are not white
/// space. Each word comes in lower case, with one space before it unless it
/// is the first. No word begins once `limit` words have begun, but the first
/// word always does.
pub open spec fn words_from(
    text: Seq<char>,
    from: int,
    begun: nat,
    limit: nat,
    inside: bool,
) -> Seq<char>
    decreases text.len() - from,
{
    if from < 0 || from >= text.len() {
        Seq::empty()
    } else if is_space(text[from]) {
        words_from(text, from + 1, begun, limit, false)
    } else if inside {
        seq![lower(text[from])] + words_from(text, from + 1, begun, limit, true)
    } else if begun > 0 && begun >= limit {
        Seq::empty()
    } else if begun == 0 {
        seq![lower(text[from])] + words_from(text, from + 1, 1, limit, true)
    } else {
        seq![' ', lower(text[from])] + words_from(text, from + 1, begun + 1, limit, true)
    }
}

/// The first `limit` words of `text`, and at least the first one, in lower
/// case with one space between them, character by character.
pub open spec fn corpus_symbols(text: Seq<char>, limit: nat) -> Seq<char> {
    words_from(text, 0, 0, limit, false)
}

/// The text from offset `from` on, in lower case and without its line feeds.
pub open spec fn normalised_from(text: Seq<char>, from: int) -> Seq<char>
    decreases text.len() - from,
{
    if from < 0 || from >= text.len() {
        Seq::empty()
    } else if text[from] == '\n' {
        normalised_from(text, from + 1)
    } else {
        seq![lower(text[from])] + normalised_from(text, from + 1)
    }
}

/// The text in lower case and without its line feeds.
pub open spec fn normalised(text: Seq<char>) -> Seq<char> {
    normalised_from(text, 0)
}

/// Whether `c` is white space.
pub fn is_white_space(c: char) -> (r: bool)
    ensures
        r == is_space(c),
{
    let v = c as u32;
    (0x09 <= v && v <= 0x0D) || v == 0x20 || v == 0x85 || v == 0xA0 || v == 0x1680 || (0x2000 <= v
        && v <= 0x200A) || v == 0x2028 || v == 0x2029 || v == 0x202F || v == 0x205F || v == 0x3000
}

/// `c` in lower case, where it is one of the letters `A` to `Z`.
pub fn to_lower(c: char) -> (r: char)
    ensures
        r == lower(c),
{
    let v = c as u32;
    if 0x41 <= v && v <= 0x5A {
        ((v + 0x20) as u8) as char
    } else {
        c
    }
}

/// The training symbols of a raw text: its first `word_count` words, and at
/// least its first one, in lower case with one space between them, character
/// by character.
pub fn read_words(text: &str, word_count: usize) -> (symbols: Vec<char>)
    ensures
        symbols@ == corpus_symbols(text@, word_count as nat),
{
    let chars = chars_of_str(text);
    let mut symbols: Vec<char> = Vec::new();
    let mut begun: usize = 0;
    let mut inside = false;
    let mut i: usize = 0;
    assert(symbols@ + words_from(chars@, 0, 0, word_count as nat, false) =~= corpus_symbols(
        text@,
        word_count as nat,
    ));
    while i < chars.len()
        invariant
            i <= chars.len(),
            chars@ == text@,
            begun <= i,
            symbols@ + words_from(chars@, i as int, begun as nat, word_count as nat, inside)
                == corpus_symbols(text@, word_count as nat),
        decreases chars.len() - i,
    {
        let c = chars[i];
        let ghost done = symbols@;
        let ghost rest = words_from(chars@, i as int, begun as nat, word_count as nat, inside);
        if is_white_space(c) {
            inside = false;
        } else if inside {
            symbols.push(to_lower(c));
        } else if begun > 0 && begun >= word_count {
            assert(done + rest =~= done);
            return symbols;
        } else {
            if begun > 0 {
                symbols.push(' ');
            }
            symbols.push(to_lower(c));
            begun += 1;
            inside = true;
        }
        assert(symbols@ + words_from(
            chars@,
            i + 1,
            begun as nat,
            word_count as nat,
            inside,
        ) =~= done + rest);
        i += 1;
    }
    assert(symbols@ + words_from(
        chars@,
        i as int,
        begun as nat,
        word_count as nat,
        inside,
    ) =~= symbols@);
    symbols
}

/// The text in lower case and without its line feeds.
pub fn normalise(text: &str) -> (clean: String)
    ensures
        clean@ == normalised(text@),
{
    let chars = chars_of_str(text);
    let mut kept: Vec<char> = Vec::new();
    let mut i: usize = 0;
    assert(kept@ + normalised_from(chars@, 0) =~= normalised(text@));
    while i < chars.len()
        invariant
            i <= chars.len(),
            chars@ == text@,
            kept@ + normalised_from(chars@, i as int) == normalised(text@),
        decreases chars.len() - i,
    {
        let c = chars[i];
        let ghost done = kept@;
        let ghost rest = normalised_from(chars@, i as int);
        if c != '\n' {
            kept.push(to_lower(c));
        }
        assert(kept@ + normalised_from(chars@, i + 1) =~= done + rest);
        i += 1;
    }
    assert(kept@ + normalised_from(chars@, i as int) =~= kept@);
    string_of(&kept)
}

} // verus!
