use bpe_tokeniser::colour::{base_colour, random_colours, token_hash};
use bpe_tokeniser::corpus::{is_white_space, normalise, read_words, to_lower};

fn chars(text: &str) -> Vec<char> {
    text.chars().collect()
}

#[test]
fn words_are_lowered_and_joined_by_single_spaces() {
    assert_eq!(read_words("Hello  World\nfoo BAR", 10), chars("hello world foo bar"));
    assert_eq!(read_words("  \t Hello\r\nWorld  ", 10), chars("hello world"));
}

#[test]
fn reading_stops_at_the_word_limit() {
    assert_eq!(read_words("one two three four", 3), chars("one two three"));
    assert_eq!(read_words("one two three four", 1), chars("one"));
    assert_eq!(read_words("one two three four", 4), chars("one two three four"));
}

#[test]
fn the_first_word_is_always_read() {
    assert_eq!(read_words("one two", 0), chars("one"));
}

#[test]
fn text_without_words_gives_no_symbols() {
    assert!(read_words("", 5).is_empty());
    assert!(read_words(" \n\t ", 5).is_empty());
}

#[test]
fn only_the_letters_a_to_z_are_lowered() {
    assert_eq!(read_words("ÀB Éc", 5), chars("Àb Éc"));
    assert_eq!(to_lower('A'), 'a');
    assert_eq!(to_lower('Z'), 'z');
    assert_eq!(to_lower('@'), '@');
    assert_eq!(to_lower('['), '[');
    assert_eq!(to_lower('é'), 'é');
}

#[test]
fn white_space_is_what_the_standard_library_says() {
    for v in 0..=0x10FFFFu32 {
        if let Some(c) = char::from_u32(v) {
            assert_eq!(is_white_space(c), c.is_whitespace());
            assert_eq!(to_lower(c), c.to_ascii_lowercase());
        }
    }
}

#[test]
fn wide_spaces_part_words() {
    assert_eq!(read_words("a\u{3000}B\u{a0}c", 5), chars("a b c"));
}

#[test]
fn normalise_lowers_and_drops_line_feeds() {
    assert_eq!(normalise("Hello\nWorld\n"), "helloworld");
    assert_eq!(normalise("a b\r\nC"), "a b\rc");
    assert_eq!(normalise(""), "");
}

#[test]
fn hash_of_a_short_token() {
    assert_eq!(token_hash(""), 0);
    assert_eq!(token_hash("a"), 97);
    assert_eq!(token_hash("ab"), 97 * 37 + 98);
    assert_eq!(base_colour("a"), (0, 0, 97));
    assert_eq!(base_colour("ab"), (0, 14, 103));
}

#[test]
fn hash_wraps_at_32_bits() {
    let text = "the quick brown fox jumped over the lazy dog";
    let mut expected: u32 = 0;
    for b in text.bytes() {
        expected = expected.wrapping_mul(37).wrapping_add(b as u32);
    }
    assert_eq!(token_hash(text), expected);
    let colour = base_colour(text);
    assert_eq!(colour, ((expected >> 16) as u8, (expected >> 8) as u8, expected as u8));
}

#[test]
fn one_random_colour_per_token() {
    assert_eq!(random_colours(0).len(), 0);
    assert_eq!(random_colours(12).len(), 12);
}
