use bpe_tokeniser::decoder::Decoder;
use bpe_tokeniser::error::VocabError;
use bpe_tokeniser::persist::{load_vocabulary, parse_vocabulary, vocabulary_json};
use bpe_tokeniser::search::Match;
use bpe_tokeniser::tokeniser::Tokeniser;
use bpe_tokeniser::trainer::train;

fn strings(items: &[&str]) -> Vec<String> {
    items.iter().map(|s| s.to_string()).collect()
}

fn found(start: usize, length: usize, token: usize) -> Match {
    Match { start, length, token }
}

#[test]
fn automaton_is_built_for_a_plain_vocabulary() {
    assert!(Tokeniser::from_tokens(strings(&["a", "ab"])).has_automaton());
}

#[test]
fn no_automaton_for_empty_or_repeated_tokens() {
    assert!(!Tokeniser::from_tokens(Vec::new()).has_automaton());
    assert!(!Tokeniser::from_tokens(strings(&["a", ""])).has_automaton());
    assert!(!Tokeniser::from_tokens(strings(&["a", "b", "a"])).has_automaton());
    assert!(!Tokeniser::default().has_automaton());
}

#[test]
fn search_reports_every_occurrence_of_every_token() {
    let t = Tokeniser::from_tokens(strings(&["ab", "a", "b"]));
    let list = t.search(&"abab".to_string());
    assert_eq!(
        list,
        vec![
            found(0, 2, 0),
            found(2, 2, 0),
            found(0, 1, 1),
            found(2, 1, 1),
            found(1, 1, 2),
            found(3, 1, 2),
        ]
    );
}

#[test]
fn search_reports_overlapping_occurrences() {
    let t = Tokeniser::from_tokens(strings(&["aa"]));
    assert_eq!(t.search(&"aaaa".to_string()), vec![found(0, 2, 0), found(1, 2, 0), found(2, 2, 0)]);
}

#[test]
fn search_counts_offsets_in_characters() {
    let t = Tokeniser::from_tokens(strings(&["世界", "に"]));
    assert!(t.has_automaton());
    let list = t.search(&"全世界中に世界".to_string());
    assert_eq!(list, vec![found(1, 2, 0), found(5, 2, 0), found(4, 1, 1)]);
}

#[test]
fn search_without_automaton_gives_the_same_matches() {
    let with = Tokeniser::from_tokens(strings(&["ab", "a", "b"]));
    let without = Tokeniser::from_tokens(strings(&["ab", "a", "b", "a"]));
    assert!(with.has_automaton() && !without.has_automaton());
    let text = "abba abab".to_string();
    let expected = with.search(&text);
    let mut other = without.search(&text);
    other.retain(|m| m.token != 2);
    for m in other.iter_mut() {
        if m.token == 3 {
            m.token = 2;
        }
    }
    assert_eq!(other, expected);
}

#[test]
fn segmentation_is_the_same_with_and_without_automaton() {
    let tokens = ["the", "he", "th", "e", "t", "h", " ", "qu", "q", "u", "ick", "i", "c", "k"];
    let mut with = Tokeniser::from_tokens(strings(&tokens));
    let mut strict = Decoder::from_tokens(strings(&tokens));
    assert!(with.has_automaton());
    for text in ["the quick", "thethe", "heth e", "kcick qu", "", "t"] {
        let a = with.tokenise(&text.to_string());
        let b = strict.tokenize(text.to_string()).unwrap();
        assert_eq!(a, b);
        assert_eq!(a.concat(), text);
    }
}

#[test]
fn multibyte_text_is_segmented_with_the_automaton() {
    let mut t = Tokeniser::from_tokens(strings(&["né", "e", "n", "é", "日本", "日", "本"]));
    assert!(t.has_automaton());
    let out = t.tokenise(&"néen日本é本".to_string());
    assert_eq!(out, strings(&["né", "e", "n", "日本", "é", "本"]));
    let ids = t.get_tokens_from_text(&"日本né".to_string());
    assert_eq!(t.reconstruct(&ids), "日本né");
}

#[test]
fn stored_vocabulary_is_loaded_and_ranked() {
    let json = "{\"b\": 2, \"aaab\": 23, \"a\": 7, \"ab\": 9, \"d\": 1, \"c\": 1, \"aa\": 14}";
    let mut t = Tokeniser::new(Some(json)).unwrap();
    assert_eq!(t.len(), 7);
    assert_eq!(t.token(0), "aaab");
    assert_eq!(t.token(1), "aa");
    assert_eq!(t.token(2), "ab");
    assert_eq!(t.tokenise(&"aaabdaaabac".to_string()), strings(&["aaab", "d", "aaab", "a", "c"]));
    let mut d = Decoder::new(Some(json)).unwrap();
    assert_eq!(d.len(), 7);
    assert_eq!(
        d.tokenize("aaabdaaabac".to_string()).unwrap(),
        strings(&["aaab", "d", "aaab", "a", "c"])
    );
}

#[test]
fn malformed_vocabulary_is_refused() {
    assert_eq!(Tokeniser::new(Some("not json")).err(), Some(VocabError::VocabParseError));
    assert_eq!(Tokeniser::new(Some("[1, 2]")).err(), Some(VocabError::VocabParseError));
    assert_eq!(Tokeniser::new(Some("{\"a\": \"x\"}")).err(), Some(VocabError::VocabParseError));
    assert_eq!(Tokeniser::new(Some("{\"a\": -1}")).err(), Some(VocabError::VocabParseError));
    assert_eq!(Decoder::new(Some("{\"a\": 1")).err(), Some(VocabError::VocabParseError));
    assert_eq!(parse_vocabulary("").err(), Some(VocabError::VocabParseError));
    assert_eq!(load_vocabulary(Some("{")).err(), Some(VocabError::VocabParseError));
}

#[test]
fn missing_vocabulary_is_reported_as_not_found() {
    assert_eq!(Tokeniser::new(None).err(), Some(VocabError::VocabNotFound));
    assert_eq!(Decoder::new(None).err(), Some(VocabError::VocabNotFound));
    assert_eq!(load_vocabulary(None).err(), Some(VocabError::VocabNotFound));
    assert_eq!(load_vocabulary(Some("{\"a\": 1}")).unwrap(), vec![("a".to_string(), 1)]);
}

#[test]
fn parsed_entries_come_in_rising_order_of_keys() {
    let list = parse_vocabulary("{\"b\": 2, \"a\": 7, \"ab\": 9}").unwrap();
    assert_eq!(list, vec![("a".to_string(), 7), ("ab".to_string(), 9), ("b".to_string(), 2)]);
    assert_eq!(parse_vocabulary("{}").unwrap(), Vec::new());
    let big = parse_vocabulary("{\"a\": 340282366920938463463374607431768211455}").unwrap();
    assert_eq!(big, vec![("a".to_string(), u128::MAX)]);
}

#[test]
fn trained_vocabulary_is_written_and_read_back() {
    let text: Vec<char> = "aaabdaaabac".chars().collect();
    let run = train(&text, 7);
    let json = vocabulary_json(&run.vocabulary).unwrap();
    assert!(json.contains("\"aaab\": 23"));
    let list = parse_vocabulary(&json).unwrap();
    let mut expected = run.vocabulary.weights();
    expected.sort();
    assert_eq!(list, expected);
    let mut t = Tokeniser::new(Some(&json)).unwrap();
    assert_eq!(t.tokenise(&"aaabdaaabac".to_string()), strings(&["aaab", "d", "aaab", "a", "c"]));
}

#[test]
fn tokens_get_a_colour_each() {
    let t = Tokeniser::from_tokens(strings(&["a", "b", "c"]));
    let colours: Vec<(u8, u8, u8)> =
        ["a", "b", "c"].iter().map(|s| t.colour_of(&s.to_string())).collect();
    assert_eq!(colours.len(), 3);
    assert_eq!(t.colour_of(&"a".to_string()), colours[0]);
}

#[test]
fn written_vocabulary_reads_back_with_any_characters() {
    let text: Vec<char> = "a\"b\\c\nd\té日本\u{0}\u{7f}\u{10FFFF} a\"b\\c\nd".chars().collect();
    let run = train(&text, 30);
    let json = vocabulary_json(&run.vocabulary).unwrap();
    let mut read = parse_vocabulary(&json).unwrap();
    let mut written = run.vocabulary.weights();
    read.sort();
    written.sort();
    assert_eq!(read, written);
    let empty = vocabulary_json(&bpe_tokeniser::Vocabulary::new()).unwrap();
    assert_eq!(parse_vocabulary(&empty).unwrap(), Vec::new());
}
