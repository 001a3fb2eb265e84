use bpe_tokeniser::decoder::Decoder;
use bpe_tokeniser::error::VocabError;
use bpe_tokeniser::tokenize::Tokenizer;
use bpe_tokeniser::tokeniser::Tokeniser;

fn strings(items: &[&str]) -> Vec<String> {
    items.iter().map(|s| s.to_string()).collect()
}

#[test]
fn index_is_built_for_distinct_tokens() {
    let t = Tokenizer::from_tokens(String::new(), strings(&["b", "ab", "a", "aaab", "aa"]));
    assert!(t.has_index());
    assert_eq!(t.len(), 5);
    let tokens = strings(&["é", "日本", "z", "日", "\u{10FFFF}", ""]);
    let t = Tokenizer::from_tokens(String::new(), tokens);
    assert!(t.has_index());
    assert!(Tokenizer::from_tokens(String::new(), Vec::new()).has_index());
}

#[test]
fn no_index_for_repeated_tokens() {
    let t = Tokenizer::from_tokens("aba".to_string(), strings(&["a", "b", "a"]));
    assert!(!t.has_index());
    assert_eq!(t.tokenize(), strings(&["a", "b", "a"]));
}

#[test]
fn worked_example_is_segmented_with_the_index() {
    let t = Tokenizer::from_tokens(
        "aaabdaaabac".to_string(),
        strings(&["a", "b", "d", "c", "aa", "ab", "aaab"]),
    );
    assert!(t.has_index());
    assert_eq!(t.tokenize(), strings(&["aaab", "d", "aaab", "a", "c"]));
}

#[test]
fn index_search_takes_the_longest_token_anywhere_first() {
    let t = Tokenizer::from_tokens("abcd".to_string(), strings(&["a", "b", "c", "d", "ab", "bcd"]));
    assert_eq!(t.tokenize(), strings(&["a", "bcd"]));
}

#[test]
fn index_search_skips_unknown_characters() {
    let t = Tokenizer::from_tokens("ab?a!b".to_string(), strings(&["a", "b", "ab"]));
    assert_eq!(t.tokenize(), strings(&["ab", "a", "b"]));
    let t = Tokenizer::from_tokens(String::new(), strings(&["a"]));
    assert!(t.tokenize().is_empty());
}

#[test]
fn index_search_handles_multibyte_text() {
    let tokens = strings(&["né", "e", "n", "é", "日本", "日", "本"]);
    let t = Tokenizer::from_tokens("néen日本é本".to_string(), tokens);
    assert!(t.has_index());
    assert_eq!(t.tokenize(), strings(&["né", "e", "n", "日本", "é", "本"]));
}

#[test]
fn three_segmenters_agree() {
    let tokens = ["the", "he", "th", "e", "t", "h", " ", "qu", "q", "u", "ick", "i", "c", "k"];
    let mut a = Tokeniser::from_tokens(strings(&tokens));
    let mut b = Decoder::from_tokens(strings(&tokens));
    for text in ["the quick", "thethe", "heth e", "kcick qu", "", "t", "ththththe"] {
        let c = Tokenizer::from_tokens(text.to_string(), strings(&tokens));
        assert!(c.has_index());
        let out = c.tokenize();
        assert_eq!(out, a.tokenise(&text.to_string()));
        assert_eq!(out, b.tokenize(text.to_string()).unwrap());
    }
}

#[test]
fn tokenizer_loads_a_stored_vocabulary() {
    let json = "{\"b\": 2, \"aaab\": 23, \"a\": 7, \"ab\": 9, \"d\": 1, \"c\": 1, \"aa\": 14}";
    let t = Tokenizer::new("aaabdaaabac".to_string(), Some(json)).unwrap();
    assert_eq!(t.len(), 7);
    assert_eq!(t.tokenize(), strings(&["aaab", "d", "aaab", "a", "c"]));
    assert_eq!(Tokenizer::new(String::new(), Some("{")).err(), Some(VocabError::VocabParseError));
    assert_eq!(Tokenizer::new(String::new(), None).err(), Some(VocabError::VocabNotFound));
}

fn pseudo_random_text(seed: u64, len: usize, alphabet: &[char]) -> String {
    let mut state = seed;
    let mut text = String::new();
    for _ in 0..len {
        state = state.wrapping_mul(6364136223846793005).wrapping_add(1442695040888963407);
        text.push(alphabet[((state >> 33) as usize) % alphabet.len()]);
    }
    text
}

#[test]
fn segmenters_agree_on_trained_vocabularies() {
    let alphabet = ['a', 'b', 'c', 'é', '日', ' '];
    for seed in 0..12u64 {
        let training = pseudo_random_text(seed, 200, &alphabet);
        let chars: Vec<char> = training.chars().collect();
        let run = bpe_tokeniser::train(&chars, 40);
        let tokens = run.vocabulary.token_strings();
        let mut automaton = Tokeniser::from_vocabulary(&run.vocabulary);
        let mut scan = Decoder::from_tokens(tokens.clone());
        assert!(automaton.has_automaton());
        for round in 0..8u64 {
            let text = pseudo_random_text(seed * 100 + round + 1, 60, &alphabet);
            let index = Tokenizer::from_tokens(text.clone(), tokens.clone());
            assert!(index.has_index());
            let a = automaton.tokenise(&text);
            let b = scan.tokenize(text.clone()).unwrap();
            let c = index.tokenize();
            assert_eq!(a, b);
            assert_eq!(a, c);
            assert_eq!(a.concat(), text);
            let ids = automaton.get_tokens_from_text(&text);
            assert_eq!(automaton.reconstruct(&ids), text);
            assert!(automaton.unknown_offsets().is_empty());
        }
    }
}
