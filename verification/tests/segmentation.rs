use bpe_tokeniser::decoder::Decoder;
use bpe_tokeniser::tokeniser::Tokeniser;

fn strings(items: &[&str]) -> Vec<String> {
    items.iter().map(|s| s.to_string()).collect()
}

#[test]
fn worked_example_is_segmented_longest_first() {
    let mut t = Tokeniser::from_tokens(strings(&["a", "b", "d", "c", "aa", "ab", "aaab"]));
    let out = t.tokenise(&"aaabdaaabac".to_string());
    assert_eq!(out, strings(&["aaab", "d", "aaab", "a", "c"]));
    assert_eq!(t.last_decoded(), Some(strings(&["aaab", "d", "aaab", "a", "c"])));
    assert!(t.unknown_offsets().is_empty());
}

#[test]
fn tokens_are_ranked_by_length_then_text() {
    let t = Tokeniser::from_tokens(strings(&["b", "ab", "a", "aaab", "aa", "d", "c"]));
    assert_eq!(t.len(), 7);
    let order: Vec<String> = (0..t.len()).map(|i| t.token(i).clone()).collect();
    assert_eq!(order, strings(&["aaab", "aa", "ab", "a", "b", "c", "d"]));
}

#[test]
fn indices_round_trip_through_reconstruct() {
    let t = Tokeniser::from_tokens(strings(&["a", "b", "d", "c", "aa", "ab", "aaab"]));
    let text = "aaabdaaabac".to_string();
    let ids = t.get_tokens_from_text(&text);
    assert_eq!(ids, vec![0, 6, 0, 3, 5]);
    assert_eq!(t.reconstruct(&ids), text);
}

#[test]
fn adjacent_equal_tokens_stay_apart() {
    let mut t = Tokeniser::from_tokens(strings(&["a", "ab"]));
    assert_eq!(t.tokenise(&"ababa".to_string()), strings(&["ab", "ab", "a"]));
    assert_eq!(t.tokenise(&"aaa".to_string()), strings(&["a", "a", "a"]));
    let ids = t.get_tokens_from_text(&"abab".to_string());
    assert_eq!(ids, vec![0, 0]);
}

#[test]
fn empty_text_gives_nothing() {
    let mut t = Tokeniser::from_tokens(strings(&["a"]));
    assert!(t.tokenise(&String::new()).is_empty());
    assert!(t.get_tokens_from_text(&String::new()).is_empty());
    assert_eq!(t.reconstruct(&[]), "");
}

#[test]
fn single_character_text() {
    let mut t = Tokeniser::from_tokens(strings(&["a", "ab"]));
    assert_eq!(t.tokenise(&"a".to_string()), strings(&["a"]));
    assert_eq!(t.get_tokens_from_text(&"a".to_string()), vec![1]);
    assert!(t.tokenise(&"z".to_string()).is_empty());
    assert_eq!(t.unknown_offsets(), &vec![0]);
}

#[test]
fn unknown_characters_are_reported_not_dropped_silently() {
    let mut t = Tokeniser::from_tokens(strings(&["a", "b", "ab"]));
    let out = t.tokenise(&"ab?a!b".to_string());
    assert_eq!(out, strings(&["ab", "a", "b"]));
    assert_eq!(t.unknown_offsets(), &vec![2, 4]);
}

#[test]
fn longer_token_wins_over_earlier_shorter_match() {
    let mut t = Tokeniser::from_tokens(strings(&["a", "b", "c", "d", "ab", "bcd"]));
    assert_eq!(t.tokenise(&"abcd".to_string()), strings(&["a", "bcd"]));
}

#[test]
fn overlapping_occurrences_of_one_token_are_taken_left_to_right() {
    let mut t = Tokeniser::from_tokens(strings(&["aa", "a"]));
    assert_eq!(t.tokenise(&"aaa".to_string()), strings(&["aa", "a"]));
    assert_eq!(t.tokenise(&"aaaa".to_string()), strings(&["aa", "aa"]));
}

#[test]
fn characters_beyond_ascii_are_single_slots() {
    let mut t = Tokeniser::from_tokens(strings(&["né", "e", "n", "é"]));
    assert_eq!(t.tokenise(&"néené".to_string()), strings(&["né", "e", "né"]));
    let ids = t.get_tokens_from_text(&"éné".to_string());
    assert_eq!(t.reconstruct(&ids), "éné");
}

#[test]
fn default_tokeniser_has_no_tokens() {
    let mut t = Tokeniser::default();
    assert_eq!(t.len(), 0);
    assert_eq!(t.last_decoded(), None);
    assert!(t.tokenise(&"abc".to_string()).is_empty());
    assert_eq!(t.unknown_offsets(), &vec![0, 1, 2]);
}

#[test]
fn colour_of_a_text_that_is_no_token_is_black() {
    let t = Tokeniser::from_tokens(strings(&["a", "b"]));
    assert_eq!(t.colour_of(&"zz".to_string()), (0, 0, 0));
    assert_eq!(t.index_of(&"b".to_string()), Some(1));
    assert_eq!(t.index_of(&"zz".to_string()), None);
}

#[test]
fn recreate_string_collapses_runs() {
    let t = Tokeniser::from_tokens(strings(&["ab", "a"]));
    let slots = vec![
        ('a', Some((0, 0))),
        ('b', Some((0, 0))),
        ('a', Some((0, 1))),
        ('b', Some((0, 1))),
        ('?', None),
        ('a', Some((1, 0))),
    ];
    assert_eq!(t.recreate_string(&slots), strings(&["ab", "ab", "a"]));
}

#[test]
fn strict_decoder_spells_the_text() {
    let mut d = Decoder::from_tokens(strings(&["a", "b", "d", "c", "aa", "ab", "aaab"]));
    let out = d.tokenize("aaabdaaabac".to_string()).unwrap();
    assert_eq!(out, strings(&["aaab", "d", "aaab", "a", "c"]));
    assert_eq!(out.concat(), "aaabdaaabac");
    assert_eq!(d.last_decoded(), Some(out));
}

#[test]
fn strict_decoder_refuses_unknown_characters() {
    let mut d = Decoder::from_tokens(strings(&["a", "b"]));
    let err = d.tokenize("a?b!".to_string()).unwrap_err();
    assert_eq!(err.offsets, vec![1, 3]);
    assert_eq!(d.last_decoded(), None);
}

#[test]
fn decoder_knows_its_tokens_and_colours() {
    let d = Decoder::from_tokens(strings(&["b", "ab", "a"]));
    assert_eq!(d.len(), 3);
    assert_eq!(d.token(0), "ab");
    assert_eq!(d.token(1), "a");
    assert_eq!(d.token(2), "b");
    assert_eq!(d.colour_of(&"zz".to_string()), (0, 0, 0));
    assert_eq!(d.colour_of(&"a".to_string()), d.colour_of(&"a".to_string()));
}

#[test]
fn ranked_vocabulary_finds_the_first_of_equal_tokens() {
    let r = bpe_tokeniser::Ranked::new(strings(&["a", "b", "a", "ab"]));
    assert_eq!(r.len(), 4);
    assert_eq!(r.strings(), &strings(&["ab", "a", "a", "b"]));
    assert_eq!(r.index_of(&"a".to_string()), Some(1));
    assert_eq!(r.index_of(&"b".to_string()), Some(3));
    assert_eq!(r.index_of(&"c".to_string()), None);
    assert_eq!(bpe_tokeniser::Ranked::empty().len(), 0);
}

#[test]
fn decoder_recreate_string_collapses_runs() {
    let d = Decoder::from_tokens(strings(&["ab", "a"]));
    let slots = vec![('a', Some((0, 0))), ('b', Some((0, 0))), ('a', Some((1, 0)))];
    assert_eq!(d.recreate_string(&slots), strings(&["ab", "a"]));
}
