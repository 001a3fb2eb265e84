use bpe_tokeniser::error::TrainOutcome;
use bpe_tokeniser::tokeniser::Tokeniser;
use bpe_tokeniser::trainer::{
    bpe, count_adjacent_pairs, count_window_pairs, find_most_frequent_pair, initialize_vocab,
    merge_pair, train,
};
use bpe_tokeniser::vocabulary::Vocabulary;

fn chars(text: &str) -> Vec<char> {
    text.chars().collect()
}

fn spelled(vocab: &Vocabulary, corpus: &[usize]) -> Vec<String> {
    corpus.iter().map(|&id| vocab.get(id).text.clone()).collect()
}

fn entries(vocab: &Vocabulary) -> Vec<(String, u128)> {
    (0..vocab.len()).map(|id| (vocab.get(id).text.clone(), vocab.get(id).weight)).collect()
}

fn pairs(items: &[(&str, u128)]) -> Vec<(String, u128)> {
    items.iter().map(|(t, w)| (t.to_string(), *w)).collect()
}

#[test]
fn first_vocabulary_has_one_token_per_character() {
    let (vocab, corpus) = initialize_vocab(&chars("aaabdaaabac"));
    assert_eq!(entries(&vocab), pairs(&[("a", 7), ("b", 2), ("d", 1), ("c", 1)]));
    assert_eq!(corpus, vec![0, 0, 0, 1, 2, 0, 0, 0, 1, 0, 3]);
    for id in 0..vocab.len() {
        assert_eq!(vocab.get(id).id, id);
    }
}

#[test]
fn pairs_are_counted_with_overlaps() {
    let (_, corpus) = initialize_vocab(&chars("aaabdaaabac"));
    let counts = count_adjacent_pairs(&corpus);
    assert_eq!(counts.get(0, 0), 4);
    assert_eq!(counts.get(0, 1), 2);
    assert_eq!(counts.get(1, 2), 1);
    assert_eq!(counts.get(2, 0), 1);
    assert_eq!(counts.get(1, 0), 1);
    assert_eq!(counts.get(0, 3), 1);
    assert_eq!(counts.get(3, 0), 0);
    assert_eq!(counts.pairs().len(), 6);
}

#[test]
fn windows_counted_apart_combine_to_the_whole() {
    let (_, corpus) = initialize_vocab(&chars("aaabdaaabac"));
    let whole = count_adjacent_pairs(&corpus);
    for mid in 0..corpus.len() {
        let mut left = count_window_pairs(&corpus, 0, mid);
        let right = count_window_pairs(&corpus, mid, corpus.len() - 1);
        left.absorb(&right);
        for l in 0..4 {
            for r in 0..4 {
                assert_eq!(left.get(l, r), whole.get(l, r));
            }
        }
        let mut other = count_window_pairs(&corpus, mid, corpus.len() - 1);
        other.absorb(&count_window_pairs(&corpus, 0, mid));
        for l in 0..4 {
            for r in 0..4 {
                assert_eq!(other.get(l, r), whole.get(l, r));
            }
        }
    }
}

#[test]
fn worked_example_merges_step_by_step() {
    let (mut vocab, mut corpus) = initialize_vocab(&chars("aaabdaaabac"));

    let counts = count_adjacent_pairs(&corpus);
    let best = find_most_frequent_pair(&counts, &vocab).unwrap();
    assert_eq!(best, (0, 0));
    assert_eq!(counts.get(best.0, best.1), 4);
    merge_pair(best, &mut vocab, &mut corpus);
    assert_eq!(spelled(&vocab, &corpus), ["aa", "a", "b", "d", "aa", "a", "b", "a", "c"]);
    assert_eq!(vocab.len(), 5);

    let counts = count_adjacent_pairs(&corpus);
    let best = find_most_frequent_pair(&counts, &vocab).unwrap();
    assert_eq!(best, (0, 1));
    assert_eq!(counts.get(best.0, best.1), 2);
    merge_pair(best, &mut vocab, &mut corpus);
    assert_eq!(spelled(&vocab, &corpus), ["aa", "ab", "d", "aa", "ab", "a", "c"]);
    assert_eq!(vocab.len(), 6);

    let counts = count_adjacent_pairs(&corpus);
    let best = find_most_frequent_pair(&counts, &vocab).unwrap();
    assert_eq!(best, (4, 5));
    assert_eq!(counts.get(best.0, best.1), 2);
    merge_pair(best, &mut vocab, &mut corpus);
    assert_eq!(spelled(&vocab, &corpus), ["aaab", "d", "aaab", "a", "c"]);
    assert_eq!(
        entries(&vocab),
        pairs(&[("a", 7), ("b", 2), ("d", 1), ("c", 1), ("aa", 14), ("ab", 9), ("aaab", 23)])
    );

    let counts = count_adjacent_pairs(&corpus);
    for &(l, r) in counts.pairs() {
        assert_eq!(counts.get(l, r), 1);
    }
}

#[test]
fn worked_example_trains_to_seven_tokens() {
    let text = "aaabdaaabac";
    let run = train(&chars(text), 7);
    assert_eq!(run.outcome, TrainOutcome::TargetReached);
    assert_eq!(
        entries(&run.vocabulary),
        pairs(&[("a", 7), ("b", 2), ("d", 1), ("c", 1), ("aa", 14), ("ab", 9), ("aaab", 23)])
    );
    assert_eq!(spelled(&run.vocabulary, &run.corpus), ["aaab", "d", "aaab", "a", "c"]);

    let mut tokeniser = Tokeniser::from_vocabulary(&run.vocabulary);
    assert_eq!(tokeniser.len(), 7);
    let out = tokeniser.tokenise(&text.to_string());
    assert_eq!(out, ["aaab", "d", "aaab", "a", "c"]);
    let ids = tokeniser.get_tokens_from_text(&text.to_string());
    assert_eq!(tokeniser.reconstruct(&ids), text);
}

#[test]
fn empty_corpus_gives_empty_vocabulary() {
    let run = train(&Vec::new(), 10);
    assert_eq!(run.vocabulary.len(), 0);
    assert!(run.corpus.is_empty());
    assert_eq!(run.outcome, TrainOutcome::NoMergeableFound);
}

#[test]
fn single_symbol_corpus_has_no_pair() {
    let run = train(&chars("a"), 10);
    assert_eq!(entries(&run.vocabulary), pairs(&[("a", 1)]));
    assert_eq!(run.corpus, vec![0]);
    assert_eq!(run.outcome, TrainOutcome::NoMergeableFound);
}

#[test]
fn training_stops_when_nothing_is_left_to_merge() {
    let run = train(&chars("abab"), 100);
    assert_eq!(run.outcome, TrainOutcome::NoMergeableFound);
    assert_eq!(entries(&run.vocabulary), pairs(&[("a", 2), ("b", 2), ("ab", 4), ("abab", 8)]));
    assert_eq!(spelled(&run.vocabulary, &run.corpus), ["abab"]);
}

#[test]
fn target_below_alphabet_size_leaves_the_alphabet() {
    let run = train(&chars("ab"), 1);
    assert_eq!(run.outcome, TrainOutcome::TargetReached);
    assert_eq!(entries(&run.vocabulary), pairs(&[("a", 1), ("b", 1)]));
    assert_eq!(run.corpus, vec![0, 1]);
}

#[test]
fn vocabulary_grows_by_one_per_merge_and_never_past_the_target() {
    let text = chars("the quick brown fox jumped over the lazy dog and that was just the beginning");
    let mut last = 0;
    for target in 0..60 {
        let run = train(&text, target);
        let size = run.vocabulary.len();
        assert!(size >= last);
        assert!(size <= last + 1 || last == 0);
        assert!(size <= target.max(27));
        assert_eq!(run.outcome == TrainOutcome::TargetReached, size >= target);
        let joined: String = spelled(&run.vocabulary, &run.corpus).concat();
        assert_eq!(joined.chars().collect::<Vec<char>>(), text);
        last = size;
    }
}

#[test]
fn each_merge_adds_exactly_one_token() {
    let text = chars("she sells sea shells by the sea shore");
    let (mut vocab, mut corpus) = initialize_vocab(&text);
    let mut size = vocab.len();
    while bpe_tokeniser::trainer::train_step(&mut vocab, &mut corpus) {
        assert_eq!(vocab.len(), size + 1);
        size += 1;
        let joined: String = spelled(&vocab, &corpus).concat();
        assert_eq!(joined.chars().collect::<Vec<char>>(), text);
    }
    assert_eq!(corpus.len(), 1);
    let texts = vocab.token_strings();
    let mut unique = texts.clone();
    unique.sort();
    unique.dedup();
    assert_eq!(unique.len(), texts.len());
}

#[test]
fn every_training_character_is_a_token() {
    let text = chars("hello world");
    let run = train(&text, 15);
    let texts = run.vocabulary.token_strings();
    for c in &text {
        assert!(texts.contains(&c.to_string()));
    }
}

#[test]
fn two_runs_give_the_same_vocabulary() {
    let text = chars("she sells sea shells by the sea shore");
    let a = train(&text, 30);
    let b = train(&text, 30);
    assert_eq!(entries(&a.vocabulary), entries(&b.vocabulary));
    assert_eq!(a.corpus, b.corpus);
    assert_eq!(a.outcome, b.outcome);
}

#[test]
fn ties_go_to_the_lexicographically_first_pair() {
    let (vocab, corpus) = initialize_vocab(&chars("cdab"));
    let counts = count_adjacent_pairs(&corpus);
    assert_eq!(find_most_frequent_pair(&counts, &vocab), Some((2, 3)));
    let (vocab, corpus) = initialize_vocab(&chars("bcba"));
    let counts = count_adjacent_pairs(&corpus);
    assert_eq!(find_most_frequent_pair(&counts, &vocab), Some((0, 2)));
}

#[test]
fn merge_does_not_reuse_a_merged_symbol_in_the_same_pass() {
    let (mut vocab, mut corpus) = initialize_vocab(&chars("aaaaa"));
    merge_pair((0, 0), &mut vocab, &mut corpus);
    assert_eq!(spelled(&vocab, &corpus), ["aa", "aa", "a"]);
}

#[test]
fn bpe_continues_from_a_given_state() {
    let (vocab, corpus) = initialize_vocab(&chars("aaabdaaabac"));
    let (vocab, corpus, outcome) = bpe(corpus, 5, vocab);
    assert_eq!(outcome, TrainOutcome::TargetReached);
    assert_eq!(spelled(&vocab, &corpus), ["aa", "a", "b", "d", "aa", "a", "b", "a", "c"]);
    let (vocab, corpus, outcome) = bpe(corpus, 7, vocab);
    assert_eq!(outcome, TrainOutcome::TargetReached);
    assert_eq!(spelled(&vocab, &corpus), ["aaab", "d", "aaab", "a", "c"]);
}

#[test]
fn vocabulary_is_keyed_by_text() {
    let mut vocab = Vocabulary::new();
    assert_eq!(vocab.insert(&"a".to_string(), 3), 0);
    assert_eq!(vocab.insert(&"b".to_string(), 4), 1);
    assert_eq!(vocab.insert(&"a".to_string(), 9), 0);
    assert_eq!(entries(&vocab), pairs(&[("a", 3), ("b", 4)]));
    assert_eq!(vocab.find(&vec!['b']), Some(1));
    assert_eq!(vocab.find(&vec!['z']), None);
    assert_eq!(vocab.weights(), pairs(&[("a", 3), ("b", 4)]));
}
