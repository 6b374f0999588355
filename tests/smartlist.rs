use cracken::create_smartlist::{
    remove_long_numbers, remove_shorter_than_len, SmartlistBuilder, SmartlistTokenizer,
    DEFAULT_VOCAB_SIZE,
};

fn strings(v: &[&str]) -> Vec<String> {
    v.iter().map(|s| s.to_string()).collect()
}

#[test]
fn builder_defaults_and_setters() {
    let b = SmartlistBuilder::new();
    assert_eq!(b.vocab_max_size, DEFAULT_VOCAB_SIZE);
    assert_eq!(b.tokenizers, vec![SmartlistTokenizer::Unigram]);
    assert!(b.print_progress);
    let b = b
        .infiles(strings(&["a.txt"]))
        .vocab_max_size(25)
        .min_frequency(3)
        .tokenizers(vec![
            SmartlistTokenizer::BPE,
            SmartlistTokenizer::WordPiece,
            SmartlistTokenizer::BPE,
        ])
        .print_progress(false)
        .numbers_max_size(Some(4))
        .min_word_len(2);
    assert_eq!(b.infiles, strings(&["a.txt"]));
    assert_eq!(b.vocab_max_size, 25);
    assert_eq!(b.min_frequency, 3);
    assert_eq!(b.tokenizers, vec![SmartlistTokenizer::BPE, SmartlistTokenizer::WordPiece]);
    assert!(!b.print_progress);
    assert_eq!(b.numbers_max_size, Some(4));
    assert_eq!(b.min_word_len, 2);
}

#[test]
fn filters_long_numbers() {
    let vocab = strings(&["123", "12345", "abc", "1234567", "12a4567", ""]);
    assert_eq!(
        remove_long_numbers(vocab, 5),
        strings(&["123", "12345", "abc", "12a4567", ""])
    );
}

#[test]
fn filters_short_words() {
    let vocab = strings(&["a", "bb", "ccc", "é"]);
    assert_eq!(remove_shorter_than_len(vocab, 2), strings(&["bb", "ccc", "é"]));
}

#[test]
fn finish_filters_and_bounds() {
    let b = SmartlistBuilder::new()
        .min_word_len(2)
        .numbers_max_size(Some(3))
        .vocab_max_size(3);
    let ranked = strings(&["a", "12345", "bb", "123", "ccc", "dddd"]);
    assert_eq!(b.finish(ranked), strings(&["bb", "123", "ccc"]));
    let all = SmartlistBuilder::new().min_word_len(0);
    assert_eq!(all.finish(strings(&["", "x"])), strings(&["", "x"]));
}
