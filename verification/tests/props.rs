use markov::{Chain, DecodeError, GenerateError};

fn walk_words(chain: &Chain, word: &str) -> Vec<String> {
    let mut it = chain.generate_iter(word);
    let mut words = Vec::new();
    while let Some(w) = it.next(chain) {
        words.push(w);
    }
    words
}

#[test]
fn is_sentence_end_looks_at_the_last_character() {
    assert!(markov::is_sentence_end("word."));
    assert!(!markov::is_sentence_end("word"));
    assert!(!markov::is_sentence_end(""));
    assert!(!markov::is_sentence_end(".a"));
}

#[test]
fn each_adjacent_pair_counts_once_and_feeding_twice_doubles() {
    let mut once = Chain::default();
    once.feed("a b a b c");
    assert_eq!(once.weight_between("a", "b"), Some(2));
    assert_eq!(once.weight_between("b", "a"), Some(1));
    assert_eq!(once.weight_between("b", "c"), Some(1));
    assert_eq!(once.weight_between("a", "c"), None);

    let mut twice = Chain::default();
    twice.feed("a b a b c");
    twice.feed("a b a b c");
    assert_eq!(twice.weight_between("a", "b"), Some(4));
    assert_eq!(twice.weight_between("b", "a"), Some(2));
    assert_eq!(twice.weight_between("b", "c"), Some(2));
}

#[test]
fn unknown_words_have_no_weight_and_weights_start_at_one() {
    let mut chain = Chain::default();
    chain.feed("one two");
    assert_eq!(chain.weight_between("one", "missing"), None);
    assert_eq!(chain.weight_between("missing", "two"), None);
    assert_eq!(chain.weight_between("missing", "missing"), None);
    // an edge that exists is never reported as zero
    assert_eq!(chain.weight_between("one", "two"), Some(1));
    // both words known, but no transition between them
    assert_eq!(chain.weight_between("two", "one"), None);
}

#[test]
fn starters_are_the_words_after_terminators() {
    let mut chain = Chain::default();
    chain.feed("Hi there. Bob ate.");
    chain.feed("He ran. Tom won.");
    assert!(chain.is_starter_word("Bob"));
    assert!(chain.is_starter_word("Tom"));
    assert!(!chain.is_starter_word("Hi"));
    assert!(!chain.is_starter_word("He"));
    assert!(!chain.is_starter_word("there."));
    assert_eq!(chain.starter_count(), 2);
}

#[test]
fn generation_without_starters_fails() {
    let mut chain = Chain::default();
    chain.feed("henlo stinky");
    assert_eq!(chain.starter_count(), 0);
    assert_eq!(chain.generate_sentence(None), Err(GenerateError::NoStarters));
    // a known starting word still works
    let s = chain.generate_sentence(Some("henlo")).unwrap();
    assert_eq!(s, "henlo stinky");
}

#[test]
fn generation_from_a_cycle_stops_at_the_cap() {
    let mut chain = Chain::default();
    chain.feed("loop loop");
    let sentence = chain.generate_sentence(Some("loop")).unwrap();
    let words: Vec<&str> = sentence.split(' ').collect();
    assert_eq!(words.len(), 10000);
    assert!(words.iter().all(|w| *w == "loop"));
}

#[test]
fn second_tokens_are_weighted_roughly_evenly() {
    let mut chain = Chain::default();
    chain.feed("stinky boy");
    chain.feed("stinky lizer");
    chain.feed("stinky pinky");
    let mut counts = [0usize; 3];
    for _ in 0..100000 {
        let words = walk_words(&chain, "stinky");
        match words[1].as_str() {
            "boy" => counts[0] += 1,
            "lizer" => counts[1] += 1,
            "pinky" => counts[2] += 1,
            _ => panic!(),
        }
    }
    for c in counts {
        assert!(c > 30000, "expected roughly a third, got {}", c);
    }
}

#[test]
fn snapshot_round_trip_reproduces_the_chain() {
    let mut chain = Chain::default();
    chain.feed("Hi there. Bob ate bread.");
    chain.feed("Tom ran. Hi again.");
    let bytes = chain.to_bytes();
    let back = Chain::from_bytes(&bytes).unwrap();
    // identical indices
    for w in ["Hi", "there.", "Bob", "ate", "bread.", "Tom", "ran.", "again."] {
        assert_eq!(chain.index_of(w), back.index_of(w));
        assert!(back.index_of(w).is_some());
    }
    assert_eq!(chain.word_count(), back.word_count());
    // identical edge weights
    for a in ["Hi", "there.", "Bob", "ate", "bread.", "Tom", "ran.", "again."] {
        for b in ["Hi", "there.", "Bob", "ate", "bread.", "Tom", "ran.", "again."] {
            assert_eq!(chain.weight_between(a, b), back.weight_between(a, b));
        }
    }
    // identical totals and terminator flags
    for i in 0..chain.word_count() {
        let n1 = chain.node_at(i).unwrap();
        let n2 = back.node_at(i).unwrap();
        assert_eq!(n1.total_weight(), n2.total_weight());
        assert_eq!(n1.terminator_flag(), n2.terminator_flag());
        assert_eq!(n1.edge_pairs(), n2.edge_pairs());
    }
    // identical starter set
    assert_eq!(chain.starter_count(), back.starter_count());
    for i in 0..chain.word_count() {
        assert_eq!(chain.is_starter_index(i), back.is_starter_index(i));
    }
    // and the snapshot of the rebuilt chain is byte-identical
    assert_eq!(bytes, back.to_bytes());
}

#[test]
fn empty_chain_round_trips() {
    let chain = Chain::default();
    let bytes = chain.to_bytes();
    let back = Chain::from_bytes(&bytes).unwrap();
    assert_eq!(back.word_count(), 0);
    assert_eq!(back.starter_count(), 0);
}

#[test]
fn foreign_bytes_are_rejected() {
    assert!(matches!(Chain::from_bytes(&[1, 2, 3]), Err(DecodeError::Malformed)));
    // right length, but the word count promises more data than there is
    let mut bytes = vec![0u8; 8];
    bytes[0] = 7;
    assert!(matches!(Chain::from_bytes(&bytes), Err(DecodeError::Malformed)));
    // a snapshot always holds at least the two counts
    assert!(matches!(Chain::from_bytes(&[]), Err(DecodeError::Malformed)));
}
