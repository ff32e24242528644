use std::time::Duration;

use shaken::{Brain, Token};

fn word(s: &str) -> Token {
    Token::Word(s.to_string())
}

fn ctx(words: &[&str]) -> Vec<String> {
    words.iter().map(|w| w.to_string()).collect()
}

#[test]
fn train_builds_the_expected_contexts() {
    let mut brain = Brain::new("test".to_string(), 2);
    brain.train("the cat sat");

    assert_eq!(brain.weight(&ctx(&["the"]), &word("cat")), 1);
    assert_eq!(brain.weight(&ctx(&["cat"]), &word("sat")), 1);
    assert_eq!(brain.weight(&ctx(&["the", "cat"]), &word("sat")), 1);
    assert_eq!(brain.weight(&ctx(&["sat"]), &Token::End), 1);
    assert_eq!(brain.weight(&ctx(&["cat", "sat"]), &Token::End), 1);

    let head: Vec<&str> = brain.head_words().iter().map(|s| s.as_str()).collect();
    assert_eq!(head, vec!["the"]);

    // nothing else was learned for unrelated lookups
    assert_eq!(brain.weight(&ctx(&["sat"]), &word("the")), 0);
    assert_eq!(brain.weight(&ctx(&["dog"]), &word("cat")), 0);

    // no stored context is ever wider than the depth
    assert_eq!(brain.weight(&ctx(&["the", "cat", "sat"]), &Token::End), 0);
}

#[test]
fn repeated_training_doubles_every_weight() {
    let mut brain = Brain::new("test".to_string(), 2);
    brain.train("the cat sat");
    brain.train("the cat sat");

    assert_eq!(brain.weight(&ctx(&["the"]), &word("cat")), 2);
    assert_eq!(brain.weight(&ctx(&["cat"]), &word("sat")), 2);
    assert_eq!(brain.weight(&ctx(&["the", "cat"]), &word("sat")), 2);
    assert_eq!(brain.weight(&ctx(&["sat"]), &Token::End), 2);
    assert_eq!(brain.weight(&ctx(&["cat", "sat"]), &Token::End), 2);

    let head: Vec<&str> = brain.head_words().iter().map(|s| s.as_str()).collect();
    assert_eq!(head, vec!["the"]);
}

#[test]
fn training_never_lowers_a_weight() {
    let mut brain = Brain::new("test".to_string(), 3);
    brain.train("a b a b c");
    let before = brain.weight(&ctx(&["a"]), &word("b"));
    brain.train("a b");
    brain.train("unrelated words entirely");
    let after = brain.weight(&ctx(&["a"]), &word("b"));
    assert!(after >= before);
    assert_eq!(before, 2);
    assert_eq!(after, 3);
}

#[test]
fn empty_text_is_a_no_op() {
    let mut brain = Brain::new("test".to_string(), 2);
    brain.train("   ");
    brain.train("");
    assert!(brain.head_words().is_empty());
}

#[test]
fn untrained_brain_generates_nothing() {
    let brain = Brain::new("test".to_string(), 5);
    let rng = fastrand::Rng::with_seed(42);
    let out = brain.generate(&rng, 3, 5, None, Duration::from_secs(5));
    assert!(out.is_none());
    assert!(brain.head_words().is_empty());
}

#[test]
fn generate_is_deterministic_for_a_fixed_seed() {
    let mut brain = Brain::new("test".to_string(), 3);
    brain.train("the quick brown fox jumps over the lazy dog");
    brain.train("the dog sleeps");

    let a = brain.generate(
        &fastrand::Rng::with_seed(7),
        3,
        8,
        None,
        Duration::from_secs(5),
    );
    let b = brain.generate(
        &fastrand::Rng::with_seed(7),
        3,
        8,
        None,
        Duration::from_secs(5),
    );
    assert_eq!(a, b);
}

#[test]
fn single_path_generation_yields_the_only_line() {
    let mut brain = Brain::new("test".to_string(), 5);
    brain.train("a b c");
    for seed in 0..32u64 {
        let rng = fastrand::Rng::with_seed(seed);
        match brain.generate(&rng, 3, 3, None, Duration::from_secs(5)) {
            Some(out) => assert_eq!(out, "a b c"),
            None => {}
        }
    }
}

#[test]
fn generated_length_stays_in_bounds() {
    let mut brain = Brain::new("test".to_string(), 3);
    brain.train("one two three four five six seven");
    for seed in 0..16u64 {
        let rng = fastrand::Rng::with_seed(seed);
        if let Some(out) = brain.generate(&rng, 2, 4, None, Duration::from_secs(5)) {
            let n = out.split(' ').count();
            assert!(2 <= n && n <= 4, "got {n} words: {out}");
        }
    }
}

#[test]
fn query_words_are_woven_in() {
    let mut brain = Brain::new("test".to_string(), 2);
    brain.train("x y z w");
    for seed in 0..16u64 {
        let rng = fastrand::Rng::with_seed(seed);
        if let Some(out) = brain.generate(&rng, 4, 8, Some("anchor"), Duration::from_secs(5)) {
            for piece in out.split(' ') {
                assert!(
                    ["x", "y", "z", "w", "anchor"].contains(&piece),
                    "unexpected word {piece} in {out}"
                );
            }
        }
    }
}

#[test]
fn codec_round_trip_reproduces_the_brain() {
    let mut brain = Brain::new("roundtrip".to_string(), 3);
    brain.train("the cat sat on the mat");
    brain.train("the dog sat");
    brain.train("a mat is not a dog");

    let bytes = brain.encode();
    let back = Brain::decode(&bytes).expect("decoding its own encoding");

    assert_eq!(back.name(), brain.name());
    assert_eq!(back.depth(), brain.depth());
    assert_eq!(back.head_words(), brain.head_words());
    for (c, t) in [
        (ctx(&["the"]), word("cat")),
        (ctx(&["the"]), word("dog")),
        (ctx(&["the", "cat"]), word("sat")),
        (ctx(&["sat"]), Token::End),
        (ctx(&["a"]), word("mat")),
        (ctx(&["never"]), word("seen")),
    ] {
        assert_eq!(back.weight(&c, &t), brain.weight(&c, &t));
    }
}

#[test]
fn corrupt_bytes_decode_to_nothing() {
    assert!(Brain::decode(&vec![]).is_none());
    assert!(Brain::decode(&vec![0xff; 40]).is_none());
    let mut brain = Brain::new("x".to_string(), 2);
    brain.train("a b");
    let mut bytes = brain.encode();
    bytes.pop();
    assert!(Brain::decode(&bytes).is_none());
}

#[test]
fn packed_round_trip_goes_through_compression() {
    let mut brain = Brain::new("packed".to_string(), 4);
    for _ in 0..8 {
        brain.train("pack the bytes pack the bytes pack the bytes down");
    }
    let packed = brain.to_packed();
    // the durable form is a zstd frame, not the raw encoding
    assert_ne!(packed, brain.encode());
    let back = Brain::from_packed(&packed).expect("unpacking its own packing");
    assert_eq!(back.name(), "packed");
    assert_eq!(back.head_words(), brain.head_words());
    // raw, uncompressed bytes are not a durable form
    assert!(Brain::from_packed(&brain.encode()).is_none());
}
