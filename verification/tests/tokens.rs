use minions_core::tokens::{CharRatioTokenizer, Tokenizer};

#[test]
fn over_counts_rather_than_under() {
    let t = CharRatioTokenizer::default();
    // English prose is roughly 4 chars/token; 3.2 keeps us on the safe side.
    let text = "the quick brown fox jumps over the lazy dog";
    assert!(t.count(text) >= text.split_whitespace().count());
}

#[test]
fn empty_is_zero() {
    assert_eq!(CharRatioTokenizer::default().count(""), 0);
}

#[test]
fn a_token_is_three_characters_and_a_fifth() {
    let t = CharRatioTokenizer::default();
    for n in 0..5000 {
        let text = "é".repeat(n);
        assert_eq!(t.count(&text), (n as f32 / 3.2).ceil() as usize, "{n} characters");
    }
}
