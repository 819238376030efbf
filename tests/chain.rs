use wordora::chain::{MarkovChain, Successor, Word};
use wordora::generator::{join_tokens, Walk, FALLBACK_LENGTH};
use wordora::sampling::{draw_weighted, successor_weights};

fn strings(v: &[&str]) -> Vec<String> {
    v.iter().map(|s| s.to_string()).collect()
}

fn chain_of(tokens: &[&str]) -> MarkovChain {
    let mut chain = MarkovChain::new();
    chain.learn_tokens(&strings(tokens));
    chain
}

#[test]
fn word_new_and_add_transition() {
    let mut w = Word::new("a".to_string());
    assert_eq!(w.word, "a");
    assert!(w.transitions.is_empty());
    w.add_transition("b".to_string());
    w.add_transition("b".to_string());
    assert_eq!(w.transitions, strings(&["b", "b"]));
}

#[test]
fn default_chain_is_empty() {
    let chain = MarkovChain::default();
    assert!(!chain.contains("a"));
    assert_eq!(chain.successors("。"), None);
}

#[test]
fn learn_keeps_successor_order() {
    let chain = chain_of(&["a", "b", "a", "c"]);
    assert_eq!(chain.successors("a"), Some(strings(&["b", "c"])));
    assert_eq!(chain.successors("b"), Some(strings(&["a"])));
    assert_eq!(chain.successors("c"), Some(Vec::new()));
    assert_eq!(chain.successors("d"), None);
}

#[test]
fn learn_twice_doubles_observations() {
    let mut chain = chain_of(&["a", "b"]);
    chain.learn_tokens(&strings(&["a", "b"]));
    assert_eq!(chain.successors("a"), Some(strings(&["b", "b"])));
    assert_eq!(chain.successors("b"), Some(Vec::new()));
}

#[test]
fn learn_from_text() {
    let mut chain = MarkovChain::new();
    chain.learn("abc def abc ghi");
    assert_eq!(chain.successors("abc"), Some(strings(&["def", "ghi"])));
    assert_eq!(chain.successors("ghi"), Some(Vec::new()));
}

#[test]
fn learn_from_text_chunks_at_width_five() {
    let mut chain = MarkovChain::new();
    chain.learn("今日は天気がいいですね。");
    assert_eq!(chain.successors("今日"), Some(strings(&["は"])));
    assert_eq!(chain.successors("がいいです"), Some(strings(&["ね"])));
    assert_eq!(chain.successors("ね"), Some(strings(&["。"])));
    assert_eq!(chain.successors("。"), Some(Vec::new()));
}

#[test]
fn every_corpus_token_has_a_record_and_no_other() {
    let corpus = ["x", "y", "z", "x", "w"];
    let chain = chain_of(&corpus);
    for (i, t) in corpus.iter().enumerate() {
        assert!(chain.contains(t));
        if i + 1 < corpus.len() {
            assert!(chain.successors(t).unwrap().contains(&corpus[i + 1].to_string()));
        }
    }
    assert!(!chain.contains("v"));
    assert!(!chain.contains(""));
}

#[test]
fn successor_weights_count_occurrences() {
    let (values, weights) = successor_weights(&strings(&["b", "c", "b", "d", "b", "c"]));
    assert_eq!(values, strings(&["b", "c", "d"]));
    assert_eq!(weights, vec![3, 2, 1]);
}

#[test]
fn draw_weighted_picks_a_listed_value() {
    let ts = strings(&["b", "c", "b"]);
    for _ in 0..100 {
        let t = draw_weighted(&ts);
        assert!(t == "b" || t == "c");
    }
    assert_eq!(draw_weighted(&strings(&["only"])), "only");
}

#[test]
fn sampling_follows_observed_frequency() {
    let chain = chain_of(&["a", "b", "a", "b", "a", "c"]);
    let a = "a".to_string();
    let (mut b, mut c) = (0usize, 0usize);
    for _ in 0..3000 {
        match chain.sample_successor(&a) {
            Successor::Next(t) if t == "b" => b += 1,
            Successor::Next(t) if t == "c" => c += 1,
            _ => panic!("unexpected successor"),
        }
    }
    assert!((1800..=2200).contains(&b), "b drawn {} times", b);
    assert!((800..=1200).contains(&c), "c drawn {} times", c);
}

#[test]
fn sample_successor_unknown_and_terminal() {
    let chain = chain_of(&["a", "b"]);
    assert!(matches!(chain.sample_successor(&"z".to_string()), Successor::Unknown));
    assert!(matches!(chain.sample_successor(&"b".to_string()), Successor::Terminal));
    assert!(matches!(chain.sample_successor(&"a".to_string()), Successor::Next(t) if t == "b"));
}

#[test]
fn generate_zero_length_returns_seed() {
    let chain = chain_of(&["a", "b"]);
    assert_eq!(chain.generate("anything", 0), Some("anything".to_string()));
    assert_eq!(chain.generate("a", 0), Some("a".to_string()));
}

#[test]
fn generate_follows_the_table() {
    let chain = chain_of(&["x", "y", "x"]);
    assert_eq!(chain.generate("x", 3), Some("x y x y".to_string()));
}

fn fallback_cycle() -> String {
    let mut tokens = vec!["。"];
    for i in 0..FALLBACK_LENGTH {
        tokens.push(if i % 2 == 0 { "a" } else { "。" });
    }
    tokens.join(" ")
}

#[test]
fn generate_unknown_seed_restarts_from_fallback() {
    let chain = chain_of(&["。", "a", "。", "a", "。"]);
    let out = chain.generate("unknown_token", 5).unwrap();
    assert!(!out.starts_with("unknown_token"));
    assert_eq!(out, fallback_cycle());
}

#[test]
fn generate_terminal_token_restarts_from_fallback() {
    let chain = chain_of(&["。", "a", "。", "a", "。", "end"]);
    let out = chain.generate("end", 2).unwrap();
    assert!(out.starts_with("。"));
    assert_eq!(out.split(' ').count(), FALLBACK_LENGTH + 1);
}

#[test]
fn generate_empty_seed_restarts() {
    let chain = chain_of(&["。", "a", "。", "a", "。"]);
    assert_eq!(chain.generate("", 3), Some(fallback_cycle()));
}

#[test]
fn generate_gives_up_without_fallback_seed() {
    let chain = chain_of(&["a", "b"]);
    assert_eq!(chain.generate("z", 2), None);
}

#[test]
fn walk_returns_tokens() {
    let chain = chain_of(&["x", "y", "x"]);
    assert_eq!(chain.walk("y", 2), Some(strings(&["y", "x", "y"])));
}

#[test]
fn walk_advance_steps_and_restarts() {
    let w = Walk::start("a", 2);
    let w = w.advance(Successor::Next("b".to_string()));
    assert_eq!(w.tokens, strings(&["a", "b"]));
    assert_eq!(w.remaining, 1);
    assert_eq!(w.restarts, 0);
    let w = w.advance(Successor::Terminal);
    assert_eq!(w.tokens, strings(&["。"]));
    assert_eq!(w.remaining, FALLBACK_LENGTH);
    assert_eq!(w.restarts, 1);
    let w = w.advance(Successor::Unknown);
    assert_eq!(w.restarts, 2);
}

#[test]
fn join_tokens_with_spaces() {
    assert_eq!(join_tokens(&strings(&["a", "bc", "d"])), "a bc d");
    assert_eq!(join_tokens(&strings(&["a"])), "a");
    assert_eq!(join_tokens(&Vec::new()), "");
}

fn periods() -> String {
    vec!["。"; FALLBACK_LENGTH + 1].join(" ")
}

#[test]
fn generate_unknown_seed_on_self_looping_fallback() {
    let mut chain = MarkovChain::default();
    chain.learn("。 。");
    assert_eq!(chain.generate("unknown_token", 5), Some(periods()));
}

#[test]
fn generate_without_dead_end_walks_from_seed() {
    let mut chain = MarkovChain::default();
    chain.learn("a b c");
    assert_eq!(chain.generate("a", 2), Some("a b c".to_string()));
}

#[test]
fn generate_discards_output_before_dead_end() {
    let mut chain = MarkovChain::default();
    chain.learn("。 。");
    chain.learn("a z");
    assert_eq!(chain.generate("a", 2), Some(periods()));
}

#[test]
fn generate_empty_seed_on_self_looping_fallback() {
    let mut chain = MarkovChain::default();
    chain.learn("。 。");
    assert_eq!(chain.generate("", 20), Some(periods()));
}
