use std::sync::Arc;

use markov::ArcChain;

fn words(s: &str) -> Vec<String> {
    s.split(' ').map(|w| w.to_string()).collect()
}

fn strings(v: &[Arc<String>]) -> Vec<String> {
    v.iter().map(|s| s.as_ref().clone()).collect()
}

#[test]
fn new_chain_is_empty() {
    let chain: ArcChain<String> = ArcChain::new();
    assert!(chain.is_empty());
}

#[test]
fn feeding_makes_chain_non_empty() {
    let mut chain: ArcChain<String> = ArcChain::new();
    chain.feed(words("a b"));
    assert!(!chain.is_empty());
}

#[test]
fn feeding_empty_sequence_changes_nothing() {
    let mut chain: ArcChain<String> = ArcChain::new();
    chain.feed(Vec::new());
    assert!(chain.is_empty());
}

#[test]
fn round_trip_walks_the_fed_sequence() {
    let mut chain: ArcChain<String> = ArcChain::new();
    chain.feed(words("a b c"));
    for _ in 0..100 {
        assert_eq!(strings(&chain.generate()), words("a b c"));
    }
}

#[test]
fn concrete_scenario_yields_both_sentences_and_nothing_else() {
    let mut chain: ArcChain<String> = ArcChain::new();
    chain.feed(words("the cat sat"));
    chain.feed(words("the dog ran"));
    let mut cat = 0;
    let mut dog = 0;
    for _ in 0..400 {
        let s = chain.generate_str();
        if s == "the cat sat" {
            cat += 1;
        } else if s == "the dog ran" {
            dog += 1;
        } else {
            panic!("unexpected output: {}", s);
        }
    }
    assert!(cat > 0);
    assert!(dog > 0);
}

#[test]
fn feeding_twice_keeps_the_same_outputs() {
    let mut chain: ArcChain<String> = ArcChain::new();
    chain.feed(words("x y z"));
    chain.feed(words("x y z"));
    for _ in 0..50 {
        assert_eq!(chain.generate_str(), "x y z");
    }
}

#[test]
fn unseen_seed_gives_empty_sequence() {
    let mut chain: ArcChain<String> = ArcChain::new();
    chain.feed(words("a b c"));
    assert!(chain.generate_from_token("q".to_string()).is_empty());
    let fresh: ArcChain<String> = ArcChain::new();
    assert!(fresh.generate_from_token("a".to_string()).is_empty());
    assert_eq!(chain.generate_str_from_token("q"), "");
}

#[test]
fn seen_seed_starts_with_the_token() {
    let mut chain: ArcChain<String> = ArcChain::new();
    chain.feed(words("a b c"));
    assert_eq!(strings(&chain.generate_from_token("b".to_string())), words("b c"));
    assert_eq!(chain.generate_str_from_token("a"), "a b c");
}

#[test]
fn bounded_producer_yields_exactly_n() {
    let mut chain: ArcChain<String> = ArcChain::new();
    chain.feed(words("a b"));
    let mut it = chain.iter_for(3);
    assert_eq!(it.size_hint(), (3, Some(3)));
    let mut n = 0;
    while let Some(v) = it.next() {
        assert_eq!(strings(&v), words("a b"));
        n += 1;
    }
    assert_eq!(n, 3);
    assert!(it.next().is_none());
    assert_eq!(it.size_hint(), (0, Some(0)));
}

#[test]
fn bounded_producer_of_zero_yields_none() {
    let mut chain: ArcChain<String> = ArcChain::new();
    chain.feed(words("a b"));
    let mut it = chain.iter_for(0);
    assert!(it.next().is_none());
}

#[test]
fn unbounded_producer_keeps_yielding() {
    let mut chain: ArcChain<u64> = ArcChain::new();
    chain.feed(vec![1, 2, 3]);
    let mut it = chain.iter();
    for _ in 0..20 {
        let v = it.next().unwrap();
        let got: Vec<u64> = v.iter().map(|a| **a).collect();
        assert_eq!(got, vec![1, 2, 3]);
    }
}

#[test]
fn string_producers_render_lines() {
    let mut chain: ArcChain<String> = ArcChain::new();
    chain.feed_str("hello there world");
    let mut sized = chain.str_iter_for(2);
    assert_eq!(sized.next(), Some("hello there world".to_string()));
    assert_eq!(sized.next(), Some("hello there world".to_string()));
    assert_eq!(sized.next(), None);
    let mut endless = chain.str_iter();
    assert_eq!(endless.next(), Some("hello there world".to_string()));
}

#[test]
fn feed_str_splits_on_whitespace_runs() {
    let mut chain: ArcChain<String> = ArcChain::new();
    chain.feed_str("  one \t two   three ");
    assert_eq!(chain.generate_str(), "one two three");
}

#[test]
fn feed_str_of_blank_text_feeds_nothing() {
    let mut chain: ArcChain<String> = ArcChain::new();
    chain.feed_str("   ");
    assert!(chain.is_empty());
}

#[test]
fn higher_order_uses_longer_windows() {
    let mut chain: ArcChain<char> = ArcChain::new();
    chain.order(2);
    assert!(chain.is_empty());
    chain.feed(vec!['a', 'b', 'a', 'c']);
    for _ in 0..50 {
        let got: Vec<char> = chain.generate().iter().map(|a| **a).collect();
        assert_eq!(got, vec!['a', 'b', 'a', 'c']);
    }
    let seeded: Vec<char> = chain.generate_from_token('a').iter().map(|a| **a).collect();
    assert!(seeded.is_empty());
}

#[test]
fn order_two_branches_on_two_tokens_of_context() {
    let mut chain: ArcChain<u64> = ArcChain::new();
    chain.order(2);
    chain.feed(vec![1, 2, 3]);
    chain.feed(vec![4, 2, 5]);
    for _ in 0..100 {
        let got: Vec<u64> = chain.generate().iter().map(|a| **a).collect();
        assert!(got == vec![1, 2, 3] || got == vec![4, 2, 5], "{:?}", got);
    }
}

#[test]
fn order_one_mixes_on_shared_token() {
    let mut chain: ArcChain<u64> = ArcChain::new();
    chain.feed(vec![1, 2, 3]);
    chain.feed(vec![4, 2, 5]);
    let mut mixed = false;
    for _ in 0..400 {
        let got: Vec<u64> = chain.generate().iter().map(|a| **a).collect();
        if got == vec![1, 2, 5] || got == vec![4, 2, 3] {
            mixed = true;
        }
    }
    assert!(mixed);
}

#[test]
fn resetting_order_empties_the_start() {
    let mut chain: ArcChain<String> = ArcChain::new();
    chain.feed(words("a b"));
    chain.order(1);
    assert!(chain.is_empty());
}

#[test]
fn repeated_seed_at_order_two() {
    let mut chain: ArcChain<u64> = ArcChain::new();
    chain.order(2);
    chain.feed(vec![7, 7, 8]);
    let got: Vec<u64> = chain.generate_from_token(7).iter().map(|a| **a).collect();
    assert_eq!(got, vec![7, 8]);
}

#[test]
fn select_picks_by_running_total() {
    let d = vec![('a', 2usize), ('b', 3usize), ('c', 1usize)];
    assert_eq!(markov::total_weight(&d), 6);
    assert_eq!(markov::select(&d, 0), 0);
    assert_eq!(markov::select(&d, 1), 0);
    assert_eq!(markov::select(&d, 2), 1);
    assert_eq!(markov::select(&d, 4), 1);
    assert_eq!(markov::select(&d, 5), 2);
}

#[test]
fn select_gives_each_outcome_its_weight_in_draws() {
    let d = vec![(10u64, 3usize), (20u64, 1usize), (30u64, 4usize)];
    let mut counts = [0usize; 3];
    for draw in 0..markov::total_weight(&d) {
        counts[markov::select(&d, draw)] += 1;
    }
    assert_eq!(counts, [3, 1, 4]);
}

#[test]
fn calls_chain() {
    let mut chain: ArcChain<String> = ArcChain::new();
    chain.order(1).feed(words("a b")).feed_str("a b");
    assert!(!chain.is_empty());
    assert_eq!(chain.generate_str(), "a b");
}
