use trie_rs::TrieBuilder;

fn build(words: &[&str]) -> trie_rs::Trie {
    let mut b = TrieBuilder::new();
    for w in words {
        b.push(w.as_bytes());
    }
    b.build()
}

fn strs(v: Vec<Vec<u8>>) -> Vec<String> {
    v.into_iter().map(|w| String::from_utf8(w).unwrap()).collect()
}

#[test]
fn apple_scenario() {
    let t = build(&["apple", "app", "apt"]);
    assert!(t.exact_match(b"app"));
    assert!(!t.exact_match(b"ap"));
    assert!(t.exact_match(b"apple"));
    assert!(t.exact_match(b"apt"));
    assert!(!t.exact_match(b"apples"));
    assert!(!t.exact_match(b""));
    assert_eq!(strs(t.predictive_search(b"ap")), vec!["app", "apple", "apt"]);
    assert_eq!(strs(t.common_prefix_search(b"application")), vec!["app"]);
    assert_eq!(strs(t.common_prefix_search(b"apple pie")), vec!["app", "apple"]);
}

#[test]
fn exact_match_is_membership() {
    let words = ["a", "to", "tea", "ted", "ten", "i", "in", "inn"];
    let t = build(&words);
    for w in words.iter() {
        assert!(t.exact_match(w.as_bytes()), "{}", w);
    }
    for w in ["t", "te", "tex", "inns", "b", "ii", "tean"].iter() {
        assert!(!t.exact_match(w.as_bytes()), "{}", w);
    }
}

#[test]
fn predictive_search_is_sorted_and_complete() {
    let words = ["ten", "tea", "a", "inn", "to", "in", "ted", "i"];
    let t = build(&words);
    assert_eq!(
        strs(t.predictive_search(b"")),
        vec!["a", "i", "in", "inn", "tea", "ted", "ten", "to"]
    );
    assert_eq!(strs(t.predictive_search(b"te")), vec!["tea", "ted", "ten"]);
    assert_eq!(strs(t.predictive_search(b"in")), vec!["in", "inn"]);
    assert!(t.predictive_search(b"x").is_empty());
    assert!(t.predictive_search(b"tenx").is_empty());
}

#[test]
fn common_prefix_search_stops_at_missing_label() {
    let t = build(&["a", "ab", "abc", "abd", "b"]);
    assert_eq!(strs(t.common_prefix_search(b"abcde")), vec!["a", "ab", "abc"]);
    assert_eq!(strs(t.common_prefix_search(b"abx")), vec!["a", "ab"]);
    assert!(t.common_prefix_search(b"c").is_empty());
    assert!(t.common_prefix_search(b"").is_empty());
}

#[test]
fn pushing_twice_changes_nothing() {
    let once = build(&["car", "cart", "cat"]);
    let twice = build(&["car", "cart", "cart", "cat", "car"]);
    for q in ["c", "ca", "car", "cart", "cat", "cats", ""].iter() {
        assert_eq!(once.exact_match(q.as_bytes()), twice.exact_match(q.as_bytes()));
        assert_eq!(once.predictive_search(q.as_bytes()), twice.predictive_search(q.as_bytes()));
        assert_eq!(
            once.common_prefix_search(q.as_bytes()),
            twice.common_prefix_search(q.as_bytes())
        );
    }
}

#[test]
fn insertion_order_does_not_matter() {
    let a = build(&["zeta", "alpha", "beta", "al"]);
    let b = build(&["al", "beta", "zeta", "alpha"]);
    assert_eq!(a.predictive_search(b""), b.predictive_search(b""));
    assert_eq!(strs(a.predictive_search(b"")), vec!["al", "alpha", "beta", "zeta"]);
}

#[test]
fn empty_builder_and_empty_word() {
    let mut b = TrieBuilder::new();
    let t = b.build();
    assert!(!t.exact_match(b""));
    assert!(t.predictive_search(b"").is_empty());
    b.push(b"");
    let t = b.build();
    assert!(!t.exact_match(b""));
    assert!(t.predictive_search(b"").is_empty());
}

#[test]
fn build_is_a_snapshot() {
    let mut b = TrieBuilder::new();
    b.push(b"one");
    let first = b.build();
    b.push(b"two");
    let second = b.build();
    assert!(first.exact_match(b"one"));
    assert!(!first.exact_match(b"two"));
    assert!(second.exact_match(b"one"));
    assert!(second.exact_match(b"two"));
}
