use prefix_tree::trie::{KeyNotFoundError, Trie};

fn sample() -> Trie<i32> {
    let mut trie = Trie::new();
    let keys = vec!["a", "ab", "ac", "b", "c", "abc", "abcde", "abced"];
    let values = vec![1, 2, 3, 4, 5, 6, 7, 9];
    for i in 0..8 {
        trie.set(keys[i], values[i]);
    }
    trie
}

#[test]
fn insertion_retrieval() {
    let mut trie = Trie::new();
    let v1 = vec!["a", "ab", "ac", "b", "c", "abc", "abcde", "abced"];
    let v2 = vec![1, 2, 3, 4, 5, 6, 7, 9];
    for i in 0..8 {
        trie.set(v1[i], v2[i]);
    }
    for i in 0..8 {
        assert_eq!(trie.get(v1[i]), Some(&v2[i]));
    }
    assert_eq!(trie.size(), 9);
    trie.set(v1[3], 33);
    assert_eq!(trie.get(v1[3]), Some(&33));
    assert_eq!(trie.size(), 9);
}

// Removing "abcde" leaves its parent "abc" with a value and one child ("abced"): that
// parent is no hollow node, so nothing collapses and the count drops by one node only.
#[test]
fn insertion_deletion() {
    let mut trie = Trie::new();
    let v1 = vec!["a", "ab", "ac", "b", "c", "abc", "abcde", "abced"];
    let v2 = vec![1, 2, 3, 4, 5, 6, 7, 9];
    for i in 0..8 {
        trie.set(v1[i], v2[i]);
    }
    for i in 0..8 {
        assert_eq!(trie.get(v1[i]), Some(&v2[i]));
    }
    assert_eq!(trie.size(), 9);
    let removed = trie.remove("abcd");
    assert!(removed.is_err());
    let removed = trie.remove("abcde");
    assert_eq!(removed.ok(), Some(7));
    assert_eq!(trie.size(), 8);
    assert_eq!(trie.get("abc"), Some(&6));
    assert_eq!(trie.get("abced"), Some(&9));
    let removed: Result<i32, KeyNotFoundError> = trie.remove("c");
    assert_eq!(removed.ok(), Some(5));
    assert_eq!(trie.size(), 7);
    let removed = trie.remove("abcde");
    assert!(removed.is_err());
    assert_eq!(trie.size(), 7);
}

#[test]
fn new_tree_is_empty() {
    let trie: Trie<i32> = Trie::new();
    assert_eq!(trie.size(), 1);
    assert_eq!(trie.get(""), None);
    assert_eq!(trie.get("a"), None);
    assert!(!trie.has("a"));
}

#[test]
fn round_trip_of_several_keys() {
    let mut trie = Trie::new();
    let keys = vec!["k", "key", "keys", "héllo", "日本語", "日本", "x y z"];
    for (i, k) in keys.iter().enumerate() {
        assert_eq!(trie.set(k, i), None);
        assert_eq!(trie.get(k), Some(&i));
    }
    for (i, k) in keys.iter().enumerate() {
        assert_eq!(trie.get(k), Some(&i));
        assert!(trie.has(k));
    }
    assert_eq!(trie.get("日"), None);
    assert_eq!(trie.get("ke"), None);
}

#[test]
fn overwrite_returns_previous_value() {
    let mut trie = sample();
    let before = trie.size();
    assert_eq!(trie.set("abc", 60), Some(6));
    assert_eq!(trie.get("abc"), Some(&60));
    assert_eq!(trie.size(), before);
    assert_eq!(trie.set("abc", 600), Some(60));
    assert_eq!(trie.get("abc"), Some(&600));
    assert_eq!(trie.size(), before);
}

#[test]
fn size_accounting() {
    let trie = sample();
    assert_eq!(trie.size(), 9);
}

#[test]
fn removal_of_absent_key() {
    let mut trie = sample();
    assert!(trie.remove("abcd").is_err());
    assert_eq!(trie.size(), 9);
    assert!(trie.remove("zzz").is_err());
    assert!(trie.remove("").is_err());
    assert_eq!(trie.size(), 9);
}

#[test]
fn removal_keeps_parent_with_value() {
    let mut trie = sample();
    assert_eq!(trie.remove("abcde").ok(), Some(7));
    assert_eq!(trie.size(), 8);
    assert_eq!(trie.remove("c").ok(), Some(5));
    assert_eq!(trie.size(), 7);
    assert_eq!(trie.get("abced"), Some(&9));
    assert_eq!(trie.get("abc"), Some(&6));
}

#[test]
fn removal_collapses_hollow_parent() {
    let mut trie = Trie::new();
    trie.set("x", 1);
    trie.set("xa", 2);
    trie.set("xb", 3);
    assert_eq!(trie.size(), 4);
    // "x" keeps branching to two children, so it stays as a hollow node
    assert_eq!(trie.remove("x").ok(), Some(1));
    assert_eq!(trie.size(), 4);
    assert_eq!(trie.get("x"), None);
    // its parent role ends with one child left: it merges with "b"
    assert_eq!(trie.remove("xa").ok(), Some(2));
    assert_eq!(trie.size(), 2);
    assert_eq!(trie.get("xb"), Some(&3));
    assert_eq!(trie.get("x"), None);
}

#[test]
fn removal_merges_node_with_single_child() {
    let mut trie = Trie::new();
    trie.set("x", 1);
    trie.set("xy", 2);
    trie.set("xyz", 3);
    assert_eq!(trie.size(), 4);
    assert_eq!(trie.remove("xy").ok(), Some(2));
    assert_eq!(trie.size(), 3);
    assert_eq!(trie.get("x"), Some(&1));
    assert_eq!(trie.get("xyz"), Some(&3));
    assert_eq!(trie.get("xy"), None);
}

#[test]
fn repeated_failed_removal() {
    let mut trie = sample();
    for _ in 0..3 {
        assert!(trie.remove("ad").is_err());
        assert_eq!(trie.size(), 9);
        assert_eq!(trie.get("a"), Some(&1));
        assert_eq!(trie.get("abced"), Some(&9));
    }
}

#[test]
fn other_keys_are_isolated() {
    let mut trie = sample();
    let keys = vec!["a", "ab", "ac", "b", "c", "abc", "abcde", "abced"];
    let values = vec![1, 2, 3, 4, 5, 6, 7, 9];
    trie.set("abd", 10);
    for i in 0..8 {
        assert_eq!(trie.get(keys[i]), Some(&values[i]));
    }
    for r in 0..8 {
        let mut t = sample();
        assert_eq!(t.remove(keys[r]).ok(), Some(values[r]));
        for i in 0..8 {
            if i != r {
                assert_eq!(t.get(keys[i]), Some(&values[i]));
            } else {
                assert_eq!(t.get(keys[i]), None);
            }
        }
    }
}

#[test]
fn split_gathers_every_extending_child() {
    let mut trie = Trie::new();
    trie.set("abc", 1);
    trie.set("abd", 2);
    assert_eq!(trie.size(), 3);
    assert_eq!(trie.set("ab", 3), None);
    assert_eq!(trie.size(), 4);
    assert_eq!(trie.get("abc"), Some(&1));
    assert_eq!(trie.get("abd"), Some(&2));
    assert_eq!(trie.get("ab"), Some(&3));
    assert_eq!(trie.get("a"), None);
}

#[test]
fn split_below_hollow_node_merges_it() {
    let mut trie = Trie::new();
    trie.set("x", 1);
    trie.set("xabc", 2);
    trie.set("xabd", 3);
    assert_eq!(trie.remove("x").ok(), Some(1));
    assert_eq!(trie.size(), 4);
    assert_eq!(trie.set("xab", 4), None);
    assert_eq!(trie.size(), 4);
    assert_eq!(trie.get("xab"), Some(&4));
    assert_eq!(trie.get("xabc"), Some(&2));
    assert_eq!(trie.get("xabd"), Some(&3));
    assert_eq!(trie.get("x"), None);
}

#[test]
fn empty_key_lives_at_the_root() {
    let mut trie = Trie::new();
    assert_eq!(trie.set("", 5), None);
    assert_eq!(trie.size(), 1);
    assert_eq!(trie.get(""), Some(&5));
    trie.set("a", 6);
    assert_eq!(trie.remove("").ok(), Some(5));
    assert_eq!(trie.get(""), None);
    assert_eq!(trie.get("a"), Some(&6));
    assert!(trie.remove("").is_err());
}

#[test]
fn root_with_one_child_is_kept() {
    let mut trie = Trie::new();
    trie.set("a", 1);
    trie.set("b", 2);
    assert_eq!(trie.remove("a").ok(), Some(1));
    assert_eq!(trie.size(), 2);
    assert_eq!(trie.get("b"), Some(&2));
    assert_eq!(trie.set("c", 3), None);
    assert_eq!(trie.get("c"), Some(&3));
}

#[test]
fn get_mut_writes_through() {
    let mut trie = sample();
    match trie.get_mut("abcde") {
        Some(v) => *v = 70,
        None => panic!("abcde is present"),
    }
    assert_eq!(trie.get("abcde"), Some(&70));
    assert_eq!(trie.get("abced"), Some(&9));
    assert!(trie.get_mut("abcd").is_none());
    assert_eq!(trie.size(), 9);
}

#[test]
fn missing_key_error() {
    let mut trie: Trie<u8> = Trie::new();
    let e = trie.remove("nothing");
    assert!(matches!(e, Err(KeyNotFoundError)));
}

#[test]
fn keys_sharing_leading_bytes() {
    let mut trie = Trie::new();
    trie.set("é", 1);
    trie.set("è", 2);
    trie.set("ê", 3);
    assert_eq!(trie.size(), 4);
    assert_eq!(trie.get("é"), Some(&1));
    assert_eq!(trie.get("è"), Some(&2));
    assert_eq!(trie.get("ê"), Some(&3));
    trie.set("日本語", 4);
    trie.set("日本", 5);
    trie.set("日", 6);
    assert_eq!(trie.size(), 7);
    assert_eq!(trie.get("日本語"), Some(&4));
    assert_eq!(trie.get("日本"), Some(&5));
    assert_eq!(trie.get("日"), Some(&6));
    assert_eq!(trie.remove("日本").ok(), Some(5));
    assert_eq!(trie.size(), 6);
    assert_eq!(trie.get("日本語"), Some(&4));
    assert_eq!(trie.get("日"), Some(&6));
}

#[test]
fn split_of_a_single_leaf() {
    let mut trie = Trie::new();
    assert_eq!(trie.set("abcdef", 1), None);
    assert_eq!(trie.set("abcd", 2), None);
    assert_eq!(trie.get("abcd"), Some(&2));
    assert_eq!(trie.get("abcdef"), Some(&1));
    assert_eq!(trie.size(), 3);
}

#[test]
fn node_counts_after_small_edits() {
    let mut t = Trie::new();
    assert_eq!(t.set("", 5), None);
    assert_eq!(t.size(), 1);
    let mut t = Trie::new();
    t.set("a", 1);
    assert_eq!(t.remove("a").ok(), Some(1));
    assert_eq!(t.size(), 1);
    let mut t = Trie::new();
    t.set("a", 1);
    t.set("ab", 2);
    assert_eq!(t.remove("a").ok(), Some(1));
    assert_eq!(t.get("ab"), Some(&2));
    assert_eq!(t.size(), 2);
}
