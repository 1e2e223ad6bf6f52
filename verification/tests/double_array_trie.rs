use datastructs::structure::double_array_trie::DoubleArrayTrie;

#[test]
fn three_words() {
    let mut trie = DoubleArrayTrie::new();
    trie.insert(b"cat", 1);
    trie.insert(b"car", 2);
    trie.insert(b"dog", 3);
    assert_eq!(Some(&1), trie.get(b"cat"));
    assert_eq!(Some(&2), trie.get(b"car"));
    assert_eq!(Some(&3), trie.get(b"dog"));
    assert!(!trie.contains(b"ca"));
    assert!(trie.contains(b"cat"));
}

#[test]
fn prefix_distinction() {
    let mut trie = DoubleArrayTrie::new();
    trie.insert(b"a", ());
    assert!(trie.contains(b"a"));
    assert!(!trie.contains(b"ab"));
}

#[test]
fn overwrite_keeps_last_value() {
    let mut trie = DoubleArrayTrie::new();
    trie.insert(b"key", 1);
    trie.insert(b"key", 2);
    assert_eq!(Some(&2), trie.get(b"key"));
    assert!(!trie.contains(b"ke"));
}

#[test]
fn relocation_keeps_existing_keys() {
    // "a" and "b" occupy the slots next to the root; the children of "a"
    // then collide with them and force the node for "a" to relocate its
    // child set.
    let mut trie = DoubleArrayTrie::new();
    trie.insert(b"a", 1);
    trie.insert(b"b", 2);
    trie.insert(b"aa", 3);
    trie.insert(b"ab", 4);
    trie.insert(b"ba", 5);
    trie.insert(b"bb", 6);
    assert_eq!(Some(&1), trie.get(b"a"));
    assert_eq!(Some(&2), trie.get(b"b"));
    assert_eq!(Some(&3), trie.get(b"aa"));
    assert_eq!(Some(&4), trie.get(b"ab"));
    assert_eq!(Some(&5), trie.get(b"ba"));
    assert_eq!(Some(&6), trie.get(b"bb"));
    assert!(!trie.contains(b"c"));
    assert!(!trie.contains(b"abc"));
}

#[test]
fn empty_key_marks_root() {
    let mut trie = DoubleArrayTrie::new();
    assert!(!trie.contains(b""));
    trie.insert(b"", 7);
    assert_eq!(Some(&7), trie.get(b""));
    assert!(!trie.contains(b"x"));
}

#[test]
fn negative_lookup() {
    let mut trie = DoubleArrayTrie::new();
    trie.insert(b"alpha", 1);
    trie.insert(b"beta", 2);
    assert_eq!(None, trie.get(b"gamma"));
    assert_eq!(None, trie.get(b"alp"));
    assert_eq!(None, trie.get(b"alphas"));
}

#[test]
fn deep_shared_prefixes() {
    let mut trie = DoubleArrayTrie::new();
    let words: &[&[u8]] = &[
        b"to", b"tea", b"ted", b"ten", b"in", b"inn", b"a", b"an", b"ant",
    ];
    for (i, w) in words.iter().enumerate() {
        trie.insert(w, i);
    }
    for (i, w) in words.iter().enumerate() {
        assert_eq!(Some(&i), trie.get(w));
    }
    assert!(!trie.contains(b"te"));
    assert!(!trie.contains(b"i"));
    assert!(!trie.contains(b"tent"));
}
