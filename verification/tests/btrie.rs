use rust_utils::BTrieMap;

#[test]
fn test_insert_and_contains() {
    let mut trie = BTrieMap::new();
    trie.insert("dog".as_bytes(), true);
    assert!(trie.contains("dog".as_bytes()));
    assert!(!trie.contains("dog ".as_bytes()));
}

#[test]
fn test_insert_and_get() {
    let mut trie = BTrieMap::new();
    trie.insert("dog".as_bytes(), true);
    assert_eq!(Some(&true), trie.get("dog".as_bytes()));
    assert_eq!(None, trie.get("dog ".as_bytes()));
}

#[test]
fn test_get_with_prefix() {
    let mut trie = BTrieMap::new();
    trie.insert("dog".as_bytes(), true);
    trie.insert("deer".as_bytes(), true);
    trie.insert("deal".as_bytes(), false);
    assert_eq!(vec![&false, &true], trie.get_with_prefix("de".as_bytes()));
}

#[test]
fn test_insert_overwrites() {
    let mut trie = BTrieMap::new();
    trie.insert("dog".as_bytes(), 1u32);
    trie.insert("dog".as_bytes(), 2u32);
    assert_eq!(Some(&2), trie.get("dog".as_bytes()));
    assert_eq!(vec![&2], trie.get_with_prefix("dog".as_bytes()));
}

#[test]
fn test_get_with_empty_prefix_ascending() {
    let mut trie = BTrieMap::new();
    trie.insert("b".as_bytes(), 2u32);
    trie.insert("a".as_bytes(), 1u32);
    trie.insert("c".as_bytes(), 3u32);
    trie.insert("ab".as_bytes(), 4u32);
    // every value, in ascending key order: "a", "ab", "b", "c"
    assert_eq!(vec![&1, &4, &2, &3], trie.get_with_prefix("".as_bytes()));
}

#[test]
fn test_prefix_not_present() {
    let mut trie: BTrieMap<u8, bool> = BTrieMap::new();
    trie.insert("dog".as_bytes(), true);
    let empty: Vec<&bool> = Vec::new();
    assert_eq!(empty, trie.get_with_prefix("cat".as_bytes()));
    assert!(!trie.contains("do".as_bytes()));
    assert_eq!(None, trie.get("do".as_bytes()));
}
