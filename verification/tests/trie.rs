use easy_trie::trie::Trie;

#[test]
fn it_should_create_a_new_trie() {
    let result = Trie::new();
    assert_eq!(result.len(), 0);
}

#[test]
fn it_should_insert_a_new_word() {
    let mut trie = Trie::new();
    trie.insert("hello");
    assert_eq!(trie.len(), 5);
}

#[test]
fn it_should_insert_multiple_words() {
    let mut trie = Trie::new();
    trie.insert("hello");
    trie.insert("world");
    assert_eq!(trie.len(), 10);
}

#[test]
fn it_should_correctly_insert_with_same_prefix() {
    let mut trie = Trie::new();
    trie.insert("hello");
    trie.insert("help");
    assert_eq!(trie.len(), 6);
}

#[test]
fn it_should_correctly_insert_with_same_prefixes() {
    let mut trie = Trie::new();
    trie.insert("hello");
    trie.insert("help");
    trie.insert("hel");
    assert_eq!(trie.len(), 6);
}

#[test]
fn it_should_contain_word() {
    let mut trie = Trie::new();
    trie.insert("hello");
    assert!(trie.contains("hello"));
}

#[test]
fn it_should_not_contain_word() {
    let mut trie = Trie::new();
    trie.insert("hello");
    assert!(!trie.contains("world"));
}

#[test]
fn it_should_not_contain_prefix() {
    let mut trie = Trie::new();
    trie.insert("hello");
    assert!(!trie.contains("hel"));
}
