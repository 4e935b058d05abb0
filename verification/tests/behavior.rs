use easy_trie::trie::Trie;
use easy_trie::trie_node::TrieNode;

#[test]
fn inserted_words_are_contained() {
    let mut trie = Trie::new();
    trie.insert("hello");
    trie.insert("help");
    trie.insert("world");
    assert!(trie.contains("hello"));
    assert!(trie.contains("help"));
    assert!(trie.contains("world"));
}

#[test]
fn strict_prefixes_are_not_contained() {
    let mut trie = Trie::new();
    trie.insert("hello");
    assert!(!trie.contains(""));
    assert!(!trie.contains("h"));
    assert!(!trie.contains("he"));
    assert!(!trie.contains("hel"));
    assert!(!trie.contains("hell"));
    assert!(trie.contains("hello"));
}

#[test]
fn inserting_twice_changes_nothing() {
    let mut trie = Trie::new();
    trie.insert("hello");
    let len_once = trie.len();
    trie.insert("hello");
    assert_eq!(trie.len(), len_once);
    assert_eq!(trie.len(), 5);
    assert!(trie.contains("hello"));
    assert!(!trie.contains("hell"));
}

#[test]
fn empty_trie_contains_nothing() {
    let trie = Trie::new();
    assert_eq!(trie.len(), 0);
    assert!(!trie.contains(""));
    assert!(!trie.contains("anything"));
}

#[test]
fn empty_word_can_be_inserted() {
    let mut trie = Trie::new();
    trie.insert("");
    assert!(trie.contains(""));
    assert_eq!(trie.len(), 0);
    assert!(!trie.contains("a"));
}

#[test]
fn non_ascii_words_are_accepted() {
    let mut trie = Trie::new();
    trie.insert("héllo");
    assert!(trie.contains("héllo"));
    assert!(!trie.contains("hello"));
    assert_eq!(trie.len(), 5);
}

#[test]
fn shared_and_disjoint_prefixes_count_nodes() {
    let mut trie = Trie::new();
    trie.insert("hello");
    trie.insert("help");
    trie.insert("world");
    assert_eq!(trie.len(), 11);
}

#[test]
fn suggestions_carry_the_prefix_through_the_path() {
    // The suggested word extends the prefix with the path characters; a
    // suggestion that came back as the bare prefix would be wrong.
    let mut node = TrieNode::default();
    let mut child = TrieNode::default();
    child.is_end_of_word = true;
    node.children.push(('b', child));
    let words = node.get_suggestions("a");
    assert_eq!(words, vec!["ab"]);
}

#[test]
fn suggestions_reproduce_the_same_suffixes_for_any_prefix() {
    let mut node = TrieNode::default();
    let mut inner = TrieNode::default();
    inner.is_end_of_word = true;
    let mut mid = TrieNode::default();
    mid.is_end_of_word = true;
    mid.children.push(('c', inner));
    node.children.push(('b', mid));
    let from_x = node.get_suggestions("x");
    let from_yz = node.get_suggestions("yz");
    assert_eq!(from_x.len(), from_yz.len());
    for suffix in ["b", "bc"] {
        assert!(from_x.contains(&format!("x{suffix}")));
        assert!(from_yz.contains(&format!("yz{suffix}")));
    }
}

#[test]
fn suggestions_include_the_node_itself_when_it_ends_a_word() {
    let mut node = TrieNode::default();
    node.is_end_of_word = true;
    let mut child = TrieNode::default();
    child.is_end_of_word = true;
    node.children.push(('a', child));
    let words = node.get_suggestions("pre");
    assert!(words.contains(&"pre".to_string()));
    assert!(words.contains(&"prea".to_string()));
    assert_eq!(words.len(), 2);
}

#[test]
fn node_len_counts_every_descendant() {
    let mut grandchild = TrieNode::default();
    grandchild.is_end_of_word = true;
    let mut child = TrieNode::default();
    child.children.push(('y', grandchild));
    let mut node = TrieNode::default();
    node.children.push(('x', child));
    node.children.push(('z', TrieNode::default()));
    assert_eq!(node.len(), 3);
}
