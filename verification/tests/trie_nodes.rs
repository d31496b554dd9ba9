use prefix_trie::trie::trie_node::TrieNode;

#[test]
fn new_node_carries_its_character() {
    let node = TrieNode::new('a', true);
    assert_eq!(node.value, Some('a'));
    assert!(node.is_final);
    assert!(node.child_nodes.is_empty());

    let inner = TrieNode::new('b', false);
    assert_eq!(inner.value, Some('b'));
    assert!(!inner.is_final);
}

#[test]
fn root_node_carries_no_character() {
    let root = TrieNode::new_root();
    assert_eq!(root.value, None);
    assert!(!root.is_final);
    assert!(root.child_nodes.is_empty());
}

#[test]
fn equals_compares_the_character() {
    let node = TrieNode::new('a', false);
    assert!(node.equals('a'));
    assert!(!node.equals('b'));
    assert!(!node.equals('A'));
}

#[test]
fn root_equals_no_character() {
    let root = TrieNode::new_root();
    assert!(!root.equals('a'));
    assert!(!root.equals('\0'));
}

#[test]
fn insert_value_appends_a_child() {
    let mut root = TrieNode::new_root();
    root.insert_value('x', false);
    root.insert_value('y', true);
    assert_eq!(root.child_nodes.len(), 2);
    assert_eq!(root.child_nodes[0].value, Some('x'));
    assert!(!root.child_nodes[0].is_final);
    assert_eq!(root.child_nodes[1].value, Some('y'));
    assert!(root.child_nodes[1].is_final);
    assert_eq!(root.value, None);
    assert!(!root.is_final);
}

#[test]
fn insert_value_replaces_the_child_with_the_same_key() {
    let mut root = TrieNode::new_root();
    root.insert_value('x', false);
    root.insert_value('y', false);
    root.child_nodes[0].insert_value('z', true);
    assert_eq!(root.child_nodes[0].child_nodes.len(), 1);

    root.insert_value('x', true);
    assert_eq!(root.child_nodes.len(), 2);
    assert_eq!(root.child_nodes[0].value, Some('x'));
    assert!(root.child_nodes[0].is_final);
    assert!(root.child_nodes[0].child_nodes.is_empty());
    assert_eq!(root.child_nodes[1].value, Some('y'));
}

#[test]
fn find_child_gives_the_index_of_the_key() {
    let mut root = TrieNode::new_root();
    assert_eq!(root.find_child('a'), None);
    root.insert_value('a', false);
    root.insert_value('b', false);
    root.insert_value('c', false);
    assert_eq!(root.find_child('a'), Some(0));
    assert_eq!(root.find_child('b'), Some(1));
    assert_eq!(root.find_child('c'), Some(2));
    assert_eq!(root.find_child('d'), None);
}
