use prefix_trie::trie::trie_structure::Trie;

#[test]
fn empty_trie_renders_the_root_line() {
    let trie = Trie::create();
    assert_eq!(trie.visualize(), " (Root)\n");
}

#[test]
fn chain_of_single_children_uses_corners() {
    let mut trie = Trie::create();
    trie.insert("a");
    trie.insert("ab");
    assert_eq!(trie.visualize(), " (Root)\n└─  a\n   └─  b\n");
}

#[test]
fn siblings_are_rendered_in_insertion_order() {
    let mut trie = Trie::create();
    trie.insert("b");
    trie.insert("a");
    trie.insert("c");
    assert_eq!(trie.visualize(), " (Root)\n├─│ b\n├─│ a\n└─  c\n");
}

#[test]
fn continuation_bar_runs_below_a_child_that_is_not_last() {
    let mut trie = Trie::create();
    trie.insert("ab");
    trie.insert("ac");
    trie.insert("d");
    let expected = [
        " (Root)\n",
        "├─│ a\n",
        "│  ├─│ b\n",
        "│  └─  c\n",
        "└─  d\n",
    ]
    .concat();
    assert_eq!(trie.visualize(), expected);
}

#[test]
fn prefixes_accumulate_level_by_level() {
    let mut trie = Trie::create();
    trie.insert("abc");
    trie.insert("abd");
    trie.insert("ae");
    trie.insert("f");
    let expected = [
        " (Root)\n",
        "├─│ a\n",
        "│  ├─│ b\n",
        "│  │  ├─│ c\n",
        "│  │  └─  d\n",
        "│  └─  e\n",
        "└─  f\n",
    ]
    .concat();
    assert_eq!(trie.visualize(), expected);
}

#[test]
fn rendering_has_one_line_per_node() {
    let mut trie = Trie::create();
    trie.insert("hello");
    trie.insert("world");
    trie.insert("hi");
    let text = trie.visualize();
    // The root, then h-e-l-l-o, w-o-r-l-d and the i below h.
    assert_eq!(text.lines().count(), 12);
    assert!(text.ends_with('\n'));
    assert_eq!(text.lines().next(), Some(" (Root)"));
}

#[test]
fn rendering_shows_the_character_of_each_node() {
    let mut trie = Trie::create();
    trie.insert("é");
    assert_eq!(trie.visualize(), " (Root)\n└─  é\n");
}

#[test]
fn rendering_twice_gives_the_same_text() {
    let mut trie = Trie::create();
    trie.insert("one");
    trie.insert("two");
    assert_eq!(trie.visualize(), trie.visualize());
}

#[test]
fn final_mark_does_not_show_in_the_rendering() {
    let mut with_prefix = Trie::create();
    with_prefix.insert("ab");
    with_prefix.insert("a");
    let mut without = Trie::create();
    without.insert("ab");
    assert_eq!(with_prefix.visualize(), without.visualize());
}
