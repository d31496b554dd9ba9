use prefix_trie::trie::trie_structure::Trie;

fn trie_of(words: &[&str]) -> Trie {
    let mut trie = Trie::create();
    for word in words {
        trie.insert(word);
    }
    trie
}

#[test]
fn empty_trie_holds_no_word() {
    let trie = Trie::create();
    for query in ["a", "hello", "z", "ab", "日本"] {
        assert!(!trie.contains(query));
    }
}

#[test]
fn empty_query_is_never_found() {
    let mut trie = Trie::create();
    assert!(!trie.contains(""));
    trie.insert("a");
    assert!(!trie.contains(""));
}

#[test]
fn inserting_the_empty_word_changes_nothing() {
    let mut trie = trie_of(&["hi"]);
    let before = trie.visualize();
    trie.insert("");
    assert!(!trie.contains(""));
    assert!(trie.contains("hi"));
    assert_eq!(trie.visualize(), before);

    let mut fresh = Trie::create();
    fresh.insert("");
    assert!(!fresh.contains(""));
    assert_eq!(fresh.visualize(), " (Root)\n");
}

#[test]
fn single_character_word() {
    let mut trie = Trie::create();
    assert!(!trie.contains("a"));
    trie.insert("a");
    assert!(trie.contains("a"));
    assert!(!trie.contains("b"));
    assert!(!trie.contains("aa"));
}

#[test]
fn inserted_word_is_found() {
    let mut trie = Trie::create();
    trie.insert("achille");
    assert!(trie.contains("achille"));
    assert!(!trie.contains("achill"));
    assert!(!trie.contains("achilles"));
}

#[test]
fn prefix_is_not_a_word_until_inserted() {
    let mut trie = Trie::create();
    trie.insert("apple");
    assert!(!trie.contains("app"));
    assert!(trie.contains("apple"));
    trie.insert("app");
    assert!(trie.contains("app"));
    assert!(trie.contains("apple"));
}

#[test]
fn longer_word_does_not_disturb_its_prefix() {
    let mut trie = Trie::create();
    trie.insert("app");
    trie.insert("apple");
    assert!(trie.contains("app"));
    assert!(trie.contains("apple"));
    assert!(!trie.contains("appl"));
    assert!(!trie.contains("a"));
}

#[test]
fn overlapping_words_share_their_prefix() {
    let trie = trie_of(&["hello", "help"]);
    assert!(trie.contains("hello"));
    assert!(trie.contains("help"));
    assert!(!trie.contains("hel"));
    assert!(!trie.contains("hell"));
    // One line per node: the root, h, e, l shared, then l, o and p.
    let text = trie.visualize();
    assert_eq!(text.lines().count(), 7);
    assert_eq!(
        text,
        concat_lines(&[
            " (Root)",
            "└─  h",
            "   └─  e",
            "      └─  l",
            "         ├─│ l",
            "         │  └─  o",
            "         └─  p",
        ])
    );
}

fn concat_lines(lines: &[&str]) -> String {
    let mut text = String::new();
    for line in lines {
        text.push_str(line);
        text.push('\n');
    }
    text
}

#[test]
fn hello_world_hi() {
    let trie = trie_of(&["hello", "world", "hi"]);
    assert!(trie.contains("hello"));
    assert!(!trie.contains("hel"));
    assert!(trie.contains("hi"));
    assert!(trie.contains("world"));
    assert!(!trie.contains("wor"));
}

#[test]
fn inserting_twice_is_inserting_once() {
    let once = trie_of(&["hello", "help", "hi"]);
    let twice = trie_of(&["hello", "help", "hi", "help"]);
    for query in ["", "h", "he", "hel", "hell", "hello", "help", "hi", "hip", "x", "helpp"] {
        assert_eq!(once.contains(query), twice.contains(query));
    }
    assert_eq!(once.visualize(), twice.visualize());
}

#[test]
fn membership_does_not_depend_on_order() {
    let words = ["car", "cart", "cat", "dog", "do", "c"];
    let forward = trie_of(&words);
    let backward = trie_of(&["c", "do", "dog", "cat", "cart", "car"]);
    let queries = [
        "", "c", "ca", "car", "cart", "carts", "cat", "d", "do", "dog", "dogs", "x", "cap",
    ];
    for query in queries {
        let expected = !query.is_empty() && words.contains(&query);
        assert_eq!(forward.contains(query), expected);
        assert_eq!(backward.contains(query), expected);
    }
}

#[test]
fn words_with_no_common_prefix() {
    let trie = trie_of(&["ab", "cd"]);
    assert!(trie.contains("ab"));
    assert!(trie.contains("cd"));
    assert!(!trie.contains("ad"));
    assert!(!trie.contains("cb"));
}

#[test]
fn characters_beyond_ascii_are_single_keys() {
    let trie = trie_of(&["日本", "日本語", "été"]);
    assert!(trie.contains("日本"));
    assert!(trie.contains("日本語"));
    assert!(trie.contains("été"));
    assert!(!trie.contains("日"));
    assert!(!trie.contains("ete"));
    assert!(!trie.contains("ét"));
}

#[test]
fn case_is_not_folded() {
    let trie = trie_of(&["Hello"]);
    assert!(trie.contains("Hello"));
    assert!(!trie.contains("hello"));
}

#[test]
fn a_long_word_is_stored_whole() {
    let word: String = std::iter::repeat('a').take(2000).collect();
    let mut trie = Trie::create();
    trie.insert(&word);
    assert!(trie.contains(&word));
    assert!(!trie.contains(&word[..1999]));
}
