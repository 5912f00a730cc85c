use flight_cone::textsearch::{PrefixTrieBuilder, SearchIndex};

fn names(found: Vec<(String, &())>) -> Vec<String> {
    found.into_iter().map(|x| x.0).collect()
}

#[test]
fn test_prefix_trie_search() {
    let words = vec![
        "Hello", "helium", "hero", "her", "abba", "aber", "alla", "all",
    ];
    let mut prefix_trie_builder = PrefixTrieBuilder::new();
    for word in &words {
        prefix_trie_builder.insert(word, ());
    }
    let trie = prefix_trie_builder.finalize();

    assert!(trie.search("Hello"));
    assert!(trie.search("helium"));
    assert!(!trie.search("helicopter"));
    assert!(trie.search("her"));
    assert!(!trie.search("he"));
    assert!(trie.search("abba"));
    assert!(!trie.search("abc"));
}

#[test]
fn test_prefix_trie_continuations() {
    let words = vec![
        "hello", "helium", "hero", "her", "abba", "aber", "alla", "all",
    ];
    let mut prefix_trie_builder = PrefixTrieBuilder::new();
    for word in &words {
        prefix_trie_builder.insert(word, ());
    }
    let trie = prefix_trie_builder.finalize();

    assert_eq!(
        names(trie.continuations("he")),
        vec!["her", "hero", "hello", "helium"]
    );
}

#[test]
fn test_prefix_trie_exact_edit_distance_stack() {
    let words = vec!["hero"];
    let mut prefix_trie_builder = PrefixTrieBuilder::new();
    for word in &words {
        prefix_trie_builder.insert(word, ());
    }
    let trie = prefix_trie_builder.finalize();

    assert_eq!(
        names(trie.find_with_exact_edit_distance_stack("her", 1, false)),
        vec!["hero".to_string()]
    );

    assert_eq!(
        names(trie.find_with_exact_edit_distance_stack("her", 2, false)),
        Vec::<String>::new()
    );
}

#[test]
fn test_prefix_trie_exact_edit_distance_stack_2() {
    let words = vec!["aber"];
    let mut prefix_trie_builder = PrefixTrieBuilder::new();
    for word in &words {
        prefix_trie_builder.insert(word, ());
    }
    let trie = prefix_trie_builder.finalize();

    assert_eq!(
        names(trie.find_with_exact_edit_distance_stack("her", 2, false)),
        vec!["aber".to_string()]
    );
}

#[test]
fn test_prefix_trie_max_edit_distance() {
    let words = vec![
        "hello", "helium", "hero", "her", "abba", "aber", "alla", "all",
    ];
    let mut prefix_trie_builder = PrefixTrieBuilder::new();
    for word in &words {
        prefix_trie_builder.insert(word, ());
    }
    let trie = prefix_trie_builder.finalize();

    assert_eq!(
        names(trie.find_with_max_edit_distance("her", 2, false)),
        vec!["her".to_string(), "hero".to_string(), "aber".to_string(),]
    );
}

#[test]
fn test_prefix_trie_max_edit_distance_with_continuation() {
    let words = vec![
        "hello", "helium", "hero", "her", "abba", "aber", "alla", "all",
    ];
    let mut prefix_trie_builder = PrefixTrieBuilder::new();
    for word in &words {
        prefix_trie_builder.insert(word, ());
    }
    let trie = prefix_trie_builder.finalize();

    assert_eq!(
        names(trie.find_with_max_edit_distance("hello", 2, true)),
        vec!["hello".to_string(), "helium".to_string(), "hero".to_string()]
    );
}

#[test]
fn test_search_index_continuations() {
    let words = vec![
        "hello", "helium", "hero", "her", "abba", "aber", "alla", "all",
    ];
    let mut index_builder = SearchIndex::new();
    for word in &words {
        index_builder.insert(word, word.chars().rev().collect::<String>());
    }
    let index = index_builder.finalize();

    assert_eq!(
        index.continuations("he"),
        vec![
            &"reh".to_string(),
            &"oreh".to_string(),
            &"olleh".to_string(),
            &"muileh".to_string()
        ]
    );
}

#[test]
fn trie_items_filed_under_same_word_come_together() {
    let mut builder = PrefixTrieBuilder::new();
    builder.insert("alp", 1u32);
    builder.insert("alp", 2u32);
    builder.insert("alpe", 3u32);
    let trie = builder.finalize();
    let found: Vec<(String, u32)> = trie
        .continuations("al")
        .into_iter()
        .map(|(s, i)| (s, *i))
        .collect();
    assert_eq!(
        found,
        vec![
            ("alp".to_string(), 1),
            ("alp".to_string(), 2),
            ("alpe".to_string(), 3)
        ]
    );
}

#[test]
fn trie_empty_and_missing_prefix() {
    let builder: PrefixTrieBuilder<()> = PrefixTrieBuilder::new();
    assert_eq!(builder.total_nodes(), 1);
    let trie = builder.finalize();
    assert!(!trie.search(""));
    assert!(trie.continuations("x").is_empty());
    assert!(trie.find_with_max_edit_distance("abc", 1, false).is_empty());
}

#[test]
fn search_index_edit_distance_returns_items() {
    let mut index_builder = SearchIndex::new();
    index_builder.insert("zermatt", 7u32);
    index_builder.insert("zurich", 8u32);
    let index = index_builder.finalize();
    let found: Vec<(String, u32)> = index
        .find_with_max_edit_distance("zermat", 1, false)
        .into_iter()
        .map(|(s, i)| (s, *i))
        .collect();
    assert_eq!(found, vec![("zermatt".to_string(), 7)]);
}

#[test]
fn trie_children_come_largest_subtree_first() {
    let mut builder = PrefixTrieBuilder::new();
    builder.insert("ab", ());
    builder.insert("ac", ());
    builder.insert("acd", ());
    let trie = builder.finalize();
    assert_eq!(names(trie.continuations("a")), vec!["ac", "ab", "acd"]);
}

#[test]
fn trie_insert_adds_one_node_per_new_prefix() {
    let mut builder = PrefixTrieBuilder::new();
    assert_eq!(builder.total_nodes(), 1);
    builder.insert("her", ());
    assert_eq!(builder.total_nodes(), 4);
    builder.insert("hero", ());
    assert_eq!(builder.total_nodes(), 5);
    builder.insert("he", ());
    assert_eq!(builder.total_nodes(), 5);
}

#[test]
fn exact_round_with_continuations_finds_nearest_prefix_once() {
    let mut builder = PrefixTrieBuilder::new();
    for word in ["hello", "helium", "hero", "her"] {
        builder.insert(word, ());
    }
    let trie = builder.finalize();
    assert_eq!(names(trie.find_with_exact_edit_distance_stack("hel", 0, true)), vec!["helium", "hello"]);
    assert_eq!(names(trie.find_with_exact_edit_distance_stack("hel", 1, true)), vec!["her", "hero"]);
}
