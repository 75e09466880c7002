use upodesh::trie::Trie;

#[test]
fn test_find_matching_node() {
    let trie = Trie::from_strings(&["ক", "কখ", "কখগঘঙচছ"]);

    let n1 = trie.matching_node("ক").unwrap();

    let n2 = n1.get_matching_node("খ").unwrap();

    _ = n2.get_matching_node("গঘ").unwrap();

    _ = trie.matching_node("কখগঘ").unwrap();
}

#[test]
fn test_is_complete_word() {
    let trie = Trie::from_strings(&["ক", "কখ", "কখগঘঙচছ"]);

    let n1 = trie.matching_node("ক").unwrap();
    assert!(n1.is_complete_word());

    let n2 = n1.get_matching_node("খ").unwrap();
    assert!(n2.is_complete_word());

    let n3 = n2.get_matching_node("গঘ").unwrap();
    assert!(!n3.is_complete_word());

    let n4 = trie.matching_node("কখগঘ").unwrap();
    assert!(!n4.is_complete_word());
}

#[test]
fn test_match_prefix() {
    let trie = Trie::from_strings(&["ক", "কখগ", "কখগঘঙ", "চ", "চছজ", "চছজঝঞ", "১"]);

    assert_eq!(trie.match_prefix("ক"), vec!["কখগ", "কখগঘঙ", "ক"]);
    assert_eq!(trie.match_prefix("কখ"), vec!["কখগ", "কখগঘঙ"]);
    assert_eq!(trie.match_prefix("চছজঝঞ"), vec!["চছজঝঞ"]);
    assert_eq!(trie.match_prefix("২"), Vec::<String>::new());
    assert_eq!(trie.match_prefix(""), Vec::<String>::new());
}

#[test]
fn test_match_longest_common_prefix() {
    let trie = Trie::from_strings(&["ক", "কখগ", "কখগঘঙ", "চ", "চছজ", "চছজঝঞ", "১"]);

    assert_eq!(
        trie.match_longest_common_prefix("ক"),
        ("ক".to_string(), "".to_string(), true)
    );
    assert_eq!(
        trie.match_longest_common_prefix("ক1234"),
        ("ক".to_string(), "1234".to_string(), true)
    );
    assert_eq!(
        trie.match_longest_common_prefix("1234"),
        ("".to_string(), "1234".to_string(), false)
    );
    assert_eq!(
        trie.match_longest_common_prefix("কখগঘঙচছজঝঞ"),
        ("কখগঘঙ".to_string(), "চছজঝঞ".to_string(), true)
    );
}

#[test]
fn inserted_words_are_found_with_their_word() {
    let words = ["a", "ab", "abc", "কখ", "x"];
    let trie = Trie::from_strings(&words);
    for w in words {
        let node = trie.matching_node(w).unwrap();
        assert!(node.is_complete_word());
        assert_eq!(node.get_word(), Some(w.to_string()));
    }
    assert!(trie.matching_node("b").is_none());
    assert_eq!(trie.matching_node("abc").unwrap().get_matching_node("d").map(|n| n.pos), None);
}

#[test]
fn empty_input_has_no_prefix() {
    let trie = Trie::from_strings(&["a", "ab"]);
    assert_eq!(
        trie.match_longest_common_prefix(""),
        ("".to_string(), "".to_string(), false)
    );
    let empty = Trie::from_strings(&[]);
    assert_eq!(
        empty.match_longest_common_prefix(""),
        ("".to_string(), "".to_string(), false)
    );
}

#[test]
fn longest_stored_prefix_is_taken() {
    let trie = Trie::from_strings(&["a", "ab", "abc"]);
    assert_eq!(
        trie.match_longest_common_prefix("abcd"),
        ("abc".to_string(), "d".to_string(), true)
    );
}

#[test]
fn greedy_prefix_need_not_be_stored() {
    let trie = Trie::from_strings(&["abc"]);
    assert_eq!(
        trie.match_longest_common_prefix("abx"),
        ("ab".to_string(), "x".to_string(), false)
    );
}

#[test]
fn inserting_twice_changes_nothing() {
    let mut trie = Trie::new();
    trie.insert("কখ");
    let n = trie.nodes.len();
    trie.insert("কখ");
    assert_eq!(trie.nodes.len(), n);
    assert_eq!(trie.matching_node("কখ").unwrap().get_word(), Some("কখ".to_string()));
    assert!(!trie.matching_node("ক").unwrap().is_complete_word());
}

#[test]
fn complete_words_of_a_node() {
    let trie = Trie::from_strings(&["ab", "abc", "abd", "b"]);
    let mut found = trie.match_prefix("a");
    found.sort();
    assert_eq!(found, vec!["ab", "abc", "abd"]);
}

#[test]
fn paths_do_not_depend_on_insertion_order() {
    let a = Trie::from_strings(&["abc", "ab", "x"]);
    let b = Trie::from_strings(&["x", "ab", "abc", "ab"]);
    for q in ["", "a", "ab", "abc", "abcd", "x", "xy", "b"] {
        assert_eq!(a.matching_node(q).is_some(), b.matching_node(q).is_some());
        assert_eq!(
            a.matching_node(q).and_then(|n| n.get_word()),
            b.matching_node(q).and_then(|n| n.get_word())
        );
    }
    assert!(a.matching_node("abcd").is_none());
}

#[test]
fn match_prefix_lists_each_word_once_own_word_last() {
    let trie = Trie::from_strings(&["ab", "abc", "ab", "abd"]);
    let found = trie.match_prefix("ab");
    assert_eq!(found.len(), 3);
    assert_eq!(found.last(), Some(&"ab".to_string()));
    assert_eq!(trie.match_prefix("z"), Vec::<String>::new());
}

#[test]
fn walk_from_a_node() {
    let trie = Trie::from_strings(&["কখগ"]);
    let n = trie.walk_from(0, "ক").unwrap();
    let m = trie.walk_from(n, "খগ").unwrap();
    assert!(trie.nodes[m].is_complete_word());
    assert!(trie.walk_from(n, "গ").is_none());
}
