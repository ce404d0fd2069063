use boggle::trie::NodeType;
use boggle::trie::Trie;

#[test]
fn valid_words_are_inserted() {
    let mut trie = Trie::new();

    assert_eq!(trie.contains("a"), None);
    assert_eq!(trie.contains("abba"), None);

    assert!(trie.insert("abba", 0));

    assert_eq!(trie.contains("a"), Some(NodeType::Prefix));
    assert_eq!(trie.contains("ab"), Some(NodeType::Prefix));
    assert_eq!(trie.contains("abb"), Some(NodeType::Prefix));
    assert_eq!(trie.contains("abba"), Some(NodeType::Word(0)));
}

#[test]
fn invalid_words_are_not_inserted() {
    let mut trie = Trie::new();

    let mut id = 0;
    for s in (0u8..b'A')
        .chain(b'['..b'a')
        .chain(b'{'..0xffu8)
        .map(|b| String::from_utf8_lossy(&[b]).into_owned())
    {
        id += 1;
        assert!(!trie.insert(&s, id));
        assert_eq!(trie.contains(&s), None);
    }
}

#[test]
fn is_case_insensitive() {
    let mut trie = Trie::new();

    trie.insert("a", 0);
    assert_eq!(trie.contains("a"), Some(NodeType::Word(0)));
    assert_eq!(trie.contains("A"), Some(NodeType::Word(0)));

    trie.insert("B", 1);
    assert_eq!(trie.contains("b"), Some(NodeType::Word(1)));
    assert_eq!(trie.contains("B"), Some(NodeType::Word(1)));
}

#[test]
fn nested_words_keep_their_ids() {
    // inserting "cat" then "cats" classifies both, and "ca" stays a prefix
    let mut trie = Trie::new();
    assert!(trie.insert("cat", 0));
    assert!(trie.insert("cats", 1));
    assert_eq!(trie.contains("cat"), Some(NodeType::Word(0)));
    assert_eq!(trie.contains("cats"), Some(NodeType::Word(1)));
    assert_eq!(trie.contains("ca"), Some(NodeType::Prefix));
    assert_eq!(trie.contains("c"), Some(NodeType::Prefix));
    assert_eq!(trie.contains("cas"), None);
}

#[test]
fn uninserted_words_are_never_words() {
    let mut trie = Trie::new();
    assert!(trie.insert("dog", 4));
    assert_eq!(trie.contains("do"), Some(NodeType::Prefix));
    assert_eq!(trie.contains("dot"), None);
    assert_eq!(trie.contains("dogs"), None);
    match trie.contains("do") {
        Some(NodeType::Word(_)) => panic!("a prefix was reported as a word"),
        _ => {},
    }
}

#[test]
fn empty_word_is_rejected() {
    let mut trie = Trie::new();
    assert!(!trie.insert("", 0));
    assert_eq!(trie.contains(""), None);
}

#[test]
fn reinsertion_overwrites_the_id() {
    let mut trie = Trie::new();
    assert!(trie.insert("axe", 3));
    assert!(trie.insert("axe", 9));
    assert_eq!(trie.contains("axe"), Some(NodeType::Word(9)));
}

#[test]
fn iterator_walks_present_children_ascending() {
    let mut trie = Trie::new();
    trie.insert("cab", 0);
    trie.insert("abs", 1);
    trie.insert("tar", 2);
    let mut letters: Vec<u8> = Vec::new();
    let mut it = trie.iter();
    while let Some((_, l)) = it.next() {
        letters.push(l);
    }
    // a, c, t in ascending letter order
    assert_eq!(letters, vec![0u8, 2u8, 19u8]);
}
