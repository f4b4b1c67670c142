use data_structures::trie::get_digit;
use data_structures::trie::is_lower_alphabet;
use data_structures::trie::Trie;

#[test]
fn test_get_digit() {
    assert_eq!(get_digit('a'), Some(0));
    assert_eq!(get_digit('z'), Some(25));
    assert_eq!(get_digit('-'), None);
}

#[test]
fn test_is_lower_alphabet() {
    assert!(is_lower_alphabet("helloworld"));
    assert!(!is_lower_alphabet("HelloWorld"));
}

#[test]
fn test_is_leaf() {
    let mut trie = Trie::new();
    assert!(trie.root.is_leaf());

    trie.insert("a");
    assert!(!trie.root.is_leaf());
}

#[test]
fn test_get_node() {
    let mut trie = Trie::new();
    assert!(trie.root.is_leaf());

    trie.insert("hello");
    assert!(trie.get_node("hel").is_some());
    assert!(trie.get_node("hello").is_some());
    assert!(trie.get_node("abc").is_none());
}

#[test]
fn test_trie() {
    let mut trie = Trie::new();

    trie.insert("hello");
    trie.insert("world");
    assert!(trie.search("hello"));
    assert!(!trie.search("hi"));
}

#[test]
fn test_trie2() {
    let mut trie = Trie::new();
    trie.insert("there");
    trie.insert("their");

    assert!(trie.search("their"));
    assert!(!trie.search("thei"));
}

#[test]
fn test_add_existing_node() {
    let mut trie = Trie::new();
    trie.insert("there");
    trie.insert("the");

    assert!(trie.search("there"));
}

#[test]
fn test_delete() {
    let mut trie = Trie::new();
    trie.insert("the");

    trie.delete("the");
    assert!(!trie.search("the"));
    assert!(trie.root.is_leaf());
}

#[test]
fn test_delete_mid() {
    let mut trie = Trie::new();
    trie.insert("there");
    trie.insert("the");
    trie.delete("the");

    assert!(!trie.search("the"));
    assert!(trie.search("there"));
}

#[test]
fn test_delete_leaf() {
    let mut trie = Trie::new();
    trie.insert("there");
    trie.insert("the");
    trie.delete("there");

    assert!(!trie.search("there"));
    assert!(trie.search("the"));
    assert!(trie.get_node("the").unwrap().is_leaf());
}

#[test]
fn digit_edges() {
    assert_eq!(get_digit('b'), Some(1));
    assert_eq!(get_digit('`'), None);
    assert_eq!(get_digit('{'), None);
    assert_eq!(get_digit('A'), None);
    assert!(is_lower_alphabet(""));
    assert!(!is_lower_alphabet("abc1"));
}

#[test]
fn empty_word_and_absent_deletes() {
    let mut trie = Trie::new();
    assert!(!trie.search(""));
    trie.insert("");
    assert!(trie.search(""));
    trie.insert("ab");
    trie.delete("abc");
    trie.delete("x");
    assert!(trie.search("ab"));
    trie.delete("");
    assert!(!trie.search(""));
    assert!(trie.search("ab"));
}

#[test]
fn node_delete_reports_pruning() {
    let mut trie = Trie::new();
    trie.insert("ab");
    assert!(trie.root.delete("ab"));
    assert!(trie.root.is_leaf());
    trie.insert("ab");
    trie.insert("a");
    assert!(!trie.root.delete("ab"));
    assert!(trie.root.search("a"));
    assert!(!trie.root.delete("zz"));
}
