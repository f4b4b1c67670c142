use data_structures::searchable_list::LinkedList;

#[test]
fn original_test_len() {
    let list = LinkedList::<usize>::new();
    assert_eq!(list.len(), 0);
}

#[test]
fn original_test_len2() {
    let mut list = LinkedList::new();
    list.append(1);
    list.append(1);
    assert_eq!(list.len(), 2);
}

#[test]
fn original_test_get_head_none() {
    let list = LinkedList::<usize>::new();
    assert_eq!(list.get_head(), None);
}

#[test]
fn original_test_get_head() {
    let mut list = LinkedList::new();
    list.append(1);
    assert_eq!(list.get_head(), Some(1));
}

#[test]
fn original_test_get_tail_none() {
    let list = LinkedList::<usize>::new();
    assert_eq!(list.get_tail(), None);
}

#[test]
fn original_test_get_tail() {
    let mut list = LinkedList::new();
    list.append(1);
    list.append(2);
    assert_eq!(list.get_tail(), Some(2));
}

#[test]
fn original_test_append() {
    let mut list = LinkedList::new();
    list.append(1);
    assert_eq!(list.get_head(), Some(1));
}

#[test]
fn test_contains_success() {
    let mut list = LinkedList::new();
    list.append(1);
    list.append(2);
    list.append(3);
    list.append(6);
    assert!(list.contains(6));
}

#[test]
fn test_contains_fail() {
    let mut list = LinkedList::new();
    list.append(1);
    list.append(2);
    list.append(3);
    list.append(6);
    assert!(!list.contains(5));
}

#[test]
fn delete_removes_first_match_only() {
    let mut list = LinkedList::new();
    for v in [1, 2, 1, 3] {
        list.append(v);
    }
    list.delete(1);
    assert_eq!(list.len(), 3);
    assert_eq!(list.get_head(), Some(2));
    assert!(list.contains(1));
    list.delete(1);
    assert!(!list.contains(1));
    assert_eq!(list.len(), 2);
    assert_eq!(list.get_tail(), Some(3));
}

#[test]
fn delete_of_absent_item_changes_nothing() {
    let mut list = LinkedList::new();
    list.append(4);
    list.append(5);
    list.delete(9);
    assert_eq!(list.len(), 2);
    assert_eq!(list.get_head(), Some(4));
    assert_eq!(list.get_tail(), Some(5));
}

#[test]
fn delete_of_last_item_moves_tail() {
    let mut list = LinkedList::new();
    list.append(4);
    list.append(5);
    list.delete(5);
    assert_eq!(list.get_tail(), Some(4));
    list.delete(4);
    assert_eq!(list.len(), 0);
    assert_eq!(list.get_head(), None);
    assert_eq!(list.get_tail(), None);
}
