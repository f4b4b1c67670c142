use data_structures::linked_list::LinkedList;

#[test]
fn linked_list_test_len() {
    let list = LinkedList::<usize>::new();
    assert_eq!(list.len(), 0);
}

#[test]
fn linked_list_test_len2() {
    let mut list = LinkedList::new();
    list.append(1);
    list.append(1);
    assert_eq!(list.len(), 2);
}

#[test]
fn linked_list_test_get_head_none() {
    let list = LinkedList::<usize>::new();
    assert_eq!(list.get_head(), None);
}

#[test]
fn linked_list_test_get_head() {
    let mut list = LinkedList::new();
    list.append(1);
    assert_eq!(list.get_head(), Some(1));
}

#[test]
fn linked_list_test_get_tail_none() {
    let list = LinkedList::<usize>::new();
    assert_eq!(list.get_tail(), None);
}

#[test]
fn linked_list_test_get_tail() {
    let mut list = LinkedList::new();
    list.append(1);
    list.append(2);
    assert_eq!(list.get_tail(), Some(2));
}

#[test]
fn linked_list_test_append() {
    let mut list = LinkedList::new();
    list.append(1);
    assert_eq!(list.get_head(), Some(1));
}

#[test]
fn linked_list_keeps_order() {
    let mut list = LinkedList::new();
    for v in [5u8, 6, 7, 8] {
        list.append(v);
    }
    assert_eq!(list.len(), 4);
    assert_eq!(list.get_head(), Some(5));
    assert_eq!(list.get_tail(), Some(8));
}
