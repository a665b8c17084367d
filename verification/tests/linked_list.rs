use algokit::data_structures::linked_list::{DoublyLinkedList, Node};

#[test]
fn create_node() {
    let node: Node<i32> = Node::new(1);
    assert_eq!(node.prev, None);
    assert_eq!(node.next, None);
    assert_eq!(node.key, 1);
}

#[test]
fn create_linked_list() {
    let list: DoublyLinkedList<i32> = DoublyLinkedList::new();
    assert_eq!(list.tail, None);
    assert_eq!(list.head, None);
    assert_eq!(list.length, 0);
}

#[test]
fn insert_at_head_empty() {
    let mut list: DoublyLinkedList<i32> = DoublyLinkedList::new();

    list.insert_at_head(0);

    assert_eq!(list.length, 1);

    // ensures that both the head and tail are the same as the new node when
    // the list is empty at the time of insertion
    assert_eq!(list.head.as_ref().unwrap().key, 0);
    assert_eq!(list.tail.as_ref().unwrap().key, 0);

    // ensures that both prev and next pointers point to None in the case of
    // only one item in the list
    assert!(list.head.as_ref().unwrap().prev.is_none());
    assert!(list.tail.as_ref().unwrap().next.is_none());
}

#[test]
fn insert_at_head_not_empty() {
    let mut list: DoublyLinkedList<i32> = DoublyLinkedList::new();

    list.insert_at_head(0);
    list.insert_at_head(1);

    assert_eq!(list.length, 2);

    assert_eq!(list.head.as_ref().unwrap().key, 1);
    assert_eq!(list.tail.as_ref().unwrap().key, 0);

    // ensures that the prev pointer of a head is None (it'll allway be),
    // even with more than one node in the list
    assert!(list.head.as_ref().unwrap().prev.is_none());

    // ensures that the next and prev pointers of the head node points to the right nodes
    assert_eq!(list.head.as_ref().unwrap().next.as_ref().unwrap().key, 0);
    assert_eq!(list.head.as_ref().unwrap().prev.as_ref(), None);
}

#[test]
fn insert_at_tail_empty() {
    let mut list: DoublyLinkedList<i32> = DoublyLinkedList::new();

    list.insert_at_tail(0);

    assert_eq!(list.length, 1);

    // ensures that both the head and tail are the same as the new node when
    // the list is empty at the time of insertion
    assert_eq!(list.head.as_ref().unwrap().key, 0);
    assert_eq!(list.tail.as_ref().unwrap().key, 0);

    // ensures that both prev and next pointers point to None in the case of
    // only one item in the list
    assert!(list.head.as_ref().unwrap().prev.is_none());
    assert!(list.tail.as_ref().unwrap().next.is_none());
}

#[test]
fn insert_at_tail_not_empty() {
    let mut list: DoublyLinkedList<i32> = DoublyLinkedList::new();

    list.insert_at_tail(0);
    list.insert_at_tail(1);

    assert_eq!(list.length, 2);

    assert_eq!(list.head.as_ref().unwrap().key, 0);
    assert_eq!(list.tail.as_ref().unwrap().key, 1);

    // ensures that the prev pointer of the tail node points to the right previous node
    assert_eq!(list.tail.as_ref().unwrap().prev.as_ref().unwrap().key, 0);
    assert_eq!(list.tail.as_ref().unwrap().next.as_ref(), None);
}

#[test]
fn delete_one_at_head() {
    let mut list: DoublyLinkedList<i32> = DoublyLinkedList::new();
    list.insert_at_head(0);

    assert_eq!(list.length, 1);

    list.delete_head();

    assert_eq!(list.length, 0);
    assert_eq!(list.head, None);
    assert_eq!(list.tail, None);
}

#[test]
fn delete_one_at_tail() {
    let mut list: DoublyLinkedList<i32> = DoublyLinkedList::new();
    list.insert_at_head(0);

    assert_eq!(list.length, 1);

    list.delete_tail();

    assert_eq!(list.length, 0);
    assert_eq!(list.head, None);
    assert_eq!(list.tail, None);
}

#[test]
fn delete_head_empty_list() {
    let mut list: DoublyLinkedList<i32> = DoublyLinkedList::new();
    let res = list.delete_head();
    let expected = None;
    assert_eq!(res, expected)
}

#[test]
fn delete_tail_empty_list() {
    let mut list: DoublyLinkedList<i32> = DoublyLinkedList::new();
    let res = list.delete_tail();
    let expected = None;
    assert_eq!(res, expected)
}

#[test]
fn delete_many_at_head() {
    let mut list: DoublyLinkedList<i32> = DoublyLinkedList::new();

    list.insert_at_head(0);
    list.insert_at_head(1);
    list.insert_at_head(2);
    list.insert_at_head(3);

    list.delete_head();
    list.delete_head();

    assert_eq!(list.length, 2);

    // ensures that the head and tail pointes had the correct nodes
    assert_eq!(list.head.as_ref().unwrap().key, 1);
    assert_eq!(list.tail.as_ref().unwrap().key, 0);
}

#[test]
fn delete_many_at_tail() {
    let mut list: DoublyLinkedList<i32> = DoublyLinkedList::new();

    list.insert_at_tail(0);
    list.insert_at_tail(1);
    list.insert_at_tail(2);
    list.insert_at_tail(3);

    list.delete_tail();
    list.delete_tail();

    assert_eq!(list.length, 2);

    // ensures that the head and tail pointes had the correct nodes
    assert_eq!(list.head.as_ref().unwrap().key, 0);
    assert_eq!(list.tail.as_ref().unwrap().key, 1);
}

#[test]
fn searched_key_dont_exit() {
    let mut list: DoublyLinkedList<i32> = DoublyLinkedList::new();

    list.insert_at_head(0);
    list.insert_at_head(1);
    list.insert_at_head(2);
    list.insert_at_head(3);

    let res = list.search_by_key(4);

    assert_eq!(res, None);
}

#[test]
fn searched_key_is_found_on_the_head_chain() {
    let mut list: DoublyLinkedList<i32> = DoublyLinkedList::new();

    list.insert_at_head(0);
    list.insert_at_head(1);
    list.insert_at_head(2);

    let res = list.search_by_key(1);
    let node = res.unwrap();
    assert_eq!(node.key, 1);
    assert_eq!(node.next.as_ref().unwrap().key, 0);
    assert_eq!(node.prev.as_ref().unwrap().key, 2);
}

#[test]
fn deleted_keys_are_handed_out() {
    let mut list: DoublyLinkedList<i32> = DoublyLinkedList::new();
    list.insert_at_head(0);
    list.insert_at_head(1);
    list.insert_at_head(2);
    assert_eq!(list.delete_head(), Some(2));
    assert_eq!(list.delete_head(), Some(1));
    assert_eq!(list.delete_tail(), Some(0));
    assert_eq!(list.head, None);
    assert_eq!(list.tail, None);
    assert_eq!(list.length, 0);
}

#[test]
fn insert_with_a_given_copy_places_both() {
    let mut list: DoublyLinkedList<i32> = DoublyLinkedList::new();
    list.insert_at_head_with(1, 10);
    assert_eq!(list.head.as_ref().unwrap().key, 10);
    assert_eq!(list.tail.as_ref().unwrap().key, 1);
    list.insert_at_head_with(2, 20);
    let head = list.head.as_ref().unwrap();
    assert_eq!(head.key, 2);
    assert_eq!(head.next.as_ref().unwrap().key, 10);
    assert_eq!(head.next.as_ref().unwrap().prev.as_ref().unwrap().key, 20);
    list.insert_at_tail_with(3, 30);
    let tail = list.tail.as_ref().unwrap();
    assert_eq!(tail.key, 3);
    assert_eq!(tail.prev.as_ref().unwrap().key, 1);
    assert_eq!(tail.prev.as_ref().unwrap().next.as_ref().unwrap().key, 30);
    assert_eq!(list.length, 3);
}

#[test]
fn keys_follow_the_head_chain() {
    let mut list: DoublyLinkedList<i32> = DoublyLinkedList::new();
    assert_eq!(list.keys(), Vec::<&i32>::new());
    list.insert_at_head(0);
    list.insert_at_head(1);
    list.insert_at_head(2);
    list.insert_at_head(3);
    assert_eq!(list.keys(), vec![&3, &2, &1, &0]);
    list.insert_at_tail(9);
    assert_eq!(list.keys(), vec![&3, &2, &1, &0]);
}

#[test]
fn traverse() {
    let mut list: DoublyLinkedList<i32> = DoublyLinkedList::new();

    list.insert_at_head(0);
    list.insert_at_head(1);
    list.insert_at_head(2);
    list.insert_at_head(3);

    assert_eq!(list.keys(), vec![&3, &2, &1, &0]);
}
