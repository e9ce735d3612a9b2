use doubly::linked_list::DoublyLinkedList;
use doubly::Side;

#[test]
fn tests_test_push_and_pop_first() {
    let mut list = DoublyLinkedList::new();
    assert!(list.head().is_none());
    assert!(list.tail().is_none());

    list.push_front(1);
    assert_eq!(*list.get(list.head().unwrap()), 1);

    assert_eq!(list.pop_first(), Some(1));
    assert!(list.head().is_none());
    assert!(list.tail().is_none());

    list.push_front(2);
    list.push_front(3);
    assert_eq!(list.pop_first(), Some(3));
    assert_eq!(*list.get(list.head().unwrap()), 2);
}

#[test]
fn tests_test_push_and_pop_back() {
    let mut list = DoublyLinkedList::new();

    list.push_back(1);
    list.push_back(2);
    assert_eq!(*list.get(list.tail().unwrap()), 2);

    assert_eq!(list.pop_back(), Some(2));
    assert_eq!(list.pop_back(), Some(1));
    assert!(list.head().is_none());
    assert!(list.tail().is_none());

    list.push_back(3);
    list.push_back(4);
    assert_eq!(list.pop_back(), Some(4));
    assert_eq!(*list.get(list.head().unwrap()), 3);
}

#[test]
fn tests_test_remove_middle() {
    let mut list = DoublyLinkedList::new();
    list.push_back(1);
    list.push_back(2);
    list.push_back(3);

    let middle_node = list.next(list.head().unwrap()).unwrap();
    list.remove(middle_node);

    let head = list.head().unwrap();
    let tail = list.tail().unwrap();
    assert_eq!(*list.get(head), 1);
    assert_eq!(*list.get(list.next(head).unwrap()), 3);
    assert_eq!(*list.get(tail), 3);
    assert_eq!(*list.get(list.prev(tail).unwrap()), 1);
}

#[test]
fn tests_test_insert_before() {
    let mut list = DoublyLinkedList::new();
    let first_item = 1;
    let second_item = 2;

    list.push_back(first_item);

    let head = list.head().unwrap();
    list.insert(Side::Before, second_item, head);

    let head = list.head().unwrap();
    assert_eq!(*list.get(head), second_item);
    assert_eq!(*list.get(list.next(head).unwrap()), first_item);
    assert_eq!(*list.get(list.tail().unwrap()), first_item);
}

#[test]
fn tests_test_insert_after() {
    let mut list = DoublyLinkedList::new();
    let first_item = 1;
    let second_item = 2;

    list.push_back(first_item);

    let tail = list.tail().unwrap();
    list.insert(Side::After, second_item, tail);

    let head = list.head().unwrap();
    assert_eq!(*list.get(head), first_item);
    assert_eq!(*list.get(list.tail().unwrap()), second_item);
    assert_eq!(*list.get(list.next(head).unwrap()), second_item);
}

#[test]
fn test_insert_empty_list() {
    let mut list = DoublyLinkedList::new();
    let first_item = 1;

    assert!(list.head().is_none() && list.tail().is_none());

    list.push_back(first_item);
    assert_eq!(*list.get(list.head().unwrap()), first_item);
    assert_eq!(*list.get(list.tail().unwrap()), first_item);
}

#[test]
fn test_insert_between_nodes() {
    let mut list = DoublyLinkedList::new();
    let first_item = 1;
    let second_item = 2;
    let third_item = 3;

    list.push_back(first_item);
    list.push_back(third_item);

    let first_node = list.head().unwrap();
    list.insert(Side::After, second_item, first_node);

    let head = list.head().unwrap();
    let second = list.next(head).unwrap();
    assert_eq!(*list.get(head), first_item);
    assert_eq!(*list.get(second), second_item);
    assert_eq!(*list.get(list.tail().unwrap()), third_item);
    assert_eq!(*list.get(list.next(second).unwrap()), third_item);
}

#[test]
fn test_remove_single_element() {
    let mut list = DoublyLinkedList::new();
    list.push_front(10);

    let head = list.head().unwrap();
    assert_eq!(list.remove(head), Some(10));
    assert!(list.head().is_none());
    assert!(list.tail().is_none());
}

#[test]
fn test_pop_first_single_element() {
    let mut list = DoublyLinkedList::new();
    list.push_front(10);
    assert_eq!(list.pop_first(), Some(10));
    assert!(list.head().is_none());
    assert!(list.tail().is_none());
}

#[test]
fn test_pop_back_single_element() {
    let mut list = DoublyLinkedList::new();
    list.push_back(10);
    assert_eq!(list.pop_back(), Some(10));
    assert!(list.head().is_none());
    assert!(list.tail().is_none());
}

#[test]
fn test_remove_multiple_elements() {
    let mut list = DoublyLinkedList::new();
    list.push_back(10);
    list.push_back(20);
    list.push_back(30);

    let middle_node = list.next(list.head().unwrap()).unwrap();
    assert_eq!(list.remove(middle_node), Some(20));

    let head = list.head().unwrap();
    let tail = list.tail().unwrap();
    assert_eq!(*list.get(head), 10);
    assert_eq!(*list.get(tail), 30);
    assert_eq!(*list.get(list.next(head).unwrap()), 30);
    assert_eq!(*list.get(list.prev(tail).unwrap()), 10);
}

#[test]
fn test_pop_first_multiple_elements() {
    let mut list = DoublyLinkedList::new();
    list.push_back(10);
    list.push_back(20);
    list.push_back(30);

    assert_eq!(list.pop_first(), Some(10));
    let head = list.head().unwrap();
    assert_eq!(*list.get(head), 20);
    assert!(list.prev(head).is_none());
}

#[test]
fn test_pop_back_multiple_elements() {
    let mut list = DoublyLinkedList::new();
    list.push_back(10);
    list.push_back(20);
    list.push_back(30);

    assert_eq!(list.pop_back(), Some(30));
    let tail = list.tail().unwrap();
    assert_eq!(*list.get(tail), 20);
    assert!(list.next(tail).is_none());
}

#[test]
fn test_remove_head() {
    let mut list = DoublyLinkedList::new();
    list.push_back(10);
    list.push_back(20);

    let head = list.head().unwrap();
    assert_eq!(list.remove(head), Some(10));
    let head = list.head().unwrap();
    assert_eq!(*list.get(head), 20);
    assert!(list.prev(head).is_none());
}

#[test]
fn test_remove_tail() {
    let mut list = DoublyLinkedList::new();
    list.push_back(10);
    list.push_back(20);

    let tail = list.tail().unwrap();
    assert_eq!(list.remove(tail), Some(20));
    let tail = list.tail().unwrap();
    assert_eq!(*list.get(tail), 10);
    assert!(list.next(tail).is_none());
}

#[test]
fn test_pop_first_empty_list() {
    let mut list: DoublyLinkedList<i32> = DoublyLinkedList::new();
    assert_eq!(list.pop_first(), None);
}

#[test]
fn test_pop_back_empty_list() {
    let mut list: DoublyLinkedList<i32> = DoublyLinkedList::new();
    assert_eq!(list.pop_back(), None);
}
