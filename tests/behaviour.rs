use doubly::linked_list::DoublyLinkedList;
use doubly::node::Node;
use doubly::node_pool::NodePool;
use doubly::Side;

#[test]
fn queue_order_push_back_pop_first() {
    let mut list = DoublyLinkedList::new();
    for v in [4, 8, 15] {
        list.push_back(v);
    }
    assert_eq!(list.pop_first(), Some(4));
    list.push_back(16);
    assert_eq!(list.pop_first(), Some(8));
    assert_eq!(list.pop_first(), Some(15));
    assert_eq!(list.pop_first(), Some(16));
    assert_eq!(list.pop_first(), None);
}

#[test]
fn queue_order_push_front_pop_back() {
    let mut list = DoublyLinkedList::new();
    list.push_front('a');
    list.push_front('b');
    assert_eq!(list.pop_back(), Some('a'));
    list.push_front('c');
    assert_eq!(list.pop_back(), Some('b'));
    assert_eq!(list.pop_back(), Some('c'));
    assert_eq!(list.pop_back(), None);
}

#[test]
fn stack_order_push_back_pop_back() {
    let mut list = DoublyLinkedList::new();
    list.push_back(1);
    list.push_back(2);
    assert_eq!(list.pop_back(), Some(2));
    list.push_back(3);
    assert_eq!(list.pop_back(), Some(3));
    assert_eq!(list.pop_back(), Some(1));
    assert_eq!(list.pop_back(), None);
}

#[test]
fn empty_pops_repeat_none() {
    let mut list: DoublyLinkedList<u8> = DoublyLinkedList::new();
    for _ in 0..3 {
        assert_eq!(list.pop_first(), None);
        assert_eq!(list.pop_back(), None);
    }
    assert!(list.is_empty());
    assert_eq!(list.allocated(), 0);
    assert_eq!(list.spare(), 0);
}

#[test]
fn scenario_push_three_pop_back() {
    let mut list = DoublyLinkedList::new();
    list.push_back(1);
    list.push_back(2);
    list.push_back(3);
    assert_eq!(list.pop_back(), Some(3));
    assert_eq!(list.pop_back(), Some(2));
    assert_eq!(list.pop_back(), Some(1));
    assert_eq!(list.pop_back(), None);
}

#[test]
fn scenario_insert_around_anchor() {
    let mut list = DoublyLinkedList::new();
    list.push_back(1);
    let a = list.head().unwrap();
    list.insert(Side::After, 2, a);
    list.insert(Side::Before, 0, a);
    assert_eq!(list.pop_first(), Some(0));
    assert_eq!(list.pop_first(), Some(1));
    assert_eq!(list.pop_first(), Some(2));
    assert_eq!(list.pop_first(), None);
}

#[test]
fn scenario_remove_second_of_three() {
    let mut list = DoublyLinkedList::new();
    list.push_back(10);
    list.push_back(20);
    list.push_back(30);
    let second = list.next(list.head().unwrap()).unwrap();
    assert_eq!(list.remove(second), Some(20));
    let head = list.head().unwrap();
    let tail = list.tail().unwrap();
    assert_eq!(*list.get(head), 10);
    assert_eq!(*list.get(list.next(head).unwrap()), 30);
    assert_eq!(*list.get(tail), 30);
    assert_eq!(*list.get(list.prev(tail).unwrap()), 10);
    assert!(list.prev(head).is_none());
    assert!(list.next(tail).is_none());
}

#[test]
fn scenario_pool_of_three_allocates_once() {
    let mut list = DoublyLinkedList::new();
    list.init(3, 0);
    assert_eq!(list.allocated(), 3);
    assert_eq!(list.spare(), 3);
    list.push_back(1);
    list.push_back(2);
    list.push_back(3);
    assert_eq!(list.allocated(), 3);
    assert_eq!(list.spare(), 0);
    list.push_back(4);
    assert_eq!(list.allocated(), 4);
    assert_eq!(list.spare(), 0);
    assert_eq!(list.pop_back(), Some(4));
    assert_eq!(list.pop_back(), Some(3));
    assert_eq!(list.spare(), 2);
    list.push_back(5);
    list.push_back(6);
    assert_eq!(list.allocated(), 4);
    assert_eq!(list.spare(), 0);
    assert_eq!(list.pop_back(), Some(6));
    assert_eq!(list.pop_back(), Some(5));
    assert_eq!(list.pop_back(), Some(2));
    assert_eq!(list.pop_back(), Some(1));
    assert_eq!(list.pop_back(), None);
    assert_eq!(list.allocated(), 4);
}

#[test]
fn pool_reuse_within_capacity() {
    let mut list = DoublyLinkedList::new();
    list.init(2, 7);
    list.push_front(1);
    let h = list.head().unwrap();
    list.insert(Side::After, 2, h);
    assert_eq!(list.remove(h), Some(1));
    list.push_back(3);
    assert_eq!(list.pop_first(), Some(2));
    list.push_front(4);
    assert_eq!(list.allocated(), 2);
}

#[test]
fn insert_then_remove_restores_shape() {
    let mut list = DoublyLinkedList::new();
    list.push_back(1);
    list.push_back(2);
    list.push_back(3);
    let head = list.head().unwrap();
    let mid = list.next(head).unwrap();
    let tail = list.tail().unwrap();
    list.insert(Side::After, 9, mid);
    let fresh = list.next(mid).unwrap();
    assert_eq!(*list.get(fresh), 9);
    assert_eq!(list.remove(fresh), Some(9));
    assert_eq!(list.head(), Some(head));
    assert_eq!(list.tail(), Some(tail));
    assert_eq!(list.next(head), Some(mid));
    assert_eq!(list.next(mid), Some(tail));
    assert_eq!(list.prev(tail), Some(mid));
    assert_eq!(list.prev(mid), Some(head));
}

#[test]
fn clear_returns_every_node_to_the_pool() {
    let mut list = DoublyLinkedList::new();
    list.push_back(1);
    list.push_back(2);
    list.push_back(3);
    list.clear();
    assert!(list.is_empty());
    assert!(list.head().is_none());
    assert_eq!(list.allocated(), 3);
    assert_eq!(list.spare(), 3);
    list.push_back(4);
    list.push_back(5);
    list.push_back(6);
    assert_eq!(list.allocated(), 3);
}

#[test]
fn pool_hands_out_last_released_first() {
    let mut pool = NodePool::new();
    pool.populate(2, 0u32);
    assert_eq!(pool.allocated(), 2);
    assert_eq!(pool.available(), 2);
    let a = pool.get_node(5);
    assert_eq!(a, 1);
    assert_eq!(pool.node(a).data, Some(5));
    let b = pool.get_node(6);
    assert_eq!(b, 0);
    let c = pool.get_node(7);
    assert_eq!(c, 2);
    assert_eq!(pool.allocated(), 3);
    pool.return_node(b);
    assert_eq!(pool.available(), 1);
    assert_eq!(pool.get_node(8), b);
    assert_eq!(pool.node(b).data, Some(8));
    assert!(pool.node(b).prev.is_none() && pool.node(b).next.is_none());
}

#[test]
fn node_new_is_detached() {
    let n = Node::new(3);
    assert_eq!(n.data, Some(3));
    assert!(n.prev.is_none());
    assert!(n.next.is_none());
}

#[test]
fn populate_fills_new_nodes_with_the_default() {
    let mut pool = NodePool::new();
    pool.populate(1, String::from("x"));
    pool.populate(2, String::from("dflt"));
    assert_eq!(pool.allocated(), 3);
    assert_eq!(pool.available(), 3);
    assert_eq!(pool.node(0).data, Some(String::from("x")));
    for idx in 1..3 {
        let n = pool.node(idx);
        assert_eq!(n.data, Some(String::from("dflt")));
        assert!(n.prev.is_none() && n.next.is_none());
    }
    pool.populate(0, String::from("unused"));
    assert_eq!(pool.allocated(), 3);
}
