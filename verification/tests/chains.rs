use smallobjectpool::linkedlist::{LinkedList, Node};
use smallobjectpool::linkedlist2::{LinkedList2, Node2};
use smallobjectpool::ptrbased::PtrBased;

#[test]
fn test_linked_list() {
    let mut list: LinkedList<i32> = LinkedList::new();
    list.push_back(1);
    list.push_back(2);
    list.push_back(3);
    let begin = list.begin().unwrap();
    let end = list.end().unwrap();
    assert_eq!(*list.get(begin).unwrap(), 1);
    assert_eq!(*list.get(end).unwrap(), 3);
}

#[test]
fn linkedlist_test_next() {
    let mut list: LinkedList<i32> = LinkedList::new();
    list.push_back(1);
    list.push_back(2);
    list.push_back(3);
    let begin = list.begin().unwrap();
    let mut next = list.next(begin).unwrap();
    assert_eq!(*list.get(next).unwrap(), 2);
    next = list.next(next).unwrap();
    assert_eq!(*list.get(next).unwrap(), 3);
}

#[test]
fn test_prev() {
    let mut list: LinkedList<i32> = LinkedList::new();
    list.push_back(1);
    list.push_back(2);
    list.push_back(3);
    let end = list.end().unwrap();
    let mut prev = list.prev(end).unwrap();
    assert_eq!(*list.get(prev).unwrap(), 2);
    prev = list.prev(prev).unwrap();
    assert_eq!(*list.get(prev).unwrap(), 1);
}

#[test]
fn test_linked_list2() {
    let mut list: LinkedList2<i32> = LinkedList2::new();
    list.push_back(1);
    list.push_back(2);
    list.push_back(3);
    let begin = list.begin().unwrap();
    let end = list.end().unwrap();
    assert_eq!(*list.get(begin).unwrap(), 1);
    assert_eq!(*list.get(end).unwrap(), 3);
}

#[test]
fn linkedlist2_test_next() {
    let mut list: LinkedList2<i32> = LinkedList2::new();
    list.push_back(1);
    list.push_back(2);
    list.push_back(3);
    let begin = list.begin().unwrap();
    let mut next = list.next(begin).unwrap();
    assert_eq!(*list.get(next).unwrap(), 2);
    next = list.next(next).unwrap();
    assert_eq!(*list.get(next).unwrap(), 3);
}

#[test]
fn push_front_prepends() {
    let mut list: LinkedList<i32> = LinkedList::new();
    list.push_back(2);
    list.push_front(1);
    list.push_back(3);
    let begin = list.begin().unwrap();
    assert_eq!(*list.get(begin).unwrap(), 1);
    let second = list.next(begin).unwrap();
    assert_eq!(*list.get(second).unwrap(), 2);
    let third = list.next(second).unwrap();
    assert_eq!(*list.get(third).unwrap(), 3);
    assert_eq!(list.next(third), None);
    assert_eq!(list.prev(begin), None);
    assert_eq!(list.len(), 3);
    assert!(!list.is_empty());

    let mut list2: LinkedList2<i32> = LinkedList2::new();
    list2.push_back(2);
    list2.push_front(1);
    assert_eq!(*list2.get(list2.begin().unwrap()).unwrap(), 1);
}

#[test]
fn handles_stay_valid_as_the_chain_grows() {
    let mut list: LinkedList<i32> = LinkedList::new();
    list.push_back(10);
    let first = list.tail_ptr().unwrap();
    for i in 0..100 {
        list.push_back(i);
    }
    // the early handle still reads the same element
    assert_eq!(*list.get(first).unwrap(), 10);
    assert_eq!(list.head_ptr().unwrap(), first);
}

#[test]
fn iter_lists_handles_in_order() {
    let mut list: LinkedList<i32> = LinkedList::new();
    list.push_back(5);
    list.push_back(6);
    list.push_front(4);
    let handles = list.iter();
    assert_eq!(handles.len(), 3);
    let values: Vec<i32> = handles.iter().map(|h| *list.get(*h).unwrap()).collect();
    assert_eq!(values, vec![4, 5, 6]);
}

#[test]
fn linked_list_distance_counts_steps() {
    let mut list: LinkedList<i32> = LinkedList::new();
    list.push_back(1);
    list.push_back(2);
    list.push_back(3);
    let begin = list.begin().unwrap();
    let end = list.end().unwrap();
    assert_eq!(list.distance(begin, end), 2);
    assert_eq!(list.distance(begin, begin), 0);
}

#[test]
fn node_accessors() {
    let mut node = Node::new(7);
    assert_eq!(*node.inner(), 7);
    *node.inner_mut() = 8;
    assert_eq!(*node.inner(), 8);
    *node.data() = 9;
    assert_eq!(*node.inner(), 9);
    assert_eq!(node.next_ptr(), None);
    assert_eq!(node.prev_ptr(), None);

    let mut node2 = Node2::new(1);
    assert_eq!(*node2.inner(), 1);
    *node2.inner_mut() = 2;
    assert_eq!(*node2.inner(), 2);
}
