use algorithms::deque::DoublyLinkedList as DequeList;
use algorithms::doubly_linked_lists::DoublyLinkedList;
use algorithms::linked_lists::LinkedList;

#[test]
fn test_linked_list() {
    let mut list: LinkedList<i32> = LinkedList::new();
    assert_eq!(list.size(), 0);
    assert_eq!(list.peek(), None);
    assert_eq!(list.peek_mut(), None);
    assert_eq!(list.pop(), None);

    list.push(1);
    list.push(2);
    list.push(3);

    assert_eq!(list.size(), 3);
    assert_eq!(list.peek(), Some(&3));
    assert_eq!(list.peek_mut(), Some(&mut 3));

    assert_eq!(list.pop(), Some(3));
    assert_eq!(list.pop(), Some(2));
    assert_eq!(list.pop(), Some(1));

    assert_eq!(list.size(), 0);
    assert_eq!(list.peek(), None);
    assert_eq!(list.peek_mut(), None);
    assert_eq!(list.pop(), None);
}

#[test]
fn linked_list_iter_walks_front_to_back() {
    let mut list: LinkedList<i32> = LinkedList::new();
    list.push(1);
    list.push(2);
    list.push(3);
    let mut it = list.iter();
    let mut collected = Vec::new();
    while let Some(x) = it.next() {
        collected.push(*x);
    }
    assert_eq!(collected, [3, 2, 1]);
}

#[test]
fn doubly_linked_lists_test_doubly_linked_list() {

    let mut list: DoublyLinkedList<i32> = DoublyLinkedList::new();
    assert_eq!(list.size(), 0);
    assert_eq!(list.peek_front(), None);
    assert_eq!(list.peek_back(), None);
    assert_eq!(list.peek_front_mut(), None);
    assert_eq!(list.peek_back_mut(), None);
    assert_eq!(list.pop_front(), None);
    assert_eq!(list.pop_back(), None);
    assert_eq!(list.iter().next(), None);
    assert_eq!(list.iter_mut().next(), None);
    assert_eq!(list.iter_rev().next(), None);
    assert_eq!(list.iter_rev_mut().next(), None);
    assert_eq!(list.into_iter().next(), None);
    let list: DoublyLinkedList<i32> = DoublyLinkedList::new();
    assert_eq!(list.into_iter_rev().next(), None);

    let mut list: DoublyLinkedList<i32> = DoublyLinkedList::new();
    list.push_front(1);
    assert_eq!(list.size(), 1);
    assert_eq!(list.peek_front(), Some(&1));
    assert_eq!(list.peek_back(), Some(&1));
    assert_eq!(list.peek_front_mut(), Some(&mut 1));
    assert_eq!(list.peek_back_mut(), Some(&mut 1));
    assert_eq!(list.pop_front(), Some(1));
    assert_eq!(list.pop_back(), None);
    assert_eq!(list.iter().next(), None);
    assert_eq!(list.iter_mut().next(), None);
    assert_eq!(list.iter_rev().next(), None);
    assert_eq!(list.iter_rev_mut().next(), None);
    assert_eq!(list.into_iter().next(), None);
    let list: DoublyLinkedList<i32> = DoublyLinkedList::new();
    assert_eq!(list.into_iter_rev().next(), None);

    let mut list: DoublyLinkedList<i32> = DoublyLinkedList::new();
    list.push_back(2);
    assert_eq!(list.size(), 1);
    assert_eq!(list.peek_front(), Some(&2));
    assert_eq!(list.peek_back(), Some(&2));
    assert_eq!(list.peek_front_mut(), Some(&mut 2));
    assert_eq!(list.peek_back_mut(), Some(&mut 2));
    assert_eq!(list.pop_front(), Some(2));
    assert_eq!(list.pop_back(), None);
    assert_eq!(list.iter().next(), None);
    assert_eq!(list.iter_mut().next(), None);
    assert_eq!(list.iter_rev().next(), None);
    assert_eq!(list.iter_rev_mut().next(), None);
    assert_eq!(list.into_iter().next(), None);
    let list: DoublyLinkedList<i32> = DoublyLinkedList::new();
    assert_eq!(list.into_iter_rev().next(), None);

    let mut list: DoublyLinkedList<i32> = DoublyLinkedList::new();
    list.push_front(1);
    list.push_back(2);
    list.push_front(3);
    list.push_back(4);
    assert_eq!(list.size(), 4);
    assert_eq!(list.peek_front(), Some(&3));
    assert_eq!(list.peek_back(), Some(&4));
    assert_eq!(list.peek_front_mut(), Some(&mut 3));
    assert_eq!(list.peek_back_mut(), Some(&mut 4));
    assert_eq!(list.pop_front(), Some(3));
    assert_eq!(list.pop_back(), Some(4));
    let mut forward = Vec::new();
    let mut it = list.iter();
    while let Some(x) = it.next() {
        forward.push(*x);
    }
    assert_eq!(forward, [1, 2]);
    assert_eq!(list.iter_mut().next(), Some(&mut 1));
    let mut backward = Vec::new();
    let mut it = list.iter_rev();
    while let Some(x) = it.next() {
        backward.push(*x);
    }
    assert_eq!(backward, [2, 1]);
    assert_eq!(list.iter_rev_mut().next(), Some(&mut 2));
    let mut consumed = Vec::new();
    let mut it = list.into_iter();
    while let Some(x) = it.next() {
        consumed.push(x);
    }
    assert_eq!(consumed, [1, 2]);
    let mut list: DoublyLinkedList<i32> = DoublyLinkedList::new();
    list.push_back(1);
    list.push_back(2);
    let mut consumed_rev = Vec::new();
    let mut it = list.into_iter_rev();
    while let Some(x) = it.next() {
        consumed_rev.push(x);
    }
    assert_eq!(consumed_rev, [2, 1]);
}

#[test]
fn doubley_linked_lists_test_doubly_linked_list() {
    let mut list: DequeList<i32> = DequeList::new();
    assert_eq!(list.size(), 0);
    assert_eq!(list.peek_front(), None);
    assert_eq!(list.peek_back(), None);
    assert_eq!(list.peek_front_mut(), None);
    assert_eq!(list.peek_back_mut(), None);
    assert_eq!(list.pop_front(), None);
    assert_eq!(list.pop_back(), None);
    assert_eq!(list.iter().next(), None);
    assert_eq!(list.iter_mut().next(), None);
    assert_eq!(list.iter_rev().next(), None);
    assert_eq!(list.iter_rev_mut().next(), None);
    assert_eq!(list.into_iter().next(), None);
    let list: DequeList<i32> = DequeList::new();
    assert_eq!(list.into_iter_rev().next(), None);

    let mut list: DequeList<i32> = DequeList::new();
    list.push_front(1);
    assert_eq!(list.size(), 1);
    assert_eq!(list.peek_front(), Some(&1));
    assert_eq!(list.peek_back(), Some(&1));
    assert_eq!(list.peek_front_mut(), Some(&mut 1));
    assert_eq!(list.peek_back_mut(), Some(&mut 1));
    assert_eq!(list.pop_front(), Some(1));
    assert_eq!(list.pop_back(), None);
    assert_eq!(list.iter().next(), None);
    assert_eq!(list.iter_mut().next(), None);
    assert_eq!(list.iter_rev().next(), None);
    assert_eq!(list.iter_rev_mut().next(), None);
    assert_eq!(list.into_iter().next(), None);
    let list: DequeList<i32> = DequeList::new();
    assert_eq!(list.into_iter_rev().next(), None);

    let mut list: DequeList<i32> = DequeList::new();
    list.push_back(2);
    assert_eq!(list.size(), 1);
    assert_eq!(list.peek_front(), Some(&2));
    assert_eq!(list.peek_back(), Some(&2));
    assert_eq!(list.peek_front_mut(), Some(&mut 2));
    assert_eq!(list.peek_back_mut(), Some(&mut 2));
    assert_eq!(list.pop_front(), Some(2));
    assert_eq!(list.pop_back(), None);
    assert_eq!(list.iter().next(), None);
    assert_eq!(list.iter_mut().next(), None);
    assert_eq!(list.iter_rev().next(), None);
    assert_eq!(list.iter_rev_mut().next(), None);
    assert_eq!(list.into_iter().next(), None);
    let list: DequeList<i32> = DequeList::new();
    assert_eq!(list.into_iter_rev().next(), None);

    let mut list: DequeList<i32> = DequeList::new();
    list.push_front(1);
    list.push_back(2);
    list.push_front(3);
    list.push_back(4);
    assert_eq!(list.size(), 4);
    assert_eq!(list.peek_front(), Some(&3));
    assert_eq!(list.peek_back(), Some(&4));
    assert_eq!(list.peek_front_mut(), Some(&mut 3));
    assert_eq!(list.peek_back_mut(), Some(&mut 4));
    assert_eq!(list.pop_front(), Some(3));
    assert_eq!(list.pop_back(), Some(4));
    let mut forward = Vec::new();
    let mut it = list.iter();
    while let Some(x) = it.next() {
        forward.push(*x);
    }
    assert_eq!(forward, [1, 2]);
    assert_eq!(list.iter_mut().next(), Some(&mut 1));
    let mut backward = Vec::new();
    let mut it = list.iter_rev();
    while let Some(x) = it.next() {
        backward.push(*x);
    }
    assert_eq!(backward, [2, 1]);
    assert_eq!(list.iter_rev_mut().next(), Some(&mut 2));
    let mut consumed = Vec::new();
    let mut it = list.into_iter();
    while let Some(x) = it.next() {
        consumed.push(x);
    }
    assert_eq!(consumed, [1, 2]);
    let mut list: DequeList<i32> = DequeList::new();
    list.push_back(1);
    list.push_back(2);
    let mut consumed_rev = Vec::new();
    let mut it = list.into_iter_rev();
    while let Some(x) = it.next() {
        consumed_rev.push(x);
    }
    assert_eq!(consumed_rev, [2, 1]);
}
