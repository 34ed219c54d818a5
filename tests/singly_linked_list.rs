use data_structure::linear::singly_linked_list::SinglyLinkedList;

fn values(list: &SinglyLinkedList<i32>) -> Vec<i32> {
    list.values().into_iter().map(|v| *v).collect()
}

fn sample() -> SinglyLinkedList<i32> {
    let mut ll = SinglyLinkedList::<i32>::new();
    ll.push_back(1);
    ll.push_back(2);
    ll.push_back(3);
    assert_eq!(ll.pop_back(), Some(3));
    ll.push_front(5);
    ll.push_front(6);
    ll.push_back(7);
    assert_eq!(ll.pop_back(), Some(7));
    assert_eq!(ll.pop_front(), Some(6));
    ll.push_back(7);
    ll.push_front(8);
    ll.push_front(13);
    ll
}

#[test]
fn sll_pushes_and_pops() {
    let ll = sample();
    assert_eq!(values(&ll), vec![13, 8, 5, 1, 2, 7]);
    assert_eq!(ll.len(), 6);
    assert_eq!(ll.to_print_string(), "(13) -> (8) -> (5) -> (1) -> (2) -> (7)");
    assert_eq!(SinglyLinkedList::<i32>::new().to_print_string(), "()");
}

#[test]
fn sll_get_and_get_mut() {
    let mut ll = sample();
    for i in 0..ll.len() {
        if i % 2 == 0 {
            *ll.get_mut(i).unwrap() += 1;
        }
    }
    assert_eq!(values(&ll), vec![14, 8, 6, 1, 3, 7]);
    assert_eq!(ll.get(2), Some(6));
    assert_eq!(*ll.get_ref(5).unwrap(), 7);
    assert_eq!(ll.get(6), None);
    assert!(ll.get_ref(6).is_none());
    assert!(ll.get_mut(6).is_none());
}

#[test]
fn sll_find() {
    let ll = sample();
    assert_eq!(ll.find(&8), Some(1));
    assert_eq!(ll.find(&11), None);
    assert_eq!(ll.find(&7), Some(5));
    let mut dup = SinglyLinkedList::<i32>::new();
    dup.push_back(4);
    dup.push_back(9);
    dup.push_back(4);
    assert_eq!(dup.find(&4), Some(0));
}

#[test]
fn sll_remove() {
    let mut ll = sample();
    assert_eq!(ll.remove(4), Some(2));
    assert_eq!(values(&ll), vec![13, 8, 5, 1, 7]);
    let last = ll.len() - 1;
    assert_eq!(ll.remove(last), Some(7));
    ll.push_back(70);
    assert_eq!(values(&ll), vec![13, 8, 5, 1, 70]);
    assert_eq!(ll.remove(0), Some(13));
    assert_eq!(ll.remove(9), None);
    assert_eq!(values(&ll), vec![8, 5, 1, 70]);
    assert_eq!(ll.len(), 4);
}

#[test]
fn sll_pop_to_empty_and_reuse() {
    let mut ll = SinglyLinkedList::<i32>::new();
    assert_eq!(ll.pop_back(), None);
    assert_eq!(ll.pop_front(), None);
    ll.push_back(1);
    assert_eq!(ll.pop_back(), Some(1));
    assert_eq!(ll.len(), 0);
    ll.push_back(2);
    ll.push_front(1);
    ll.push_back(3);
    assert_eq!(values(&ll), vec![1, 2, 3]);
    assert_eq!(ll.pop_front(), Some(1));
    assert_eq!(ll.pop_front(), Some(2));
    assert_eq!(ll.pop_front(), Some(3));
    assert_eq!(ll.pop_front(), None);
}

#[test]
fn sll_insert_then_get_and_failed_insert_leaves_list() {
    let mut ll = sample();
    assert!(ll.insert(42, 3).is_ok());
    assert_eq!(*ll.get_ref(3).unwrap(), 42);
    assert_eq!(ll.len(), 7);
    assert_eq!(values(&ll), vec![13, 8, 5, 42, 1, 2, 7]);
    assert_eq!(ll.insert(43, 9), Err("Index 9 out of bounds (Length 7)".to_string()));
    assert_eq!(values(&ll), vec![13, 8, 5, 42, 1, 2, 7]);
    assert!(ll.insert(0, 0).is_ok());
    assert!(ll.insert(99, 8).is_ok());
    assert_eq!(values(&ll), vec![0, 13, 8, 5, 42, 1, 2, 7, 99]);
    assert_eq!(ll.pop_back(), Some(99));
    assert_eq!(ll.pop_back(), Some(7));
}
