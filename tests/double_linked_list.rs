use data_structure::linear::double_linked_list::DoubleLinkedList;

const FROM_ARRAY: [i32; 11] = [-5, 0, 3, 15, 16, 18, -20, -15, -3, -8, 5];

fn create_list() -> DoubleLinkedList<i32> {
    DoubleLinkedList::from_array(&FROM_ARRAY)
}
fn create_empty_list() -> DoubleLinkedList<i32> {
    DoubleLinkedList::new()
}

fn forward(list: &DoubleLinkedList<i32>) -> Vec<i32> {
    list.values_forward().into_iter().map(|v| *v).collect()
}

fn backward(list: &DoubleLinkedList<i32>) -> Vec<i32> {
    list.values_backward().into_iter().map(|v| *v).collect()
}

#[test]
fn test_new() {
    let list = create_empty_list();
    assert_eq!(list.length(), 0);
    assert_eq!(list.is_empty(), true);
}

#[test]
fn test_from_array() {
    let list = create_list();
    assert_eq!(list.length(), 11);
    assert_eq!(list.is_empty(), false);
    assert_eq!(*list.head_ref().unwrap(), -5);
    assert_eq!(*list.tail_ref().unwrap(), 5);
}

#[test]
fn test_append() {
    let mut list: DoubleLinkedList<i32> = create_empty_list();
    list.append(3);
    assert_eq!(*list.tail_ref().unwrap(), 3);
    list.append(4);
    assert_eq!(*list.tail_ref().unwrap(), 4);
    assert_eq!(*list.head_ref().unwrap(), 3);
}

#[test]
fn test_prepend() {
    let mut list: DoubleLinkedList<i32> = create_empty_list();
    list.prepend(3);
    assert_eq!(*list.head_ref().unwrap(), 3);
    list.prepend(4);
    assert_eq!(*list.head_ref().unwrap(), 4);
    assert_eq!(*list.tail_ref().unwrap(), 3);
}

#[test]
fn test_pop() {
    let mut list = create_list();
    assert_eq!(list.pop_tail().unwrap(), 5);
    assert_eq!(list.pop_tail().unwrap(), -8);
    assert_eq!(list.pop_head().unwrap(), -5);
    assert_eq!(list.pop_head().unwrap(), 0);
    assert_eq!(list.length(), FROM_ARRAY.len() - 4usize);
}

#[test]
fn test_get() {
    let mut list = create_list();
    assert_eq!(*list.get_tail_ref().unwrap(), 5);
    assert_eq!(*list.get_tail_ref().unwrap(), 5);
    assert_eq!(*list.get_head_ref().unwrap(), -5);
    assert_eq!(*list.get_head_ref().unwrap(), -5);
    assert_eq!(*list.get_ref(5).unwrap(), FROM_ARRAY[5]);
    assert_eq!(*list.get_ref(5).unwrap(), FROM_ARRAY[5]);
    let val = list.get_mut(5).unwrap();
    assert_eq!(*val, FROM_ARRAY[5]);
    *val += 5;
    assert_eq!(*list.get_mut(5).unwrap(), FROM_ARRAY[5] + 5);
    assert_eq!(*list.get_ref(5).unwrap(), FROM_ARRAY[5] + 5);
    assert_eq!(list.length(), FROM_ARRAY.len());
}

#[test]
fn test_get_edge_cases() {
    let mut list = create_list();
    let last_index = FROM_ARRAY.len() - 1;
    assert_eq!(*list.get_ref(0).unwrap(), FROM_ARRAY[0]);
    assert_eq!(*list.get_ref(last_index).unwrap(), FROM_ARRAY[last_index]);
    let h = list.get_mut(0).unwrap();
    assert_eq!(*h, FROM_ARRAY[0]);
    *h += 5;
    assert_eq!(*list.get_mut(0).unwrap(), FROM_ARRAY[0] + 5);
    assert_eq!(*list.get_ref(0).unwrap(), FROM_ARRAY[0] + 5);

    let t = list.get_mut(last_index).unwrap();
    assert_eq!(*t, FROM_ARRAY[last_index]);
    *t += 44;
    assert_eq!(*list.get_mut(last_index).unwrap(), FROM_ARRAY[last_index] + 44);
    assert_eq!(*list.get_ref(last_index).unwrap(), FROM_ARRAY[last_index] + 44);
    assert_eq!(list.length(), FROM_ARRAY.len());
}

#[test]
fn tests_test_remove() {
    let mut list = create_list();
    let mut removed = list.remove(3);
    assert!(removed.is_ok());
    assert_eq!(removed.unwrap(), FROM_ARRAY[3]);
    assert_eq!(list.length(), FROM_ARRAY.len() - 1);
    removed = list.remove(3);
    assert!(removed.is_ok());
    assert_eq!(removed.unwrap(), FROM_ARRAY[4]);
    assert_eq!(list.length(), FROM_ARRAY.len() - 2);
    removed = list.remove(2);
    assert!(removed.is_ok());
    assert_eq!(removed.unwrap(), FROM_ARRAY[2]);
    assert_eq!(list.length(), FROM_ARRAY.len() - 3);
    removed = list.remove(2);
    assert!(removed.is_ok());
    assert_eq!(removed.unwrap(), FROM_ARRAY[5]);
    assert_eq!(list.length(), FROM_ARRAY.len() - 4);
    assert!(list.remove(FROM_ARRAY.len() - 4).is_err());
    assert_eq!(list.remove(0).unwrap(), -5);
    assert_eq!(list.remove(list.length() - 1).unwrap(), 5);
    assert_eq!(list.length(), FROM_ARRAY.len() - 6);
}

#[test]
fn test_remove_empty() {
    let mut list = create_empty_list();
    let removed = list.remove(3);
    assert!(removed.is_err());
}

#[test]
fn test_get_out_of_bounds() {
    let mut list = create_list();
    assert!(list.get_ref(FROM_ARRAY.len()).is_err());
    assert!(list.get_mut(FROM_ARRAY.len()).is_err());
}

#[test]
fn test_pop_out_of_bounds() {
    let mut list = create_empty_list();
    assert!(list.pop_head().is_err());
    assert!(list.pop_tail().is_err());
    assert!(list.get_ref(0).is_err());
    assert!(list.get_mut(0).is_err());
}

#[test]
fn test_insert() {
    let mut list = create_list();
    assert!(list.insert(1000, 5).is_ok());
    assert!(list.insert(1001, 0).is_ok());
    assert!(list.insert(1002, FROM_ARRAY.len() + 2).is_ok());
    assert!(list.insert(1003, FROM_ARRAY.len() + 4).is_err());
    assert_eq!(*list.get_ref(6).unwrap(), 1000);
    assert_eq!(*list.get_head_ref().unwrap(), 1001);
    assert_eq!(*list.get_tail_ref().unwrap(), 1002);
}

#[test]
fn dll_test_head() {
    let mut list = create_list();
    let val = list.head_mut().unwrap();
    assert_eq!(*val, -5);
    *val = -100;
    assert_eq!(*list.head_mut().unwrap(), -100);
    list = create_empty_list();
    assert!(list.head_mut().is_none());
    assert!(list.head_ref().is_none());
}

#[test]
fn tests_test_tail() {
    let mut list = create_list();
    let val = list.tail_mut().unwrap();
    assert_eq!(*val, 5);
    *val = 100;
    assert_eq!(*list.tail_mut().unwrap(), 100);
    list = create_empty_list();
    assert!(list.tail_mut().is_none());
    assert!(list.tail_ref().is_none());
}

#[test]
fn dll_insert_then_get_and_failed_insert_leaves_list() {
    let mut list = create_list();
    assert!(list.insert(77, 4).is_ok());
    assert_eq!(*list.get_ref(4).unwrap(), 77);
    assert_eq!(list.length(), 12);
    let before = forward(&list);
    let err = list.insert(78, 13);
    assert_eq!(err, Err("Index 13 out of bounds (Length 12)".to_string()));
    assert_eq!(forward(&list), before);
    assert_eq!(list.length(), 12);
    assert!(list.insert(79, 12).is_ok());
    assert_eq!(*list.get_tail_ref().unwrap(), 79);
}

#[test]
fn dll_walks_mirror_after_each_remove() {
    let mut list = create_list();
    let mut expected: Vec<i32> = FROM_ARRAY.to_vec();
    for index in [5usize, 0, 8, 3, 6, 1, 0, 2, 1, 0, 0] {
        assert_eq!(list.remove(index).unwrap(), expected.remove(index));
        let f = forward(&list);
        let mut b = backward(&list);
        assert_eq!(f.len(), list.length());
        assert_eq!(b.len(), list.length());
        assert_eq!(f, expected);
        b.reverse();
        assert_eq!(b, f);
    }
    assert!(list.is_empty());
    assert!(list.head_ref().is_none());
    assert!(list.tail_ref().is_none());
}

#[test]
fn dll_error_messages() {
    let mut list = create_list();
    assert_eq!(list.get_ref(11), Err("Index 11 out of bounds (Length 11)".to_string()));
    assert_eq!(list.remove(20), Err("Index 20 out of bounds (Length 11)".to_string()));
    let mut empty = create_empty_list();
    assert_eq!(empty.pop_head(), Err("Pop head on empty list"));
    assert_eq!(empty.pop_tail(), Err("Pop tail on empty list"));
    assert_eq!(empty.get_head_ref(), Err("Get head on empty list"));
    assert_eq!(empty.get_tail_mut(), Err("Get tail on empty list"));
}

#[test]
fn dll_slots_are_reused_after_removal() {
    let mut list = create_empty_list();
    for round in 0..3 {
        for v in 0..5 {
            list.append(v + round * 10);
        }
        while list.length() > 1 {
            list.pop_head().unwrap();
        }
    }
    assert_eq!(forward(&list), vec![24]);
    list.prepend(1);
    list.insert(2, 1).unwrap();
    assert_eq!(forward(&list), vec![1, 2, 24]);
    assert_eq!(backward(&list), vec![24, 2, 1]);
}
