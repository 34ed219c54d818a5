use data_structure::linear::buffer_guard::BufferGuard;

#[test]
fn buffer_slots_start_empty_and_hold_values() {
    let mut buffer = BufferGuard::<String>::new(3);
    assert_eq!(buffer.capacity(), 3);
    assert!(buffer.get(1).is_none());
    assert_eq!(buffer.put(1, "b".to_string()), None);
    assert_eq!(buffer.get(1).map(|s| s.as_str()), Some("b"));
    assert_eq!(buffer.put(1, "c".to_string()), Some("b".to_string()));
    buffer.get_mut(1).unwrap().push('!');
    assert_eq!(buffer.take(1), Some("c!".to_string()));
    assert_eq!(buffer.take(1), None);
}

#[test]
fn buffer_grow_relinearizes_from_start() {
    let mut buffer = BufferGuard::<i32>::new(4);
    buffer.put(2, 20);
    buffer.put(3, 30);
    buffer.put(0, 40);
    buffer.grow(6, 2, 3);
    assert_eq!(buffer.capacity(), 6);
    assert_eq!(buffer.into_inner(), vec![Some(20), Some(30), Some(40), None, None, None]);
}
