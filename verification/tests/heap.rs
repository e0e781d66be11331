use iot_structures::devices::{IoTDevice, MessageNotification};
use iot_structures::heap::MessageChecker;

fn new_notification_with_id(id: u64, no_messages: u64) -> MessageNotification {
    let dev = IoTDevice::new(id, format!("My address is {}", id), "".to_owned());
    MessageNotification::new(dev, no_messages)
}

fn add_four() {
    let mut heap = MessageChecker::new_empty();

    heap.add(new_notification_with_id(1, 100));
    heap.add(new_notification_with_id(2, 200));
    heap.add(new_notification_with_id(3, 500));
    heap.add(new_notification_with_id(4, 40));
    assert_eq!(heap.length, 4);
}

#[test]
fn binary_heap_add() {
    add_four();
}

#[test]
fn lib_binary_heap_add() {
    add_four();
}

fn pop_four() {
    let mut heap = MessageChecker::new_empty();

    let a = new_notification_with_id(1, 40);
    let b = new_notification_with_id(2, 300);
    let c = new_notification_with_id(3, 50);
    let d = new_notification_with_id(4, 500);

    heap.add(a.clone());
    heap.add(b.clone());
    heap.add(c.clone());
    heap.add(d.clone());

    assert_eq!(heap.length, 4);

    assert_eq!(heap.pop(), Some(d));
    assert_eq!(heap.pop(), Some(b));
    assert_eq!(heap.pop(), Some(c));
    assert_eq!(heap.pop(), Some(a));
}

#[test]
fn binary_heap_pop() {
    pop_four();
}

#[test]
fn lib_binary_heap_pop() {
    pop_four();
}

#[test]
fn heap_pop_on_empty_and_counts() {
    let mut heap = MessageChecker::new_empty();
    assert_eq!(heap.pop(), None);
    assert_eq!(heap.length, 0);
    heap.add(new_notification_with_id(1, 7));
    assert_eq!(heap.length, 1);
    assert_eq!(heap.pop(), Some(new_notification_with_id(1, 7)));
    assert_eq!(heap.length, 0);
    assert_eq!(heap.pop(), None);
}

#[test]
fn heap_add_brings_the_most_messages_to_the_front() {
    let mut heap = MessageChecker::new_empty();
    for (id, n) in [(1u64, 5u64), (2, 9), (3, 1), (4, 9), (5, 20), (6, 3)] {
        heap.add(new_notification_with_id(id, n));
    }
    assert!(heap.has_more_messages(1, 2));
    assert!(heap.has_more_messages(1, 3));
    assert!(heap.has_more_messages(2, 4));
    assert!(heap.has_more_messages(2, 5));
    assert!(heap.has_more_messages(3, 6));
    assert_eq!(heap.pop().unwrap().no_messages, 20);
    heap.swap(1, 2);
    assert_eq!(heap.length, 5);
}

#[test]
fn notification_equality() {
    let a = new_notification_with_id(1, 5);
    assert!(a == a.clone());
    assert!(a != new_notification_with_id(1, 6));
    assert!(a != new_notification_with_id(2, 5));
}

#[test]
fn heap_pop_moves_the_last_notification_to_the_front() {
    // with two notifications left nothing is compared: the last one stays in front
    let mut heap = MessageChecker::new_empty();
    for (id, n) in [(1u64, 2u64), (2, 3), (3, 1)] {
        heap.add(new_notification_with_id(id, n));
    }
    assert_eq!(heap.pop(), Some(new_notification_with_id(2, 3)));
    assert_eq!(heap.pop(), Some(new_notification_with_id(3, 1)));
    assert_eq!(heap.pop(), Some(new_notification_with_id(1, 2)));
    assert_eq!(heap.pop(), None);
}

#[test]
fn heap_add_puts_an_equal_count_above() {
    let mut heap = MessageChecker::new_empty();
    heap.add(new_notification_with_id(1, 4));
    heap.add(new_notification_with_id(2, 4));
    assert_eq!(heap.pop(), Some(new_notification_with_id(2, 4)));
    assert_eq!(heap.pop(), Some(new_notification_with_id(1, 4)));
}

#[test]
fn heap_tells_its_length() {
    let mut heap = MessageChecker::new_empty();
    assert_eq!(heap.len(), 0);
    heap.add(new_notification_with_id(1, 5));
    heap.add(new_notification_with_id(2, 6));
    assert_eq!(heap.len(), 2);
    heap.pop();
    assert_eq!(heap.len(), 1);
    assert_eq!(heap.length, heap.len());
}
