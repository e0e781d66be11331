use iot_structures::doubly_linked_list::{DoublyLinkedList, Node};
use iot_structures::dynamic_array::{ListIterator, LogSaver, TimestampSaver};

#[test]
fn dynamic_array_append() {
    let mut list = TimestampSaver::new_empty();
    let max: usize = 1_000;
    for i in 0..max {
        list.append(i as u64);
    }
    assert_eq!(list.length, max);
}

#[test]
fn dynamic_array_at() {
    let mut list = TimestampSaver::new_empty();
    let max: usize = 1_000;
    for i in 0..max {
        list.append(i as u64);
    }
    assert_eq!(list.length, max);
    for i in 0..max {
        assert_eq!(list.at(i), Some(i as u64));
    }
    assert_eq!(list.at(max + 1), None);
}

#[test]
fn dynamic_array_iterate() {
    let mut list = TimestampSaver::new_empty();
    list.append(1);
    list.append(2);
    list.append(3);
    list.append(4);
    assert_eq!(list.length, 4);
    let mut iter = list.into_iter();
    assert_eq!(iter.next(), Some(1));
    assert_eq!(iter.next(), Some(2));
    assert_eq!(iter.next(), Some(3));
    assert_eq!(iter.next(), Some(4));
    assert_eq!(iter.next(), None);
}

#[test]
fn dynamic_array_grows_by_half() {
    let mut list = TimestampSaver::new_empty();
    assert_eq!(list.at(0), None);
    for i in 0..10 {
        list.append(i);
    }
    // ten slots are full: the next value makes fifteen
    list.append(10);
    let mut iter = list.into_iter();
    let mut slots = 0;
    let mut taken = 0;
    for _ in 0..15 {
        slots += 1;
        if iter.next().is_some() {
            taken += 1;
        }
    }
    assert_eq!((slots, taken), (15, 11));
    assert_eq!(iter.next(), None);
    assert_eq!(iter.next(), None);
    let mut short = TimestampSaver::new_empty();
    short.append(3);
    assert_eq!(short.at(0), Some(3));
    assert_eq!(short.at(1), None);
    assert_eq!(short.length, 1);
}

#[test]
fn list_iterator_walks_back_around() {
    let mut iter = ListIterator::new(1, vec![Some(1), Some(2), Some(3)]);
    assert_eq!(iter.next_back(), Some(2));
    assert_eq!(iter.next_back(), Some(1));
    assert_eq!(iter.next_back(), Some(3));
    assert_eq!(iter.next_back(), Some(2));
    let mut behind = ListIterator::new(3, vec![Some(1), Some(2), Some(3)]);
    assert_eq!(behind.next_back(), None);
    assert_eq!(behind.next(), None);
}

#[test]
fn log_saver_appends_and_reads() {
    let mut log = LogSaver::new_empty();
    assert_eq!(log.length, 0);
    assert_eq!(log.at(0), None);
    for i in 0..100u64 {
        log.append(i * i);
    }
    assert_eq!(log.length, 100);
    assert_eq!(log.at(0), Some(0));
    assert_eq!(log.at(99), Some(9801));
    assert_eq!(log.at(100), None);
    assert_eq!(log.at(99), Some(9801));
    assert_eq!(log.length, 100);
}

fn append_three() {
    let mut transaction_log = DoublyLinkedList::new_empty();
    assert_eq!(transaction_log.length, 0);
    transaction_log.append("INSERT INTO mytable VALUES (1,2,3)".to_owned());
    transaction_log.append("INSERT INTO mytable VALUES (2,3,4)".to_owned());
    transaction_log.append("INSERT INTO mytable VALUES (3,4,5)".to_owned());
    assert_eq!(transaction_log.length, 3);
    assert_eq!(
        transaction_log.pop(),
        Some("INSERT INTO mytable VALUES (1,2,3)".to_owned())
    );
    assert_eq!(
        transaction_log.pop(),
        Some("INSERT INTO mytable VALUES (2,3,4)".to_owned())
    );
    assert_eq!(
        transaction_log.pop(),
        Some("INSERT INTO mytable VALUES (3,4,5)".to_owned())
    );
    assert_eq!(transaction_log.pop(), None);
}

#[test]
fn better_transaction_log_append() {
    append_three();
}

#[test]
fn lib_better_transaction_log_append() {
    append_three();
}

fn pop_three() {
    let mut list = DoublyLinkedList::new_empty();
    assert_eq!(list.pop(), None);
    list.append("INSERT INTO mytable VALUES (1,2,3)".to_owned());
    list.append("INSERT INTO mytable VALUES (1,2,3)".to_owned());
    list.append("INSERT INTO mytable VALUES (1,2,3)".to_owned());
    assert_eq!(
        list.pop(),
        Some("INSERT INTO mytable VALUES (1,2,3)".to_owned())
    );
    assert_eq!(
        list.pop(),
        Some("INSERT INTO mytable VALUES (1,2,3)".to_owned())
    );
    assert_eq!(
        list.pop(),
        Some("INSERT INTO mytable VALUES (1,2,3)".to_owned())
    );
    assert_eq!(list.pop(), None);
}

#[test]
fn better_transaction_log_pop() {
    pop_three();
}

#[test]
fn lib_better_transaction_log_pop() {
    pop_three();
}

#[test]
fn linked_list_can_be_filled_again() {
    let mut list = DoublyLinkedList::new_empty();
    list.append("a".to_owned());
    assert_eq!(list.pop(), Some("a".to_owned()));
    assert_eq!(list.length, 0);
    assert_eq!(list.pop(), None);
    list.append("b".to_owned());
    list.append("c".to_owned());
    assert_eq!(list.length, 2);
    assert_eq!(list.pop(), Some("b".to_owned()));
    list.append("d".to_owned());
    assert_eq!(list.pop(), Some("c".to_owned()));
    assert_eq!(list.pop(), Some("d".to_owned()));
    assert_eq!(list.pop(), None);
    assert_eq!(list.length, 0);
    let node = Node::new("x".to_owned());
    assert_eq!(node.value, Some("x".to_owned()));
    assert_eq!(node.next, None);
    assert_eq!(node.prev, None);
}

#[test]
fn lists_tell_their_length() {
    let mut list = DoublyLinkedList::new_empty();
    assert_eq!(list.len(), 0);
    list.append("a".to_owned());
    list.append("b".to_owned());
    assert_eq!(list.len(), 2);
    assert_eq!(list.length, 2);
    let mut times = TimestampSaver::new_empty();
    assert_eq!(times.len(), 0);
    times.append(7);
    assert_eq!(times.len(), 1);
    let mut log = LogSaver::new_empty();
    log.append(5);
    assert_eq!(log.len(), 1);
}
