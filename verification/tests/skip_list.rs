use iot_structures::skip_list::{raised, BestTransactionLog, ListIterator, Node};

fn append_seven() {
    let mut list = BestTransactionLog::new_empty(3);
    list.append(1, "INSERT INTO mytable VALUES (1,2,3)".to_owned());
    list.append(2, "INSERT INTO mytable VALUES (1,2,3)".to_owned());
    list.append(3, "INSERT INTO mytable VALUES (1,2,3)".to_owned());
    list.append(4, "INSERT INTO mytable VALUES (1,2,3)".to_owned());
    list.append(5, "INSERT INTO mytable VALUES (1,2,3)".to_owned());
    list.append(6, "INSERT INTO mytable VALUES (1,2,3)".to_owned());
    list.append(7, "INSERT INTO mytable VALUES (1,2,3)".to_owned());
    assert_eq!(list.length, 7);
}

#[test]
fn skip_list_append() {
    append_seven();
}

#[test]
fn lib_skip_list_append() {
    append_seven();
}

#[test]
fn skip_list_find() {
    let mut list = BestTransactionLog::new_empty(3);
    list.append(1, "INSERT INTO mytable VALUES (1)".to_owned());
    list.append(2, "INSERT INTO mytable VALUES (2)".to_owned());
    list.append(3, "INSERT INTO mytable VALUES (3)".to_owned());
    list.append(4, "INSERT INTO mytable VALUES (4)".to_owned());
    list.append(5, "INSERT INTO mytable VALUES (5)".to_owned());
    list.append(6, "INSERT INTO mytable VALUES (6)".to_owned());
    list.append(7, "INSERT INTO mytable VALUES (7)".to_owned());
    assert_eq!(list.length, 7);
    assert_eq!(
        list.find(7),
        Some("INSERT INTO mytable VALUES (7)".to_owned())
    );
    assert_eq!(
        list.find(6),
        Some("INSERT INTO mytable VALUES (6)".to_owned())
    );
    assert_eq!(
        list.find(5),
        Some("INSERT INTO mytable VALUES (5)".to_owned())
    );
    assert_eq!(
        list.find(4),
        Some("INSERT INTO mytable VALUES (4)".to_owned())
    );
    assert_eq!(
        list.find(3),
        Some("INSERT INTO mytable VALUES (3)".to_owned())
    );
    assert_eq!(
        list.find(2),
        Some("INSERT INTO mytable VALUES (2)".to_owned())
    );
    assert_eq!(
        list.find(1),
        Some("INSERT INTO mytable VALUES (1)".to_owned())
    );
}

#[test]
fn skip_list_of_many_levels_by_chance() {
    // whatever the coin gives, every entry is found and the levels stay in bounds
    for round in 0..20 {
        let mut list = BestTransactionLog::new_empty(4);
        assert_eq!(list.find(1), None);
        for k in 0..200u64 {
            assert!(list.get_level() <= 4);
            list.append(k * 2, format!("command {} of round {}", k, round));
        }
        assert_eq!(list.length, 200);
        for k in 0..200u64 {
            assert_eq!(list.find(k * 2), Some(format!("command {} of round {}", k, round)));
            assert_eq!(list.find(k * 2 + 1), None);
        }
        let mut iter = list.into_iter();
        for k in 0..200u64 {
            assert_eq!(iter.next().map(|e| e.0), Some(k * 2));
        }
        assert_eq!(iter.next(), None);
        assert_eq!(iter.next(), None);
    }
}

#[test]
fn skip_list_with_given_levels() {
    let mut list = BestTransactionLog::new_empty(2);
    list.append_with_level(10, "a".to_owned(), 3);
    // one entry: found, and nothing else
    assert_eq!(list.find(10), Some("a".to_owned()));
    assert_eq!(list.find(9), None);
    assert_eq!(list.find(11), None);
    list.append_with_level(20, "b".to_owned(), 1);
    list.append_with_level(30, "c".to_owned(), 2);
    list.append_with_level(40, "d".to_owned(), 1);
    list.append_with_level(50, "e".to_owned(), 3);
    assert_eq!(list.length, 5);
    let level = |l: usize| -> Vec<u64> {
        let mut iter = list.iter_level(l);
        let mut offsets = vec![];
        while let Some(e) = iter.next() {
            offsets.push(e.0);
        }
        offsets
    };
    assert_eq!(level(0), vec![10, 20, 30, 40, 50]);
    assert_eq!(level(1), vec![10, 30, 50]);
    assert_eq!(level(2), vec![10, 50]);
    for (offset, command) in [(10u64, "a"), (20, "b"), (30, "c"), (40, "d"), (50, "e")] {
        assert_eq!(list.find(offset), Some(command.to_owned()));
    }
    for missing in [0u64, 15, 25, 35, 45, 55] {
        assert_eq!(list.find(missing), None);
    }
}

#[test]
fn skip_list_of_one_level() {
    let mut list = BestTransactionLog::new_empty(0);
    assert_eq!(list.get_level(), 0);
    list.append(3, "x".to_owned());
    list.append(5, "y".to_owned());
    assert_eq!(list.find(5), Some("y".to_owned()));
    assert_eq!(list.find(4), None);
    let node = Node::new(vec![None, Some(2)], 7, "z".to_owned());
    assert_eq!(node.offset, 7);
    assert_eq!(node.next, vec![None, Some(2)]);
    let copy = node.clone();
    assert_eq!(copy.command, "z");
    assert_eq!(copy.next, vec![None, Some(2)]);
    let mut iter = ListIterator::new(vec![node, copy], Some(1), 0);
    assert_eq!(iter.next(), Some((7, "z".to_owned())));
    assert_eq!(iter.next(), None);
}

#[test]
fn a_head_raises_the_level_below_the_highest() {
    assert_eq!(raised(0, true, 3), Some(1));
    assert_eq!(raised(2, true, 3), Some(3));
    assert_eq!(raised(3, true, 3), None);
    assert_eq!(raised(0, false, 3), None);
    assert_eq!(raised(0, true, 0), None);
    assert_eq!(raised(usize::MAX - 1, true, usize::MAX), Some(usize::MAX));
}

#[test]
fn skip_list_starts_every_level_at_the_first_entry() {
    for round in 0..10 {
        let mut list = BestTransactionLog::new_empty(5);
        for k in 0..50u64 {
            list.append(k + 100, format!("{} of {}", k, round));
            assert_eq!(list.len(), k + 1);
            for l in 0..=5usize {
                let mut iter = list.iter_level(l);
                assert_eq!(iter.next().map(|e| e.0), Some(100));
            }
        }
        assert_eq!(list.max_level(), 5);
    }
}
