use iot_structures::trie_set::{gather, mark, position, NetworkDeviceStore, Node, SetIterator, TrieSet};
use std::cell::RefCell;

#[test]
fn trie_set_insert() {
    let mut m = NetworkDeviceStore::new_empty();
    let devices = vec![
        vec![172, 0, 0, 1],
        vec![192, 168, 2, 1],
        vec![172, 11, 0, 1],
        vec![1, 1, 1, 1],
    ];

    for d in devices.iter() {
        m.insert(d)
    }

    assert_eq!(m.length, devices.len() as u64);
}

#[test]
fn trie_set_contains() {
    let mut m = NetworkDeviceStore::new_empty();
    let devices = vec![
        vec![172, 0, 0, 1],
        vec![192, 168, 2, 1],
        vec![172, 11, 0, 1],
        vec![1, 1, 1, 1],
    ];

    for d in devices.iter() {
        m.insert(d);
    }

    assert_eq!(m.length, devices.len() as u64);

    for d in devices.iter() {
        assert!(m.contains(d));
    }
    assert_eq!(m.contains(&vec![8, 8, 8, 8]), false);
}

#[test]
fn trie_set_intersection() {
    let mut a = NetworkDeviceStore::new_empty();
    let mut b = NetworkDeviceStore::new_empty();

    let devices_a = vec![vec![172, 0, 0, 1], vec![1, 1, 1, 1], vec![192, 168, 2, 1]];
    let devices_b = vec![vec![172, 11, 0, 1], vec![1, 1, 1, 1]];

    for d in devices_a.iter() {
        a.insert(d);
    }

    assert_eq!(a.length, devices_a.len() as u64);

    for d in devices_b.iter() {
        b.insert(d)
    }
    assert_eq!(b.length, devices_b.len() as u64);

    let a_and_b = a.intersection(b);
    assert_eq!(a_and_b.length, 1);
    let mut iter = a_and_b.into_iter();
    let mut set: Vec<Vec<u8>> = vec![];
    while let Some(k) = iter.next() {
        set.push(k);
    }
    assert_eq!(set, vec![vec![1, 1, 1, 1]]);
}

#[test]
fn trie_set_difference() {
    let mut a = NetworkDeviceStore::new_empty();
    let mut b = NetworkDeviceStore::new_empty();

    let devices_a = vec![vec![172, 0, 0, 1], vec![192, 168, 2, 1], vec![1, 1, 1, 1]];
    let devices_b = vec![vec![172, 11, 0, 1], vec![1, 1, 1, 1]];

    for d in devices_a.iter() {
        a.insert(d);
    }

    assert_eq!(a.length, devices_a.len() as u64);

    for d in devices_b.iter() {
        b.insert(d);
    }
    assert_eq!(b.length, devices_b.len() as u64);

    let a_not_b = a.difference(b);
    assert_eq!(a_not_b.length, (devices_a.len()) as u64 - 1);

    for d in devices_a.iter().take(2) {
        assert!(a_not_b.contains(d));
    }
}

#[test]
fn trie_set_union() {
    let mut a = NetworkDeviceStore::new_empty();
    let mut b = NetworkDeviceStore::new_empty();

    let devices_a = vec![vec![172, 0, 0, 1], vec![192, 168, 2, 1], vec![1, 1, 1, 1]];
    let devices_b = vec![vec![172, 11, 0, 1], vec![1, 1, 1, 1]];

    for d in devices_a.iter() {
        a.insert(d)
    }

    assert_eq!(a.length, devices_a.len() as u64);

    for d in devices_b.iter() {
        b.insert(d)
    }
    assert_eq!(b.length, devices_b.len() as u64);

    let a_or_b = a.union(b);
    assert_eq!(
        a_or_b.length,
        (devices_b.len() + devices_a.len()) as u64 - 1
    );

    for d in devices_b.iter().chain(devices_a.iter()) {
        assert!(a_or_b.contains(d));
    }
}

fn set_of(keys: &[&[u8]]) -> TrieSet {
    let mut set = TrieSet::new_empty();
    for k in keys {
        set.insert(k);
    }
    set
}

#[test]
fn trie_set_walks_in_ascending_order_below_every_node() {
    let set = set_of(&[&[9], &[1, 2, 3], &[1, 2], &[1], &[1, 1], &[0, 255], &[], &[1, 2]]);
    assert_eq!(set.length, 6);
    let expected: Vec<Vec<u8>> =
        vec![vec![0, 255], vec![1, 1], vec![1, 2, 3], vec![1, 2], vec![1], vec![9]];
    assert_eq!(set.keys(), expected);
    let seen: RefCell<Vec<Vec<u8>>> = RefCell::new(vec![]);
    set.walk(|k| seen.borrow_mut().push(k.to_vec()));
    assert_eq!(seen.into_inner(), expected);
    let mut iter = set.into_iter();
    for k in expected.iter() {
        assert_eq!(iter.next().as_ref(), Some(k));
    }
    assert_eq!(iter.next(), None);
    assert_eq!(iter.next(), None);
}

#[test]
fn trie_set_contains_stops_at_the_last_node_of_the_way() {
    let set = set_of(&[&[1, 2], &[3, 4, 5]]);
    assert!(set.contains(&[1, 2]));
    assert!(!set.contains(&[1]));
    assert!(!set.contains(&[]));
    assert!(!set.contains(&[2]));
    assert!(!set.contains(&[3, 4]));
    assert!(!set.contains(&[3, 4, 6]));
    // a sequence that goes on behind a sequence of the set is found with it
    assert!(set.contains(&[1, 2, 7]));
    assert!(set.contains(&[3, 4, 5, 0, 0]));
    let empty = TrieSet::new_empty();
    assert!(!empty.contains(&[1]));
    assert_eq!(empty.length, 0);
    assert!(empty.keys().is_empty());
}

#[test]
fn trie_set_operations_follow_contains() {
    let a = || set_of(&[&[1, 2], &[1, 2, 3], &[5]]);
    let b = || set_of(&[&[1, 2], &[6]]);
    // [1, 2, 3] goes on behind [1, 2], which `b` holds
    assert_eq!(a().difference(b()).keys(), vec![vec![5u8]]);
    assert_eq!(b().difference(a()).keys(), vec![vec![6u8]]);
    assert_eq!(a().union(b()).keys(), vec![vec![1u8, 2, 3], vec![1, 2], vec![5], vec![6]]);
    // the smaller set is asked: `b`
    assert_eq!(a().intersection(b()).keys(), vec![vec![1u8, 2]]);
    assert_eq!(b().intersection(a()).keys(), vec![vec![1u8, 2]]);
    // of two sets of one size the sequences of the second are taken, and the first is asked
    let c = || set_of(&[&[1, 2, 3], &[9]]);
    assert_eq!(b().intersection(c()).keys(), vec![vec![1u8, 2, 3]]);
    assert_eq!(c().intersection(b()).keys(), Vec::<Vec<u8>>::new());
    let d = || set_of(&[&[1, 2, 3, 4], &[8]]);
    assert_eq!(c().intersection(d()).keys(), vec![vec![1u8, 2, 3, 4]]);
    assert_eq!(d().intersection(c()).keys(), Vec::<Vec<u8>>::new());
    assert!(a().union(TrieSet::new_empty()).keys() == a().keys());
    assert!(TrieSet::new_empty().difference(a()).keys().is_empty());
}

#[test]
fn trie_set_nodes() {
    let node = Node::new(7, true);
    assert_eq!(node.key, 7);
    assert!(node.ends_here);
    assert!(node.next.is_empty());
    let mut level: Vec<Box<Node>> = vec![];
    assert!(mark(&mut level, &[5, 6], 0));
    assert!(mark(&mut level, &[3], 0));
    assert!(!mark(&mut level, &[5, 6], 0));
    // from the second byte on
    assert!(mark(&mut level, &[0, 9], 1));
    let bytes: Vec<u8> = level.iter().map(|n| n.key).collect();
    assert_eq!(bytes, vec![3, 5, 9]);
    assert_eq!(position(&level, 5), Some(1));
    assert_eq!(position(&level, 4), None);
    let mut all = vec![vec![0u8]];
    gather(&level, &vec![1, 1], &mut all);
    assert_eq!(all, vec![vec![0], vec![1, 1, 3], vec![1, 1, 5, 6], vec![1, 1, 9]]);
    let mut iter = SetIterator::new(vec![vec![1], vec![2]], 1);
    assert_eq!(iter.next(), Some(vec![2]));
    assert_eq!(iter.next(), None);
}

#[test]
fn trie_set_counts_every_sequence_once() {
    let a = set_of(&[&[172, 0, 0, 1], &[1, 1, 1, 1], &[192, 168, 2, 1]]);
    let b = set_of(&[&[172, 11, 0, 1], &[1, 1, 1, 1]]);
    assert_eq!(a.len(), 3);
    assert_eq!(b.len(), 2);
    let both = a.union(b);
    assert_eq!(both.len(), 4);
    let keys = both.keys();
    assert_eq!(
        keys,
        vec![vec![1u8, 1, 1, 1], vec![172, 0, 0, 1], vec![172, 11, 0, 1], vec![192, 168, 2, 1]]
    );
    let a = set_of(&[&[172, 0, 0, 1], &[1, 1, 1, 1], &[192, 168, 2, 1]]);
    let b = set_of(&[&[172, 11, 0, 1], &[1, 1, 1, 1]]);
    let common = a.intersection(b);
    assert_eq!(common.len(), 1);
    assert_eq!(common.keys(), vec![vec![1u8, 1, 1, 1]]);
    let a = set_of(&[&[7], &[7, 7], &[7]]);
    assert_eq!(a.len(), 2);
    let same = a.union(set_of(&[&[7, 7], &[7]]));
    assert_eq!(same.len(), 2);
    assert_eq!(same.length, 2);
}
