use iot_structures::devices::IoTDevice;
use iot_structures::red_black_tree::{BetterDeviceRegistry, Color, Node, RBOperation, Rotation};
use rand::seq::SliceRandom;
use rand::thread_rng;
use std::cell::RefCell;

fn new_device_with_id(id: u64) -> IoTDevice {
    IoTDevice::new(id, format!("My address is {}", id), "".to_owned())
}

fn tree_of(keys: &[u64]) -> BetterDeviceRegistry {
    let mut tree = BetterDeviceRegistry::new_empty();
    for k in keys {
        tree.add(new_device_with_id(*k));
    }
    tree
}

fn keys_in_order(tree: &BetterDeviceRegistry) -> Vec<u64> {
    tree.devices().iter().map(|d| d.numerical_id).collect()
}

/// (colour, key, parent, left, right) of every node
fn links(tree: &BetterDeviceRegistry) -> Vec<(Color, u64, Option<usize>, Option<usize>, Option<usize>)> {
    (0..tree.length as usize)
        .map(|i| {
            let n = tree.node(i);
            (n.color, n.dev.numerical_id, n.parent, n.left, n.right)
        })
        .collect()
}

fn assert_parents_agree(tree: &BetterDeviceRegistry) {
    let count = tree.length as usize;
    let mut roots = 0;
    for i in 0..count {
        let n = tree.node(i);
        if let Some(l) = n.left {
            assert_eq!(tree.node(l).parent, Some(i));
            assert!(tree.node(l).dev.numerical_id >= n.dev.numerical_id);
        }
        if let Some(r) = n.right {
            assert_eq!(tree.node(r).parent, Some(i));
            assert!(tree.node(r).dev.numerical_id <= n.dev.numerical_id);
        }
        match n.parent {
            Some(p) => {
                let above = tree.node(p);
                assert!(above.left == Some(i) || above.right == Some(i));
                assert!(above.left != above.right);
            }
            None => {
                roots += 1;
                assert_eq!(tree.root(), Some(i));
            }
        }
    }
    assert_eq!(roots, if count == 0 { 0 } else { 1 });
}

fn add_seven_ascending() {
    let mut tree = BetterDeviceRegistry::new_empty();
    tree.add(new_device_with_id(1));
    tree.add(new_device_with_id(2));
    tree.add(new_device_with_id(3));
    tree.add(new_device_with_id(4));
    tree.add(new_device_with_id(5));
    tree.add(new_device_with_id(6));
    tree.add(new_device_with_id(7));
    assert_eq!(tree.length, 7);
    assert!(tree.is_a_valid_red_black_tree());
}

#[test]
fn red_black_tree_add() {
    add_seven_ascending();
}

#[test]
fn lib_red_black_tree_add() {
    add_seven_ascending();
}

fn walk_shuffled() {
    let len = 10;

    let mut tree = BetterDeviceRegistry::new_empty();
    let mut items: Vec<IoTDevice> = (0..len).map(new_device_with_id).collect();

    let mut rng = thread_rng();
    items.shuffle(&mut rng);

    for item in items.iter() {
        tree.add(item.clone());
    }
    assert!(tree.is_a_valid_red_black_tree());
    assert_eq!(tree.length, len);
    let v: RefCell<Vec<IoTDevice>> = RefCell::new(vec![]);
    tree.walk(|n| v.borrow_mut().push(n.clone()));
    let mut items = items;
    // sort in descending order:
    items.sort_by(|a, b| b.numerical_id.cmp(&a.numerical_id));
    assert_eq!(v.into_inner(), items)
}

#[test]
fn red_black_tree_walk_in_order() {
    walk_shuffled();
}

#[test]
fn lib_red_black_tree_walk_in_order() {
    walk_shuffled();
}

fn find_seven() {
    let mut tree = BetterDeviceRegistry::new_empty();

    tree.add(new_device_with_id(3));
    tree.add(new_device_with_id(2));
    tree.add(new_device_with_id(1));
    tree.add(new_device_with_id(6));
    tree.add(new_device_with_id(4));
    tree.add(new_device_with_id(5));
    tree.add(new_device_with_id(7));

    assert!(tree.is_a_valid_red_black_tree());
    assert_eq!(tree.length, 7);

    assert_eq!(tree.find(100), None);
    assert_eq!(tree.find(4), Some(new_device_with_id(4)));
    assert_eq!(tree.find(3), Some(new_device_with_id(3)));
    assert_eq!(tree.find(2), Some(new_device_with_id(2)));
    assert_eq!(tree.find(1), Some(new_device_with_id(1)));
    assert_eq!(tree.find(5), Some(new_device_with_id(5)));
    assert_eq!(tree.find(6), Some(new_device_with_id(6)));
    assert_eq!(tree.find(7), Some(new_device_with_id(7)));
}

#[test]
fn red_black_tree_find() {
    find_seven();
}

#[test]
fn lib_red_black_tree_find() {
    find_seven();
}

#[test]
fn ascending_keys_walk_descending() {
    let tree = tree_of(&[1, 2, 3, 4, 5, 6, 7]);
    assert!(tree.is_a_valid_red_black_tree());
    assert_eq!(tree.length, 7);
    let v: RefCell<Vec<u64>> = RefCell::new(vec![]);
    tree.walk(|n| v.borrow_mut().push(n.numerical_id));
    assert_eq!(v.into_inner(), vec![7, 6, 5, 4, 3, 2, 1]);
    assert_eq!(keys_in_order(&tree), vec![7, 6, 5, 4, 3, 2, 1]);
    assert_eq!(tree.find(100), None);
    assert_eq!(tree.find(4), Some(new_device_with_id(4)));
    assert_parents_agree(&tree);
}

#[test]
fn ascending_keys_make_the_known_tree() {
    // 1..7 in ascending order: 2 at the root, 4 red below it, 6 black with 5 and 7 red
    let tree = tree_of(&[1, 2, 3, 4, 5, 6, 7]);
    let root = tree.root().unwrap();
    assert_eq!(tree.node(root).dev.numerical_id, 2);
    assert_eq!(tree.node(root).color, Color::Black);
    let four = tree.node(root).left.unwrap();
    assert_eq!(tree.node(four).dev.numerical_id, 4);
    assert_eq!(tree.node(four).color, Color::Red);
    let one = tree.node(root).right.unwrap();
    assert_eq!(tree.node(one).dev.numerical_id, 1);
    assert_eq!(tree.node(one).color, Color::Black);
    let six = tree.node(four).left.unwrap();
    assert_eq!(tree.node(six).dev.numerical_id, 6);
    assert_eq!(tree.node(six).color, Color::Black);
    let three = tree.node(four).right.unwrap();
    assert_eq!(tree.node(three).dev.numerical_id, 3);
    assert_eq!(tree.node(three).color, Color::Black);
    let seven = tree.node(six).left.unwrap();
    let five = tree.node(six).right.unwrap();
    assert_eq!(tree.node(seven).dev.numerical_id, 7);
    assert_eq!(tree.node(five).dev.numerical_id, 5);
    assert_eq!(tree.node(seven).color, Color::Red);
    assert_eq!(tree.node(five).color, Color::Red);
    assert_eq!(tree.validate(tree.root(), Color::Red, 0), (0, 2, 2));
}

#[test]
fn empty_tree() {
    let tree = BetterDeviceRegistry::new_empty();
    assert_eq!(tree.length, 0);
    assert_eq!(tree.root(), None);
    assert!(tree.is_a_valid_red_black_tree());
    assert_eq!(tree.find(1), None);
    assert!(tree.devices().is_empty());
    assert_eq!(tree.validate(None, Color::Red, 0), (0, 0, 0));
    assert_eq!(tree.validate(None, Color::Black, 3), (0, 3, 3));
}

#[test]
fn first_device_is_a_black_root() {
    let tree = tree_of(&[42]);
    let root = tree.root().unwrap();
    assert_eq!(tree.node(root).color, Color::Black);
    assert_eq!(tree.node(root).parent, None);
    assert_eq!(tree.node(root).left, None);
    assert_eq!(tree.node(root).right, None);
    assert_eq!(tree.validate(tree.root(), Color::Red, 0), (0, 1, 1));
}

#[test]
fn new_node_is_red_and_alone() {
    let node = Node::new(new_device_with_id(9));
    assert_eq!(node.color, Color::Red);
    assert_eq!(node.dev, new_device_with_id(9));
    assert_eq!(node.parent, None);
    assert_eq!(node.left, None);
    assert_eq!(node.right, None);
}

#[test]
fn check_sends_equal_and_larger_keys_left() {
    let tree = BetterDeviceRegistry::new_empty();
    let five = new_device_with_id(5);
    assert_eq!(tree.check(&five, &new_device_with_id(5)), RBOperation::LeftNode);
    assert_eq!(tree.check(&five, &new_device_with_id(6)), RBOperation::LeftNode);
    assert_eq!(tree.check(&five, &new_device_with_id(4)), RBOperation::RightNode);
}

#[test]
fn validate_is_repeatable() {
    let tree = tree_of(&[3, 2, 1, 6, 4, 5, 7]);
    let first = tree.validate(tree.root(), Color::Red, 0);
    let second = tree.validate(tree.root(), Color::Red, 0);
    assert_eq!(first, second);
    assert_eq!(first.0, 0);
    assert_eq!(first.1, first.2);
    assert_eq!(tree.is_a_valid_red_black_tree(), tree.is_a_valid_red_black_tree());
}

#[test]
fn validate_flags_a_red_node_below_red() {
    // after a rotation at the root of 1..3 the root is red, and the black heights differ
    let mut tree = tree_of(&[1, 2, 3]);
    assert!(tree.is_a_valid_red_black_tree());
    let root = tree.root().unwrap();
    tree.rotate(root, Rotation::Right);
    assert!(!tree.is_a_valid_red_black_tree());
    let counts = tree.validate(tree.root(), Color::Red, 0);
    assert_eq!(counts, (1, 0, 1));
}

#[test]
fn every_order_of_five_keys_is_valid() {
    let mut keys = vec![1u64, 2, 3, 4, 5];
    let mut seen = 0;
    permute(&mut keys, 0, &mut seen);
    assert_eq!(seen, 120);
}

fn permute(keys: &mut Vec<u64>, from: usize, seen: &mut u32) {
    if from == keys.len() {
        let tree = tree_of(keys);
        assert!(tree.is_a_valid_red_black_tree());
        assert_eq!(tree.length, 5);
        assert_eq!(keys_in_order(&tree), vec![5, 4, 3, 2, 1]);
        assert_parents_agree(&tree);
        for k in keys.iter() {
            assert_eq!(tree.find(*k), Some(new_device_with_id(*k)));
        }
        assert_eq!(tree.find(0), None);
        assert_eq!(tree.find(6), None);
        *seen += 1;
        return;
    }
    for i in from..keys.len() {
        keys.swap(from, i);
        permute(keys, from + 1, seen);
        keys.swap(from, i);
    }
}

#[test]
fn many_random_keys() {
    let mut keys: Vec<u64> = (0..500).map(|k| k * 3).collect();
    let mut rng = thread_rng();
    keys.shuffle(&mut rng);
    let mut tree = BetterDeviceRegistry::new_empty();
    for (n, k) in keys.iter().enumerate() {
        tree.add(new_device_with_id(*k));
        assert_eq!(tree.length, n as u64 + 1);
        if n % 50 == 0 {
            assert!(tree.is_a_valid_red_black_tree());
        }
    }
    assert!(tree.is_a_valid_red_black_tree());
    assert_parents_agree(&tree);
    let mut sorted = keys.clone();
    sorted.sort();
    sorted.reverse();
    assert_eq!(keys_in_order(&tree), sorted);
    for k in keys.iter() {
        assert_eq!(tree.find(*k), Some(new_device_with_id(*k)));
        assert_eq!(tree.find(*k + 1), None);
    }
}

#[test]
fn equal_keys_are_all_kept() {
    let mut tree = BetterDeviceRegistry::new_empty();
    for n in 0..20 {
        tree.add(IoTDevice::new(5, format!("address {}", n), "".to_owned()));
        assert!(tree.is_a_valid_red_black_tree());
    }
    tree.add(new_device_with_id(3));
    tree.add(new_device_with_id(2));
    tree.add(new_device_with_id(8));
    assert!(tree.is_a_valid_red_black_tree());
    assert_eq!(tree.length, 23);
    let keys = keys_in_order(&tree);
    assert_eq!(keys.len(), 23);
    assert_eq!(keys[0], 8);
    assert!(keys[1..21].iter().all(|k| *k == 5));
    assert_eq!(keys[21], 3);
    assert_eq!(keys[22], 2);
    // a later device with a key stands before the earlier ones
    let addresses: Vec<String> = tree.devices().iter().map(|d| d.address.clone()).collect();
    assert_eq!(addresses[1], "address 19");
    assert_eq!(addresses[20], "address 0");
    assert_eq!(tree.find(5).unwrap().numerical_id, 5);
    assert_eq!(tree.find(4), None);
}

#[test]
fn rotation_round_trip_right_then_left() {
    let mut tree = tree_of(&[1, 2, 3, 4, 5, 6, 7]);
    let before = links(&tree);
    let order = keys_in_order(&tree);
    let root = tree.root().unwrap();
    let x = tree.node(root).left.unwrap();
    let y = tree.node(x).left.unwrap();
    tree.rotate(x, Rotation::Right);
    assert_eq!(tree.node(x).parent, Some(y));
    assert_eq!(tree.node(y).right, Some(x));
    assert_eq!(tree.node(y).parent, Some(root));
    assert_eq!(tree.node(root).left, Some(y));
    assert_eq!(keys_in_order(&tree), order);
    assert_parents_agree(&tree);
    assert!(links(&tree) != before);
    tree.rotate(y, Rotation::Left);
    assert_eq!(links(&tree), before);
    assert_eq!(tree.root(), Some(root));
    assert_eq!(keys_in_order(&tree), order);
    assert_parents_agree(&tree);
    assert!(tree.is_a_valid_red_black_tree());
}

#[test]
fn rotation_round_trip_left_then_right_at_the_root() {
    let mut tree = tree_of(&[1, 2, 3, 4, 5, 6, 7]);
    let before = links(&tree);
    let order = keys_in_order(&tree);
    let root = tree.root().unwrap();
    let y = tree.node(root).right.unwrap();
    tree.rotate(root, Rotation::Left);
    assert_eq!(tree.root(), Some(y));
    assert_eq!(tree.node(y).parent, None);
    assert_eq!(tree.node(y).left, Some(root));
    assert_eq!(tree.node(root).parent, Some(y));
    assert_eq!(keys_in_order(&tree), order);
    assert_parents_agree(&tree);
    tree.rotate(y, Rotation::Right);
    assert_eq!(tree.root(), Some(root));
    assert_eq!(links(&tree), before);
    assert_eq!(keys_in_order(&tree), order);
}

#[test]
fn rotation_moves_the_inner_subtree() {
    let mut tree = tree_of(&[1, 2, 3, 4, 5, 6, 7]);
    let root = tree.root().unwrap();
    let x = tree.node(root).left.unwrap();
    let y = tree.node(x).left.unwrap();
    let inner = tree.node(y).right.unwrap();
    let outer = tree.node(y).left.unwrap();
    let other = tree.node(x).right.unwrap();
    tree.rotate(x, Rotation::Right);
    assert_eq!(tree.node(x).left, Some(inner));
    assert_eq!(tree.node(inner).parent, Some(x));
    assert_eq!(tree.node(x).right, Some(other));
    assert_eq!(tree.node(y).left, Some(outer));
    assert_eq!(tree.node(outer).parent, Some(y));
}

#[test]
fn uncle_and_slot() {
    let tree = tree_of(&[1, 2, 3, 4, 5, 6, 7]);
    let root = tree.root().unwrap();
    let four = tree.node(root).left.unwrap();
    let one = tree.node(root).right.unwrap();
    let six = tree.node(four).left.unwrap();
    let three = tree.node(four).right.unwrap();
    assert_eq!(tree.uncle(root), None);
    assert_eq!(tree.uncle(four), None);
    assert_eq!(tree.uncle(six), Some((Some(one), RBOperation::RightNode)));
    assert_eq!(tree.uncle(three), Some((Some(one), RBOperation::RightNode)));
    let seven = tree.node(six).left.unwrap();
    assert_eq!(tree.uncle(seven), Some((Some(three), RBOperation::RightNode)));
    assert_eq!(tree.slot(root, four), RBOperation::LeftNode);
    assert_eq!(tree.slot(root, one), RBOperation::RightNode);
    assert_eq!(tree.slot(four, three), RBOperation::RightNode);
    assert_eq!(tree.parent_color(six), Color::Red);
    assert_eq!(tree.parent_color(four), Color::Black);
}

#[test]
fn find_r_and_walk_in_order_from_a_subtree() {
    let tree = tree_of(&[1, 2, 3, 4, 5, 6, 7]);
    let root = tree.root().unwrap();
    let four = tree.node(root).left;
    assert_eq!(tree.find_r(four, &new_device_with_id(6)), Some(new_device_with_id(6)));
    assert_eq!(tree.find_r(four, &new_device_with_id(1)), None);
    assert_eq!(tree.find_r(None, &new_device_with_id(1)), None);
    let v: RefCell<Vec<u64>> = RefCell::new(vec![]);
    tree.walk_in_order(four, &|n: &IoTDevice| v.borrow_mut().push(n.numerical_id));
    assert_eq!(v.into_inner(), vec![7, 6, 5, 4, 3]);
}

#[test]
fn add_r_hangs_a_red_leaf() {
    let mut tree = tree_of(&[10, 20, 5]);
    let root = tree.root();
    let grown = tree.add_r(root, new_device_with_id(7));
    assert_eq!(grown.0, root);
    assert_eq!(grown.1, 3);
    let leaf = tree.node(3);
    assert_eq!(leaf.color, Color::Red);
    assert_eq!(leaf.dev.numerical_id, 7);
    assert_eq!(leaf.left, None);
    assert_eq!(leaf.right, None);
    let parent = leaf.parent.unwrap();
    assert_eq!(tree.node(parent).dev.numerical_id, 5);
    assert_eq!(tree.node(parent).left, Some(3));
}

#[test]
fn device_equality_ignores_the_path() {
    let a = IoTDevice::new(1, "here".to_owned(), "a/b".to_owned());
    let b = IoTDevice::new(1, "here".to_owned(), "c".to_owned());
    let c = IoTDevice::new(1, "there".to_owned(), "a/b".to_owned());
    let d = IoTDevice::new(2, "here".to_owned(), "a/b".to_owned());
    assert!(a == b);
    assert!(a != c);
    assert!(a != d);
    let copy = a.clone();
    assert_eq!(copy.path, "a/b");
    assert_eq!(copy.address, "here");
    assert_eq!(copy.numerical_id, 1);
}

#[test]
fn red_black_tree_finds_the_device_added_last() {
    let mut tree = BetterDeviceRegistry::new_empty();
    tree.add(IoTDevice::new(5, "first".to_owned(), "".to_owned()));
    assert_eq!(tree.find(5).map(|d| d.address), Some("first".to_owned()));
    for k in [3u64, 8, 1, 9] {
        tree.add(new_device_with_id(k));
    }
    tree.add(IoTDevice::new(5, "second".to_owned(), "".to_owned()));
    assert_eq!(tree.find(5).map(|d| d.address), Some("second".to_owned()));
    for k in [4u64, 6, 7, 2] {
        tree.add(new_device_with_id(k));
    }
    tree.add(IoTDevice::new(5, "third".to_owned(), "".to_owned()));
    assert!(tree.is_a_valid_red_black_tree());
    assert_eq!(tree.find(5).map(|d| d.address), Some("third".to_owned()));
    assert_eq!(tree.find(8), Some(new_device_with_id(8)));
    assert_eq!(tree.len(), 11);
    assert_eq!(tree.length, 11);
}

#[test]
fn twenty_equal_keys_find_the_last() {
    let mut tree = BetterDeviceRegistry::new_empty();
    for n in 0..20 {
        tree.add(IoTDevice::new(5, format!("address {}", n), "".to_owned()));
        assert_eq!(tree.find(5).map(|d| d.address), Some(format!("address {}", n)));
    }
}

#[test]
fn rotation_links_the_risen_node() {
    let mut tree = tree_of(&[1, 2, 3, 4, 5, 6, 7]);
    let top = tree.root().unwrap();
    let left = tree.node(top).left.unwrap();
    tree.rotate(top, Rotation::Right);
    assert_eq!(tree.root(), Some(left));
    assert_eq!(tree.node(left).right, Some(top));
    assert_eq!(tree.node(left).parent, None);
    assert_eq!(tree.node(top).parent, Some(left));
    assert_parents_agree(&tree);
}

#[test]
fn add_r_and_fix_tree_by_hand() {
    // what `add` does, step by step: the leaf comes down from the root, and the colours
    // are put right from the leaf up
    let mut tree = BetterDeviceRegistry::new_empty();
    let root = tree.root();
    assert_eq!(root, None);
    let grown = tree.add_r(root, new_device_with_id(1));
    assert_eq!(grown, (Some(0), 0));
    assert_eq!(tree.root(), Some(0));
    assert_eq!(tree.node(0).color, Color::Red);
    let top = tree.fix_tree(grown.1);
    assert_eq!(top, Some(0));
    assert_eq!(tree.node(0).color, Color::Black);
    assert!(tree.is_a_valid_red_black_tree());
    for k in [2u64, 3, 4, 5, 6, 7] {
        let root = tree.root();
        let grown = tree.add_r(root, new_device_with_id(k));
        assert_eq!(grown.0, root);
        assert_eq!(tree.node(grown.1).color, Color::Red);
        let top = tree.fix_tree(grown.1).unwrap();
        assert_eq!(tree.root(), Some(top));
        assert_eq!(tree.node(top).parent, None);
        assert_eq!(tree.node(top).color, Color::Black);
        assert!(tree.is_a_valid_red_black_tree());
        assert_parents_agree(&tree);
    }
    assert_eq!(keys_in_order(&tree), vec![7, 6, 5, 4, 3, 2, 1]);
    // `length` is raised by `add` alone
    assert_eq!(tree.len(), 0);
}

#[test]
fn add_r_below_a_node_that_is_no_root_leaves_the_root() {
    let mut tree = tree_of(&[10, 20, 5]);
    let root = tree.root().unwrap();
    let left = tree.node(root).left;
    let grown = tree.add_r(left, new_device_with_id(30));
    assert_eq!(grown.0, left);
    assert_eq!(tree.root(), Some(root));
    assert_eq!(tree.node(grown.1).parent.map(|p| tree.node(p).dev.numerical_id), Some(20));
}

#[test]
fn rotation_changes_four_nodes_and_no_other() {
    let mut tree = tree_of(&[1, 2, 3, 4, 5, 6, 7]);
    let before = links(&tree);
    let top = tree.root().unwrap();
    let y = tree.node(top).left.unwrap();
    let inner = tree.node(y).right;
    let outer = tree.node(y).left;
    let far = tree.node(top).right;
    tree.rotate(top, Rotation::Right);
    assert_eq!(tree.node(top).left, inner);
    assert_eq!(tree.node(top).right, far);
    assert_eq!(tree.node(top).parent, Some(y));
    assert_eq!(tree.node(y).right, Some(top));
    assert_eq!(tree.node(y).left, outer);
    assert_eq!(tree.node(y).parent, None);
    assert_eq!(tree.node(inner.unwrap()).parent, Some(top));
    let after = links(&tree);
    for i in 0..before.len() {
        if i != top && i != y && Some(i) != inner {
            assert_eq!(before[i], after[i]);
        }
        assert_eq!(before[i].0, after[i].0);
        assert_eq!(before[i].1, after[i].1);
    }
}
