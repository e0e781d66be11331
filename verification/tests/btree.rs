use iot_structures::btree::{DeviceDatabase, Direction, Node, NodeType};
use iot_structures::devices::IoTDevice;
use rand::seq::SliceRandom;
use rand::thread_rng;
use std::cell::RefCell;

fn new_device_with_id(id: u64) -> IoTDevice {
    IoTDevice::new(id, format!("My address is {}", id), "".to_owned())
}

#[test]
fn btree_add() {
    let mut tree = DeviceDatabase::new_empty(3);
    tree.add(new_device_with_id(0));
    tree.add(new_device_with_id(2));
    tree.add(new_device_with_id(4));
    tree.add(new_device_with_id(3));
    tree.add(new_device_with_id(5));
    tree.add(new_device_with_id(6));
    tree.add(new_device_with_id(7));

    assert_eq!(tree.length, 7);
    assert!(tree.is_a_valid_btree());
}

#[test]
fn btree_walk_in_order() {
    let len = 7;

    let mut tree = DeviceDatabase::new_empty(3);
    let mut items: Vec<IoTDevice> = (0..len).map(new_device_with_id).collect();

    let mut rng = thread_rng();
    items.shuffle(&mut rng);

    for item in items.iter() {
        tree.add(item.clone());
    }
    assert!(tree.is_a_valid_btree());
    assert_eq!(tree.length, len);
    let v: RefCell<Vec<IoTDevice>> = RefCell::new(vec![]);
    tree.walk(|n| v.borrow_mut().push(n.clone()));
    let mut items = items;
    // sort in descending order:
    items.sort_by(|a, b| a.numerical_id.cmp(&b.numerical_id));
    assert_eq!(v.into_inner(), items)
}

#[test]
fn btree_find() {
    let mut tree = DeviceDatabase::new_empty(3);

    tree.add(new_device_with_id(3));
    tree.add(new_device_with_id(2));
    tree.add(new_device_with_id(1));
    tree.add(new_device_with_id(6));
    tree.add(new_device_with_id(4));
    tree.add(new_device_with_id(5));
    tree.add(new_device_with_id(7));

    assert!(tree.is_a_valid_btree());
    assert_eq!(tree.length, 7);

    assert_eq!(tree.find(100), None);
    assert_eq!(tree.find(4), Some(new_device_with_id(4)));
    assert_eq!(tree.find(3), Some(new_device_with_id(3)));
    assert_eq!(tree.find(2), Some(new_device_with_id(2)));
    assert_eq!(tree.find(1), Some(new_device_with_id(1)));
    assert_eq!(tree.find(5), Some(new_device_with_id(5)));
    assert_eq!(tree.find(6), Some(new_device_with_id(6)));
    assert_eq!(tree.find(7), Some(new_device_with_id(7)));
}

#[test]
fn btree_of_many_devices() {
    for order in [1usize, 2, 3, 4, 7, 64] {
        let mut tree = DeviceDatabase::new_empty(order);
        assert!(!tree.is_a_valid_btree());
        assert_eq!(tree.find(1), None);
        let mut keys: Vec<u64> = (0..300).collect();
        keys.shuffle(&mut thread_rng());
        for (n, k) in keys.iter().enumerate() {
            tree.add(new_device_with_id(*k));
            assert_eq!(tree.length, n as u64 + 1);
        }
        let v: RefCell<Vec<u64>> = RefCell::new(vec![]);
        tree.walk(|n| v.borrow_mut().push(n.numerical_id));
        assert_eq!(v.into_inner(), (0..300).collect::<Vec<u64>>());
        for k in keys.iter() {
            assert_eq!(tree.find(*k), Some(new_device_with_id(*k)));
        }
        assert_eq!(tree.find(300), None);
    }
}

#[test]
fn btree_node_keys() {
    let mut node = Node::new_leaf();
    assert_eq!(node.node_type, NodeType::Leaf);
    assert_eq!(node.len(), 1);
    assert_eq!(node.find_closest_index(5), Direction::Left);
    assert!(node.add_key(10, (Some(new_device_with_id(10)), None)));
    assert!(node.add_key(30, (Some(new_device_with_id(30)), None)));
    assert!(node.add_key(20, (Some(new_device_with_id(20)), None)));
    assert!(node.add_key(20, (Some(IoTDevice::new(20, "second".to_owned(), "".to_owned())), None)));
    let keys: Vec<u64> = node.devices.iter().map(|d| d.as_ref().unwrap().numerical_id).collect();
    assert_eq!(keys, vec![10, 20, 20, 30]);
    assert_eq!(node.devices[2].as_ref().unwrap().address, "second");
    assert_eq!(node.len(), 5);
    assert_eq!(node.find_closest_index(5), Direction::Left);
    assert_eq!(node.find_closest_index(10), Direction::Right(0));
    assert_eq!(node.find_closest_index(25), Direction::Right(2));
    assert_eq!(node.find_closest_index(99), Direction::Right(3));
    assert_eq!(node.find_closest_key(5), 0);
    assert_eq!(node.find_closest_key(25), 20);
    assert_eq!(node.find_closest_key(99), 30);
    assert_eq!(node.get_device(20), Some(&new_device_with_id(20)));
    assert_eq!(node.get_device(25), None);
    assert!(node.get_child(5).is_none());
    assert!(node.get_child(25).is_none());
    // the subtree for 25 lies behind the second device with the key 20
    let taken = node.remove_key(25).unwrap();
    assert_eq!(taken.0, 20);
    assert_eq!((taken.1).0.unwrap().address, "second");
    // the left subtree is taken under the key that was asked for
    let left = node.remove_key(5).unwrap();
    assert_eq!(left.0, 5);
    assert!((left.1).0.is_none() && (left.1).1.is_none());
    assert_eq!(node.len(), 4);
}

#[test]
fn btree_node_split() {
    let mut node = Node::new_leaf();
    for k in [1u64, 2, 3, 4, 5] {
        node.add_key(k, (Some(new_device_with_id(k)), None));
    }
    let (middle, sibling) = node.split();
    assert_eq!(middle.numerical_id, 3);
    let keys = |n: &Node| -> Vec<u64> {
        n.devices.iter().map(|d| d.as_ref().unwrap().numerical_id).collect()
    };
    assert_eq!(keys(&node), vec![1, 2]);
    assert_eq!(keys(&sibling), vec![4, 5]);
    assert_eq!(sibling.node_type, NodeType::Leaf);
    assert!(sibling.left_child.is_none());
    let mut regular = Node::new_regular();
    assert_eq!(regular.node_type, NodeType::Regular);
    regular.add_left_child(Some(node));
    regular.add_key(3, (Some(middle), Some(sibling)));
    assert_eq!(regular.len(), 2);
    assert_eq!(regular.get_child(0).map(|c| c.devices.len()), Some(2));
    assert_eq!(regular.get_child(9).map(|c| keys(c)), Some(vec![4, 5]));
    let (up, right) = regular.split();
    assert_eq!(up.numerical_id, 3);
    assert_eq!(regular.len(), 1);
    assert_eq!(right.len(), 1);
    assert_eq!(right.left_child.as_ref().map(|c| keys(c)), Some(vec![4, 5]));
    let single = Node::new(NodeType::Regular);
    assert!(single.devices.is_empty() && single.children.is_empty());
}

#[test]
fn btree_check_counts_levels() {
    let mut tree = DeviceDatabase::new_empty(3);
    tree.add(new_device_with_id(1));
    assert!(tree.is_a_valid_btree());
    tree.add(new_device_with_id(2));
    tree.add(new_device_with_id(3));
    // the third device parts the root: a root with one device over two leaves
    assert!(tree.is_a_valid_btree());
    let leaf = Node::new_leaf();
    assert_eq!(tree.validate(&leaf, 4), (true, 4, 4));
    let mut regular = Node::new_regular();
    regular.add_left_child(Some(Node::new_leaf()));
    // one subtree only: too few for a root, and for a node of order 3 below the root not
    assert_eq!(tree.validate(&regular, 0), (false, 1, 1));
    assert_eq!(tree.validate(&regular, 1), (true, 2, 2));
    let wide = DeviceDatabase::new_empty(6);
    assert_eq!(wide.validate(&regular, 1), (false, 2, 2));
}

#[test]
fn btree_finds_the_first_device_on_the_way() {
    let mut tree = DeviceDatabase::new_empty(3);
    tree.add(IoTDevice::new(5, "first".to_owned(), "".to_owned()));
    tree.add(IoTDevice::new(5, "second".to_owned(), "".to_owned()));
    assert_eq!(tree.find(5).map(|d| d.address), Some("first".to_owned()));
    assert_eq!(tree.find(4), None);
    assert_eq!(tree.find(6), None);
    let mut leaf = Node::new_leaf();
    leaf.add_key(1, (Some(new_device_with_id(1)), None));
    leaf.add_key(3, (Some(new_device_with_id(3)), None));
    assert_eq!(tree.find_r(&leaf, 3), Some(new_device_with_id(3)));
    assert_eq!(tree.find_r(&leaf, 2), None);
    let mut regular = Node::new_regular();
    regular.add_left_child(Some(leaf));
    let mut right = Node::new_leaf();
    right.add_key(9, (Some(new_device_with_id(9)), None));
    regular.add_key(7, (Some(new_device_with_id(7)), Some(right)));
    assert_eq!(tree.find_r(&regular, 7), Some(new_device_with_id(7)));
    assert_eq!(tree.find_r(&regular, 9), Some(new_device_with_id(9)));
    assert_eq!(tree.find_r(&regular, 1), Some(new_device_with_id(1)));
    assert_eq!(tree.find_r(&regular, 8), None);
    assert_eq!(tree.find_r(&regular, 0), None);
}

#[test]
fn btree_without_devices_is_no_tree() {
    let mut tree = DeviceDatabase::new_empty(3);
    assert!(!tree.is_a_valid_btree());
    assert_eq!(tree.length, 0);
    assert_eq!(tree.find(1), None);
    tree.add(new_device_with_id(1));
    assert!(tree.is_a_valid_btree());
    assert_eq!(tree.length, 1);
}

#[test]
fn btree_stays_valid_with_every_device() {
    for order in [2usize, 3, 4, 5, 8] {
        let mut tree = DeviceDatabase::new_empty(order);
        for k in [50u64, 20, 80, 10, 90, 30, 70, 40, 60, 55, 15, 85, 25, 75, 35, 65, 45, 5, 95, 1] {
            tree.add(new_device_with_id(k));
            assert!(tree.is_a_valid_btree());
        }
        for k in [7u64, 7, 7, 7, 7, 7, 7] {
            tree.add(new_device_with_id(k));
            assert!(tree.is_a_valid_btree());
        }
        assert_eq!(tree.length, 27);
    }
}

#[test]
fn btree_split_keeps_the_order_of_rising_keys() {
    let mut leaf = |keys: &[u64]| -> Box<Node> {
        let mut node = Node::new_leaf();
        for k in keys {
            node.add_key(*k, (Some(new_device_with_id(*k)), None));
        }
        node
    };
    let mut node = Node::new_regular();
    node.add_left_child(Some(leaf(&[1])));
    for k in [10u64, 20, 30, 40, 50] {
        node.add_key(k, (Some(new_device_with_id(k)), Some(leaf(&[k + 1]))));
    }
    let (middle, sibling) = node.split();
    let keys = |n: &Node| -> Vec<u64> {
        n.devices.iter().map(|d| d.as_ref().unwrap().numerical_id).collect()
    };
    let below = |n: &Node| -> Vec<u64> {
        n.children.iter().map(|c| c.as_ref().unwrap().devices[0].as_ref().unwrap().numerical_id).collect()
    };
    assert_eq!(middle.numerical_id, 30);
    assert_eq!(keys(&node), vec![10, 20]);
    assert_eq!(below(&node), vec![11, 21]);
    assert_eq!(keys(&sibling), vec![40, 50]);
    assert_eq!(below(&sibling), vec![41, 51]);
    assert_eq!(sibling.left_child.as_ref().map(|c| keys(c)), Some(vec![31]));
    assert_eq!(node.left_child.as_ref().map(|c| keys(c)), Some(vec![1]));
}

#[test]
fn btree_split_turns_equal_keys_round() {
    let mut node = Node::new_leaf();
    node.devices.push(Some(new_device_with_id(1)));
    node.children.push(None);
    for address in ["a", "b", "c"] {
        node.devices.push(Some(IoTDevice::new(7, address.to_owned(), "".to_owned())));
        node.children.push(None);
    }
    let (middle, sibling) = node.split();
    assert_eq!(middle.address, "b");
    // the sibling takes the last device first, and puts an equal key behind it
    let addresses: Vec<String> =
        sibling.devices.iter().map(|d| d.as_ref().unwrap().address.clone()).collect();
    assert_eq!(addresses, vec!["c".to_owned()]);
    let mut wide = Node::new_leaf();
    for address in ["a", "b", "c", "d", "e"] {
        wide.devices.push(Some(IoTDevice::new(7, address.to_owned(), "".to_owned())));
        wide.children.push(None);
    }
    let (middle, sibling) = wide.split();
    assert_eq!(middle.address, "c");
    let addresses: Vec<String> =
        sibling.devices.iter().map(|d| d.as_ref().unwrap().address.clone()).collect();
    assert_eq!(addresses, vec!["e".to_owned(), "d".to_owned()]);
}

#[test]
fn btree_finds_every_device_with_a_key_of_its_own() {
    for order in [2usize, 3, 4, 5, 7, 16] {
        let mut tree = DeviceDatabase::new_empty(order);
        // 97 keys in an order that jumps about: the multiples of 37 modulo 97
        let keys: Vec<u64> = (1..=97u64).map(|i| (i * 37) % 97 * 3).collect();
        for (n, k) in keys.iter().enumerate() {
            tree.add(IoTDevice::new(*k, format!("device {}", k), "".to_owned()));
            assert!(tree.is_a_valid_btree());
            assert_eq!(tree.length, n as u64 + 1);
            for earlier in keys[..=n].iter() {
                assert_eq!(tree.find(*earlier).map(|d| d.address), Some(format!("device {}", earlier)));
            }
            assert_eq!(tree.find(k + 1), None);
        }
        let seen: RefCell<Vec<u64>> = RefCell::new(vec![]);
        tree.walk(|d| seen.borrow_mut().push(d.numerical_id));
        let mut sorted = keys.clone();
        sorted.sort();
        assert_eq!(seen.into_inner(), sorted);
    }
}

#[test]
fn btree_of_the_smallest_orders_keeps_and_finds_every_device() {
    for order in [0usize, 1] {
        let mut tree = DeviceDatabase::new_empty(order);
        let keys: Vec<u64> = (1..=40u64).map(|i| (i * 17) % 41).collect();
        for (n, k) in keys.iter().enumerate() {
            tree.add(new_device_with_id(*k));
            assert_eq!(tree.length, n as u64 + 1);
            // a node that holds a device holds two subtrees: more than these orders allow
            assert!(!tree.is_a_valid_btree());
            for earlier in keys[..=n].iter() {
                assert_eq!(tree.find(*earlier), Some(new_device_with_id(*earlier)));
            }
        }
        let seen: RefCell<Vec<u64>> = RefCell::new(vec![]);
        tree.walk(|d| seen.borrow_mut().push(d.numerical_id));
        let mut sorted = keys.clone();
        sorted.sort();
        assert_eq!(seen.into_inner(), sorted);
    }
}

#[test]
fn btree_check_tells_the_shape() {
    let mut tree = DeviceDatabase::new_empty(4);
    for k in 1..=30u64 {
        tree.add(new_device_with_id(k));
        assert!(tree.is_a_valid_btree());
        assert_eq!(tree.len(), k);
    }
    // a leaf with more devices than the order allows fails the check
    let mut wide = Node::new_leaf();
    for k in 1..=4u64 {
        wide.add_key(k, (Some(new_device_with_id(k)), None));
    }
    assert_eq!(tree.validate(&wide, 0), (false, 0, 0));
    // leaves on two levels fail it by their levels
    let mut deep = Node::new_regular();
    let mut inner = Node::new_regular();
    inner.add_left_child(Some(Node::new_leaf()));
    inner.add_key(2, (Some(new_device_with_id(2)), Some(Node::new_leaf())));
    deep.add_left_child(Some(inner));
    deep.add_key(5, (Some(new_device_with_id(5)), Some(Node::new_leaf())));
    assert_eq!(tree.validate(&deep, 0), (true, 1, 2));
}
