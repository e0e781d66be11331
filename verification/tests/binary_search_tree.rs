use iot_structures::binary_search_tree::{DeviceRegistry, Node};
use iot_structures::devices::IoTDevice;
use rand::seq::SliceRandom;
use rand::thread_rng;
use std::cell::RefCell;

fn new_device_with_id(id: u64) -> IoTDevice {
    IoTDevice::new(id, format!("My address is {}", id), "".to_owned())
}

fn add_seven() {
    let mut tree = DeviceRegistry::new_empty();
    tree.add(new_device_with_id(4));
    tree.add(new_device_with_id(3));
    tree.add(new_device_with_id(2));
    tree.add(new_device_with_id(1));
    tree.add(new_device_with_id(5));
    tree.add(new_device_with_id(6));
    tree.add(new_device_with_id(7));
    assert_eq!(tree.length, 7);
}

#[test]
fn binary_search_tree_add() {
    add_seven();
}

#[test]
fn lib_binary_search_tree_add() {
    add_seven();
}

fn walk_shuffled() {
    let len = 10;

    let mut tree = DeviceRegistry::new_empty();
    let mut items: Vec<IoTDevice> = (0..len).map(new_device_with_id).collect();

    let mut rng = thread_rng();
    items.shuffle(&mut rng);

    for item in items.iter() {
        tree.add(item.clone());
    }

    assert_eq!(tree.length, len);
    let v: RefCell<Vec<IoTDevice>> = RefCell::new(vec![]);
    tree.walk(|n| v.borrow_mut().push(n.clone()));
    let mut items = items;
    // sort in descending order:
    items.sort_by(|a, b| b.numerical_id.cmp(&a.numerical_id));
    assert_eq!(v.into_inner(), items)
}

#[test]
fn binary_search_tree_walk_in_order() {
    walk_shuffled();
}

#[test]
fn lib_binary_search_tree_walk_in_order() {
    walk_shuffled();
}

fn find_seven() {
    let mut tree = DeviceRegistry::new_empty();

    tree.add(new_device_with_id(4));
    tree.add(new_device_with_id(3));
    tree.add(new_device_with_id(2));
    tree.add(new_device_with_id(1));
    tree.add(new_device_with_id(5));
    tree.add(new_device_with_id(6));
    tree.add(new_device_with_id(7));
    assert_eq!(tree.find(100), None);
    assert_eq!(tree.find(4), Some(new_device_with_id(4)));
    assert_eq!(tree.find(3), Some(new_device_with_id(3)));
    assert_eq!(tree.find(2), Some(new_device_with_id(2)));
    assert_eq!(tree.find(1), Some(new_device_with_id(1)));
    assert_eq!(tree.find(5), Some(new_device_with_id(5)));
    assert_eq!(tree.find(6), Some(new_device_with_id(6)));
    assert_eq!(tree.find(7), Some(new_device_with_id(7)));
    assert_eq!(tree.length, 7);
}

#[test]
fn binary_search_tree_find() {
    find_seven();
}

#[test]
fn lib_binary_search_tree_find() {
    find_seven();
}

#[test]
fn search_tree_keeps_the_shape_of_the_arrivals() {
    let mut tree = DeviceRegistry::new_empty();
    assert!(tree.devices().is_empty());
    assert_eq!(tree.find(1), None);
    for k in [4u64, 2, 6, 4] {
        tree.add(new_device_with_id(k));
    }
    let keys: Vec<u64> = tree.devices().iter().map(|d| d.numerical_id).collect();
    assert_eq!(keys, vec![6, 4, 4, 2]);
    let single = Node::new(new_device_with_id(9));
    let node = single.unwrap();
    assert_eq!(node.dev.numerical_id, 9);
    assert!(node.left.is_none() && node.right.is_none());
    let grown = DeviceRegistry::add_rec(Some(node), new_device_with_id(10));
    let root = grown.unwrap();
    assert_eq!(root.left.as_ref().unwrap().dev.numerical_id, 10);
    assert!(root.right.is_none());
    assert_eq!(
        DeviceRegistry::find_r(&Some(root), 10),
        Some(new_device_with_id(10))
    );
}

#[test]
fn search_tree_finds_the_device_added_first() {
    // a device with a key that the tree holds goes down to the left of the one that holds
    // it: the search meets the earlier one first
    let mut tree = DeviceRegistry::new_empty();
    tree.add(IoTDevice::new(5, "first".to_owned(), "".to_owned()));
    tree.add(new_device_with_id(3));
    tree.add(new_device_with_id(8));
    assert_eq!(tree.find(5).map(|d| d.address), Some("first".to_owned()));
    tree.add(IoTDevice::new(5, "second".to_owned(), "".to_owned()));
    tree.add(new_device_with_id(6));
    assert_eq!(tree.find(5).map(|d| d.address), Some("first".to_owned()));
    tree.add(IoTDevice::new(5, "third".to_owned(), "".to_owned()));
    assert_eq!(tree.find(5).map(|d| d.address), Some("first".to_owned()));
    assert_eq!(tree.find(6), Some(new_device_with_id(6)));
    assert_eq!(tree.find(7), None);
    assert_eq!(tree.len(), 6);
    let addresses: Vec<String> = tree
        .devices()
        .iter()
        .filter(|d| d.numerical_id == 5)
        .map(|d| d.address.clone())
        .collect();
    assert_eq!(addresses, vec!["third".to_owned(), "second".to_owned(), "first".to_owned()]);
}
