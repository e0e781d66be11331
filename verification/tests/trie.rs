use iot_structures::devices::IoTDevice;
use iot_structures::trie::{characters, position, put, BestDeviceRegistry, Node};
use rand::thread_rng;
use rand::Rng;
use std::cell::RefCell;

fn new_device_with_id_path(id: u64, path: impl Into<String>) -> IoTDevice {
    IoTDevice::new(id, format!("My address is {}", id), path.into())
}

#[test]
fn trie_add() {
    let mut trie = BestDeviceRegistry::new_empty();
    let len = 10;

    let mut rng = thread_rng();

    for i in 0..len {
        trie.add(new_device_with_id_path(
            i,
            format!("factory{}/machineA/{}", rng.gen_range(0..len), i),
        ));
    }

    assert_eq!(trie.length, len);
}

#[test]
fn trie_walk_in_order() {
    let mut trie = BestDeviceRegistry::new_empty();
    let len = 10;

    let mut rng = thread_rng();
    let items: Vec<IoTDevice> = (0..len)
        .map(|i| {
            new_device_with_id_path(
                i,
                format!("factory{}/machineA/{}", rng.gen_range(0..len), i),
            )
        })
        .collect();

    for item in items.iter() {
        trie.add(item.clone());
    }
    assert_eq!(trie.length, len);
    let v: RefCell<Vec<IoTDevice>> = RefCell::new(vec![]);
    trie.walk(|n| v.borrow_mut().push(n.clone()));
    let mut items = items;
    // sort in descending order:
    items.sort_by(|a, b| b.numerical_id.cmp(&a.numerical_id));
    let mut actual = v.into_inner();
    actual.sort_by(|a, b| b.numerical_id.cmp(&a.numerical_id));
    assert_eq!(actual, items)
}

#[test]
fn trie_find() {
    let mut trie = BestDeviceRegistry::new_empty();
    let len = 10;

    let mut rng = thread_rng();
    let mut paths = vec![];
    for i in 0..len {
        let s = format!("factory{}/machineA/{}", rng.gen_range(0..len), i);
        trie.add(new_device_with_id_path(i, s.clone()));
        paths.push(s);
    }

    assert_eq!(trie.length, len);
    assert_eq!(trie.find("100"), None);
}

#[test]
fn trie_finds_what_was_stored() {
    let mut trie = BestDeviceRegistry::new_empty();
    assert_eq!(trie.find("a"), None);
    assert_eq!(trie.find(""), None);
    trie.add(new_device_with_id_path(1, "a/b"));
    trie.add(new_device_with_id_path(2, "a/c"));
    trie.add(new_device_with_id_path(3, "ä/ü"));
    trie.add(new_device_with_id_path(4, "a"));
    // a device without a path is not stored
    trie.add(new_device_with_id_path(5, ""));
    assert_eq!(trie.length, 4);
    assert_eq!(trie.find("a/b"), Some(new_device_with_id_path(1, "a/b")));
    assert_eq!(trie.find("a/c").map(|d| d.numerical_id), Some(2));
    assert_eq!(trie.find("ä/ü").map(|d| d.numerical_id), Some(3));
    assert_eq!(trie.find("a").map(|d| d.numerical_id), Some(4));
    assert_eq!(trie.find("a/"), None);
    assert_eq!(trie.find("b"), None);
    // a path that goes on behind a stored one ends at the stored one
    assert_eq!(trie.find("a/b/c").map(|d| d.numerical_id), Some(1));
    assert_eq!(trie.find("ax").map(|d| d.numerical_id), Some(4));
    // a second device under a path takes the place of the first, and is counted
    trie.add(new_device_with_id_path(6, "a/b"));
    assert_eq!(trie.length, 5);
    assert_eq!(trie.find("a/b").map(|d| d.numerical_id), Some(6));
    let seen: RefCell<Vec<u64>> = RefCell::new(vec![]);
    trie.walk(|d| seen.borrow_mut().push(d.numerical_id));
    assert_eq!(seen.into_inner(), vec![6, 2, 4, 3]);
}

#[test]
fn trie_nodes() {
    let node = Node::new('x', None);
    assert_eq!(node.key, 'x');
    assert!(node.value.is_none() && node.next.is_empty());
    assert_eq!(characters("aä/"), vec!['a', 'ä', '/']);
    assert_eq!(characters(""), Vec::<char>::new());
    let mut level: Vec<Box<Node>> = vec![];
    put(&mut level, &vec!['b', 'a'], 0, new_device_with_id_path(1, "ba"));
    put(&mut level, &vec!['a'], 0, new_device_with_id_path(2, "a"));
    put(&mut level, &vec!['z', 'b'], 1, new_device_with_id_path(3, "b"));
    let keys: Vec<char> = level.iter().map(|n| n.key).collect();
    assert_eq!(keys, vec!['b', 'a']);
    assert_eq!(level[0].value.as_ref().map(|d| d.numerical_id), Some(3));
    assert_eq!(position(&level, 'a'), Some(1));
    assert_eq!(position(&level, 'c'), None);
}
