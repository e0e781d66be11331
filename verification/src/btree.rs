//! A B-tree of devices: nodes with several devices each, in ascending order of their keys,
//! and a subtree before the first device and behind every device.

use vstd::prelude::*;
use vstd::multiset::Multiset;
use crate::btree_order::{
    keys_between, lacks_key, lemma_leaf_sorted, lemma_lookup_held, lemma_lookup_sorted,
    lemma_regular_sorted, lemma_root_sorted, lemma_split_sorted, sorted, tree_sorted,
};
use crate::btree_shape::{
    height_of, least_for, lemma_all_shaped_insert, lemma_all_shaped_remove, lemma_height,
    lemma_new_root_shaped, lemma_shaped_is_valid, lemma_split_shaped, lemma_valid_is_shaped,
    shaped, tree_shaped,
};
use crate::devices::IoTDevice;

verus! {

#[derive(Clone, Copy, Debug, PartialEq, Eq, Structural)]
pub enum NodeType {
    Leaf,
    Regular,
}

/// Where a key belongs in a node: in the subtree to the left of all devices, or in the one
/// behind the device at a place.
#[derive(Clone, Copy, Debug, PartialEq, Eq, Structural)]
pub enum Direction {
    Left,
    Right(usize),
}

pub struct Node {
    pub devices: Vec<Option<IoTDevice>>,
    pub children: Vec<Option<Box<Node>>>,
    pub left_child: Option<Box<Node>>,
    pub node_type: NodeType,
}

/// A device, with the subtree behind it.
pub type Data = (Option<IoTDevice>, Option<Box<Node>>);

/// What a look through the first `upto` devices for the place of `key` has found: the place
/// of the last device whose key is not larger than `key`, and whether a device with a
/// larger key has ended the look.
pub open spec fn scan(devices: Seq<Option<IoTDevice>>, key: u64, upto: int) -> (Direction, bool)
    decreases upto,
{
    if upto <= 0 || upto > devices.len() {
        (Direction::Left, false)
    } else {
        let (found, ended) = scan(devices, key, upto - 1);
        if ended {
            (found, true)
        } else {
            match devices[upto - 1] {
                Some(dev) => if dev.numerical_id <= key {
                    (Direction::Right((upto - 1) as usize), false)
                } else {
                    (found, true)
                },
                None => (found, false),
            }
        }
    }
}

/// The place of `key` among `devices`: behind the last device before the first one with a
/// larger key whose key is not larger, or to the left of all.
pub open spec fn closest(devices: Seq<Option<IoTDevice>>, key: u64) -> Direction {
    scan(devices, key, devices.len() as int).0
}

/// The place at which `add_key` puts a device with the key `key`.
pub open spec fn slot_for(devices: Seq<Option<IoTDevice>>, key: u64) -> int {
    match closest(devices, key) {
        Direction::Left => 0,
        Direction::Right(p) => p + 1,
    }
}

/// A look that has ended stays as it is.
pub proof fn lemma_scan_ended(devices: Seq<Option<IoTDevice>>, key: u64, from: int, upto: int)
    requires
        0 <= from <= upto <= devices.len(),
        scan(devices, key, from).1,
    ensures
        scan(devices, key, upto) == scan(devices, key, from),
    decreases upto - from,
{
    if from < upto {
        lemma_scan_ended(devices, key, from, upto - 1);
    }
}

/// The place that a look finds is the place of a device.
pub proof fn lemma_scan_place(devices: Seq<Option<IoTDevice>>, key: u64, upto: int)
    requires
        0 <= upto <= devices.len() <= usize::MAX,
    ensures
        scan(devices, key, upto).0 matches Direction::Right(p) ==> p < upto && devices[p as int] is Some,
    decreases upto,
{
    if upto > 0 {
        lemma_scan_place(devices, key, upto - 1);
    }
}

/// The key of a device of a node; 0 where the place is empty.
pub open spec fn key_at(device: Option<IoTDevice>) -> u64 {
    match device {
        Some(d) => d.numerical_id,
        None => 0,
    }
}

/// Every place holds a device, and the keys rise strictly along `devices`.
pub open spec fn keys_rise(devices: Seq<Option<IoTDevice>>) -> bool {
    &&& forall|i: int| 0 <= i < devices.len() ==> (#[trigger] devices[i]) is Some
    &&& forall|i: int, j: int|
        0 <= i < j < devices.len() ==> key_at(#[trigger] devices[i]) < key_at(
            #[trigger] devices[j],
        )
}

/// The devices of a node that has taken those of `devices` by `add_key`, the last one
/// first.
pub open spec fn gathered(devices: Seq<Option<IoTDevice>>) -> Seq<Option<IoTDevice>>
    decreases devices.len(),
{
    if devices.len() == 0 {
        Seq::empty()
    } else {
        let rest = gathered(devices.drop_first());
        rest.insert(slot_for(rest, key_at(devices[0])), devices[0])
    }
}

/// The subtrees of a node that has taken the devices of `devices` by `add_key`, the last one
/// first, each with its subtree of `children`.
pub open spec fn gathered_children(
    devices: Seq<Option<IoTDevice>>,
    children: Seq<Option<Box<Node>>>,
) -> Seq<Option<Box<Node>>>
    decreases devices.len(),
{
    if devices.len() == 0 || children.len() != devices.len() {
        Seq::empty()
    } else {
        let rest = gathered(devices.drop_first());
        gathered_children(devices.drop_first(), children.drop_first()).insert(
            slot_for(rest, key_at(devices[0])),
            children[0],
        )
    }
}

/// Before devices that all have larger keys the place of `key` is to the left.
pub proof fn lemma_scan_left(devices: Seq<Option<IoTDevice>>, key: u64, upto: int)
    requires
        0 <= upto <= devices.len(),
        forall|i: int|
            0 <= i < upto ==> (#[trigger] devices[i]) is Some && key_at(devices[i]) > key,
    ensures
        scan(devices, key, upto).0 == Direction::Left,
    decreases upto,
{
    if upto > 0 {
        lemma_scan_left(devices, key, upto - 1);
    }
}

/// Devices whose keys rise strictly are gathered in their order, and their subtrees with
/// them.
pub proof fn lemma_gathered_in_order(
    devices: Seq<Option<IoTDevice>>,
    children: Seq<Option<Box<Node>>>,
)
    requires
        keys_rise(devices),
        children.len() == devices.len(),
    ensures
        gathered(devices) == devices,
        gathered_children(devices, children) == children,
    decreases devices.len(),
{
    if devices.len() > 0 {
        let rest = devices.drop_first();
        assert forall|i: int, j: int| 0 <= i < j < rest.len() implies key_at(#[trigger] rest[i])
            < key_at(#[trigger] rest[j]) by {
            assert(rest[i] == devices[i + 1] && rest[j] == devices[j + 1]);
        }
        assert forall|i: int| 0 <= i < rest.len() implies (#[trigger] rest[i]) is Some by {
            assert(rest[i] == devices[i + 1]);
        }
        lemma_gathered_in_order(rest, children.drop_first());
        assert forall|i: int| 0 <= i < rest.len() implies (#[trigger] rest[i]) is Some && key_at(
            rest[i],
        ) > key_at(devices[0]) by {
            assert(rest[i] == devices[i + 1]);
        }
        lemma_scan_left(rest, key_at(devices[0]), rest.len() as int);
        assert(rest.insert(0, devices[0]) =~= devices);
        assert(children.drop_first().insert(0, children[0]) =~= children);
    } else {
        assert(devices =~= Seq::empty());
        assert(children =~= Seq::empty());
    }
}

/// `i` is the first place among `devices` of a device with the key `key`.
pub open spec fn is_hit(devices: Seq<Option<IoTDevice>>, key: u64, i: int) -> bool {
    &&& 0 <= i < devices.len()
    &&& devices[i] matches Some(d) && d.numerical_id == key
    &&& forall|j: int|
        0 <= j < i ==> (#[trigger] devices[j] matches Some(d) ==> d.numerical_id != key)
}

/// The first of `devices` with the key `key`.
pub open spec fn device_with(devices: Seq<Option<IoTDevice>>, key: u64) -> Option<IoTDevice> {
    if exists|i: int| is_hit(devices, key, i) {
        devices[choose|i: int| is_hit(devices, key, i)]
    } else {
        None
    }
}

/// There is one first device with a key.
pub proof fn lemma_hit(devices: Seq<Option<IoTDevice>>, key: u64, i: int)
    requires
        is_hit(devices, key, i),
    ensures
        device_with(devices, key) == devices[i],
{
    let f = choose|f: int| is_hit(devices, key, f);
    if f < i {
        assert(devices[f] matches Some(d) ==> d.numerical_id != key);
    }
    if i < f {
        assert(devices[i] matches Some(d) ==> d.numerical_id != key);
    }
}

/// Where no device has the key, there is no first one.
pub proof fn lemma_no_hit(devices: Seq<Option<IoTDevice>>, key: u64)
    requires
        forall|i: int|
            0 <= i < devices.len() ==> (#[trigger] devices[i] matches Some(d) ==> d.numerical_id
                != key),
    ensures
        device_with(devices, key) is None,
{
    if exists|i: int| is_hit(devices, key, i) {
        let f = choose|f: int| is_hit(devices, key, f);
        assert(devices[f] matches Some(d) ==> d.numerical_id != key);
    }
}

/// What the search for the key `id` finds from `node` on: the first device of the node with
/// that key, and where the node has none and is no leaf, what the search finds in the subtree
/// in which the key belongs.
pub open spec fn lookup(node: Node, id: u64) -> Option<IoTDevice>
    decreases node,
{
    match device_with(node.devices@, id) {
        Some(d) => Some(d),
        None => if node.node_type != NodeType::Leaf {
            match closest(node.devices@, id) {
                Direction::Left => lookup_below(node.left_child, id),
                Direction::Right(i) => if i < node.children@.len() {
                    lookup_below(node.children@[i as int], id)
                } else {
                    None
                },
            }
        } else {
            None
        },
    }
}

/// What the search for the key `id` finds in an optional subtree.
pub open spec fn lookup_below(tree: Option<Box<Node>>, id: u64) -> Option<IoTDevice>
    decreases tree,
{
    match tree {
        Some(n) => lookup(*n, id),
        None => None,
    }
}

/// The devices of an optional subtree.
pub open spec fn content_below(tree: Option<Box<Node>>) -> Multiset<IoTDevice>
    decreases tree,
{
    match tree {
        Some(n) => content(*n),
        None => Multiset::empty(),
    }
}

/// An optional device as a multiset.
pub open spec fn one(device: Option<IoTDevice>) -> Multiset<IoTDevice> {
    match device {
        Some(d) => Multiset::singleton(d),
        None => Multiset::empty(),
    }
}

/// The first `upto` devices of a node, with those of the subtrees behind them.
pub open spec fn content_pairs(
    devices: Seq<Option<IoTDevice>>,
    children: Seq<Option<Box<Node>>>,
    upto: int,
) -> Multiset<IoTDevice>
    decreases children, upto,
{
    if upto <= 0 || upto > children.len() || upto > devices.len() {
        Multiset::empty()
    } else {
        content_pairs(devices, children, upto - 1).add(one(devices[upto - 1])).add(
            content_below(children[upto - 1]),
        )
    }
}

/// All devices of the tree below a node.
pub open spec fn content(node: Node) -> Multiset<IoTDevice>
    decreases node,
{
    content_pairs(node.devices@, node.children@, node.children@.len() as int).add(
        content_below(node.left_child),
    )
}

/// An optional subtree is what a node of type `node_type` has for a child: none below a
/// leaf, a well-formed subtree below a regular node.
pub open spec fn child_wf(tree: Option<Box<Node>>, node_type: NodeType) -> bool
    decreases tree,
{
    match node_type {
        NodeType::Leaf => tree is None,
        NodeType::Regular => match tree {
            Some(n) => node_wf(*n),
            None => false,
        },
    }
}

/// The first `upto` subtrees are what a node of type `node_type` has for children.
pub open spec fn children_wf(children: Seq<Option<Box<Node>>>, node_type: NodeType, upto: int) -> bool
    decreases children, upto,
{
    if upto <= 0 || upto > children.len() {
        true
    } else {
        children_wf(children, node_type, upto - 1) && child_wf(children[upto - 1], node_type)
    }
}

/// Every device has its subtree, no place for a device is empty, and the subtrees are
/// what the type of the node asks for.
pub open spec fn node_wf(node: Node) -> bool
    decreases node,
{
    &&& node.devices@.len() == node.children@.len()
    &&& forall|i: int| 0 <= i < node.devices@.len() ==> (#[trigger] node.devices@[i]) is Some
    &&& children_wf(node.children@, node.node_type, node.children@.len() as int)
    &&& child_wf(node.left_child, node.node_type)
}

/// Every one of the first `upto` subtrees is what the type asks for.
pub proof fn lemma_children_wf(children: Seq<Option<Box<Node>>>, node_type: NodeType, upto: int)
    requires
        0 <= upto <= children.len(),
    ensures
        children_wf(children, node_type, upto) <==> forall|i: int|
            0 <= i < upto ==> child_wf(#[trigger] children[i], node_type),
    decreases upto,
{
    if upto > 0 {
        lemma_children_wf(children, node_type, upto - 1);
    }
}

/// The devices of the first `upto` pairs, where a pair was put in at `pos`.
pub proof fn lemma_content_insert(
    devices: Seq<Option<IoTDevice>>,
    children: Seq<Option<Box<Node>>>,
    pos: int,
    device: Option<IoTDevice>,
    tree: Option<Box<Node>>,
    upto: int,
)
    requires
        devices.len() == children.len(),
        0 <= pos <= devices.len(),
        0 <= upto <= devices.len(),
    ensures
        content_pairs(devices.insert(pos, device), children.insert(pos, tree), upto + 1) == if pos
            <= upto {
            content_pairs(devices, children, upto).add(one(device)).add(content_below(tree))
        } else {
            content_pairs(devices, children, upto + 1)
        },
    decreases upto,
{
    broadcast use vstd::multiset::group_multiset_axioms;

    let d2 = devices.insert(pos, device);
    let c2 = children.insert(pos, tree);
    if upto == 0 {
        assert(content_pairs(d2, c2, 0) =~= Multiset::empty());
        if pos == 0 {
            assert(d2[0] == device && c2[0] == tree);
            assert(content_pairs(d2, c2, 1) =~= content_pairs(devices, children, 0).add(
                one(device),
            ).add(content_below(tree)));
        } else {
            assert(d2[0] == devices[0] && c2[0] == children[0]);
            assert(content_pairs(d2, c2, 1) =~= content_pairs(devices, children, 1));
        }
    } else {
        lemma_content_insert(devices, children, pos, device, tree, upto - 1);
        if pos <= upto - 1 {
            assert(d2[upto] == devices[upto - 1] && c2[upto] == children[upto - 1]);
            assert(content_pairs(d2, c2, upto + 1) =~= content_pairs(devices, children, upto).add(
                one(device),
            ).add(content_below(tree)));
        } else if pos == upto {
            assert(d2[upto] == device && c2[upto] == tree);
            assert(content_pairs(d2, c2, upto) == content_pairs(devices, children, upto));
        } else {
            assert(d2[upto] == devices[upto] && c2[upto] == children[upto]);
        }
    }
}

/// The devices of the first `upto` pairs, where the pair at `pos` was taken out.
pub proof fn lemma_content_remove(
    devices: Seq<Option<IoTDevice>>,
    children: Seq<Option<Box<Node>>>,
    pos: int,
    upto: int,
)
    requires
        devices.len() == children.len(),
        0 <= pos < devices.len(),
        0 <= upto < devices.len(),
    ensures
        content_pairs(devices, children, upto + 1) == if pos <= upto {
            content_pairs(devices.remove(pos), children.remove(pos), upto).add(
                one(devices[pos]),
            ).add(content_below(children[pos]))
        } else {
            content_pairs(devices.remove(pos), children.remove(pos), upto + 1)
        },
{
    let d2 = devices.remove(pos);
    let c2 = children.remove(pos);
    assert(d2.insert(pos, devices[pos]) =~= devices);
    assert(c2.insert(pos, children[pos]) =~= children);
    lemma_content_insert(d2, c2, pos, devices[pos], children[pos], upto);
}

/// The pairs of a shorter stretch are those of the first part of a longer one.
pub proof fn lemma_content_prefix(
    devices: Seq<Option<IoTDevice>>,
    children: Seq<Option<Box<Node>>>,
    keep: int,
    upto: int,
)
    requires
        devices.len() == children.len(),
        0 <= upto <= keep <= devices.len(),
    ensures
        content_pairs(devices.subrange(0, keep), children.subrange(0, keep), upto) == content_pairs(
            devices,
            children,
            upto,
        ),
    decreases upto,
{
    if upto > 0 {
        lemma_content_prefix(devices, children, keep, upto - 1);
    }
}

impl Node {
    pub fn new_leaf() -> (node: Box<Node>)
        ensures
            node_wf(*node),
            node.node_type == NodeType::Leaf,
            node.devices@.len() == 0,
            content(*node) == Multiset::<IoTDevice>::empty(),
    {
        let node = Node::new(NodeType::Leaf);
        proof {
            broadcast use vstd::multiset::group_multiset_axioms;

            assert(content(*node) =~= Multiset::<IoTDevice>::empty());
        }
        node
    }

    /// A regular node that waits for its devices and subtrees.
    pub fn new_regular() -> (node: Box<Node>)
        ensures
            node.node_type == NodeType::Regular,
            node.devices@.len() == 0,
            node.children@.len() == 0,
            node.left_child is None,
    {
        Node::new(NodeType::Regular)
    }

    pub fn new(node_type: NodeType) -> (node: Box<Node>)
        ensures
            node.node_type == node_type,
            node.devices@.len() == 0,
            node.children@.len() == 0,
            node.left_child is None,
    {
        Box::new(
            Node { left_child: None, devices: Vec::new(), children: Vec::new(), node_type: node_type },
        )
    }

    /// The number of subtrees below the node, as far as a `usize` counts.
    pub fn len(&self) -> (count: usize)
        ensures
            count == if self.children@.len() < usize::MAX {
                self.children@.len() + 1
            } else {
                usize::MAX as nat
            },
    {
        self.children.len().saturating_add(1)
    }

    /// Parts the node in the middle: the node keeps the devices before the middle one, and
    /// a new node takes those behind it, with the subtree of the middle device to their left.
    /// Returns the middle device and the new node.
    pub fn split(&mut self) -> (parted: (IoTDevice, Box<Node>))
        requires
            node_wf(*old(self)),
            old(self).devices@.len() >= 1,
        ensures
            node_wf(*final(self)),
            node_wf(*parted.1),
            final(self).node_type == old(self).node_type,
            parted.1.node_type == old(self).node_type,
            final(self).devices@ == old(self).devices@.subrange(
                0,
                old(self).devices@.len() as int / 2,
            ),
            final(self).children@ == old(self).children@.subrange(
                0,
                old(self).devices@.len() as int / 2,
            ),
            final(self).left_child == old(self).left_child,
            Some(parted.0) == old(self).devices@[old(self).devices@.len() as int / 2],
            parted.1.devices@.len() == old(self).devices@.len() - old(self).devices@.len() / 2 - 1,
            parted.1.children@.len() == parted.1.devices@.len(),
            parted.1.left_child == old(self).children@[old(self).devices@.len() as int / 2],
            parted.1.devices@ == gathered(
                old(self).devices@.subrange(
                    old(self).devices@.len() as int / 2 + 1,
                    old(self).devices@.len() as int,
                ),
            ),
            parted.1.children@ == gathered_children(
                old(self).devices@.subrange(
                    old(self).devices@.len() as int / 2 + 1,
                    old(self).devices@.len() as int,
                ),
                old(self).children@.subrange(
                    old(self).devices@.len() as int / 2 + 1,
                    old(self).devices@.len() as int,
                ),
            ),
            keys_rise(old(self).devices@) ==> parted.1.devices@ == old(self).devices@.subrange(
                old(self).devices@.len() as int / 2 + 1,
                old(self).devices@.len() as int,
            ) && parted.1.children@ == old(self).children@.subrange(
                old(self).devices@.len() as int / 2 + 1,
                old(self).devices@.len() as int,
            ),
            content(*final(self)).add(Multiset::singleton(parted.0)).add(content(*parted.1))
                == content(*old(self)),
    {
        let mut sibling = Node::new(self.node_type);

        let no_of_devices = self.devices.len();
        let split_at = no_of_devices / 2usize;
        proof {
            lemma_children_wf(self.children@, self.node_type, self.children@.len() as int);
            lemma_content_remove(
                self.devices@,
                self.children@,
                split_at as int,
                self.devices@.len() - 1,
            );
        }

        let dev = self.devices.remove(split_at);
        let node = self.children.remove(split_at);
        let ghost rest_devices = self.devices@;
        let ghost rest_children = self.children@;
        proof {
            let none = rest_devices.subrange(rest_devices.len() as int, rest_devices.len() as int);
            assert(none.len() == 0);
            assert(sibling.devices@ =~= gathered(none));
            assert(sibling.children@ =~= gathered_children(
                none,
                rest_children.subrange(rest_children.len() as int, rest_children.len() as int),
            ));
        }
        proof {
            broadcast use vstd::multiset::group_multiset_axioms;

            assert(content_pairs(sibling.devices@, sibling.children@, 0) =~= Multiset::empty());
            assert(content_pairs(rest_devices, rest_children, rest_devices.len() as int)
                =~= content_pairs(rest_devices, rest_children, rest_devices.len() as int).add(
                content_pairs(sibling.devices@, sibling.children@, 0),
            ));
        }

        let end = self.devices.len();
        let mut k = split_at;
        while k < end
            invariant
                split_at <= k <= end,
                end == rest_devices.len(),
                rest_devices.len() == rest_children.len(),
                self.devices@ == rest_devices.subrange(0, split_at + end - k),
                self.children@ == rest_children.subrange(0, split_at + end - k),
                self.left_child == old(self).left_child,
                self.node_type == old(self).node_type,
                sibling.node_type == old(self).node_type,
                sibling.left_child is None,
                sibling.devices@.len() == k - split_at,
                sibling.children@.len() == k - split_at,
                sibling.devices@ == gathered(
                    rest_devices.subrange(split_at + end - k, end as int),
                ),
                sibling.children@ == gathered_children(
                    rest_devices.subrange(split_at + end - k, end as int),
                    rest_children.subrange(split_at + end - k, end as int),
                ),
                forall|i: int| 0 <= i < rest_devices.len() ==> (#[trigger] rest_devices[i]) is Some,
                forall|i: int|
                    0 <= i < rest_children.len() ==> child_wf(
                        #[trigger] rest_children[i],
                        old(self).node_type,
                    ),
                forall|i: int|
                    0 <= i < sibling.devices@.len() ==> (#[trigger] sibling.devices@[i]) is Some,
                forall|i: int|
                    0 <= i < sibling.children@.len() ==> child_wf(
                        #[trigger] sibling.children@[i],
                        old(self).node_type,
                    ),
                content_pairs(rest_devices, rest_children, rest_devices.len() as int)
                    == content_pairs(self.devices@, self.children@, self.devices@.len() as int).add(
                    content_pairs(
                        sibling.devices@,
                        sibling.children@,
                        sibling.devices@.len() as int,
                    ),
                ),
            decreases end - k,
        {
            let ghost before_devices = self.devices@;
            let ghost before_children = self.children@;
            let ghost sib_devices = sibling.devices@;
            let ghost sib_children = sibling.children@;
            let device = self.devices.pop().unwrap();
            let child = self.children.pop().unwrap();
            let key = device.as_ref().unwrap().numerical_id;
            proof {
                broadcast use vstd::multiset::group_multiset_axioms;

                let last = before_devices.len() - 1;
                assert(before_devices[last] == rest_devices[last]);
                assert(before_children[last] == rest_children[last]);
                let tail = rest_devices.subrange(last, end as int);
                let tail_children = rest_children.subrange(last, end as int);
                assert(tail.drop_first() =~= rest_devices.subrange(last + 1, end as int));
                assert(tail_children.drop_first() =~= rest_children.subrange(last + 1, end as int));
                assert(tail[0] == device && tail_children[0] == child);
                assert(key_at(device) == key);
                assert(self.devices@ =~= rest_devices.subrange(0, split_at + end - (k + 1)));
                assert(self.children@ =~= rest_children.subrange(0, split_at + end - (k + 1)));
                assert(sib_devices.len() <= usize::MAX);
                lemma_scan_place(sib_devices, key, sib_devices.len() as int);
                lemma_content_insert(
                    sib_devices,
                    sib_children,
                    slot_for(sib_devices, key),
                    device,
                    child,
                    sib_devices.len() as int,
                );
                lemma_content_prefix(before_devices, before_children, last, last);
                assert(self.devices@ =~= before_devices.subrange(0, last));
                assert(self.children@ =~= before_children.subrange(0, last));
                assert(content_pairs(before_devices, before_children, last + 1) == content_pairs(
                    before_devices,
                    before_children,
                    last,
                ).add(one(device)).add(content_below(child)));
            }
            sibling.add_key(key, (device, child));
            proof {
                broadcast use vstd::multiset::group_multiset_axioms;

                let pos = slot_for(sib_devices, key);
                assert forall|i: int| 0 <= i < sibling.devices@.len() implies (
                #[trigger] sibling.devices@[i]) is Some by {
                    if i < pos {
                        assert(sibling.devices@[i] == sib_devices[i]);
                    } else if i > pos {
                        assert(sibling.devices@[i] == sib_devices[i - 1]);
                    }
                }
                assert forall|i: int| 0 <= i < sibling.children@.len() implies child_wf(
                    #[trigger] sibling.children@[i],
                    old(self).node_type,
                ) by {
                    if i < pos {
                        assert(sibling.children@[i] == sib_children[i]);
                    } else if i > pos {
                        assert(sibling.children@[i] == sib_children[i - 1]);
                    }
                }
                assert(content_pairs(rest_devices, rest_children, rest_devices.len() as int)
                    =~= content_pairs(self.devices@, self.children@, self.devices@.len() as int).add(
                    content_pairs(
                        sibling.devices@,
                        sibling.children@,
                        sibling.devices@.len() as int,
                    ),
                ));
            }
            k += 1;
        }

        sibling.add_left_child(node);
        proof {
            let n = old(self).devices@.len() as int;
            let upper = old(self).devices@.subrange(split_at + 1, n);
            let upper_children = old(self).children@.subrange(split_at + 1, n);
            assert(rest_devices.subrange(split_at as int, end as int) =~= upper);
            assert(rest_children.subrange(split_at as int, end as int) =~= upper_children);
            if keys_rise(old(self).devices@) {
                assert forall|i: int, j: int| 0 <= i < j < upper.len() implies key_at(
                    #[trigger] upper[i],
                ) < key_at(#[trigger] upper[j]) by {
                    assert(upper[i] == old(self).devices@[split_at + 1 + i]);
                    assert(upper[j] == old(self).devices@[split_at + 1 + j]);
                }
                assert forall|i: int| 0 <= i < upper.len() implies (#[trigger] upper[i]) is Some by {
                    assert(upper[i] == old(self).devices@[split_at + 1 + i]);
                }
                lemma_gathered_in_order(upper, upper_children);
            }
        }
        proof {
            broadcast use vstd::multiset::group_multiset_axioms;

            assert(self.devices@ =~= old(self).devices@.subrange(0, split_at as int));
            assert(self.children@ =~= old(self).children@.subrange(0, split_at as int));
            lemma_children_wf(self.children@, self.node_type, self.children@.len() as int);
            lemma_children_wf(sibling.children@, sibling.node_type, sibling.children@.len() as int);
            assert(content(*self).add(Multiset::singleton(dev.unwrap())).add(content(*sibling))
                =~= content(*old(self)));
        }
        (dev.unwrap(), sibling)
    }

    pub fn add_left_child(&mut self, tree: Option<Box<Node>>)
        ensures
            final(self).left_child == tree,
            final(self).devices == old(self).devices,
            final(self).children == old(self).children,
            final(self).node_type == old(self).node_type,
    {
        self.left_child = tree;
    }

    /// Puts a device and the subtree behind it into the node: behind the device that
    /// `find_closest_index` names for the key, or before all devices.
    pub fn add_key(&mut self, key: u64, value: Data) -> (added: bool)
        requires
            old(self).devices@.len() == old(self).children@.len(),
        ensures
            added,
            final(self).devices@ == old(self).devices@.insert(
                slot_for(old(self).devices@, key),
                value.0,
            ),
            final(self).children@ == old(self).children@.insert(
                slot_for(old(self).devices@, key),
                value.1,
            ),
            final(self).left_child == old(self).left_child,
            final(self).node_type == old(self).node_type,
    {
        proof {
            assert(self.devices.len() == self.devices@.len());
            lemma_scan_place(self.devices@, key, self.devices@.len() as int);
        }
        let pos = match self.find_closest_index(key) {
            Direction::Left => 0,
            Direction::Right(p) => p + 1,
        };
        let (dev, tree) = value;

        if pos >= self.devices.len() {
            self.devices.push(dev);
            self.children.push(tree);
            assert(self.devices@ =~= old(self).devices@.insert(pos as int, dev));
            assert(self.children@ =~= old(self).children@.insert(pos as int, tree));
        } else {
            self.devices.insert(pos, dev);
            self.children.insert(pos, tree);
        }
        true
    }

    /// Takes out of the node the subtree in which `id` belongs, with the device before it:
    /// the left subtree, without a device and under the key `id`, or the subtree behind a
    /// device, with that device and under its key.
    pub fn remove_key(&mut self, id: u64) -> (taken: Option<(u64, Data)>)
        requires
            old(self).devices@.len() == old(self).children@.len(),
        ensures
            taken is Some,
            final(self).node_type == old(self).node_type,
            match closest(old(self).devices@, id) {
                Direction::Left => taken == Some((id, (None::<IoTDevice>, old(self).left_child)))
                    && final(self).left_child is None && final(self).devices == old(self).devices
                    && final(self).children == old(self).children,
                Direction::Right(index) => index < old(self).devices@.len() && old(self).devices@[index as int] is Some
                    && taken == Some(
                    (
                        old(self).devices@[index as int].unwrap().numerical_id,
                        (old(self).devices@[index as int], old(self).children@[index as int]),
                    ),
                ) && final(self).left_child == old(self).left_child && final(self).devices@ == old(self).devices@.remove(index as int) && final(self).children@ == old(self).children@.remove(index as int),
            },
    {
        proof {
            assert(self.devices.len() == self.devices@.len());
            lemma_scan_place(self.devices@, id, self.devices@.len() as int);
        }
        match self.find_closest_index(id) {
            Direction::Left => {
                let tree = self.left_child.take();
                Some((id, (None, tree)))
            },
            Direction::Right(index) => {
                let dev = self.devices.remove(index);
                let tree = self.children.remove(index);
                let key = dev.as_ref().unwrap().numerical_id;
                Some((key, (dev, tree)))
            },
        }
    }

    /// The place of `key` in the node: behind the last device, before the first device
    /// with a larger key, whose key is not larger; to the left where there is none.
    pub fn find_closest_index(&self, key: u64) -> (index: Direction)
        ensures
            index == closest(self.devices@, key),
    {
        let mut index = Direction::Left;
        let mut i: usize = 0;
        while i < self.devices.len()
            invariant
                i <= self.devices@.len(),
                (index, false) == scan(self.devices@, key, i as int),
            ensures
                index == closest(self.devices@, key),
            decreases self.devices@.len() - i,
        {
            if let Some(dev) = &self.devices[i] {
                if dev.numerical_id <= key {
                    index = Direction::Right(i);
                } else {
                    proof {
                        lemma_scan_ended(
                            self.devices@,
                            key,
                            i + 1,
                            self.devices@.len() as int,
                        );
                    }
                    break ;
                }
            }
            i += 1;
        }
        index
    }

    /// The key of the device behind which `id` belongs; the smallest key of all, 0, where it
    /// belongs to the left of all devices.
    pub fn find_closest_key(&self, id: u64) -> (key: u64)
        ensures
            key == match closest(self.devices@, id) {
                Direction::Left => 0,
                Direction::Right(i) => self.devices@[i as int].unwrap().numerical_id,
            },
    {
        proof {
            assert(self.devices.len() == self.devices@.len());
            lemma_scan_place(self.devices@, id, self.devices@.len() as int);
        }
        match self.find_closest_index(id) {
            Direction::Left => u64::MIN,
            Direction::Right(i) => self.devices[i].as_ref().unwrap().numerical_id,
        }
    }

    /// The first device of the node with the key `key`.
    pub fn get_device(&self, key: u64) -> (found: Option<&IoTDevice>)
        ensures
            match found {
                Some(d) => device_with(self.devices@, key) == Some(*d),
                None => device_with(self.devices@, key) is None,
            },
            found matches Some(d) ==> d.numerical_id == key && exists|i: int|
                0 <= i < self.devices@.len() && #[trigger] self.devices@[i] == Some(*d),
            found is None ==> forall|i: int|
                0 <= i < self.devices@.len() ==> (#[trigger] self.devices@[i] matches Some(d)
                    ==> d.numerical_id != key),
    {
        let mut result: Option<&IoTDevice> = None;
        let mut i: usize = 0;
        while i < self.devices.len()
            invariant_except_break
                result is None,
            invariant
                i <= self.devices@.len(),
                forall|j: int|
                    0 <= j < i ==> (#[trigger] self.devices@[j] matches Some(d) ==> d.numerical_id
                        != key),
            ensures
                match result {
                    Some(d) => device_with(self.devices@, key) == Some(*d),
                    None => device_with(self.devices@, key) is None,
                },
                result matches Some(d) ==> d.numerical_id == key && exists|j: int|
                    0 <= j < self.devices@.len() && #[trigger] self.devices@[j] == Some(*d),
                result is None ==> forall|j: int|
                    0 <= j < self.devices@.len() ==> (#[trigger] self.devices@[j] matches Some(d)
                        ==> d.numerical_id != key),
            decreases self.devices@.len() - i,
        {
            if let Some(device) = &self.devices[i] {
                if device.numerical_id == key {
                    result = Some(device);
                    assert(self.devices@[i as int] == Some(*device));
                    proof {
                        lemma_hit(self.devices@, key, i as int);
                    }
                    break ;
                }
            }
            i += 1;
        }
        proof {
            if result is None {
                lemma_no_hit(self.devices@, key);
            }
        }
        result
    }

    /// The subtree in which `key` belongs.
    pub fn get_child(&self, key: u64) -> (child: Option<&Box<Node>>)
        requires
            self.devices@.len() == self.children@.len(),
        ensures
            match closest(self.devices@, key) {
                Direction::Left => match child {
                    Some(c) => self.left_child == Some(*c),
                    None => self.left_child is None,
                },
                Direction::Right(i) => i < self.children@.len() && match child {
                    Some(c) => self.children@[i as int] == Some(*c),
                    None => self.children@[i as int] is None,
                },
            },
    {
        proof {
            assert(self.devices.len() == self.devices@.len());
            lemma_scan_place(self.devices@, key, self.devices@.len() as int);
        }
        match self.find_closest_index(key) {
            Direction::Left => self.left_child.as_ref(),
            Direction::Right(i) => self.children[i].as_ref(),
        }
    }
}

pub open spec fn larger(a: nat, b: nat) -> nat {
    if a >= b {
        a
    } else {
        b
    }
}

pub open spec fn smaller(a: nat, b: nat) -> nat {
    if a <= b {
        a
    } else {
        b
    }
}

/// What the check of a tree finds below `node`, which lies `level` steps below the root, for
/// nodes that may hold `order` subtrees: whether every node keeps to the rules on the number
/// of its subtrees, and the smallest and the largest level of a leaf.
pub open spec fn validate_spec(node: Node, level: nat, order: nat) -> (bool, nat, nat)
    decreases node, 1nat,
{
    let subtrees: nat = if node.children@.len() < usize::MAX {
        node.children@.len() + 1
    } else {
        usize::MAX as nat
    };
    match node.node_type {
        NodeType::Leaf => (subtrees <= order, level, level),
        NodeType::Regular => {
            let min_children: nat = if level > 0 {
                order / 2
            } else {
                2
            };
            let key_rules = subtrees <= order && subtrees >= min_children;
            let first = validate_pairs(
                node.children@,
                node.children@.len() as int,
                level,
                order,
                (key_rules, usize::MAX as nat, level),
            );
            validate_step(node.left_child, level, order, first)
        },
    }
}

/// The level below `level`, as far as a `usize` counts.
pub open spec fn below(level: nat) -> nat {
    if level < usize::MAX {
        level + 1
    } else {
        level
    }
}

/// What the check has found after one more subtree.
pub open spec fn validate_step(
    tree: Option<Box<Node>>,
    level: nat,
    order: nat,
    so_far: (bool, nat, nat),
) -> (bool, nat, nat)
    decreases tree, 2nat,
{
    match tree {
        Some(n) => {
            let stats = validate_spec(*n, below(level), order);
            (so_far.0 && stats.0, smaller(stats.1, so_far.1), larger(stats.2, so_far.2))
        },
        None => so_far,
    }
}

/// What the check has found after the first `upto` subtrees.
pub open spec fn validate_pairs(
    children: Seq<Option<Box<Node>>>,
    upto: int,
    level: nat,
    order: nat,
    start: (bool, nat, nat),
) -> (bool, nat, nat)
    decreases children, upto,
{
    if upto <= 0 || upto > children.len() {
        start
    } else {
        validate_step(
            children[upto - 1],
            level,
            order,
            validate_pairs(children, upto - 1, level, order, start),
        )
    }
}

pub struct DeviceDatabase {
    root: Option<Box<Node>>,
    order: usize,
    pub length: u64,
}

impl DeviceDatabase {
    /// All devices of the database.
    pub closed spec fn content(&self) -> Multiset<IoTDevice> {
        content_below(self.root)
    }

    /// The value of the field `length`.
    pub closed spec fn count(&self) -> nat {
        self.length as nat
    }

    /// The value of the field `length`.
    pub fn len(&self) -> (n: u64)
        ensures
            n == self.count(),
    {
        self.length
    }

    /// The number of subtrees that a node may hold.
    pub closed spec fn order(&self) -> nat {
        self.order as nat
    }

    /// Both databases have one root.
    pub closed spec fn same_root(&self, other: &DeviceDatabase) -> bool {
        self.root == other.root
    }

    /// The tree of the database; none before the first device was added.
    pub closed spec fn tree(&self) -> Option<Box<Node>> {
        self.root
    }

    /// The database has a tree: a device was added.
    pub open spec fn has_root(&self) -> bool {
        self.tree() is Some
    }

    /// A node may hold two subtrees or more, though not as many as a `usize` can count, every
    /// node holds as many as the rules allow, and all leaves lie on one level.
    pub open spec fn balanced(&self) -> bool {
        &&& 2 <= self.order() < usize::MAX
        &&& self.tree() matches Some(tree) ==> shaped(
            *tree,
            height_of(*tree),
            self.order(),
            2,
            self.order(),
        )
    }

    /// The keys are in order: they rise along the devices of every node, and the keys of a
    /// subtree lie between the keys of the devices on its two sides.
    pub open spec fn ordered(&self) -> bool {
        self.tree() matches Some(tree) ==> sorted(*tree)
    }

    /// The devices of the database are those of its tree, the search goes through its tree,
    /// and the nodes of the tree are well formed.
    pub proof fn lemma_tree(&self)
        ensures
            self.content() == content_below(self.tree()),
            forall|id: u64| #[trigger] self.finds(id) == lookup_below(self.tree(), id),
            self.wf() ==> (self.tree() matches Some(tree) ==> node_wf(*tree)),
            self.wf() ==> self.count() == self.content().len(),
    {
    }

    /// In a database in order, the search by the keys finds every device.
    pub proof fn lemma_finds_held(&self, device: IoTDevice)
        requires
            self.wf(),
            self.ordered(),
            self.content().count(device) > 0,
        ensures
            self.finds(device.numerical_id) == Some(device),
    {
        broadcast use vstd::multiset::group_multiset_axioms;

        lemma_lookup_sorted(*self.root.unwrap(), device);
    }

    /// What the search by the keys finds is a device of the database with the key.
    pub proof fn lemma_found_is_held(&self, id: u64)
        requires
            self.wf(),
        ensures
            self.finds(id) matches Some(d) ==> d.numerical_id == id && self.content().count(d) > 0,
    {
        if let Some(tree) = self.root {
            lemma_lookup_held(*tree, id);
        }
    }

    /// In a database in order, two devices with one key are one device.
    pub proof fn lemma_one_device(&self, first: IoTDevice, second: IoTDevice)
        requires
            self.wf(),
            self.ordered(),
            self.content().count(first) > 0,
            self.content().count(second) > 0,
            first.numerical_id == second.numerical_id,
        ensures
            first == second,
    {
        self.lemma_finds_held(first);
        self.lemma_finds_held(second);
    }

    /// What the search for the key `id` finds in the tree.
    pub closed spec fn finds(&self, id: u64) -> Option<IoTDevice> {
        lookup_below(self.root, id)
    }

    /// What the check finds in the tree.
    pub open spec fn validation(&self) -> (bool, nat, nat) {
        match self.tree() {
            Some(tree) => validate_spec(*tree, 0, self.order()),
            None => (false, 0, 0),
        }
    }

    /// The nodes are well formed, and `length` counts the devices.
    pub closed spec fn wf(&self) -> bool {
        &&& self.root matches Some(tree) ==> node_wf(*tree)
        &&& self.length == content_below(self.root).len()
    }

    /// `length` counts the devices.
    pub proof fn lemma_count(&self)
        requires
            self.wf(),
        ensures
            self.content().len() == self.count(),
    {
    }

    /// An empty database whose nodes may hold `order` subtrees each.
    pub fn new_empty(order: usize) -> (database: DeviceDatabase)
        ensures
            database.wf(),
            database.order() == order,
            database.count() == 0,
            database.content() == Multiset::<IoTDevice>::empty(),
            !database.has_root(),
            database.balanced() <==> 2 <= order < usize::MAX,
            database.ordered(),
            forall|id: u64| database.finds(id) is None,
    {
        DeviceDatabase { root: None, length: 0, order: order }
    }

    /// Puts `device` into the database. A database that is balanced stays so. A database in
    /// order that takes a device with a new key stays in order: the search then finds the
    /// device under its key, and under every other key what it found before.
    pub fn add(&mut self, device: IoTDevice)
        requires
            old(self).wf(),
            old(self).count() < u64::MAX,
        ensures
            final(self).wf(),
            final(self).order() == old(self).order(),
            final(self).count() == old(self).count() + 1,
            final(self).content() == old(self).content().insert(device),
            final(self).has_root(),
            old(self).balanced() ==> final(self).balanced(),
            old(self).ordered() && lacks_key(old(self).content(), device.numerical_id) ==> {
                &&& final(self).ordered()
                &&& final(self).finds(device.numerical_id) == Some(device)
                &&& forall|id: u64|
                    id != device.numerical_id ==> #[trigger] final(self).finds(id) == old(self).finds(id)
            },
    {
        let node = if self.root.is_some() {
            self.root.take().unwrap()
        } else {
            Node::new_leaf()
        };
        proof {
            broadcast use vstd::multiset::group_multiset_axioms;

            assert(content(*node) == old(self).content());
            if old(self).root is None {
                assert(sorted(*node));
            }
        }
        let (root, _) = self.add_r(node, device, true);
        proof {
            broadcast use vstd::multiset::group_multiset_axioms;

            assert(content(*root) =~= old(self).content().insert(device));
        }

        self.root = Some(root);
        proof {
            broadcast use vstd::multiset::group_multiset_axioms;

            if old(self).ordered() && lacks_key(old(self).content(), device.numerical_id) {
                self.lemma_finds_held(device);
                assert forall|id: u64| id != device.numerical_id implies #[trigger] self.finds(id)
                    == old(self).finds(id) by {
                    old(self).lemma_found_is_held(id);
                    self.lemma_found_is_held(id);
                    if let Some(d) = old(self).finds(id) {
                        assert(self.content().count(d) > 0);
                        self.lemma_finds_held(d);
                    } else if let Some(d) = self.finds(id) {
                        assert(d != device);
                        assert(old(self).content().count(d) > 0);
                        old(self).lemma_finds_held(d);
                    }
                }
            }
        }
    }

    /// Puts `device` into the tree below `node`, and parts the node where it then holds more
    /// subtrees than a node may. Returns the node, and the middle device with the new node
    /// beside it where the node was parted and is not the root; a root that is parted is
    /// put under a new root.
    #[verifier::rlimit(60)]
    pub fn add_r(&mut self, node: Box<Node>, device: IoTDevice, is_root: bool) -> (grown: (
        Box<Node>,
        Option<Data>,
    ))
        requires
            node_wf(*node),
            old(self).count() < u64::MAX,
        ensures
            node_wf(*grown.0),
            is_root ==> grown.1 is None,
            old(self).order() == 0 && !is_root ==> grown.1 is Some,
            grown.1 matches Some(beside) ==> beside.0 is Some && grown.0.node_type
                == node.node_type && (beside.1 matches Some(sibling) && node_wf(*sibling)
                && sibling.node_type == node.node_type),
            grown.1 is None && !is_root ==> grown.0.node_type == node.node_type,
            content(*grown.0).add(one(data_device(grown.1))).add(content_below(data_tree(grown.1)))
                == content(*node).insert(device),
            final(self).count() == old(self).count() + 1,
            final(self).order() == old(self).order(),
            final(self).same_root(old(self)),
            2 <= old(self).order() < usize::MAX && shaped(
                *node,
                height_of(*node),
                old(self).order(),
                least_for(is_root, old(self).order()),
                old(self).order(),
            ) ==> {
                &&& is_root ==> shaped(
                    *grown.0,
                    height_of(*grown.0),
                    old(self).order(),
                    2,
                    old(self).order(),
                )
                &&& !is_root ==> shaped(
                    *grown.0,
                    height_of(*node),
                    old(self).order(),
                    old(self).order() / 2,
                    old(self).order(),
                )
                &&& grown.1 matches Some(beside) ==> tree_shaped(
                    beside.1,
                    height_of(*node),
                    old(self).order(),
                )
            },
            sorted(*node) && lacks_key(content(*node), device.numerical_id) ==> {
                &&& sorted(*grown.0)
                &&& grown.1 matches Some(beside) ==> keys_between(
                    content(*grown.0),
                    -1,
                    key_at(beside.0) as int,
                ) && tree_sorted(beside.1, key_at(beside.0) as int, u64::MAX + 1)
            },
        decreases node,
    {
        let mut node = node;
        let id = device.numerical_id;
        let ghost start = *node;
        let ghost order = self.order as nat;
        let ghost height = height_of(start);
        let ghost least = least_for(is_root, order);
        let ghost fits = 2 <= order < usize::MAX && shaped(start, height, order, least, order);
        let ghost in_order = sorted(start) && lacks_key(content(start), id);
        proof {
            lemma_node_wf(start);
            assert(node.devices.len() == node.devices@.len());
            lemma_scan_place(node.devices@, id, node.devices@.len() as int);
        }

        match node.node_type {
            NodeType::Leaf => {
                if node.add_key(id, (Some(device), None)) {
                    self.length += 1;
                }
                proof {
                    lemma_put(start.devices@, start.children@, start.node_type, id, Some(device), None);
                    lemma_content_put(*node, start, id, Some(device), None);
                    if in_order {
                        lemma_leaf_sorted(start, *node, device);
                    }
                }
            },
            NodeType::Regular => {
                let (key, (dev, tree)) = node.remove_key(id).unwrap();
                let ghost taken = *node;
                let ghost below = tree;
                proof {
                    lemma_take(start, taken, id, dev, below);
                    assert(taken.devices.len() == taken.devices@.len());
                    lemma_scan_place(taken.devices@, key, taken.devices@.len() as int);
                    if fits {
                        match closest(start.devices@, id) {
                            Direction::Left => {},
                            Direction::Right(index) => {
                                lemma_all_shaped_remove(
                                    start.children@,
                                    index as int,
                                    (height - 1) as nat,
                                    order,
                                );
                            },
                        }
                        lemma_height(*below.unwrap(), (height - 1) as nat, order, order / 2, order);
                    }
                }
                let new = self.add_r(tree.unwrap(), device, false);
                let ghost grown_child = Some(new.0);
                let ghost beside = new.1;
                if dev.is_none() {
                    node.add_left_child(Some(new.0));
                } else {
                    node.add_key(key, (dev, Some(new.0)));
                    proof {
                        lemma_put(
                            taken.devices@,
                            taken.children@,
                            NodeType::Regular,
                            key,
                            dev,
                            grown_child,
                        );
                    }
                }
                let ghost mended = *node;
                proof {
                    lemma_mended(start, taken, mended, key, dev, below, grown_child, device, beside);
                    assert(mended.devices.len() == mended.devices@.len());
                    if fits && dev is Some {
                        lemma_all_shaped_insert(
                            taken.children@,
                            slot_for(taken.devices@, key),
                            grown_child,
                            (height - 1) as nat,
                            order,
                        );
                    }
                }
                if let Some(split_result) = new.1 {
                    let new_id = split_result.0.clone().unwrap();
                    proof {
                        lemma_scan_place(
                            mended.devices@,
                            new_id.numerical_id,
                            mended.devices@.len() as int,
                        );
                    }
                    node.add_key(new_id.numerical_id, split_result);
                    proof {
                        lemma_put(
                            mended.devices@,
                            mended.children@,
                            NodeType::Regular,
                            new_id.numerical_id,
                            split_result.0,
                            split_result.1,
                        );
                        lemma_content_put(
                            *node,
                            mended,
                            new_id.numerical_id,
                            split_result.0,
                            split_result.1,
                        );
                        if fits {
                            lemma_all_shaped_insert(
                                mended.children@,
                                slot_for(mended.devices@, new_id.numerical_id),
                                split_result.1,
                                (height - 1) as nat,
                                order,
                            );
                        }
                    }
                }
                proof {
                    if in_order {
                        lemma_regular_sorted(
                            start,
                            taken,
                            mended,
                            *node,
                            key,
                            dev,
                            below,
                            grown_child.unwrap(),
                            beside,
                            device,
                        );
                    }
                }
            },
        }
        let ghost full = *node;
        proof {
            if fits {
                assert(shaped(full, height, order, least, order + 1));
            }
        }
        proof {
            broadcast use vstd::multiset::group_multiset_axioms;

            lemma_node_ok(*node);
            assert(content(*node) =~= content(start).insert(device));
        }

        if node.len() > self.order {
            let (new_parent, sibling) = node.split();
            proof {
                if fits {
                    lemma_split_shaped(full, *node, *sibling, height, order, least);
                }
                if in_order {
                    lemma_split_sorted(full, *node, *sibling, new_parent);
                }
            }

            // Check if the root node is "full" and add a new level
            if is_root {
                let mut parent = Node::new_regular();
                // Add the former root to the left
                let ghost left_part = *node;
                let ghost right_part = *sibling;
                parent.add_left_child(Some(node));
                let ghost with_left = *parent;
                // Add the new right part as well
                parent.add_key(new_parent.numerical_id, (Some(new_parent), Some(sibling)));
                proof {
                    broadcast use vstd::multiset::group_multiset_axioms;

                    lemma_put(
                        with_left.devices@,
                        with_left.children@,
                        NodeType::Regular,
                        new_parent.numerical_id,
                        Some(new_parent),
                        Some(sibling),
                    );
                    lemma_node_ok(*parent);
                    lemma_content_put(
                        *parent,
                        with_left,
                        new_parent.numerical_id,
                        Some(new_parent),
                        Some(sibling),
                    );
                    assert(content(with_left) =~= content(left_part));
                    assert(content(*parent) =~= content(left_part).add(
                        Multiset::singleton(new_parent),
                    ).add(content(right_part)));
                    assert(content(*parent).add(one(None)).add(content_below(None)) =~= content(
                        start,
                    ).insert(device));
                    assert(with_left.devices@.len() == 0);
                    assert(slot_for(with_left.devices@, new_parent.numerical_id) == 0);
                    assert(with_left.children@ =~= Seq::empty());
                    assert(with_left.devices@ =~= Seq::empty());
                    if fits {
                        lemma_new_root_shaped(node, sibling, *parent, height, order);
                    }
                    if in_order {
                        lemma_root_sorted(node, sibling, *parent, new_parent);
                    }
                }
                (parent, None)
            } else {
                proof {
                    broadcast use vstd::multiset::group_multiset_axioms;

                    assert(content(*node).add(one(Some(new_parent))).add(
                        content_below(Some(sibling)),
                    ) =~= content(start).insert(device));
                }
                (node, Some((Some(new_parent), Some(sibling))))
            }
        } else {
            proof {
                broadcast use vstd::multiset::group_multiset_axioms;

                assert(content(*node).add(one(None)).add(content_below(None)) =~= content(
                    start,
                ).insert(device));
                if fits {
                    lemma_height(*node, height, order, least, order);
                }
            }
            (node, None)
        }
    }

    /// Whether the tree keeps to the rules of a B-tree: no node holds more subtrees than it
    /// may, none but the root fewer than half of that, the root of a tree with subtrees at
    /// least two, and all leaves lie on one level. An empty database is no tree. A tree that
    /// passes has that shape, as far as a `usize` counts its subtrees and levels.
    pub fn is_a_valid_btree(&self) -> (valid: bool)
        ensures
            valid == (self.validation().0 && self.validation().1 == self.validation().2),
            valid ==> self.has_root(),
            self.balanced() && self.has_root() ==> valid,
            valid && self.wf() && self.order() < usize::MAX && self.validation().2 < usize::MAX
                ==> shaped(
                *self.tree().unwrap(),
                height_of(*self.tree().unwrap()),
                self.order(),
                2,
                self.order(),
            ) && height_of(*self.tree().unwrap()) == self.validation().1,
    {
        if let Some(tree) = self.root.as_ref() {
            proof {
                if self.balanced() {
                    lemma_shaped_is_valid(**tree, height_of(**tree), self.order as nat, 2, 0);
                }
                let found = validate_spec(**tree, 0, self.order as nat);
                if self.wf() && self.order < usize::MAX && found.0 && found.1 == found.2 && found.2
                    < usize::MAX {
                    lemma_valid_is_shaped(**tree, 0, self.order as nat);
                    lemma_height(**tree, found.1, self.order as nat, 2, self.order as nat);
                }
            }
            let total = self.validate(tree, 0);
            total.0 && total.1 == total.2
        } else {
            false  // there is no tree

        }
    }

    /// Checks the tree below `node`, which lies `level` steps below the root.
    pub fn validate(&self, node: &Box<Node>, level: usize) -> (stats: (bool, usize, usize))
        ensures
            (stats.0, stats.1 as nat, stats.2 as nat) == validate_spec(
                **node,
                level as nat,
                self.order(),
            ),
        decreases **node,
    {
        match node.node_type {
            NodeType::Leaf => (node.len() <= self.order, level, level),
            NodeType::Regular => {
                // Root node only requires two children, every other node at least half the
                // order
                let min_children = if level > 0 {
                    self.order / 2usize
                } else {
                    2
                };
                let key_rules = node.len() <= self.order && node.len() >= min_children;

                let mut total = (key_rules, usize::MAX, level);
                let ghost start = (key_rules, usize::MAX as nat, level as nat);
                let mut i: usize = 0;
                while i < node.children.len()
                    invariant
                        i <= node.children@.len(),
                        (total.0, total.1 as nat, total.2 as nat) == validate_pairs(
                            node.children@,
                            i as int,
                            level as nat,
                            self.order as nat,
                            start,
                        ),
                    decreases node.children@.len() - i,
                {
                    proof {
                        assert(validate_pairs(
                            node.children@,
                            i + 1,
                            level as nat,
                            self.order as nat,
                            start,
                        ) == validate_step(
                            node.children@[i as int],
                            level as nat,
                            self.order as nat,
                            validate_pairs(
                                node.children@,
                                i as int,
                                level as nat,
                                self.order as nat,
                                start,
                            ),
                        ));
                    }
                    if let Some(tree) = &node.children[i] {
                        let stats = self.validate(tree, level.saturating_add(1));
                        total = (
                            total.0 && stats.0,
                            if stats.1 <= total.1 {
                                stats.1
                            } else {
                                total.1
                            },
                            if stats.2 >= total.2 {
                                stats.2
                            } else {
                                total.2
                            },
                        );
                    }
                    i += 1;
                }
                if let Some(tree) = &node.left_child {
                    let stats = self.validate(tree, level.saturating_add(1));
                    total = (
                        total.0 && stats.0,
                        if stats.1 <= total.1 {
                            stats.1
                        } else {
                            total.1
                        },
                        if stats.2 >= total.2 {
                            stats.2
                        } else {
                            total.2
                        },
                    );
                }
                total
            },
        }
    }

    /// The device with the key `id` that the search by the keys finds: the first with that key
    /// in the first node on its way that holds one. In a database in order that is the one
    /// device with the key, and nothing is found only where no device has it.
    pub fn find(&self, id: u64) -> (found: Option<IoTDevice>)
        requires
            self.wf(),
        ensures
            found == self.finds(id),
            found matches Some(d) ==> d.numerical_id == id && self.content().count(d) > 0,
            !self.has_root() ==> found is None,
            self.ordered() ==> (found is None <==> lacks_key(self.content(), id)),
    {
        proof {
            if self.ordered() && !lacks_key(self.content(), id) {
                let d = choose|d: IoTDevice| #[trigger]
                    self.content().count(d) > 0 && d.numerical_id == id;
                self.lemma_finds_held(d);
            }
        }
        match self.root.as_ref() {
            Some(tree) => self.find_r(tree, id),
            _ => None,
        }
    }

    /// Looks for a device with the key `id` in `node`, and then in the subtree in which the
    /// key belongs.
    pub fn find_r(&self, node: &Box<Node>, id: u64) -> (found: Option<IoTDevice>)
        requires
            node_wf(**node),
        ensures
            found == lookup(**node, id),
            found matches Some(d) ==> d.numerical_id == id && content(**node).count(d) > 0,
        decreases **node,
    {
        match node.get_device(id) {
            Some(device) => {
                proof {
                    let i = choose|i: int|
                        0 <= i < node.devices@.len() && #[trigger] node.devices@[i] == Some(
                            *device,
                        );
                    lemma_content_has_device(
                        node.devices@,
                        node.children@,
                        i,
                        node.children@.len() as int,
                    );
                    broadcast use vstd::multiset::group_multiset_axioms;

                }
                Some(device.clone())
            },
            None => {
                if node.node_type != NodeType::Leaf {
                    proof {
                        lemma_children_wf(
                            node.children@,
                            node.node_type,
                            node.children@.len() as int,
                        );
                        assert(node.devices.len() == node.devices@.len());
                        lemma_scan_place(node.devices@, id, node.devices@.len() as int);
                    }
                    if let Some(tree) = node.get_child(id) {
                        proof {
                            if let Direction::Right(i) = closest(node.devices@, id) {
                                assert(child_wf(node.children@[i as int], node.node_type));
                            }
                        }
                        let found = self.find_r(tree, id);
                        proof {
                            broadcast use vstd::multiset::group_multiset_axioms;

                            if let Direction::Right(i) = closest(node.devices@, id) {
                                lemma_content_has_child(
                                    node.devices@,
                                    node.children@,
                                    i as int,
                                    node.children@.len() as int,
                                );
                            }
                        }
                        found
                    } else {
                        None
                    }
                } else {
                    None
                }
            },
        }
    }

    /// Calls `callback` once for every device: for those of the left subtree, and then for
    /// every device of the node and those of the subtree behind it. The callback has then
    /// been called on every device of the database.
    pub fn walk(&self, callback: impl Fn(&IoTDevice) -> ())
        requires
            forall|d: &IoTDevice| call_requires(callback, (d,)),
        ensures
            forall|d: IoTDevice|
                (#[trigger] self.content().count(d)) > 0 ==> call_ensures(callback, (&d,), ()),
    {
        broadcast use vstd::multiset::group_multiset_axioms;

        if let Some(ref root) = self.root {
            self.walk_in_order(root, &callback);
            assert(self.content() == content(**root));
        } else {
            assert(self.content() == Multiset::<IoTDevice>::empty());
        }
    }

    /// Walks the tree below `node`: the left subtree, and then every device of the node with
    /// the subtree behind it.
    pub fn walk_in_order(&self, node: &Box<Node>, callback: &impl Fn(&IoTDevice) -> ())
        requires
            forall|d: &IoTDevice| call_requires(*callback, (d,)),
        ensures
            forall|d: IoTDevice|
                (#[trigger] content(**node).count(d)) > 0 ==> call_ensures(*callback, (&d,), ()),
        decreases **node,
    {
        broadcast use vstd::multiset::group_multiset_axioms;

        if let Some(ref left) = node.left_child {
            self.walk_in_order(left, callback);
            assert(content_below(node.left_child) == content(**left));
        } else {
            assert(content_below(node.left_child) == Multiset::<IoTDevice>::empty());
        }
        let mut i: usize = 0;
        while i < node.devices.len()
            invariant
                i <= node.devices@.len(),
                forall|d: &IoTDevice| call_requires(*callback, (d,)),
                forall|d: IoTDevice|
                    (#[trigger] content_below(node.left_child).count(d)) > 0 ==> call_ensures(
                        *callback,
                        (&d,),
                        (),
                    ),
                forall|d: IoTDevice|
                    (#[trigger] content_pairs(node.devices@, node.children@, i as int).count(d))
                        > 0 ==> call_ensures(*callback, (&d,), ()),
                i >= node.children@.len() ==> forall|d: IoTDevice|
                    (#[trigger] content_pairs(
                        node.devices@,
                        node.children@,
                        node.children@.len() as int,
                    ).count(d)) > 0 ==> call_ensures(*callback, (&d,), ()),
            decreases node.devices@.len() - i,
        {
            let ghost before = content_pairs(node.devices@, node.children@, i as int);
            let ghost after = content_pairs(node.devices@, node.children@, i + 1);
            let ghost here = one(node.devices@[i as int]);
            let ghost behind = if i < node.children@.len() {
                content_below(node.children@[i as int])
            } else {
                Multiset::empty()
            };
            if let Some(ref k) = node.devices[i] {
                callback(k);
                assert(here == Multiset::singleton(*k));
            } else {
                assert(here == Multiset::<IoTDevice>::empty());
            }
            assert(forall|d: IoTDevice|
                (#[trigger] here.count(d)) > 0 ==> call_ensures(*callback, (&d,), ()));
            if i < node.children.len() {
                if let Some(ref c) = node.children[i] {
                    self.walk_in_order(c, callback);
                    assert(behind == content(**c));
                } else {
                    assert(behind == Multiset::<IoTDevice>::empty());
                }
            }
            assert(forall|d: IoTDevice|
                (#[trigger] behind.count(d)) > 0 ==> call_ensures(*callback, (&d,), ()));
            proof {
                if i < node.children@.len() {
                    assert(after == before.add(here).add(behind));
                } else {
                    assert(after == Multiset::<IoTDevice>::empty());
                }
                assert forall|d: IoTDevice| (#[trigger] after.count(d)) > 0 implies call_ensures(
                    *callback,
                    (&d,),
                    (),
                ) by {
                    assert(before.count(d) > 0 || here.count(d) > 0 || behind.count(d) > 0);
                }
            }
            i += 1;
        }
        proof {
            let pairs = content_pairs(
                node.devices@,
                node.children@,
                node.children@.len() as int,
            );
            if node.children@.len() > node.devices@.len() {
                assert(pairs == Multiset::<IoTDevice>::empty());
            }
            assert(content(**node) == pairs.add(content_below(node.left_child)));
            assert forall|d: IoTDevice| (#[trigger] content(**node).count(d)) > 0 implies call_ensures(
                *callback,
                (&d,),
                (),
            ) by {
                assert(pairs.count(d) > 0 || content_below(node.left_child).count(d) > 0);
            }
        }
    }
}

/// Every device has its subtree, no place for a device is empty, and every subtree is what
/// the type asks for.
pub open spec fn local_ok(
    devices: Seq<Option<IoTDevice>>,
    children: Seq<Option<Box<Node>>>,
    node_type: NodeType,
) -> bool {
    &&& devices.len() == children.len()
    &&& forall|i: int| 0 <= i < devices.len() ==> (#[trigger] devices[i]) is Some
    &&& forall|i: int| 0 <= i < children.len() ==> child_wf(#[trigger] children[i], node_type)
}

/// A well-formed node is in order at every place.
pub proof fn lemma_node_wf(node: Node)
    requires
        node_wf(node),
    ensures
        local_ok(node.devices@, node.children@, node.node_type),
        child_wf(node.left_child, node.node_type),
{
    lemma_children_wf(node.children@, node.node_type, node.children@.len() as int);
}

/// A node that is in order at every place is well formed.
pub proof fn lemma_node_ok(node: Node)
    requires
        local_ok(node.devices@, node.children@, node.node_type),
        child_wf(node.left_child, node.node_type),
    ensures
        node_wf(node),
{
    lemma_children_wf(node.children@, node.node_type, node.children@.len() as int);
}

/// A device and a subtree that are put into a node in order leave it in order.
pub proof fn lemma_put(
    devices: Seq<Option<IoTDevice>>,
    children: Seq<Option<Box<Node>>>,
    node_type: NodeType,
    key: u64,
    device: Option<IoTDevice>,
    tree: Option<Box<Node>>,
)
    requires
        local_ok(devices, children, node_type),
        devices.len() <= usize::MAX,
        device is Some,
        child_wf(tree, node_type),
    ensures
        local_ok(
            devices.insert(slot_for(devices, key), device),
            children.insert(slot_for(devices, key), tree),
            node_type,
        ),
{
    lemma_scan_place(devices, key, devices.len() as int);
    let pos = slot_for(devices, key);
    let d2 = devices.insert(pos, device);
    let c2 = children.insert(pos, tree);
    assert forall|i: int| 0 <= i < d2.len() implies (#[trigger] d2[i]) is Some by {
        if i < pos {
            assert(d2[i] == devices[i]);
        } else if i > pos {
            assert(d2[i] == devices[i - 1]);
        }
    }
    assert forall|i: int| 0 <= i < c2.len() implies child_wf(#[trigger] c2[i], node_type) by {
        if i < pos {
            assert(c2[i] == children[i]);
        } else if i > pos {
            assert(c2[i] == children[i - 1]);
        }
    }
}

/// The devices of a node into which a device and a subtree were put.
pub proof fn lemma_content_put(
    after: Node,
    before: Node,
    key: u64,
    device: Option<IoTDevice>,
    tree: Option<Box<Node>>,
)
    requires
        before.devices@.len() == before.children@.len(),
        before.devices@.len() <= usize::MAX,
        after.devices@ == before.devices@.insert(slot_for(before.devices@, key), device),
        after.children@ == before.children@.insert(slot_for(before.devices@, key), tree),
        after.left_child == before.left_child,
    ensures
        content(after) == content(before).add(one(device)).add(content_below(tree)),
{
    broadcast use vstd::multiset::group_multiset_axioms;

    lemma_scan_place(before.devices@, key, before.devices@.len() as int);
    lemma_content_insert(
        before.devices@,
        before.children@,
        slot_for(before.devices@, key),
        device,
        tree,
        before.devices@.len() as int,
    );
    assert(content(after) =~= content(before).add(one(device)).add(content_below(tree)));
}

/// What holds of a regular node from which the subtree for a key was taken, with the device
/// before it.
pub proof fn lemma_take(
    start: Node,
    taken: Node,
    id: u64,
    device: Option<IoTDevice>,
    below: Option<Box<Node>>,
)
    requires
        node_wf(start),
        start.node_type == NodeType::Regular,
        start.devices@.len() <= usize::MAX,
        taken.node_type == start.node_type,
        match closest(start.devices@, id) {
            Direction::Left => device is None && below == start.left_child && taken.left_child is None
                && taken.devices == start.devices && taken.children == start.children,
            Direction::Right(index) => index < start.devices@.len() && device
                == start.devices@[index as int] && below == start.children@[index as int]
                && taken.left_child == start.left_child && taken.devices@
                == start.devices@.remove(index as int) && taken.children@
                == start.children@.remove(index as int),
        },
    ensures
        local_ok(taken.devices@, taken.children@, NodeType::Regular),
        device is Some ==> child_wf(taken.left_child, NodeType::Regular),
        device is None ==> taken.left_child is None,
        below matches Some(tree) && node_wf(*tree),
        content(start) == content_pairs(
            taken.devices@,
            taken.children@,
            taken.children@.len() as int,
        ).add(content_below(taken.left_child)).add(one(device)).add(content_below(below)),
{
    broadcast use vstd::multiset::group_multiset_axioms;

    lemma_node_wf(start);
    lemma_scan_place(start.devices@, id, start.devices@.len() as int);
    match closest(start.devices@, id) {
        Direction::Left => {
            assert(content(start) =~= content_pairs(
                taken.devices@,
                taken.children@,
                taken.children@.len() as int,
            ).add(content_below(taken.left_child)).add(one(device)).add(content_below(below)));
        },
        Direction::Right(index) => {
            assert(child_wf(start.children@[index as int], NodeType::Regular));
            lemma_content_remove(
                start.devices@,
                start.children@,
                index as int,
                start.devices@.len() - 1,
            );
            assert forall|i: int| 0 <= i < taken.children@.len() implies child_wf(
                #[trigger] taken.children@[i],
                NodeType::Regular,
            ) by {
                if i < index {
                    assert(taken.children@[i] == start.children@[i]);
                } else {
                    assert(taken.children@[i] == start.children@[i + 1]);
                }
            }
            assert forall|i: int| 0 <= i < taken.devices@.len() implies (
            #[trigger] taken.devices@[i]) is Some by {
                if i < index {
                    assert(taken.devices@[i] == start.devices@[i]);
                } else {
                    assert(taken.devices@[i] == start.devices@[i + 1]);
                }
            }
            assert(content(start) =~= content_pairs(
                taken.devices@,
                taken.children@,
                taken.children@.len() as int,
            ).add(content_below(taken.left_child)).add(one(device)).add(content_below(below)));
        },
    }
}

/// What holds of a regular node after the subtree that was taken from it has come back
/// with one device more.
pub proof fn lemma_mended(
    start: Node,
    taken: Node,
    mended: Node,
    key: u64,
    device: Option<IoTDevice>,
    below: Option<Box<Node>>,
    grown: Option<Box<Node>>,
    added: IoTDevice,
    beside: Option<Data>,
)
    requires
        local_ok(taken.devices@, taken.children@, NodeType::Regular),
        taken.devices@.len() <= usize::MAX,
        device is Some ==> child_wf(taken.left_child, NodeType::Regular),
        device is None ==> taken.left_child is None,
        mended.node_type == NodeType::Regular,
        child_wf(grown, NodeType::Regular),
        content(start) == content_pairs(
            taken.devices@,
            taken.children@,
            taken.children@.len() as int,
        ).add(content_below(taken.left_child)).add(one(device)).add(content_below(below)),
        content_below(grown).add(one(data_device(beside))).add(content_below(data_tree(beside)))
            == content_below(below).insert(added),
        device is None ==> mended.left_child == grown && mended.devices == taken.devices
            && mended.children == taken.children,
        device is Some ==> mended.left_child == taken.left_child && mended.devices@
            == taken.devices@.insert(slot_for(taken.devices@, key), device) && mended.children@
            == taken.children@.insert(slot_for(taken.devices@, key), grown),
    ensures
        local_ok(mended.devices@, mended.children@, NodeType::Regular),
        child_wf(mended.left_child, NodeType::Regular),
        content(mended).add(one(data_device(beside))).add(content_below(data_tree(beside)))
            == content(start).insert(added),
{
    broadcast use vstd::multiset::group_multiset_axioms;

    if device is Some {
        lemma_put(taken.devices@, taken.children@, NodeType::Regular, key, device, grown);
        lemma_content_put(mended, taken, key, device, grown);
    }
    let with_rest = content(mended).add(one(data_device(beside))).add(
        content_below(data_tree(beside)),
    );
    let came_back = content_below(grown).add(one(data_device(beside))).add(
        content_below(data_tree(beside)),
    );
    assert forall|d: IoTDevice| with_rest.count(d) == content(start).insert(added).count(d) by {
        assert(came_back.count(d) == content_below(below).insert(added).count(d));
    }
    assert(with_rest =~= content(start).insert(added));
}

/// The device of an optional pair.
pub open spec fn data_device(data: Option<Data>) -> Option<IoTDevice> {
    match data {
        Some(d) => d.0,
        None => None,
    }
}

/// The subtree of an optional pair.
pub open spec fn data_tree(data: Option<Data>) -> Option<Box<Node>> {
    match data {
        Some(d) => d.1,
        None => None,
    }
}

/// A device of a node is among the devices of the node.
pub proof fn lemma_content_has_device(
    devices: Seq<Option<IoTDevice>>,
    children: Seq<Option<Box<Node>>>,
    i: int,
    upto: int,
)
    requires
        devices.len() == children.len(),
        0 <= i < upto <= devices.len(),
        devices[i] is Some,
    ensures
        content_pairs(devices, children, upto).count(devices[i].unwrap()) > 0,
    decreases upto,
{
    broadcast use vstd::multiset::group_multiset_axioms;

    if i < upto - 1 {
        lemma_content_has_device(devices, children, i, upto - 1);
    }
}

/// The devices of a subtree are among the devices of the node.
pub proof fn lemma_content_has_child(
    devices: Seq<Option<IoTDevice>>,
    children: Seq<Option<Box<Node>>>,
    i: int,
    upto: int,
)
    requires
        devices.len() == children.len(),
        0 <= i < upto <= devices.len(),
    ensures
        content_below(children[i]).subset_of(content_pairs(devices, children, upto)),
    decreases upto,
{
    broadcast use vstd::multiset::group_multiset_axioms;

    if i < upto - 1 {
        lemma_content_has_child(devices, children, i, upto - 1);
    }
}

} // verus!
