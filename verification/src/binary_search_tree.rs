//! A binary search tree of devices, without balancing.

use vstd::prelude::*;
use crate::devices::IoTDevice;
use crate::red_black_tree::{
    descending, holds_key, lemma_descending_subrange, lemma_first_among, lemma_grow_left,
    lemma_grow_right, lemma_insert_keeps_descending, lemma_rank_exists, rank,
};

verus! {

pub struct Node {
    pub dev: IoTDevice,
    pub left: Option<Box<Node>>,
    pub right: Option<Box<Node>>,
}

impl Node {
    /// A tree of one node.
    pub fn new(dev: IoTDevice) -> (tree: Option<Box<Node>>)
        ensures
            tree == single(dev),
            in_order(tree) == seq![dev],
    {
        let tree = Some(Box::new(Node { dev: dev, left: None, right: None }));
        proof {
            reveal_with_fuel(in_order, 2);
        }
        assert(in_order(tree) =~= seq![dev]);
        tree
    }
}

/// The tree of one node with the device `dev`.
pub open spec fn single(dev: IoTDevice) -> Option<Box<Node>> {
    Some(Box::new(Node { dev: dev, left: None, right: None }))
}

/// The tree `tree` after `device` has come down to the empty place where it belongs: to the
/// left of every node on its way whose key is not larger than its own, to the right of the
/// others.
pub open spec fn grown(tree: Option<Box<Node>>, device: IoTDevice) -> Option<Box<Node>>
    decreases tree,
{
    match tree {
        None => single(device),
        Some(n) => if n.dev.numerical_id <= device.numerical_id {
            Some(Box::new(Node { dev: n.dev, left: grown(n.left, device), right: n.right }))
        } else {
            Some(Box::new(Node { dev: n.dev, left: n.left, right: grown(n.right, device) }))
        },
    }
}

/// What the search for the key `key` finds from `tree` on: the device of the first node with
/// that key on the way down, which goes to the left of a node with a smaller key and to the
/// right of one with a larger key.
pub open spec fn sought(tree: Option<Box<Node>>, key: u64) -> Option<IoTDevice>
    decreases tree,
{
    match tree {
        None => None,
        Some(n) => if n.dev.numerical_id == key {
            Some(n.dev)
        } else if n.dev.numerical_id < key {
            sought(n.left, key)
        } else {
            sought(n.right, key)
        },
    }
}

/// What the search finds is a device of the tree with the key, and in a tree whose keys
/// descend in order it finds a device wherever the tree holds one with the key.
pub proof fn lemma_sought(tree: Option<Box<Node>>, key: u64)
    ensures
        sought(tree, key) matches Some(d) ==> d.numerical_id == key && in_order(tree).contains(d),
        descending(in_order(tree)) ==> (sought(tree, key) is Some <==> holds_key(
            in_order(tree),
            key,
        )),
    decreases tree,
{
    if let Some(n) = tree {
        let left = in_order(n.left);
        let right = in_order(n.right);
        let all = in_order(tree);
        let at = left.len() as int;
        lemma_sought(n.left, key);
        lemma_sought(n.right, key);
        assert(all[at] == n.dev);
        if let Some(d) = sought(n.left, key) {
            let j = choose|j: int| 0 <= j < left.len() && left[j] == d;
            assert(all[j] == d);
        }
        if let Some(d) = sought(n.right, key) {
            let j = choose|j: int| 0 <= j < right.len() && right[j] == d;
            assert(all[at + 1 + j] == d);
        }
        if descending(all) {
            assert(left =~= all.subrange(0, at));
            assert(right =~= all.subrange(at + 1, all.len() as int));
            lemma_descending_subrange(all, 0, at);
            lemma_descending_subrange(all, at + 1, all.len() as int);
            lemma_first_among(left, n.dev, right, key);
        }
    }
}

/// A device that is found under a key is found under it after every `add`: the first device
/// that was added with a key stays the one that is found. A new device is found under its
/// key where none was found before.
pub proof fn lemma_first_stays(tree: Option<Box<Node>>, device: IoTDevice, key: u64)
    ensures
        sought(grown(tree, device), key) == match sought(tree, key) {
            Some(first) => Some(first),
            None => if device.numerical_id == key {
                Some(device)
            } else {
                None
            },
        },
    decreases tree,
{
    if let Some(n) = tree {
        lemma_first_stays(n.left, device, key);
        lemma_first_stays(n.right, device, key);
    }
}

/// The devices of a tree in order: those to the left of the root, the root's own, those to
/// the right.
pub open spec fn in_order(tree: Option<Box<Node>>) -> Seq<IoTDevice>
    decreases tree,
{
    match tree {
        None => Seq::empty(),
        Some(n) => in_order(n.left) + seq![n.dev] + in_order(n.right),
    }
}

/// A binary search tree: a device with a key that is not smaller than the key of a node is
/// kept to the left of that node.
pub struct DeviceRegistry {
    root: Option<Box<Node>>,
    pub length: u64,
}

impl DeviceRegistry {
    /// The devices in the order of a walk.
    pub closed spec fn view(&self) -> Seq<IoTDevice> {
        in_order(self.root)
    }

    /// The tree of the registry.
    pub closed spec fn tree(&self) -> Option<Box<Node>> {
        self.root
    }

    /// The value of the field `length`.
    pub closed spec fn count(&self) -> nat {
        self.length as nat
    }

    /// The value of the field `length`.
    pub fn len(&self) -> (n: u64)
        ensures
            n == self.count(),
    {
        self.length
    }

    /// The keys descend in order, and `length` counts the devices.
    pub closed spec fn wf(&self) -> bool {
        descending(in_order(self.root)) && self.length == in_order(self.root).len()
    }

    pub proof fn lemma_wf(&self)
        requires
            self.wf(),
        ensures
            descending(self@),
            self@.len() == self.count(),
            self@ == in_order(self.tree()),
    {
    }

    pub fn new_empty() -> (registry: DeviceRegistry)
        ensures
            registry.wf(),
            registry.count() == 0,
            registry.tree() is None,
            registry@ == Seq::<IoTDevice>::empty(),
    {
        proof {
            reveal(descending);
        }
        DeviceRegistry { root: None, length: 0 }
    }

    /// Puts `device` into the tree, before the first device whose key is not larger than
    /// its own.
    pub fn add(&mut self, device: IoTDevice)
        requires
            old(self).wf(),
            old(self).count() < u64::MAX,
        ensures
            final(self).wf(),
            final(self).count() == old(self).count() + 1,
            final(self).tree() == grown(old(self).tree(), device),
            final(self)@ == old(self)@.insert(rank(old(self)@, device.numerical_id) as int, device),
    {
        proof {
            lemma_rank_exists(self@, device.numerical_id);
            lemma_insert_keeps_descending(self@, device);
        }
        self.length += 1;
        let root = self.root.take();
        self.root = Self::add_rec(root, device);
    }

    /// Brings `device` down from `node` to the empty place where it belongs.
    pub fn add_rec(node: Option<Box<Node>>, device: IoTDevice) -> (tree: Option<Box<Node>>)
        requires
            descending(in_order(node)),
        ensures
            tree == grown(node, device),
            in_order(tree) == in_order(node).insert(
                rank(in_order(node), device.numerical_id) as int,
                device,
            ),
        decreases node,
    {
        match node {
            Some(mut n) => {
                let ghost left = in_order(n.left);
                let ghost right = in_order(n.right);
                let ghost all = in_order(node);
                proof {
                    let from = left.len() + 1;
                    assert(left =~= all.subrange(0, left.len() as int));
                    assert(right =~= all.subrange(from as int, all.len() as int));
                    crate::red_black_tree::lemma_descending_subrange(all, 0, left.len() as int);
                    crate::red_black_tree::lemma_descending_subrange(
                        all,
                        from as int,
                        all.len() as int,
                    );
                }
                if n.dev.numerical_id <= device.numerical_id {
                    proof {
                        lemma_grow_left(left, n.dev, right, device);
                    }
                    n.left = Self::add_rec(n.left, device);
                } else {
                    proof {
                        lemma_grow_right(left, n.dev, right, device);
                    }
                    n.right = Self::add_rec(n.right, device);
                }
                Some(n)
            },
            _ => {
                assert(seq![device] =~= Seq::<IoTDevice>::empty().insert(0, device));
                Node::new(device)
            },
        }
    }

    /// The device with the key `numerical_id` that the search meets first on its way down:
    /// of several with that key the one that was added first. `None` where the registry
    /// holds no such device.
    pub fn find(&self, numerical_id: u64) -> (found: Option<IoTDevice>)
        ensures
            found == sought(self.tree(), numerical_id),
            found matches Some(d) ==> d.numerical_id == numerical_id && self@.contains(d),
            self.wf() ==> (found is Some <==> holds_key(self@, numerical_id)),
    {
        Self::find_r(&self.root, numerical_id)
    }

    /// Looks at `node` and then below it: to the left of a node with a smaller key, to the
    /// right of one with a larger key.
    pub fn find_r(node: &Option<Box<Node>>, numerical_id: u64) -> (found: Option<IoTDevice>)
        ensures
            found == sought(*node, numerical_id),
            found matches Some(d) ==> d.numerical_id == numerical_id && in_order(*node).contains(
                d,
            ),
            descending(in_order(*node)) ==> (found is Some <==> holds_key(
                in_order(*node),
                numerical_id,
            )),
        decreases *node,
    {
        proof {
            lemma_sought(*node, numerical_id);
        }
        match node {
            Some(n) => {
                if n.dev.numerical_id == numerical_id {
                    Some(n.dev.clone())
                } else if n.dev.numerical_id < numerical_id {
                    Self::find_r(&n.left, numerical_id)
                } else {
                    Self::find_r(&n.right, numerical_id)
                }
            },
            _ => None,
        }
    }

    /// Calls `callback` once for every device, in order: the largest key first. The callback
    /// has then been called on every device of the registry.
    pub fn walk(&self, callback: impl Fn(&IoTDevice) -> ())
        requires
            forall|i: int| 0 <= i < self@.len() ==> call_requires(callback, (&#[trigger] self@[i],)),
        ensures
            forall|i: int|
                0 <= i < self@.len() ==> call_ensures(callback, (&#[trigger] self@[i],), ()),
    {
        Self::walk_in_order(&self.root, &callback);
    }

    /// Walks the subtree `node`: the left subtree, the node, the right subtree.
    pub fn walk_in_order(node: &Option<Box<Node>>, callback: &impl Fn(&IoTDevice) -> ())
        requires
            forall|i: int|
                0 <= i < in_order(*node).len() ==> call_requires(
                    *callback,
                    (&#[trigger] in_order(*node)[i],),
                ),
        ensures
            forall|i: int|
                0 <= i < in_order(*node).len() ==> call_ensures(
                    *callback,
                    (&#[trigger] in_order(*node)[i],),
                    (),
                ),
        decreases *node,
    {
        if let Some(n) = node {
            let ghost left = in_order(n.left);
            let ghost right = in_order(n.right);
            let ghost all = in_order(*node);
            proof {
                assert(all == left + seq![n.dev] + right);
                assert forall|j: int| 0 <= j < left.len() implies call_requires(
                    *callback,
                    (&#[trigger] left[j],),
                ) by {
                    assert(all[j] == left[j]);
                }
                assert forall|j: int| 0 <= j < right.len() implies call_requires(
                    *callback,
                    (&#[trigger] right[j],),
                ) by {
                    assert(all[left.len() + 1 + j] == right[j]);
                }
                assert(all[left.len() as int] == n.dev);
            }
            Self::walk_in_order(&n.left, callback);
            callback(&n.dev);
            Self::walk_in_order(&n.right, callback);
            proof {
                assert forall|j: int| 0 <= j < all.len() implies call_ensures(
                    *callback,
                    (&#[trigger] all[j],),
                    (),
                ) by {
                    if j < left.len() {
                        assert(all[j] == left[j]);
                    } else if j > left.len() {
                        assert(all[j] == right[j - left.len() - 1]);
                    }
                }
            }
        }
    }

    /// The devices in the order in which `walk` visits them.
    pub fn devices(&self) -> (all: Vec<IoTDevice>)
        ensures
            all@ == self@,
    {
        let mut all: Vec<IoTDevice> = Vec::new();
        Self::collect_in_order(&self.root, &mut all);
        all
    }

    fn collect_in_order(node: &Option<Box<Node>>, all: &mut Vec<IoTDevice>)
        ensures
            final(all)@ == old(all)@ + in_order(*node),
        decreases *node,
    {
        if let Some(n) = node {
            Self::collect_in_order(&n.left, all);
            all.push(n.dev.clone());
            Self::collect_in_order(&n.right, all);
        }
        assert(all@ =~= old(all)@ + in_order(*node));
    }
}

} // verus!
