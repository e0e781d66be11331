//! The order of the keys in a B-tree: what makes the search by the keys find every device.

use vstd::multiset::Multiset;
use vstd::prelude::*;
use crate::btree::{
    child_wf, closest, content, content_below, content_pairs, device_with, is_hit, key_at,
    keys_rise, lemma_content_has_child, lemma_content_has_device, lemma_hit, lemma_no_hit,
    lemma_scan_place, lookup, node_wf, one, scan, slot_for, data_device, data_tree, Data,
    Direction, Node, NodeType,
};
use crate::devices::IoTDevice;

verus! {

/// The key of the device at place `i`, below which the keys behind it do not fall; -1 where
/// there is no such place.
pub open spec fn lower(devices: Seq<Option<IoTDevice>>, i: int) -> int {
    if 0 <= i < devices.len() {
        key_at(devices[i]) as int
    } else {
        -1
    }
}

/// The key of the device behind place `i`, which the keys before it do not reach; above all
/// keys where there is no such device.
pub open spec fn upper(devices: Seq<Option<IoTDevice>>, i: int) -> int {
    if 0 <= i + 1 < devices.len() {
        key_at(devices[i + 1]) as int
    } else {
        u64::MAX + 1
    }
}

/// The keys of the devices of `m` lie between `lo` and `hi`, and are neither.
pub open spec fn keys_between(m: Multiset<IoTDevice>, lo: int, hi: int) -> bool {
    forall|d: IoTDevice| #[trigger] m.count(d) > 0 ==> lo < d.numerical_id < hi
}

/// An optional subtree is in order, with keys between `lo` and `hi`.
pub open spec fn tree_sorted(tree: Option<Box<Node>>, lo: int, hi: int) -> bool
    decreases tree,
{
    match tree {
        Some(node) => sorted(*node) && keys_between(content(*node), lo, hi),
        None => true,
    }
}

/// The keys rise strictly along the devices of the node; the keys of the left subtree lie
/// below the first of them, and the keys of the subtree behind a device between its key and
/// the next; and so in every subtree.
pub open spec fn sorted(node: Node) -> bool
    decreases node,
{
    &&& keys_rise(node.devices@)
    &&& tree_sorted(node.left_child, -1, upper(node.devices@, -1))
    &&& forall|i: int|
        0 <= i < node.children@.len() ==> tree_sorted(
            #[trigger] node.children@[i],
            lower(node.devices@, i),
            upper(node.devices@, i),
        )
}

/// The place before the place of `key`, as a number: -1 for the left.
pub open spec fn place_of(direction: Direction) -> int {
    match direction {
        Direction::Left => -1,
        Direction::Right(p) => p as int,
    }
}

/// Among the first `upto` of devices whose keys rise, the look for `key` finds the last
/// device whose key is not larger: those behind it have larger keys.
pub proof fn lemma_scan_rise(devices: Seq<Option<IoTDevice>>, key: u64, upto: int)
    requires
        keys_rise(devices),
        0 <= upto <= devices.len() <= usize::MAX,
    ensures
        -1 <= place_of(scan(devices, key, upto).0) < upto,
        lower(devices, place_of(scan(devices, key, upto).0)) <= key,
        forall|i: int|
            place_of(scan(devices, key, upto).0) < i < upto ==> key_at(#[trigger] devices[i])
                > key,
        scan(devices, key, upto).1 ==> place_of(scan(devices, key, upto).0) + 1 < upto,
        !scan(devices, key, upto).1 ==> place_of(scan(devices, key, upto).0) == upto - 1,
    decreases upto,
{
    if upto > 0 {
        lemma_scan_rise(devices, key, upto - 1);
        let (found, ended) = scan(devices, key, upto - 1);
        let p = place_of(found);
        assert(devices[upto - 1] is Some);
        if ended {
            assert(key_at(devices[p + 1]) > key);
            if p + 1 < upto - 1 {
                assert(key_at(devices[p + 1]) < key_at(devices[upto - 1]));
            }
        }
    }
}

/// Among devices whose keys rise, the place of a key is behind the one device whose key is
/// not larger while the next key is.
pub proof fn lemma_closest_rise(devices: Seq<Option<IoTDevice>>, key: u64, p: int)
    requires
        keys_rise(devices),
        devices.len() <= usize::MAX,
        -1 <= p < devices.len(),
        lower(devices, p) <= key < upper(devices, p),
    ensures
        place_of(closest(devices, key)) == p,
        slot_for(devices, key) == p + 1,
{
    lemma_scan_rise(devices, key, devices.len() as int);
    let q = place_of(closest(devices, key));
    if q < p {
        assert(key_at(devices[p]) > key);
    }
    if q > p {
        if p + 1 < q {
            assert(key_at(devices[p + 1]) < key_at(devices[q]));
        }
    }
}

/// A device of the tree below a node is a device of the node, or of one of its subtrees:
/// the one at the place that is returned.
pub proof fn lemma_member(
    devices: Seq<Option<IoTDevice>>,
    children: Seq<Option<Box<Node>>>,
    upto: int,
    d: IoTDevice,
) -> (i: int)
    requires
        devices.len() == children.len(),
        0 <= upto <= devices.len(),
        content_pairs(devices, children, upto).count(d) > 0,
    ensures
        0 <= i < upto,
        devices[i] == Some(d) || content_below(children[i]).count(d) > 0,
    decreases upto,
{
    broadcast use vstd::multiset::group_multiset_axioms;

    let last = upto - 1;
    if devices[last] == Some(d) || content_below(children[last]).count(d) > 0 {
        last
    } else {
        assert(one(devices[last]).count(d) == 0);
        lemma_member(devices, children, last, d)
    }
}

/// The keys of the devices of a node, and of the subtrees behind them, lie between `lo` and
/// `hi` where they do so for every device and every subtree.
pub proof fn lemma_pairs_between(
    devices: Seq<Option<IoTDevice>>,
    children: Seq<Option<Box<Node>>>,
    lo: int,
    hi: int,
)
    requires
        devices.len() == children.len(),
        forall|i: int|
            0 <= i < devices.len() ==> (#[trigger] devices[i]) is Some && lo < key_at(devices[i])
                < hi,
        forall|i: int|
            0 <= i < children.len() ==> keys_between(
                content_below(#[trigger] children[i]),
                lo,
                hi,
            ),
    ensures
        keys_between(content_pairs(devices, children, devices.len() as int), lo, hi),
{
    let all = content_pairs(devices, children, devices.len() as int);
    assert forall|d: IoTDevice| #[trigger] all.count(d) > 0 implies lo < d.numerical_id < hi by {
        let i = lemma_member(devices, children, devices.len() as int, d);
        assert(devices[i] is Some);
        assert(keys_between(content_below(children[i]), lo, hi));
    }
}

/// In a tree that is in order, the search by the keys finds every device.
pub proof fn lemma_lookup_sorted(node: Node, d: IoTDevice)
    requires
        node_wf(node),
        sorted(node),
        content(node).count(d) > 0,
    ensures
        lookup(node, d.numerical_id) == Some(d),
    decreases node,
{
    broadcast use vstd::multiset::group_multiset_axioms;

    let devices = node.devices@;
    let children = node.children@;
    let id = d.numerical_id;
    assert(node.devices.len() == devices.len());
    crate::btree::lemma_node_wf(node);
    if content_pairs(devices, children, children.len() as int).count(d) > 0 {
        let i = lemma_member(devices, children, children.len() as int, d);
        if devices[i] == Some(d) {
            assert forall|j: int| 0 <= j < i implies (#[trigger] devices[j] matches Some(e)
                ==> e.numerical_id != id) by {
                assert(key_at(devices[j]) < key_at(devices[i]));
            }
            assert(is_hit(devices, id, i));
            lemma_hit(devices, id, i);
        } else {
            assert(tree_sorted(children[i], lower(devices, i), upper(devices, i)));
            let below = children[i].unwrap();
            assert(content(*below).count(d) > 0);
            assert(lower(devices, i) < id < upper(devices, i));
            assert forall|j: int| 0 <= j < devices.len() implies (#[trigger] devices[j] matches Some(
                e,
            ) ==> e.numerical_id != id) by {
                if j < i {
                    assert(key_at(devices[j]) < key_at(devices[i]));
                } else if j > i + 1 {
                    assert(key_at(devices[i + 1]) < key_at(devices[j]));
                }
            }
            lemma_no_hit(devices, id);
            lemma_closest_rise(devices, id, i);
            assert(crate::btree::child_wf(children[i], node.node_type));
            lemma_lookup_sorted(*below, d);
        }
    } else {
        assert(content_below(node.left_child).count(d) > 0);
        let below = node.left_child.unwrap();
        assert(tree_sorted(node.left_child, -1, upper(devices, -1)));
        assert(id < upper(devices, -1));
        assert forall|j: int| 0 <= j < devices.len() implies (#[trigger] devices[j] matches Some(e)
            ==> e.numerical_id != id) by {
            if j > 0 {
                assert(key_at(devices[0]) < key_at(devices[j]));
            }
        }
        lemma_no_hit(devices, id);
        lemma_closest_rise(devices, id, -1);
        lemma_lookup_sorted(*below, d);
    }
}

/// What the search by the keys finds is a device of the tree with the key.
pub proof fn lemma_lookup_held(node: Node, id: u64)
    requires
        node_wf(node),
    ensures
        lookup(node, id) matches Some(d) ==> d.numerical_id == id && content(node).count(d) > 0,
    decreases node,
{
    broadcast use vstd::multiset::group_multiset_axioms;

    let devices = node.devices@;
    let children = node.children@;
    assert(node.devices.len() == devices.len());
    crate::btree::lemma_node_wf(node);
    match device_with(devices, id) {
        Some(d) => {
            let i = choose|i: int| is_hit(devices, id, i);
            lemma_content_has_device(devices, children, i, devices.len() as int);
        },
        None => {
            if node.node_type != NodeType::Leaf {
                lemma_scan_place(devices, id, devices.len() as int);
                match closest(devices, id) {
                    Direction::Left => {
                        if let Some(below) = node.left_child {
                            lemma_lookup_held(*below, id);
                        }
                    },
                    Direction::Right(i) => {
                        assert(crate::btree::child_wf(children[i as int], node.node_type));
                        let below = children[i as int].unwrap();
                        lemma_lookup_held(*below, id);
                        lemma_content_has_child(devices, children, i as int, devices.len() as int);
                    },
                }
            }
        },
    }
}

/// No device of `m` has the key `id`.
pub open spec fn lacks_key(m: Multiset<IoTDevice>, id: u64) -> bool {
    forall|d: IoTDevice| #[trigger] m.count(d) > 0 ==> d.numerical_id != id
}

/// A leaf in order that takes a device with a new key at the place of the key is in order.
pub proof fn lemma_leaf_sorted(start: Node, after: Node, device: IoTDevice)
    requires
        node_wf(start),
        start.node_type == NodeType::Leaf,
        sorted(start),
        lacks_key(content(start), device.numerical_id),
        after.devices@ == start.devices@.insert(
            slot_for(start.devices@, device.numerical_id),
            Some(device),
        ),
        after.children@ == start.children@.insert(
            slot_for(start.devices@, device.numerical_id),
            None,
        ),
        after.left_child == start.left_child,
    ensures
        sorted(after),
{
    broadcast use vstd::multiset::group_multiset_axioms;

    let devices = start.devices@;
    let children = start.children@;
    let id = device.numerical_id;
    assert(start.devices.len() == devices.len());
    crate::btree::lemma_node_wf(start);
    lemma_scan_rise(devices, id, devices.len() as int);
    let p = place_of(closest(devices, id));
    let q = p + 1;
    if p >= 0 {
        lemma_content_has_device(devices, children, p, devices.len() as int);
        assert(content(start).count(devices[p].unwrap()) > 0);
    }
    let d2 = after.devices@;
    assert forall|i: int| 0 <= i < d2.len() implies (#[trigger] d2[i]) is Some by {
        if i < q {
            assert(d2[i] == devices[i]);
        } else if i > q {
            assert(d2[i] == devices[i - 1]);
        }
    }
    assert forall|i: int, j: int| 0 <= i < j < d2.len() implies key_at(#[trigger] d2[i]) < key_at(
        #[trigger] d2[j],
    ) by {
        let a = if i < q { i } else { i - 1 };
        let b = if j < q { j } else { j - 1 };
        if i != q {
            assert(d2[i] == devices[a]);
        }
        if j != q {
            assert(d2[j] == devices[b]);
        }
        if i != q && j != q {
            assert(key_at(devices[a]) < key_at(devices[b]));
        } else if i == q {
            assert(key_at(devices[b]) > id);
        } else {
            if a < p {
                assert(key_at(devices[a]) < key_at(devices[p]));
            }
        }
    }
    let c2 = after.children@;
    assert forall|i: int| 0 <= i < c2.len() implies tree_sorted(
        #[trigger] c2[i],
        lower(d2, i),
        upper(d2, i),
    ) by {
        if i < q {
            assert(c2[i] == children[i]);
            assert(crate::btree::child_wf(children[i], NodeType::Leaf));
        } else if i > q {
            assert(c2[i] == children[i - 1]);
            assert(crate::btree::child_wf(children[i - 1], NodeType::Leaf));
        }
    }
}

/// Without one of them the keys still rise, and the place of the key that was taken is
/// where it was.
pub proof fn lemma_restore(devices: Seq<Option<IoTDevice>>, p: int)
    requires
        keys_rise(devices),
        devices.len() <= usize::MAX,
        0 <= p < devices.len(),
    ensures
        keys_rise(devices.remove(p)),
        slot_for(devices.remove(p), key_at(devices[p])) == p,
        devices.remove(p).insert(p, devices[p]) == devices,
{
    let rest = devices.remove(p);
    assert forall|i: int| 0 <= i < rest.len() implies (#[trigger] rest[i]) is Some by {
        if i < p {
            assert(rest[i] == devices[i]);
        } else {
            assert(rest[i] == devices[i + 1]);
        }
    }
    assert forall|i: int, j: int| 0 <= i < j < rest.len() implies key_at(#[trigger] rest[i])
        < key_at(#[trigger] rest[j]) by {
        let a = if i < p { i } else { i + 1 };
        let b = if j < p { j } else { j + 1 };
        assert(rest[i] == devices[a] && rest[j] == devices[b]);
        assert(key_at(devices[a]) < key_at(devices[b]));
    }
    if p > 0 {
        assert(rest[p - 1] == devices[p - 1]);
        assert(key_at(devices[p - 1]) < key_at(devices[p]));
    }
    if p < rest.len() {
        assert(rest[p] == devices[p + 1]);
        assert(key_at(devices[p]) < key_at(devices[p + 1]));
    }
    lemma_closest_rise(rest, key_at(devices[p]), p - 1);
    assert(rest.insert(p, devices[p]) =~= devices);
}

/// A node in order stays in order where one of its subtrees gives way to another one in
/// order with keys between the same bounds.
pub proof fn lemma_replaced_sorted(start: Node, mended: Node, p: int, grown: Box<Node>)
    requires
        sorted(start),
        start.devices@.len() == start.children@.len(),
        -1 <= p < start.devices@.len(),
        mended.devices@ == start.devices@,
        p >= 0 ==> mended.children@ == start.children@.update(p, Some(grown))
            && mended.left_child == start.left_child,
        p < 0 ==> mended.children@ == start.children@ && mended.left_child == Some(grown),
        sorted(*grown),
        keys_between(content(*grown), lower(start.devices@, p), upper(start.devices@, p)),
    ensures
        sorted(mended),
{
    let devices = start.devices@;
    assert forall|i: int| 0 <= i < mended.children@.len() implies tree_sorted(
        #[trigger] mended.children@[i],
        lower(devices, i),
        upper(devices, i),
    ) by {
        if i != p {
            assert(mended.children@[i] == start.children@[i]);
        }
    }
}

/// A node in order stays in order where it takes a device with a subtree at the place of the
/// key of the device, if the subtree before that place has smaller keys only, and the new
/// one keys between that of the device and the next.
pub proof fn lemma_inserted_sorted(
    before: Node,
    after: Node,
    q: int,
    device: IoTDevice,
    tree: Box<Node>,
)
    requires
        sorted(before),
        before.devices@.len() == before.children@.len(),
        0 <= q <= before.devices@.len(),
        after.devices@ == before.devices@.insert(q, Some(device)),
        after.children@ == before.children@.insert(q, Some(tree)),
        after.left_child == before.left_child,
        lower(before.devices@, q - 1) < device.numerical_id < upper(before.devices@, q - 1),
        sorted(*tree),
        keys_between(content(*tree), device.numerical_id as int, upper(before.devices@, q - 1)),
        q == 0 ==> keys_between(content_below(before.left_child), -1, device.numerical_id as int),
        q > 0 ==> keys_between(
            content_below(before.children@[q - 1]),
            lower(before.devices@, q - 1),
            device.numerical_id as int,
        ),
    ensures
        sorted(after),
{
    let devices = before.devices@;
    let children = before.children@;
    let id = device.numerical_id;
    let d2 = after.devices@;
    let c2 = after.children@;
    assert forall|i: int| 0 <= i < d2.len() implies (#[trigger] d2[i]) is Some by {
        if i < q {
            assert(d2[i] == devices[i]);
        } else if i > q {
            assert(d2[i] == devices[i - 1]);
        }
    }
    assert forall|i: int, j: int| 0 <= i < j < d2.len() implies key_at(#[trigger] d2[i]) < key_at(
        #[trigger] d2[j],
    ) by {
        let a = if i < q { i } else { i - 1 };
        let b = if j < q { j } else { j - 1 };
        if i != q {
            assert(d2[i] == devices[a]);
        }
        if j != q {
            assert(d2[j] == devices[b]);
        }
        if i != q && j != q {
            assert(key_at(devices[a]) < key_at(devices[b]));
        } else if i == q {
            if b > q {
                assert(key_at(devices[q]) < key_at(devices[b]));
            }
        } else {
            if a < q - 1 {
                assert(key_at(devices[a]) < key_at(devices[q - 1]));
            }
        }
    }
    assert forall|i: int| 0 <= i < c2.len() implies tree_sorted(
        #[trigger] c2[i],
        lower(d2, i),
        upper(d2, i),
    ) by {
        if i < q {
            assert(c2[i] == children[i]);
            assert(d2[i] == devices[i]);
            assert(tree_sorted(children[i], lower(devices, i), upper(devices, i)));
            if i + 1 < q {
                assert(d2[i + 1] == devices[i + 1]);
            }
        } else if i > q {
            assert(c2[i] == children[i - 1]);
            assert(d2[i] == devices[i - 1]);
            assert(tree_sorted(children[i - 1], lower(devices, i - 1), upper(devices, i - 1)));
            if i + 1 < d2.len() {
                assert(d2[i + 1] == devices[i]);
            }
        } else {
            if q + 1 < d2.len() {
                assert(d2[q + 1] == devices[q]);
            }
        }
    }
    if q > 0 {
        assert(d2[0] == devices[0]);
    }
}

/// The two parts of a node in order are in order, the keys of the first below the key of
/// the middle device and those of the second above it.
pub proof fn lemma_split_sorted(full: Node, kept: Node, sibling: Node, middle: IoTDevice)
    requires
        sorted(full),
        full.devices@.len() == full.children@.len(),
        full.devices@.len() >= 1,
        kept.left_child == full.left_child,
        kept.devices@ == full.devices@.subrange(0, full.devices@.len() as int / 2),
        kept.children@ == full.children@.subrange(0, full.devices@.len() as int / 2),
        Some(middle) == full.devices@[full.devices@.len() as int / 2],
        sibling.left_child == full.children@[full.devices@.len() as int / 2],
        sibling.devices@ == full.devices@.subrange(
            full.devices@.len() as int / 2 + 1,
            full.devices@.len() as int,
        ),
        sibling.children@ == full.children@.subrange(
            full.devices@.len() as int / 2 + 1,
            full.devices@.len() as int,
        ),
    ensures
        sorted(kept),
        sorted(sibling),
        keys_between(content(kept), -1, middle.numerical_id as int),
        keys_between(content(sibling), middle.numerical_id as int, u64::MAX + 1),
{
    broadcast use vstd::multiset::group_multiset_axioms;

    let devices = full.devices@;
    let children = full.children@;
    let n = devices.len() as int;
    let m = n / 2;
    let key = middle.numerical_id as int;
    let d1 = kept.devices@;
    let c1 = kept.children@;
    let d2 = sibling.devices@;
    let c2 = sibling.children@;
    assert(key_at(devices[m]) == key);
    assert forall|i: int| 0 <= i < d1.len() implies (#[trigger] d1[i]) is Some && -1 < key_at(
        d1[i],
    ) < key by {
        assert(d1[i] == devices[i]);
        assert(key_at(devices[i]) < key_at(devices[m]));
    }
    assert forall|i: int, j: int| 0 <= i < j < d1.len() implies key_at(#[trigger] d1[i]) < key_at(
        #[trigger] d1[j],
    ) by {
        assert(d1[i] == devices[i] && d1[j] == devices[j]);
        assert(key_at(devices[i]) < key_at(devices[j]));
    }
    assert forall|i: int| 0 <= i < c1.len() implies tree_sorted(
        #[trigger] c1[i],
        lower(d1, i),
        upper(d1, i),
    ) && keys_between(content_below(c1[i]), -1, key) by {
        assert(c1[i] == children[i]);
        assert(d1[i] == devices[i]);
        assert(tree_sorted(children[i], lower(devices, i), upper(devices, i)));
        if i + 1 < m {
            assert(d1[i + 1] == devices[i + 1]);
        } else {
            assert(upper(devices, i) == key);
        }
        if i + 1 < m {
            assert(key_at(devices[i + 1]) < key_at(devices[m]));
        }
    }
    assert(tree_sorted(full.left_child, -1, upper(devices, -1)));
    if m > 0 {
        assert(d1[0] == devices[0]);
        assert(key_at(devices[0]) < key_at(devices[m]));
    }
    assert(keys_between(content_below(kept.left_child), -1, key));
    lemma_pairs_between(d1, c1, -1, key);
    assert(c1.len() == d1.len());

    assert forall|i: int| 0 <= i < d2.len() implies (#[trigger] d2[i]) is Some && key < key_at(
        d2[i],
    ) < u64::MAX + 1 by {
        assert(d2[i] == devices[m + 1 + i]);
        assert(key_at(devices[m]) < key_at(devices[m + 1 + i]));
    }
    assert forall|i: int, j: int| 0 <= i < j < d2.len() implies key_at(#[trigger] d2[i]) < key_at(
        #[trigger] d2[j],
    ) by {
        assert(d2[i] == devices[m + 1 + i] && d2[j] == devices[m + 1 + j]);
        assert(key_at(devices[m + 1 + i]) < key_at(devices[m + 1 + j]));
    }
    assert forall|i: int| 0 <= i < c2.len() implies tree_sorted(
        #[trigger] c2[i],
        lower(d2, i),
        upper(d2, i),
    ) && keys_between(content_below(c2[i]), key, u64::MAX + 1) by {
        assert(c2[i] == children[m + 1 + i]);
        assert(d2[i] == devices[m + 1 + i]);
        assert(tree_sorted(
            children[m + 1 + i],
            lower(devices, m + 1 + i),
            upper(devices, m + 1 + i),
        ));
        if i + 1 < d2.len() {
            assert(d2[i + 1] == devices[m + 2 + i]);
        }
        assert(key_at(devices[m]) < key_at(devices[m + 1 + i]));
    }
    assert(tree_sorted(children[m], lower(devices, m), upper(devices, m)));
    if d2.len() > 0 {
        assert(d2[0] == devices[m + 1]);
    }
    assert(keys_between(content_below(sibling.left_child), key, u64::MAX + 1));
    lemma_pairs_between(d2, c2, key, u64::MAX + 1);
    assert(c2.len() == d2.len());
}

/// A new root above the two parts of the old one, with the middle device between them, is
/// in order.
pub proof fn lemma_root_sorted(kept: Box<Node>, sibling: Box<Node>, parent: Node, middle: IoTDevice)
    requires
        sorted(*kept),
        sorted(*sibling),
        keys_between(content(*kept), -1, middle.numerical_id as int),
        keys_between(content(*sibling), middle.numerical_id as int, u64::MAX + 1),
        parent.left_child == Some(kept),
        parent.devices@ == Seq::<Option<IoTDevice>>::empty().insert(0, Some(middle)),
        parent.children@ == Seq::<Option<Box<Node>>>::empty().insert(0, Some(sibling)),
    ensures
        sorted(parent),
{
    assert(parent.devices@.len() == 1);
    assert(parent.devices@[0] == Some(middle));
    assert(parent.children@[0] == Some(sibling));
}

/// The subtree of a node at the place `p`; the left subtree for -1.
pub open spec fn subtree_at(node: Node, p: int) -> Option<Box<Node>> {
    if p < 0 {
        node.left_child
    } else {
        node.children@[p]
    }
}

/// A key that no device of the tree below a node has is not the key of the device at the
/// place `p`, nor of a device of the subtree there.
pub proof fn lemma_part_lacks(node: Node, p: int, id: u64)
    requires
        node.devices@.len() == node.children@.len(),
        -1 <= p < node.devices@.len(),
        lacks_key(content(node), id),
    ensures
        p >= 0 ==> (node.devices@[p] matches Some(d) ==> d.numerical_id != id),
        lacks_key(content_below(subtree_at(node, p)), id),
{
    broadcast use vstd::multiset::group_multiset_axioms;

    let devices = node.devices@;
    let children = node.children@;
    let pairs = content_pairs(devices, children, children.len() as int);
    assert(content(node) == pairs.add(content_below(node.left_child)));
    if p >= 0 {
        lemma_content_has_child(devices, children, p, devices.len() as int);
        if let Some(d) = devices[p] {
            lemma_content_has_device(devices, children, p, devices.len() as int);
            assert(pairs.count(d) > 0);
            assert(content(node).count(d) > 0);
        }
        assert forall|d: IoTDevice| #[trigger]
            content_below(children[p]).count(d) > 0 implies d.numerical_id != id by {
            assert(pairs.count(d) > 0);
            assert(content(node).count(d) > 0);
        }
    } else {
        assert forall|d: IoTDevice| #[trigger]
            content_below(node.left_child).count(d) > 0 implies d.numerical_id != id by {
            assert(content(node).count(d) > 0);
        }
    }
}

/// Where a tree with keys between `lo` and `hi` has grown by a device with such a key, the
/// keys of its parts lie between `lo` and `hi`.
pub proof fn lemma_parts_between(
    child: Multiset<IoTDevice>,
    grown: Multiset<IoTDevice>,
    beside: Option<Data>,
    added: IoTDevice,
    lo: int,
    hi: int,
)
    requires
        keys_between(child, lo, hi),
        lo < added.numerical_id < hi,
        grown.add(one(data_device(beside))).add(content_below(data_tree(beside))) == child.insert(
            added,
        ),
    ensures
        keys_between(grown, lo, hi),
        keys_between(one(data_device(beside)), lo, hi),
        keys_between(content_below(data_tree(beside)), lo, hi),
{
    broadcast use vstd::multiset::group_multiset_axioms;

    let more = child.insert(added);
    let parts = grown.add(one(data_device(beside))).add(content_below(data_tree(beside)));
    assert forall|d: IoTDevice| #[trigger] parts.count(d) > 0 implies lo < d.numerical_id < hi by {
        assert(more.count(d) > 0);
        if d != added {
            assert(child.count(d) > 0);
        }
    }
    assert forall|d: IoTDevice| #[trigger] grown.count(d) > 0 implies lo < d.numerical_id < hi by {
        assert(parts.count(d) > 0);
    }
    assert forall|d: IoTDevice| #[trigger] one(data_device(beside)).count(d) > 0 implies lo
        < d.numerical_id < hi by {
        assert(parts.count(d) > 0);
    }
    assert forall|d: IoTDevice| #[trigger]
        content_below(data_tree(beside)).count(d) > 0 implies lo < d.numerical_id < hi by {
        assert(parts.count(d) > 0);
    }
}

/// What the way down from a regular node in order finds for a key that the tree lacks: the
/// subtree at the place of the key is in order and lacks the key, and the key lies between
/// the keys on the two sides of that place.
pub proof fn lemma_way_down(start: Node, id: u64)
    requires
        node_wf(start),
        start.node_type == NodeType::Regular,
        sorted(start),
        lacks_key(content(start), id),
    ensures
        -1 <= place_of(closest(start.devices@, id)) < start.devices@.len(),
        lower(start.devices@, place_of(closest(start.devices@, id))) < id < upper(
            start.devices@,
            place_of(closest(start.devices@, id)),
        ),
        subtree_at(start, place_of(closest(start.devices@, id))) matches Some(child) && sorted(
            *child,
        ) && lacks_key(content(*child), id) && keys_between(
            content(*child),
            lower(start.devices@, place_of(closest(start.devices@, id))),
            upper(start.devices@, place_of(closest(start.devices@, id))),
        ),
{
    let devices = start.devices@;
    let children = start.children@;
    assert(start.devices.len() == devices.len());
    crate::btree::lemma_node_wf(start);
    lemma_scan_rise(devices, id, devices.len() as int);
    let p = place_of(closest(devices, id));
    lemma_part_lacks(start, p, id);
    if p >= 0 {
        assert(devices[p] is Some);
        assert(child_wf(children[p], NodeType::Regular));
        assert(tree_sorted(children[p], lower(devices, p), upper(devices, p)));
    } else {
        assert(tree_sorted(start.left_child, lower(devices, p), upper(devices, p)));
    }
}

/// A regular node in order is in order again after the subtree in which a new key belongs
/// was taken out, has grown by a device with that key, and has come back, with the middle
/// device and the new subtree beside it where it was parted.
#[verifier::rlimit(40)]
#[verifier::spinoff_prover]
pub proof fn lemma_regular_sorted(
    start: Node,
    taken: Node,
    mended: Node,
    full: Node,
    key: u64,
    device: Option<IoTDevice>,
    below: Option<Box<Node>>,
    grown: Box<Node>,
    beside: Option<Data>,
    added: IoTDevice,
)
    requires
        node_wf(start),
        start.node_type == NodeType::Regular,
        sorted(start),
        lacks_key(content(start), added.numerical_id),
        match closest(start.devices@, added.numerical_id) {
            Direction::Left => device is None && below == start.left_child && taken.devices
                == start.devices && taken.children == start.children,
            Direction::Right(index) => index < start.devices@.len() && device
                == start.devices@[index as int] && key == key_at(device) && below
                == start.children@[index as int] && taken.left_child == start.left_child
                && taken.devices@ == start.devices@.remove(index as int) && taken.children@
                == start.children@.remove(index as int),
        },
        device is None ==> mended.left_child == Some(grown) && mended.devices == taken.devices
            && mended.children == taken.children,
        device is Some ==> mended.left_child == taken.left_child && mended.devices@
            == taken.devices@.insert(slot_for(taken.devices@, key), device) && mended.children@
            == taken.children@.insert(slot_for(taken.devices@, key), Some(grown)),
        beside is None ==> full == mended,
        beside matches Some(b) ==> b.0 is Some && b.1 is Some && full.left_child
            == mended.left_child && full.devices@ == mended.devices@.insert(
            slot_for(mended.devices@, key_at(b.0)),
            b.0,
        ) && full.children@ == mended.children@.insert(
            slot_for(mended.devices@, key_at(b.0)),
            b.1,
        ),
        content(*grown).add(one(data_device(beside))).add(content_below(data_tree(beside)))
            == content_below(below).insert(added),
        (below matches Some(child) && sorted(*child) && lacks_key(
            content(*child),
            added.numerical_id,
        )) ==> sorted(*grown) && (beside matches Some(b) ==> keys_between(
            content(*grown),
            -1,
            key_at(b.0) as int,
        ) && tree_sorted(b.1, key_at(b.0) as int, u64::MAX + 1)),
    ensures
        sorted(full),
{
    let devices = start.devices@;
    let children = start.children@;
    let id = added.numerical_id;
    assert(start.devices.len() == devices.len());
    lemma_way_down(start, id);
    let p = place_of(closest(devices, id));
    let lo = lower(devices, p);
    let hi = upper(devices, p);
    let child = below.unwrap();
    assert(below == subtree_at(start, p));
    lemma_parts_between(content(*child), content(*grown), beside, added, lo, hi);
    if p >= 0 {
        lemma_restore(devices, p);
        assert(mended.devices@ == devices);
        assert(mended.children@ =~= children.update(p, Some(grown)));
    } else {
        assert(mended.devices@ == devices);
    }
    lemma_replaced_sorted(start, mended, p, grown);
    if let Some(b) = beside {
        let middle = b.0.unwrap();
        let tree = b.1.unwrap();
        let split_key = middle.numerical_id;
        assert(one(data_device(beside)).count(middle) > 0) by {
            broadcast use vstd::multiset::group_multiset_axioms;

        }
        assert(lo < split_key < hi);
        lemma_closest_rise(devices, split_key, p);
        assert(content_below(data_tree(beside)) == content(*tree));
        assert(mended.devices@.len() == mended.children@.len());
        if p >= 0 {
            assert(mended.children@[p] == Some(grown));
        }
        lemma_inserted_sorted(mended, full, p + 1, middle, tree);
    }
}

} // verus!
