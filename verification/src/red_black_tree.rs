//! A red-black tree of devices, kept in an arena.
//!
//! Nodes live in a vector and name each other by index: a node knows its
//! parent and its two children. A device with a key that is not smaller than
//! the key of a node is stored to the left of that node, so a walk in order
//! meets the keys from the largest down to the smallest.
//!
//! Beside every node the registry keeps a ghost [`Summary`] of the subtree
//! below it. The summaries turn what holds of the whole tree into
//! equations between a node and its two children, which a rotation or a
//! change of colour disturbs at a few nodes only.

use vstd::prelude::*;
use crate::devices::IoTDevice;

verus! {

#[derive(Clone, Copy, Debug, PartialEq, Eq, Structural)]
pub enum Color {
    Red,
    Black,
}

/// The side of a node on which something is found or put.
#[derive(Clone, Copy, Debug, PartialEq, Eq, Structural)]
pub enum RBOperation {
    LeftNode,
    RightNode,
}

#[derive(Clone, Copy, Debug, PartialEq, Eq, Structural)]
pub enum Rotation {
    Left,
    Right,
}

pub struct Node {
    pub color: Color,
    pub dev: IoTDevice,
    pub parent: Option<usize>,
    pub left: Option<usize>,
    pub right: Option<usize>,
}

impl Node {
    /// A red node without relatives.
    pub fn new(dev: IoTDevice) -> (node: Node)
        ensures
            node.color == Color::Red,
            node.dev == dev,
            node.parent is None,
            node.left is None,
            node.right is None,
    {
        Node { color: Color::Red, dev: dev, parent: None, left: None, right: None }
    }
}

/// What holds of the subtree below a node.
pub ghost struct Summary {
    /// The number of its nodes.
    pub size: nat,
    /// The number of black nodes on every path from the node (itself counted) to an empty
    /// position.
    pub black_height: nat,
    /// Its devices, in order: those to the left, the node's own, those to the right.
    pub items: Seq<IoTDevice>,
}

/// The keys never grow along `s`.
#[verifier::opaque]
pub open spec fn descending(s: Seq<IoTDevice>) -> bool {
    forall|i: int, j: int| 0 <= i < j < s.len() ==> s[i].numerical_id >= s[j].numerical_id
}

/// No key occurs twice in `s`.
pub open spec fn distinct_keys(s: Seq<IoTDevice>) -> bool {
    forall|i: int, j: int| 0 <= i < j < s.len() ==> s[i].numerical_id != s[j].numerical_id
}

/// Some device in `s` has the key `key`.
pub open spec fn holds_key(s: Seq<IoTDevice>, key: u64) -> bool {
    exists|i: int| 0 <= i < s.len() && #[trigger] s[i].numerical_id == key
}

/// The number of devices at the front of `s` whose key is larger than `key`: the place at
/// which a device with that key is put.
pub open spec fn rank(s: Seq<IoTDevice>, key: u64) -> nat
    decreases s.len(),
{
    if s.len() == 0 || s[0].numerical_id <= key {
        0
    } else {
        1 + rank(s.drop_first(), key)
    }
}

/// `p` is the first place in `s` at which the key is not larger than `key`.
pub open spec fn is_rank(s: Seq<IoTDevice>, key: u64, p: int) -> bool {
    &&& 0 <= p <= s.len()
    &&& forall|i: int| 0 <= i < p ==> (#[trigger] s[i]).numerical_id > key
    &&& p < s.len() ==> s[p].numerical_id <= key
}

/// The rank is the one place that `is_rank` describes.
pub proof fn lemma_rank_is(s: Seq<IoTDevice>, key: u64, p: int)
    requires
        is_rank(s, key, p),
    ensures
        rank(s, key) == p,
    decreases s.len(),
{
    if s.len() == 0 || s[0].numerical_id <= key {
        if p > 0 {
            assert(s[0].numerical_id > key);
        }
    } else {
        let t = s.drop_first();
        assert(p > 0);
        assert forall|i: int| 0 <= i < p - 1 implies (#[trigger] t[i]).numerical_id > key by {
            assert(t[i] == s[i + 1]);
        }
        lemma_rank_is(t, key, p - 1);
    }
}

/// The rank of a key is a place in the sequence, and it is the place that `is_rank` describes.
pub proof fn lemma_rank_exists(s: Seq<IoTDevice>, key: u64)
    ensures
        is_rank(s, key, rank(s, key) as int),
    decreases s.len(),
{
    if s.len() == 0 || s[0].numerical_id <= key {
    } else {
        let t = s.drop_first();
        lemma_rank_exists(t, key);
        let p = rank(s, key) as int;
        assert forall|i: int| 0 <= i < p implies (#[trigger] s[i]).numerical_id > key by {
            if i > 0 {
                assert(s[i] == t[i - 1]);
            }
        }
        if p < s.len() {
            assert(s[p] == t[p - 1]);
        }
    }
}

/// A device put at the rank of its key keeps the keys descending.
pub proof fn lemma_insert_keeps_descending(s: Seq<IoTDevice>, dev: IoTDevice)
    requires
        descending(s),
    ensures
        descending(s.insert(rank(s, dev.numerical_id) as int, dev)),
{
    reveal(descending);
    let key = dev.numerical_id;
    let p = rank(s, key) as int;
    lemma_rank_exists(s, key);
    let t = s.insert(p, dev);
    assert forall|i: int, j: int| 0 <= i < j < t.len() implies t[i].numerical_id
        >= t[j].numerical_id by {
        if i < p {
            assert(t[i] == s[i]);
        } else if i > p {
            assert(t[i] == s[i - 1]);
        }
        if j < p {
            assert(t[j] == s[j]);
        } else if j > p {
            assert(t[j] == s[j - 1]);
            assert(p < s.len());
            if j - 1 > p {
                assert(s[p].numerical_id >= s[j - 1].numerical_id);
            }
        }
    }
}

/// A stretch of a descending sequence is descending.
pub proof fn lemma_descending_subrange(s: Seq<IoTDevice>, from: int, to: int)
    requires
        descending(s),
        0 <= from <= to <= s.len(),
    ensures
        descending(s.subrange(from, to)),
{
    reveal(descending);
    let t = s.subrange(from, to);
    assert forall|i: int, j: int| 0 <= i < j < t.len() implies t[i].numerical_id
        >= t[j].numerical_id by {
        assert(t[i] == s[from + i]);
        assert(t[j] == s[from + j]);
    }
}

/// A device that goes to the left of `d` takes, among `left`, `d` and `right`, the place that
/// it takes among `left`.
pub proof fn lemma_grow_left(
    left: Seq<IoTDevice>,
    d: IoTDevice,
    right: Seq<IoTDevice>,
    dev: IoTDevice,
)
    requires
        d.numerical_id <= dev.numerical_id,
    ensures
        (left + seq![d] + right).insert(
            rank(left + seq![d] + right, dev.numerical_id) as int,
            dev,
        ) == left.insert(rank(left, dev.numerical_id) as int, dev) + seq![d] + right,
{
    let key = dev.numerical_id;
    let all = left + seq![d] + right;
    let p = rank(left, key) as int;
    lemma_rank_exists(left, key);
    assert forall|i: int| 0 <= i < p implies (#[trigger] all[i]).numerical_id > key by {
        assert(all[i] == left[i]);
    }
    if p < left.len() {
        assert(all[p] == left[p]);
    } else {
        assert(all[p] == d);
    }
    lemma_rank_is(all, key, p);
    assert(all.insert(p, dev) =~= left.insert(p, dev) + seq![d] + right);
}

/// A device that goes to the right of `d` takes, among `left`, `d` and `right`, the place that
/// it takes among `right`.
pub proof fn lemma_grow_right(
    left: Seq<IoTDevice>,
    d: IoTDevice,
    right: Seq<IoTDevice>,
    dev: IoTDevice,
)
    requires
        d.numerical_id > dev.numerical_id,
        descending(left + seq![d] + right),
    ensures
        (left + seq![d] + right).insert(
            rank(left + seq![d] + right, dev.numerical_id) as int,
            dev,
        ) == left + seq![d] + right.insert(rank(right, dev.numerical_id) as int, dev),
{
    reveal(descending);
    let key = dev.numerical_id;
    let all = left + seq![d] + right;
    let r = rank(right, key) as int;
    let p = left.len() + 1 + r;
    lemma_rank_exists(right, key);
    assert(all[left.len() as int] == d);
    assert forall|i: int| 0 <= i < p implies (#[trigger] all[i]).numerical_id > key by {
        if i < left.len() {
            assert(all[i].numerical_id >= all[left.len() as int].numerical_id);
        } else if i > left.len() {
            assert(all[i] == right[i - left.len() - 1]);
        }
    }
    if p < all.len() {
        assert(all[p] == right[r]);
    }
    lemma_rank_is(all, key, p);
    assert(all.insert(p, dev) =~= left + seq![d] + right.insert(r, dev));
}

/// The first device of `s` with the key `key`. In a descending sequence it stands at the rank
/// of the key; it is the device with that key that was put in last.
pub open spec fn first_with_key(s: Seq<IoTDevice>, key: u64) -> Option<IoTDevice> {
    if holds_key(s, key) {
        Some(s[rank(s, key) as int])
    } else {
        None
    }
}

/// In a descending sequence that holds a key, the device at the rank of the key has the key,
/// and no device before it has.
pub proof fn lemma_first_with_key(s: Seq<IoTDevice>, key: u64)
    requires
        descending(s),
        holds_key(s, key),
    ensures
        rank(s, key) < s.len(),
        s[rank(s, key) as int].numerical_id == key,
        forall|i: int| 0 <= i < rank(s, key) ==> (#[trigger] s[i]).numerical_id != key,
{
    reveal(descending);
    lemma_rank_exists(s, key);
    let p = rank(s, key) as int;
    let j = choose|j: int| 0 <= j < s.len() && #[trigger] s[j].numerical_id == key;
    if j < p {
        assert(s[j].numerical_id > key);
    }
    if p < j {
        assert(s[p].numerical_id >= s[j].numerical_id);
    }
}

/// The first device with a key among `left`, `d` and `right`: where `d` has a smaller key it
/// is the first among `left`, where `d` has a larger key the first among `right`, and where
/// `d` has the key, the first among `left` or else `d`.
pub proof fn lemma_first_among(
    left: Seq<IoTDevice>,
    d: IoTDevice,
    right: Seq<IoTDevice>,
    key: u64,
)
    requires
        descending(left + seq![d] + right),
    ensures
        first_with_key(left + seq![d] + right, key) == if d.numerical_id < key {
            first_with_key(left, key)
        } else if d.numerical_id > key {
            first_with_key(right, key)
        } else if holds_key(left, key) {
            first_with_key(left, key)
        } else {
            Some(d)
        },
{
    reveal(descending);
    let all = left + seq![d] + right;
    let at = left.len() as int;
    assert(all[at] == d);
    assert forall|i: int| 0 <= i < left.len() implies all[i] == left[i] by {}
    assert forall|i: int| 0 <= i < right.len() implies all[at + 1 + i] == right[i] by {}
    lemma_rank_exists(left, key);
    lemma_rank_exists(right, key);
    if d.numerical_id <= key {
        let p = rank(left, key) as int;
        assert forall|i: int| 0 <= i < p implies (#[trigger] all[i]).numerical_id > key by {
            assert(all[i] == left[i]);
        }
        if p < left.len() {
            assert(all[p] == left[p]);
        }
        lemma_rank_is(all, key, p);
        if holds_key(left, key) {
            let j = choose|j: int| 0 <= j < left.len() && #[trigger] left[j].numerical_id == key;
            assert(all[j].numerical_id == key);
            if p > j {
                assert(left[j].numerical_id > key);
            }
        } else {
            if d.numerical_id == key {
                assert(all[at].numerical_id == key);
                if p < left.len() {
                    assert(all[p].numerical_id >= all[at].numerical_id);
                    assert(left[p].numerical_id == key);
                }
            } else {
                if holds_key(all, key) {
                    let j = choose|j: int|
                        0 <= j < all.len() && #[trigger] all[j].numerical_id == key;
                    if j < left.len() {
                        assert(left[j].numerical_id == key);
                    } else {
                        assert(all[at].numerical_id >= all[j].numerical_id);
                    }
                }
            }
        }
    } else {
        let r = rank(right, key) as int;
        let p = at + 1 + r;
        assert forall|i: int| 0 <= i < p implies (#[trigger] all[i]).numerical_id > key by {
            if i < at {
                assert(all[i].numerical_id >= all[at].numerical_id);
            } else if i > at {
                assert(all[i] == right[i - at - 1]);
            }
        }
        if p < all.len() {
            assert(all[p] == right[r]);
        }
        lemma_rank_is(all, key, p);
        if holds_key(right, key) {
            let j = choose|j: int|
                0 <= j < right.len() && #[trigger] right[j].numerical_id == key;
            assert(all[at + 1 + j].numerical_id == key);
            if r > j {
                assert(right[j].numerical_id > key);
            }
        } else {
            if holds_key(all, key) {
                let j = choose|j: int| 0 <= j < all.len() && #[trigger] all[j].numerical_id == key;
                if j < at {
                    assert(all[j].numerical_id >= all[at].numerical_id);
                } else if j > at {
                    assert(right[j - at - 1].numerical_id == key);
                }
            }
        }
    }
}

/// The first device with a key after a device was put in at the rank of its own key: the new
/// device where it has the key, and the one that was the first before where it has not.
pub proof fn lemma_first_after_insert(s: Seq<IoTDevice>, d: IoTDevice, key: u64)
    requires
        descending(s),
    ensures
        first_with_key(s.insert(rank(s, d.numerical_id) as int, d), key) == if d.numerical_id
            == key {
            Some(d)
        } else {
            first_with_key(s, key)
        },
{
    reveal(descending);
    lemma_rank_exists(s, d.numerical_id);
    lemma_rank_exists(s, key);
    let p = rank(s, d.numerical_id) as int;
    let q = rank(s, key) as int;
    let t = s.insert(p, d);
    assert(t[p] == d);
    assert forall|i: int| 0 <= i < p implies t[i] == s[i] by {}
    assert forall|i: int| p < i < t.len() implies t[i] == s[i - 1] by {}
    if d.numerical_id == key {
        assert(p == q);
        assert forall|i: int| 0 <= i < p implies (#[trigger] t[i]).numerical_id > key by {
            assert(t[i] == s[i]);
        }
        lemma_rank_is(t, key, p);
        assert(t[p].numerical_id == key);
    } else {
        // the keys of `t` are those of `s` and that of `d`
        if holds_key(s, key) {
            let j = choose|j: int| 0 <= j < s.len() && #[trigger] s[j].numerical_id == key;
            let j2 = if j < p {
                j
            } else {
                j + 1
            };
            assert(t[j2] == s[j]);
            assert(t[j2].numerical_id == key);
            lemma_first_with_key(s, key);
        }
        if holds_key(t, key) {
            let j = choose|j: int| 0 <= j < t.len() && #[trigger] t[j].numerical_id == key;
            let j2 = if j < p {
                j
            } else {
                j - 1
            };
            assert(s[j2] == t[j]);
            assert(s[j2].numerical_id == key);
        }
        if d.numerical_id > key {
            // the new device stands before the first device with the key
            if q < p {
                assert(s[q].numerical_id > d.numerical_id);
            }
            assert forall|i: int| 0 <= i < q + 1 implies (#[trigger] t[i]).numerical_id
                > key by {
                if i < p {
                    assert(t[i] == s[i]);
                } else if i > p {
                    assert(t[i] == s[i - 1]);
                }
            }
            if q + 1 < t.len() {
                assert(t[q + 1] == s[q]);
            }
            lemma_rank_is(t, key, q + 1);
        } else {
            if p < q {
                assert(s[p].numerical_id > key);
            }
            assert forall|i: int| 0 <= i < q implies (#[trigger] t[i]).numerical_id > key by {
                assert(t[i] == s[i]);
            }
            if q < p {
                assert(t[q] == s[q]);
            }
            lemma_rank_is(t, key, q);
        }
    }
}

/// The side of a node with the key `existing` on which a device with the key `new` belongs:
/// the left one when `existing` is not larger than `new`.
pub open spec fn side_of(existing: u64, new: u64) -> RBOperation {
    if existing <= new {
        RBOperation::LeftNode
    } else {
        RBOperation::RightNode
    }
}

/// The other direction.
pub open spec fn opposite(direction: Rotation) -> Rotation {
    match direction {
        Rotation::Left => Rotation::Right,
        Rotation::Right => Rotation::Left,
    }
}

/// The verdict of the validator on `counts`: no red node below a red one, and one black
/// height on all paths.
/// `n` with `child` in the slot from which a node rises in a rotation in `direction`: the
/// left slot for a rotation to the right.
pub open spec fn with_riser(n: Node, direction: Rotation, child: Option<usize>) -> Node {
    match direction {
        Rotation::Right => Node { left: child, ..n },
        Rotation::Left => Node { right: child, ..n },
    }
}

/// `n` with `child` on the side `side`.
pub open spec fn with_side(n: Node, side: RBOperation, child: Option<usize>) -> Node {
    match side {
        RBOperation::LeftNode => Node { left: child, ..n },
        RBOperation::RightNode => Node { right: child, ..n },
    }
}

/// The child of `n` on the side `side`.
pub open spec fn on_side(n: Node, side: RBOperation) -> Option<usize> {
    match side {
        RBOperation::LeftNode => n.left,
        RBOperation::RightNode => n.right,
    }
}

/// `n` under the parent `parent`.
pub open spec fn with_parent(n: Node, parent: Option<usize>) -> Node {
    Node { parent: parent, ..n }
}

/// `p` with `y` in the slot that held `x`: the left slot if it held `x`, else the right one.
pub open spec fn with_child_for(p: Node, x: usize, y: usize) -> Node {
    if p.left == Some(x) {
        Node { left: Some(y), ..p }
    } else {
        Node { right: Some(y), ..p }
    }
}

pub open spec fn verdict(counts: (nat, nat, nat)) -> bool {
    counts.0 == 0 && counts.1 == counts.2
}

/// The keys fall along `s`.
pub open spec fn strictly_descending(s: Seq<IoTDevice>) -> bool {
    forall|i: int, j: int| 0 <= i < j < s.len() ==> s[i].numerical_id > s[j].numerical_id
}

/// `states` are the states of one registry from `new_empty` on, and `devs` the devices that
/// were added to it, one between each state and the next.
pub open spec fn is_history(states: Seq<BetterDeviceRegistry>, devs: Seq<IoTDevice>) -> bool {
    &&& states.len() == devs.len() + 1
    &&& states[0].is_new()
    &&& forall|i: int|
        0 <= i < devs.len() ==> states[i + 1].is_add_of(&states[i], #[trigger] devs[i])
}

/// Whatever devices are added, in whatever order: the registry is a red-black tree after
/// every `add`, the validator finds no red node under a red one and one black height, `length`
/// counts the devices, and a walk meets every added device once, the keys descending. Where
/// no key was added twice, the keys fall strictly.
pub proof fn lemma_history(states: Seq<BetterDeviceRegistry>, devs: Seq<IoTDevice>)
    requires
        is_history(states, devs),
    ensures
        states.last().wf(),
        verdict(states.last().validation()),
        states.last().count() == devs.len(),
        states.last().in_order().len() == devs.len(),
        states.last().in_order().to_multiset() == devs.to_multiset(),
        descending(states.last().in_order()),
        distinct_keys(devs) ==> strictly_descending(states.last().in_order()),
    decreases devs.len(),
{
    let now = states.last();
    if devs.len() == 0 {
        assert(devs =~= Seq::<IoTDevice>::empty());
    } else {
        let d = devs.last();
        let earlier = states.drop_last();
        let added = devs.drop_last();
        assert forall|i: int| 0 <= i < added.len() implies earlier[i + 1].is_add_of(
            &earlier[i],
            #[trigger] added[i],
        ) by {
            assert(states[i + 1].is_add_of(&states[i], devs[i]));
        }
        lemma_history(earlier, added);
        let before = earlier.last();
        assert(before == states[devs.len() - 1]);
        assert(now.is_add_of(&before, devs[devs.len() - 1]));
        lemma_rank_exists(before.in_order(), d.numerical_id);
        vstd::seq_lib::to_multiset_insert(
            before.in_order(),
            rank(before.in_order(), d.numerical_id) as int,
            d,
        );
        assert(devs =~= added.push(d));
        vstd::seq_lib::to_multiset_build(added, d);
    }
    now.lemma_wf_in_order();
    now.lemma_wf_is_valid();
    if distinct_keys(devs) {
        lemma_same_devices_distinct(devs, now.in_order());
        reveal(descending);
    }
}

/// A sequence that holds the devices of `devs`, each as often as `devs` does, has no key
/// twice where `devs` has none twice.
pub proof fn lemma_same_devices_distinct(devs: Seq<IoTDevice>, s: Seq<IoTDevice>)
    requires
        distinct_keys(devs),
        s.to_multiset() == devs.to_multiset(),
    ensures
        distinct_keys(s),
{
    assert(devs.no_duplicates()) by {
        assert forall|i: int, j: int| 0 <= i < devs.len() && 0 <= j < devs.len() && i != j implies devs[i]
            != devs[j] by {
            if i < j {
                assert(devs[i].numerical_id != devs[j].numerical_id);
            } else {
                assert(devs[j].numerical_id != devs[i].numerical_id);
            }
        }
    }
    devs.lemma_multiset_has_no_duplicates();
    s.lemma_multiset_has_no_duplicates_conv();
    assert forall|i: int, j: int| 0 <= i < j < s.len() implies s[i].numerical_id
        != s[j].numerical_id by {
        lemma_member_of_same_devices(devs, s, s[i]);
        lemma_member_of_same_devices(devs, s, s[j]);
        let a = choose|a: int| 0 <= a < devs.len() && devs[a] == s[i];
        let b = choose|b: int| 0 <= b < devs.len() && devs[b] == s[j];
        if s[i].numerical_id == s[j].numerical_id {
            if a < b {
                assert(devs[a].numerical_id != devs[b].numerical_id);
            } else if b < a {
                assert(devs[b].numerical_id != devs[a].numerical_id);
            }
            assert(s[i] == s[j]);
        }
    }
}

/// A device of one of two sequences with the same devices is a device of the other.
pub proof fn lemma_member_of_same_devices(devs: Seq<IoTDevice>, s: Seq<IoTDevice>, d: IoTDevice)
    requires
        s.to_multiset() == devs.to_multiset(),
        s.contains(d),
    ensures
        devs.contains(d),
{
    vstd::seq_lib::to_multiset_contains(s, d);
    vstd::seq_lib::to_multiset_contains(devs, d);
}

/// `find` returns for a key the device with that key that was added last.
pub proof fn lemma_find_most_recent(
    states: Seq<BetterDeviceRegistry>,
    devs: Seq<IoTDevice>,
    j: int,
    found: Option<IoTDevice>,
)
    requires
        is_history(states, devs),
        0 <= j < devs.len(),
        forall|i: int| j < i < devs.len() ==> (#[trigger] devs[i]).numerical_id != devs[j].numerical_id,
        states.last().is_find_of(devs[j].numerical_id, found),
    ensures
        found == Some(devs[j]),
    decreases devs.len(),
{
    let key = devs[j].numerical_id;
    let d = devs.last();
    let earlier = states.drop_last();
    let added = devs.drop_last();
    assert forall|i: int| 0 <= i < added.len() implies earlier[i + 1].is_add_of(
        &earlier[i],
        #[trigger] added[i],
    ) by {
        assert(states[i + 1].is_add_of(&states[i], devs[i]));
    }
    let before = earlier.last();
    assert(before == states[devs.len() - 1]);
    assert(states.last().is_add_of(&before, devs[devs.len() - 1]));
    lemma_history(earlier, added);
    lemma_first_after_insert(before.in_order(), d, key);
    if j < devs.len() - 1 {
        assert forall|i: int| j < i < added.len() implies (#[trigger] added[i]).numerical_id
            != added[j].numerical_id by {
            assert(devs[i].numerical_id != devs[j].numerical_id);
        }
        lemma_find_most_recent(earlier, added, j, first_with_key(before.in_order(), key));
    }
}

/// Where no key was added twice, `find` returns for the key of an added device that device.
pub proof fn lemma_find_added(
    states: Seq<BetterDeviceRegistry>,
    devs: Seq<IoTDevice>,
    j: int,
    found: Option<IoTDevice>,
)
    requires
        is_history(states, devs),
        distinct_keys(devs),
        0 <= j < devs.len(),
        states.last().is_find_of(devs[j].numerical_id, found),
    ensures
        found == Some(devs[j]),
{
    lemma_find_most_recent(states, devs, j, found);
}

/// For a key that was never added `find` returns nothing.
pub proof fn lemma_find_never_added(
    states: Seq<BetterDeviceRegistry>,
    devs: Seq<IoTDevice>,
    key: u64,
    found: Option<IoTDevice>,
)
    requires
        is_history(states, devs),
        !holds_key(devs, key),
        states.last().is_find_of(key, found),
    ensures
        found is None,
{
    let s = states.last().in_order();
    lemma_history(states, devs);
    if holds_key(s, key) {
        let i = choose|i: int| 0 <= i < s.len() && #[trigger] s[i].numerical_id == key;
        assert(s.contains(s[i]));
        lemma_member_of_same_devices(devs, s, s[i]);
        let m = choose|m: int| 0 <= m < devs.len() && devs[m] == s[i];
        assert(devs[m].numerical_id == key);
    }
}

/// The validator counts what is in the tree: of one tree it gives one verdict, however often
/// it is asked.
pub proof fn lemma_validate_again(
    tree: &BetterDeviceRegistry,
    first: (usize, usize, usize),
    second: (usize, usize, usize),
)
    requires
        tree.is_validate_of(first),
        tree.is_validate_of(second),
    ensures
        first == second,
{
}

/// An ordered index of devices by their numerical id.
pub struct BetterDeviceRegistry {
    nodes: Vec<Node>,
    root: Option<usize>,
    /// The number of `add` calls so far.
    pub length: u64,
    summary: Ghost<Seq<Summary>>,
}

impl BetterDeviceRegistry {
    /// The devices of the registry in the order of a walk.
    pub closed spec fn in_order(&self) -> Seq<IoTDevice> {
        self.items_below(self.root)
    }

    /// The value of the field `length`.
    pub closed spec fn count(&self) -> nat {
        self.length as nat
    }

    /// `self` is a registry as `new_empty` makes it.
    pub open spec fn is_new(&self) -> bool {
        &&& self.wf()
        &&& self.count() == 0
        &&& self.in_order() == Seq::<IoTDevice>::empty()
    }

    /// `self` is `before` after `add(dev)`: a red-black tree again, with one device more, which
    /// stands in the order before the first device whose key is not larger than its own.
    pub open spec fn is_add_of(&self, before: &BetterDeviceRegistry, dev: IoTDevice) -> bool {
        &&& self.wf()
        &&& self.count() == before.count() + 1
        &&& self.in_order() == before.in_order().insert(
            rank(before.in_order(), dev.numerical_id) as int,
            dev,
        )
    }

    /// `found` is what `find(key)` returns: the first device with that key in the order of a
    /// walk, which is the one that was added last, and nothing where the registry holds no
    /// such device.
    pub open spec fn is_find_of(&self, key: u64, found: Option<IoTDevice>) -> bool {
        found == first_with_key(self.in_order(), key)
    }

    /// `counts` is what the validator returns for the whole tree.
    pub open spec fn is_validate_of(&self, counts: (usize, usize, usize)) -> bool {
        (counts.0 as nat, counts.1 as nat, counts.2 as nat) == self.validation()
    }

    /// The number of nodes in the arena.
    pub closed spec fn node_count(&self) -> nat {
        self.nodes@.len()
    }

    /// The index of the root.
    pub closed spec fn root_index(&self) -> Option<usize> {
        self.root
    }

    /// All nodes of the arena.
    pub closed spec fn all_nodes(&self) -> Seq<Node> {
        self.nodes@
    }

    /// Root, `length` and summaries are those of `other`.
    pub closed spec fn same_but_nodes(&self, other: &BetterDeviceRegistry) -> bool {
        self.root == other.root && self.length == other.length && self.summary@ == other.summary@
    }

    /// The node with index `i`.
    pub closed spec fn node_at(&self, i: int) -> Node {
        self.nodes@[i]
    }

    pub closed spec fn size_below(&self, link: Option<usize>) -> nat {
        match link {
            None => 0,
            Some(i) => self.summary@[i as int].size,
        }
    }

    pub closed spec fn items_below(&self, link: Option<usize>) -> Seq<IoTDevice> {
        match link {
            None => Seq::empty(),
            Some(i) => self.summary@[i as int].items,
        }
    }

    pub closed spec fn blacks_below(&self, link: Option<usize>) -> nat {
        match link {
            None => 0,
            Some(i) => self.summary@[i as int].black_height,
        }
    }

    /// 1 for a black node, 0 for a red one.
    pub open spec fn black(&self, i: usize) -> nat {
        if self.node_at(i as int).color == Color::Black {
            1
        } else {
            0
        }
    }

    /// The colour above node `i`: that of its parent, and red above the root.
    pub closed spec fn color_above(&self, i: usize) -> Color {
        match self.nodes@[i as int].parent {
            None => Color::Red,
            Some(p) => self.nodes@[p as int].color,
        }
    }

    /// `link` is empty or names a node of the arena.
    pub open spec fn in_arena(&self, link: Option<usize>) -> bool {
        link matches Some(i) ==> i < self.node_count()
    }

    /// The tree below a node is made of the node and the trees below its children: so are
    /// its size and its devices in order. Below an empty link there is nothing, and the
    /// devices of the registry in order are those below the root.
    pub proof fn lemma_below(&self, i: usize)
        requires
            self.linked(),
            i < self.node_count(),
        ensures
            self.size_below(Some(i)) == 1 + self.size_below(self.node_at(i as int).left)
                + self.size_below(self.node_at(i as int).right),
            self.items_below(Some(i)) == self.items_below(self.node_at(i as int).left)
                + seq![self.node_at(i as int).dev] + self.items_below(self.node_at(i as int).right),
            self.items_below(Some(i)).len() == self.size_below(Some(i)),
            self.size_below(None) == 0,
            self.items_below(None) == Seq::<IoTDevice>::empty(),
            self.in_order() == self.items_below(self.root_index()),
            descending(self.items_below(Some(i))),
    {
        assert(self.link_ok(i));
    }

    /// The arena holds no more nodes than a `usize` counts.
    pub proof fn lemma_arena_fits(&self)
        ensures
            self.node_count() <= usize::MAX,
    {
        assert(self.nodes.len() == self.nodes@.len());
    }

    /// In a linked tree no subtree has more nodes than the arena.
    pub proof fn lemma_sizes(&self, link: Option<usize>)
        requires
            self.linked(),
            self.in_arena(link),
        ensures
            self.size_below(link) <= self.node_count(),
    {
        if let Some(i) = link {
            assert(self.link_ok(i));
        }
    }

    /// The root of a linked tree is a node of the arena, and the tree below it has all nodes.
    pub proof fn lemma_root(&self)
        requires
            self.linked(),
        ensures
            self.in_arena(self.root_index()),
            self.size_below(self.root_index()) == self.node_count(),
    {
    }

    /// Node `i` and its relatives agree on who is whose parent and child, and the summary of
    /// `i` is made of those of its children.
    pub closed spec fn link_ok(&self, i: usize) -> bool {
        let n = self.nodes@[i as int];
        let s = self.summary@[i as int];
        &&& n.left matches Some(l) ==> l < self.nodes@.len() && l != i
            && self.nodes@[l as int].parent == Some(i)
        &&& n.right matches Some(r) ==> r < self.nodes@.len() && r != i
            && self.nodes@[r as int].parent == Some(i)
        &&& n.left is Some ==> n.left != n.right
        &&& n.parent matches Some(p) ==> p < self.nodes@.len() && (self.nodes@[p as int].left
            == Some(i) || self.nodes@[p as int].right == Some(i))
        &&& n.parent is None <==> self.root == Some(i)
        &&& s.size == 1 + self.size_below(n.left) + self.size_below(n.right)
        &&& s.size <= self.nodes@.len()
        &&& s.items == self.items_below(n.left) + seq![n.dev] + self.items_below(n.right)
        &&& s.items.len() == s.size
        &&& descending(s.items)
    }

    /// The arena holds one tree, in which parents and children agree, and whose keys descend
    /// in order.
    pub closed spec fn linked(&self) -> bool {
        &&& self.summary@.len() == self.nodes@.len()
        &&& self.in_arena(self.root)
        &&& self.size_below(self.root) == self.nodes@.len()
        &&& forall|i: usize| i < self.nodes@.len() ==> #[trigger] self.link_ok(i)
    }

    /// The colours at node `i` are those of a red-black tree: both children have one black
    /// height, and `i` is not a red node below a red one, unless it is the node `spared`.
    pub closed spec fn color_ok(&self, i: usize, spared: Option<usize>) -> bool {
        let n = self.nodes@[i as int];
        &&& self.blacks_below(n.left) == self.blacks_below(n.right)
        &&& self.summary@[i as int].black_height == self.blacks_below(n.left) + self.black(i)
        &&& n.color == Color::Red && self.color_above(i) == Color::Red ==> spared == Some(i)
    }

    pub closed spec fn colored(&self, spared: Option<usize>) -> bool {
        forall|i: usize| i < self.nodes@.len() ==> #[trigger] self.color_ok(i, spared)
    }

    /// The registry is a red-black tree, and `length` is the number of its devices.
    pub open spec fn wf(&self) -> bool {
        &&& self.linked()
        &&& self.colored(None)
        &&& self.count() == self.node_count()
    }

    /// What the validator counts below `node`, under a parent of colour `parent_color` that
    /// has `black_height` black nodes above and including it: the red nodes with a red parent,
    /// and the smallest and the largest number of black nodes on a path from the root to an
    /// empty position.
    pub open spec fn validate_spec(
        &self,
        node: Option<usize>,
        parent_color: Color,
        black_height: nat,
    ) -> (nat, nat, nat)
        decreases self.size_below(node),
    {
        match node {
            None => (0, black_height, black_height),
            Some(i) => {
                let n = self.node_at(i as int);
                if self.size_below(n.left) < self.size_below(node) && self.size_below(n.right)
                    < self.size_below(node) {
                    let red_red: nat = if parent_color == Color::Red && n.color == Color::Red {
                        1
                    } else {
                        0
                    };
                    let height = black_height + self.black(i);
                    let l = self.validate_spec(n.left, n.color, height);
                    let r = self.validate_spec(n.right, n.color, height);
                    (
                        red_red + l.0 + r.0,
                        if l.1 <= r.1 {
                            l.1
                        } else {
                            r.1
                        },
                        if l.2 >= r.2 {
                            l.2
                        } else {
                            r.2
                        },
                    )
                } else {
                    (0, black_height, black_height)
                }
            },
        }
    }

    /// What the validator counts in the whole tree.
    pub open spec fn validation(&self) -> (nat, nat, nat) {
        self.validate_spec(self.root_index(), Color::Red, 0)
    }

    /// In a linked tree parents and children agree: a child names as its parent the node
    /// that holds it, a node hangs in one slot of the parent that it names, no node is its own
    /// child or both children of one node, and the root is the one node without a parent.
    pub proof fn lemma_links_agree(&self, i: usize)
        requires
            self.linked(),
            i < self.node_count(),
        ensures
            self.node_at(i as int).left matches Some(l) ==> l < self.node_count() && l != i
                && self.node_at(l as int).parent == Some(i),
            self.node_at(i as int).right matches Some(r) ==> r < self.node_count() && r != i
                && self.node_at(r as int).parent == Some(i),
            self.node_at(i as int).left is Some ==> self.node_at(i as int).left != self.node_at(i as int).right,
            self.node_at(i as int).parent matches Some(p) ==> p < self.node_count() && (
            self.node_at(p as int).left == Some(i) || self.node_at(p as int).right == Some(i)),
            self.node_at(i as int).parent is None <==> self.root_index() == Some(i),
    {
        assert(self.link_ok(i));
    }

    /// In a linked tree no key to the left of a node is smaller than its key, and none to its
    /// right is larger.
    pub proof fn lemma_keys_agree(&self, i: usize)
        requires
            self.linked(),
            i < self.node_count(),
        ensures
            self.node_at(i as int).left matches Some(l) ==> self.node_at(l as int).dev.numerical_id
                >= self.node_at(i as int).dev.numerical_id,
            self.node_at(i as int).right matches Some(r) ==> self.node_at(r as int).dev.numerical_id <= self.node_at(i as int).dev.numerical_id,
    {
        reveal(descending);
        assert(self.link_ok(i));
        let n = self.nodes@[i as int];
        let items = self.summary@[i as int].items;
        let mine = self.items_below(n.left).len() as int;
        assert(items[mine] == n.dev);
        if let Some(l) = n.left {
            assert(self.link_ok(l));
            let at = self.items_below(self.nodes@[l as int].left).len() as int;
            assert(self.summary@[l as int].items[at] == self.nodes@[l as int].dev);
            assert(items[at] == self.nodes@[l as int].dev);
        }
        if let Some(r) = n.right {
            assert(self.link_ok(r));
            let at = self.items_below(self.nodes@[r as int].left).len() as int;
            assert(self.summary@[r as int].items[at] == self.nodes@[r as int].dev);
            assert(items[mine + 1 + at] == self.nodes@[r as int].dev);
        }
    }

    /// In a red-black tree the root is black, and a red node has a black parent and no red
    /// child.
    pub proof fn lemma_colors_agree(&self, i: usize)
        requires
            self.linked(),
            self.colored(None),
            i < self.node_count(),
        ensures
            self.root_index() == Some(i) ==> self.node_at(i as int).color == Color::Black,
            self.node_at(i as int).color == Color::Red ==> (self.node_at(i as int).parent matches Some(p) && self.node_at(p as int).color == Color::Black),
            self.node_at(i as int).color == Color::Red ==> (self.node_at(i as int).left matches Some(l) ==> self.node_at(l as int).color == Color::Black),
            self.node_at(i as int).color == Color::Red ==> (self.node_at(i as int).right matches Some(r) ==> self.node_at(r as int).color == Color::Black),
    {
        assert(self.link_ok(i));
        assert(self.color_ok(i, None));
        let n = self.nodes@[i as int];
        if let Some(l) = n.left {
            assert(self.link_ok(l));
            assert(self.color_ok(l, None));
        }
        if let Some(r) = n.right {
            assert(self.link_ok(r));
            assert(self.color_ok(r, None));
        }
    }

    /// A well-formed registry holds as many devices as `length` says, in descending order of
    /// their keys.
    pub proof fn lemma_wf_in_order(&self)
        requires
            self.wf(),
        ensures
            self.in_order().len() == self.count(),
            descending(self.in_order()),
    {
        reveal(descending);
        if self.root is Some {
            assert(self.link_ok(self.root.unwrap()));
        }
    }

    /// Below a node of a red-black tree the validator finds no red node under a red one, and
    /// one black height.
    proof fn lemma_validate_colored(&self, node: Option<usize>, parent_color: Color, height: nat)
        requires
            self.linked(),
            self.colored(None),
            self.in_arena(node),
            node matches Some(i) ==> parent_color == self.color_above(i),
        ensures
            self.validate_spec(node, parent_color, height) == (
                0nat,
                height + self.blacks_below(node),
                height + self.blacks_below(node),
            ),
        decreases self.size_below(node),
    {
        if let Some(i) = node {
            let n = self.nodes@[i as int];
            assert(self.link_ok(i));
            assert(self.color_ok(i, None));
            let h = height + self.black(i);
            if let Some(l) = n.left {
                assert(self.link_ok(l));
            }
            if let Some(r) = n.right {
                assert(self.link_ok(r));
            }
            self.lemma_validate_colored(n.left, n.color, h);
            self.lemma_validate_colored(n.right, n.color, h);
        }
    }

    /// The validator passes every red-black tree, whatever `length` says.
    pub proof fn lemma_wf_is_valid(&self)
        requires
            self.linked(),
            self.colored(None),
        ensures
            verdict(self.validation()),
    {
        if let Some(r) = self.root {
            assert(self.link_ok(r));
        }
        self.lemma_validate_colored(self.root, Color::Red, 0);
    }

    /// The child of `x` that rises when the tree is rotated at `x`: the left one in a rotation
    /// to the right.
    pub open spec fn riser(&self, x: usize, direction: Rotation) -> Option<usize> {
        match direction {
            Rotation::Right => self.node_at(x as int).left,
            Rotation::Left => self.node_at(x as int).right,
        }
    }

    /// The nodes after a rotation at `x`. With `y` the child that rises: `x` takes over the
    /// inner child of `y`, `y` takes the place of `x` under the parent of `x`, in whichever
    /// slot held `x`, and `x` becomes the child of `y`.
    pub closed spec fn rotated_nodes(&self, x: usize, direction: Rotation) -> Seq<Node> {
        let nodes = self.nodes@;
        let nx = nodes[x as int];
        let y = self.riser(x, direction).unwrap();
        let ny = nodes[y as int];
        let inner = match direction {
            Rotation::Right => ny.right,
            Rotation::Left => ny.left,
        };
        let turned = match direction {
            Rotation::Right => nodes.update(x as int, Node { left: inner, parent: Some(y), ..nx })
                .update(y as int, Node { right: Some(x), parent: nx.parent, ..ny }),
            Rotation::Left => nodes.update(x as int, Node { right: inner, parent: Some(y), ..nx })
                .update(y as int, Node { left: Some(x), parent: nx.parent, ..ny }),
        };
        let moved = match inner {
            Some(b) => turned.update(b as int, Node { parent: Some(x), ..turned[b as int] }),
            None => turned,
        };
        match nx.parent {
            Some(p) => if nodes[p as int].left == Some(x) {
                moved.update(p as int, Node { left: Some(y), ..moved[p as int] })
            } else {
                moved.update(p as int, Node { right: Some(y), ..moved[p as int] })
            },
            None => moved,
        }
    }

    /// The root after a rotation at `x`: the riser, where `x` was the root.
    pub closed spec fn rotated_root(&self, x: usize, direction: Rotation) -> Option<usize> {
        if self.nodes@[x as int].parent is None {
            self.riser(x, direction)
        } else {
            self.root
        }
    }

    /// The summaries after a rotation at `x`: those of `x` and of the riser are made anew.
    pub closed spec fn rotated_summary(&self, x: usize, direction: Rotation) -> Seq<Summary> {
        let nx = self.nodes@[x as int];
        let y = self.riser(x, direction).unwrap();
        let ny = self.nodes@[y as int];
        let (a, b) = match direction {
            Rotation::Right => (ny.right, nx.right),
            Rotation::Left => (nx.left, ny.left),
        };
        let sx = Summary {
            size: 1 + self.size_below(a) + self.size_below(b),
            black_height: self.blacks_below(a) + self.black(x),
            items: self.items_below(a) + seq![nx.dev] + self.items_below(b),
        };
        let sy = match direction {
            Rotation::Right => Summary {
                size: self.summary@[x as int].size,
                black_height: self.blacks_below(ny.left) + self.black(y),
                items: self.summary@[x as int].items,
            },
            Rotation::Left => Summary {
                size: self.summary@[x as int].size,
                black_height: sx.black_height + self.black(y),
                items: self.summary@[x as int].items,
            },
        };
        self.summary@.update(x as int, sx).update(y as int, sy)
    }

    /// `self` is `before` after a rotation at `x`.
    pub closed spec fn is_rotation_of(
        &self,
        before: &BetterDeviceRegistry,
        x: usize,
        direction: Rotation,
    ) -> bool {
        &&& self.nodes@ == before.rotated_nodes(x, direction)
        &&& self.root == before.rotated_root(x, direction)
        &&& self.summary@ == before.rotated_summary(x, direction)
        &&& self.length == before.length
    }

    /// Both registries hold the same nodes with the same links, under the same root, with
    /// the same devices below each node.
    pub closed spec fn same_tree(&self, other: &BetterDeviceRegistry) -> bool {
        &&& self.nodes@ =~= other.nodes@
        &&& self.root == other.root
        &&& self.length == other.length
        &&& self.summary@.len() == other.summary@.len()
        &&& forall|i: int|
            0 <= i < self.summary@.len() ==> (#[trigger] self.summary@[i]).size
                == other.summary@[i].size && self.summary@[i].items == other.summary@[i].items
    }

    /// Registries with the same tree show the same nodes, root and devices.
    pub proof fn lemma_same_tree(&self, other: &BetterDeviceRegistry)
        requires
            self.same_tree(other),
            self.linked(),
        ensures
            self.root_index() == other.root_index(),
            self.node_count() == other.node_count(),
            self.count() == other.count(),
            self.in_order() == other.in_order(),
            forall|i: int| 0 <= i < self.node_count() ==> self.node_at(i) == other.node_at(i),
    {
    }

    /// What a rotation to the right at `x` changes, node by node.
    #[verifier::rlimit(40)]
    #[verifier::spinoff_prover]
    proof fn lemma_rotation_right_facts(&self, before: &BetterDeviceRegistry, x: usize)
        requires
            before.linked(),
            x < before.node_count(),
            before.riser(x, Rotation::Right) is Some,
            self.is_rotation_of(before, x, Rotation::Right),
        ensures
            ({
                let nx = before.nodes@[x as int];
                let y = nx.left.unwrap();
                let ny = before.nodes@[y as int];
                let inner = ny.right;
                let above = nx.parent;
                &&& self.nodes@.len() == before.nodes@.len()
                &&& self.summary@.len() == before.summary@.len()
                &&& y < before.nodes@.len()
                &&& x != y && inner != Some(x) && inner != Some(y) && above != Some(x) && above
                    != Some(y)
                &&& above is Some ==> above != inner
                &&& self.nodes@[x as int] == Node { left: inner, parent: Some(y), ..nx }
                &&& self.nodes@[y as int] == Node { right: Some(x), parent: above, ..ny }
                &&& inner matches Some(b) ==> b < before.nodes@.len() && self.nodes@[b as int]
                    == Node { parent: Some(x), ..before.nodes@[b as int] }
                &&& above matches Some(p) ==> p < before.nodes@.len() && self.nodes@[p as int]
                    == if before.nodes@[p as int].left == Some(x) {
                    Node { left: Some(y), ..before.nodes@[p as int] }
                } else {
                    Node { right: Some(y), ..before.nodes@[p as int] }
                }
                &&& forall|i: usize|
                    i < before.nodes@.len() && i != x && i != y && inner != Some(i) && above
                        != Some(i) ==> self.nodes@[i as int] == before.nodes@[i as int]
                &&& forall|i: usize|
                    i < before.nodes@.len() && i != x && i != y ==> self.summary@[i as int]
                        == before.summary@[i as int]
                &&& self.summary@[x as int].black_height == before.blacks_below(inner)
                    + before.black(x)
                &&& self.summary@[y as int].black_height == before.blacks_below(ny.left)
                    + before.black(y)
                &&& self.root == if above is None {
                    Some(y)
                } else {
                    before.root
                }
            }),
    {
        let old_nodes = before.nodes@;
        let new_nodes = self.nodes@;
        let nx = old_nodes[x as int];
        let y = nx.left.unwrap();
        let ny = old_nodes[y as int];
        let inner = ny.right;
        let above = nx.parent;
        assert(before.link_ok(x));
        assert(before.link_ok(y));
        assert(x != y);
        if let Some(b) = inner {
            assert(before.link_ok(b));
            assert(b != x && b != y);
        }
        if let Some(p) = above {
            assert(before.link_ok(p));
            assert(p != x && p != y && inner != Some(p));
        }
        let turned = old_nodes.update(x as int, Node { left: inner, parent: Some(y), ..nx }).update(
            y as int,
            Node { right: Some(x), parent: above, ..ny },
        );
        let moved = match inner {
            Some(b) => turned.update(b as int, Node { parent: Some(x), ..turned[b as int] }),
            None => turned,
        };
        assert(new_nodes == match above {
            Some(p) => if old_nodes[p as int].left == Some(x) {
                moved.update(p as int, Node { left: Some(y), ..moved[p as int] })
            } else {
                moved.update(p as int, Node { right: Some(y), ..moved[p as int] })
            },
            None => moved,
        });
    }

    /// What a rotation to the left at `x` changes, node by node.
    #[verifier::rlimit(40)]
    #[verifier::spinoff_prover]
    proof fn lemma_rotation_left_facts(&self, before: &BetterDeviceRegistry, x: usize)
        requires
            before.linked(),
            x < before.node_count(),
            before.riser(x, Rotation::Left) is Some,
            self.is_rotation_of(before, x, Rotation::Left),
        ensures
            ({
                let nx = before.nodes@[x as int];
                let y = nx.right.unwrap();
                let ny = before.nodes@[y as int];
                let inner = ny.left;
                let above = nx.parent;
                &&& self.nodes@.len() == before.nodes@.len()
                &&& self.summary@.len() == before.summary@.len()
                &&& y < before.nodes@.len()
                &&& x != y && inner != Some(x) && inner != Some(y) && above != Some(x) && above
                    != Some(y)
                &&& above is Some ==> above != inner
                &&& self.nodes@[x as int] == Node { right: inner, parent: Some(y), ..nx }
                &&& self.nodes@[y as int] == Node { left: Some(x), parent: above, ..ny }
                &&& inner matches Some(b) ==> b < before.nodes@.len() && self.nodes@[b as int]
                    == Node { parent: Some(x), ..before.nodes@[b as int] }
                &&& above matches Some(p) ==> p < before.nodes@.len() && self.nodes@[p as int]
                    == if before.nodes@[p as int].left == Some(x) {
                    Node { left: Some(y), ..before.nodes@[p as int] }
                } else {
                    Node { right: Some(y), ..before.nodes@[p as int] }
                }
                &&& forall|i: usize|
                    i < before.nodes@.len() && i != x && i != y && inner != Some(i) && above
                        != Some(i) ==> self.nodes@[i as int] == before.nodes@[i as int]
                &&& forall|i: usize|
                    i < before.nodes@.len() && i != x && i != y ==> self.summary@[i as int]
                        == before.summary@[i as int]
                &&& self.summary@[x as int].black_height == before.blacks_below(nx.left)
                    + before.black(x)
                &&& self.summary@[y as int].black_height == before.blacks_below(nx.left)
                    + before.black(x) + before.black(y)
                &&& self.root == if above is None {
                    Some(y)
                } else {
                    before.root
                }
            }),
    {
        let old_nodes = before.nodes@;
        let new_nodes = self.nodes@;
        let nx = old_nodes[x as int];
        let y = nx.right.unwrap();
        let ny = old_nodes[y as int];
        let inner = ny.left;
        let above = nx.parent;
        assert(before.link_ok(x));
        assert(before.link_ok(y));
        assert(x != y);
        if let Some(b) = inner {
            assert(before.link_ok(b));
            assert(b != x && b != y);
        }
        if let Some(p) = above {
            assert(before.link_ok(p));
            assert(p != x && p != y && inner != Some(p));
        }
        let turned = old_nodes.update(x as int, Node { right: inner, parent: Some(y), ..nx }).update(
            y as int,
            Node { left: Some(x), parent: above, ..ny },
        );
        let moved = match inner {
            Some(b) => turned.update(b as int, Node { parent: Some(x), ..turned[b as int] }),
            None => turned,
        };
        assert(new_nodes == match above {
            Some(p) => if old_nodes[p as int].left == Some(x) {
                moved.update(p as int, Node { left: Some(y), ..moved[p as int] })
            } else {
                moved.update(p as int, Node { right: Some(y), ..moved[p as int] })
            },
            None => moved,
        });
    }

    /// After a rotation to the right at `x`, `x` is linked.
    #[verifier::rlimit(40)]
    #[verifier::spinoff_prover]
    proof fn lemma_rotation_right_at_node(&self, before: &BetterDeviceRegistry, x: usize)
        requires
            before.linked(),
            x < before.node_count(),
            before.riser(x, Rotation::Right) is Some,
            self.is_rotation_of(before, x, Rotation::Right),
        ensures
            self.link_ok(x),
    {
        let nx = before.nodes@[x as int];
        let y = nx.left.unwrap();
        let ny = before.nodes@[y as int];
        let inner = ny.right;
        let outer = ny.left;
        let other = nx.right;
        let above = nx.parent;
        self.lemma_rotation_right_facts(before, x);
        assert(before.link_ok(x));
        assert(before.link_ok(y));
        if let Some(b) = inner {
            assert(before.link_ok(b));
        }
        if let Some(a) = outer {
            assert(before.link_ok(a));
        }
        if let Some(c) = other {
            assert(before.link_ok(c));
        }
        if let Some(p) = above {
            assert(before.link_ok(p));
        }
        if let Some(r) = before.root {
            assert(before.link_ok(r));
        }
        let old_items = before.summary@[x as int].items;
        let new_items = self.summary@[x as int].items;
        let skip = before.items_below(outer).len() + 1;
        assert(new_items =~= old_items.subrange(skip as int, old_items.len() as int));
        lemma_descending_subrange(old_items, skip as int, old_items.len() as int);
        assert(self.summary@[y as int].items =~= before.items_below(outer) + seq![ny.dev]
            + new_items);
    }

    /// After a rotation to the right at `x`, the node that rose is linked, and holds below
    /// it what `x` held.
    #[verifier::rlimit(40)]
    #[verifier::spinoff_prover]
    proof fn lemma_rotation_right_at_riser(&self, before: &BetterDeviceRegistry, x: usize)
        requires
            before.linked(),
            x < before.node_count(),
            before.riser(x, Rotation::Right) is Some,
            self.is_rotation_of(before, x, Rotation::Right),
        ensures
            self.link_ok(before.riser(x, Rotation::Right).unwrap()),
            self.in_order() == before.in_order(),
            self.in_arena(self.root),
            self.size_below(self.root) == self.nodes@.len(),
    {
        let nx = before.nodes@[x as int];
        let y = nx.left.unwrap();
        let ny = before.nodes@[y as int];
        let inner = ny.right;
        let outer = ny.left;
        let other = nx.right;
        let above = nx.parent;
        self.lemma_rotation_right_facts(before, x);
        assert(before.link_ok(x));
        assert(before.link_ok(y));
        if let Some(b) = inner {
            assert(before.link_ok(b));
        }
        if let Some(a) = outer {
            assert(before.link_ok(a));
        }
        if let Some(c) = other {
            assert(before.link_ok(c));
        }
        if let Some(p) = above {
            assert(before.link_ok(p));
        }
        if let Some(r) = before.root {
            assert(before.link_ok(r));
        }
        let old_items = before.summary@[x as int].items;
        let new_items = self.summary@[x as int].items;
        let skip = before.items_below(outer).len() + 1;
        assert(new_items =~= old_items.subrange(skip as int, old_items.len() as int));
        lemma_descending_subrange(old_items, skip as int, old_items.len() as int);
        assert(self.summary@[y as int].items =~= before.items_below(outer) + seq![ny.dev]
            + new_items);
    }

    /// After a rotation to the right at `x`, the child that changed its parent and the parent
    /// of `x` are linked.
    #[verifier::rlimit(40)]
    #[verifier::spinoff_prover]
    proof fn lemma_rotation_right_around(&self, before: &BetterDeviceRegistry, x: usize, i: usize)
        requires
            before.linked(),
            x < before.node_count(),
            before.riser(x, Rotation::Right) is Some,
            self.is_rotation_of(before, x, Rotation::Right),
            i < before.node_count(),
            before.node_at(before.riser(x, Rotation::Right).unwrap() as int).right == Some(i)
                || before.node_at(x as int).parent == Some(i),
        ensures
            self.link_ok(i),
    {
        let nx = before.nodes@[x as int];
        let y = nx.left.unwrap();
        let ny = before.nodes@[y as int];
        let inner = ny.right;
        let outer = ny.left;
        let other = nx.right;
        let above = nx.parent;
        self.lemma_rotation_right_facts(before, x);
        assert(before.link_ok(x));
        assert(before.link_ok(y));
        if let Some(b) = inner {
            assert(before.link_ok(b));
        }
        if let Some(a) = outer {
            assert(before.link_ok(a));
        }
        if let Some(c) = other {
            assert(before.link_ok(c));
        }
        if let Some(p) = above {
            assert(before.link_ok(p));
        }
        if let Some(r) = before.root {
            assert(before.link_ok(r));
        }
        assert(before.link_ok(i));
    }

    /// After a rotation to the right at `x`, a node away from it is linked as it was.
    #[verifier::rlimit(40)]
    #[verifier::spinoff_prover]
    proof fn lemma_rotation_right_elsewhere(&self, before: &BetterDeviceRegistry, x: usize, i: usize)
        requires
            before.linked(),
            x < before.node_count(),
            before.riser(x, Rotation::Right) is Some,
            self.is_rotation_of(before, x, Rotation::Right),
            i < before.node_count(),
            i != x,
            i != before.riser(x, Rotation::Right).unwrap(),
            before.node_at(before.riser(x, Rotation::Right).unwrap() as int).right != Some(i),
            before.node_at(x as int).parent != Some(i),
        ensures
            self.link_ok(i),
    {
        let nx = before.nodes@[x as int];
        let y = nx.left.unwrap();
        let ny = before.nodes@[y as int];
        let inner = ny.right;
        let outer = ny.left;
        let other = nx.right;
        let above = nx.parent;
        self.lemma_rotation_right_facts(before, x);
        assert(before.link_ok(x));
        assert(before.link_ok(y));
        if let Some(b) = inner {
            assert(before.link_ok(b));
        }
        if let Some(a) = outer {
            assert(before.link_ok(a));
        }
        if let Some(c) = other {
            assert(before.link_ok(c));
        }
        if let Some(p) = above {
            assert(before.link_ok(p));
        }
        if let Some(r) = before.root {
            assert(before.link_ok(r));
        }
        assert(before.link_ok(i));
        let n = before.nodes@[i as int];
        assert(self.nodes@[i as int] == n);
        if let Some(l) = n.left {
            assert(before.link_ok(l));
            assert(l != x && l != y);
            assert(inner != Some(l));
        }
        if let Some(r) = n.right {
            assert(before.link_ok(r));
            assert(r != x && r != y);
            assert(inner != Some(r));
        }
        if let Some(q) = n.parent {
            assert(before.link_ok(q));
        }
    }

    proof fn lemma_rotation_right_linked(&self, before: &BetterDeviceRegistry, x: usize)
        requires
            before.linked(),
            x < before.node_count(),
            before.riser(x, Rotation::Right) is Some,
            self.is_rotation_of(before, x, Rotation::Right),
        ensures
            self.linked(),
            self.in_order() == before.in_order(),
            self.node_count() == before.node_count(),
            self.count() == before.count(),
    {
        let y = before.riser(x, Rotation::Right).unwrap();
        assert(before.link_ok(x));
        self.lemma_rotation_right_at_node(before, x);
        self.lemma_rotation_right_at_riser(before, x);
        assert(self.nodes@.len() == before.nodes@.len());
        assert(self.summary@.len() == self.nodes@.len());
        assert forall|i: usize| i < self.nodes@.len() implies #[trigger] self.link_ok(i) by {
            if i == x || i == y {
            } else if before.node_at(y as int).right == Some(i) || before.node_at(x as int).parent
                == Some(i) {
                self.lemma_rotation_right_around(before, x, i);
            } else {
                self.lemma_rotation_right_elsewhere(before, x, i);
            }
        }
    }

    /// A rotation to the right at `x` and one back at the node that rose undo each other.
    #[verifier::rlimit(40)]
    #[verifier::spinoff_prover]
    proof fn lemma_round_trip_right(
        before: &BetterDeviceRegistry,
        mid: &BetterDeviceRegistry,
        after: &BetterDeviceRegistry,
        x: usize,
    )
        requires
            before.linked(),
            x < before.node_count(),
            before.riser(x, Rotation::Right) is Some,
            mid.is_rotation_of(before, x, Rotation::Right),
            after.is_rotation_of(mid, before.riser(x, Rotation::Right).unwrap(), Rotation::Left),
        ensures
            mid.riser(before.riser(x, Rotation::Right).unwrap(), Rotation::Left) == Some(x),
            after.same_tree(before),
    {
        let nx = before.nodes@[x as int];
        let y = nx.left.unwrap();
        let ny = before.nodes@[y as int];
        let inner = ny.right;
        let above = nx.parent;
        mid.lemma_rotation_right_facts(before, x);
        mid.lemma_rotation_right_linked(before, x);
        after.lemma_rotation_left_facts(mid, y);
        assert(before.link_ok(x));
        assert(before.link_ok(y));
        if let Some(b) = inner {
            assert(before.link_ok(b));
        }
        if let Some(p) = above {
            assert(before.link_ok(p));
        }
        assert(after.nodes@[x as int] == nx);
        assert(after.nodes@[y as int] == ny);
        assert forall|i: int| 0 <= i < before.nodes@.len() implies after.nodes@[i]
            == before.nodes@[i] by {
            let j = i as usize;
            if j != x && j != y && inner != Some(j) && above != Some(j) {
                assert(mid.nodes@[j as int] == before.nodes@[j as int]);
                assert(after.nodes@[j as int] == mid.nodes@[j as int]);
            }
        }
        assert(after.nodes@ =~= before.nodes@);
        assert forall|i: int| 0 <= i < after.summary@.len() implies (#[trigger] after.summary@[i]).size
            == before.summary@[i].size && after.summary@[i].items == before.summary@[i].items by {
            let j = i as usize;
            if j != x && j != y {
                assert(mid.summary@[j as int] == before.summary@[j as int]);
                assert(after.summary@[j as int] == mid.summary@[j as int]);
            }
        }
    }

    /// After a rotation to the left at `x`, `x` is linked.
    #[verifier::rlimit(40)]
    #[verifier::spinoff_prover]
    proof fn lemma_rotation_left_at_node(&self, before: &BetterDeviceRegistry, x: usize)
        requires
            before.linked(),
            x < before.node_count(),
            before.riser(x, Rotation::Left) is Some,
            self.is_rotation_of(before, x, Rotation::Left),
        ensures
            self.link_ok(x),
    {
        let nx = before.nodes@[x as int];
        let y = nx.right.unwrap();
        let ny = before.nodes@[y as int];
        let inner = ny.left;
        let outer = ny.right;
        let other = nx.left;
        let above = nx.parent;
        self.lemma_rotation_left_facts(before, x);
        assert(before.link_ok(x));
        assert(before.link_ok(y));
        if let Some(b) = inner {
            assert(before.link_ok(b));
        }
        if let Some(a) = outer {
            assert(before.link_ok(a));
        }
        if let Some(c) = other {
            assert(before.link_ok(c));
        }
        if let Some(p) = above {
            assert(before.link_ok(p));
        }
        if let Some(r) = before.root {
            assert(before.link_ok(r));
        }
        let old_items = before.summary@[x as int].items;
        let new_items = self.summary@[x as int].items;
        let keep = before.items_below(other).len() + 1 + before.items_below(inner).len();
        assert(new_items =~= old_items.subrange(0, keep as int));
        lemma_descending_subrange(old_items, 0, keep as int);
        assert(self.summary@[y as int].items =~= new_items + seq![ny.dev] + before.items_below(
            outer,
        ));
    }

    /// After a rotation to the left at `x`, the node that rose is linked, and holds below
    /// it what `x` held.
    #[verifier::rlimit(40)]
    #[verifier::spinoff_prover]
    proof fn lemma_rotation_left_at_riser(&self, before: &BetterDeviceRegistry, x: usize)
        requires
            before.linked(),
            x < before.node_count(),
            before.riser(x, Rotation::Left) is Some,
            self.is_rotation_of(before, x, Rotation::Left),
        ensures
            self.link_ok(before.riser(x, Rotation::Left).unwrap()),
            self.in_order() == before.in_order(),
            self.in_arena(self.root),
            self.size_below(self.root) == self.nodes@.len(),
    {
        let nx = before.nodes@[x as int];
        let y = nx.right.unwrap();
        let ny = before.nodes@[y as int];
        let inner = ny.left;
        let outer = ny.right;
        let other = nx.left;
        let above = nx.parent;
        self.lemma_rotation_left_facts(before, x);
        assert(before.link_ok(x));
        assert(before.link_ok(y));
        if let Some(b) = inner {
            assert(before.link_ok(b));
        }
        if let Some(a) = outer {
            assert(before.link_ok(a));
        }
        if let Some(c) = other {
            assert(before.link_ok(c));
        }
        if let Some(p) = above {
            assert(before.link_ok(p));
        }
        if let Some(r) = before.root {
            assert(before.link_ok(r));
        }
        let old_items = before.summary@[x as int].items;
        let new_items = self.summary@[x as int].items;
        let keep = before.items_below(other).len() + 1 + before.items_below(inner).len();
        assert(new_items =~= old_items.subrange(0, keep as int));
        lemma_descending_subrange(old_items, 0, keep as int);
        assert(self.summary@[y as int].items =~= new_items + seq![ny.dev] + before.items_below(
            outer,
        ));
    }

    /// After a rotation to the left at `x`, the child that changed its parent and the parent
    /// of `x` are linked.
    #[verifier::rlimit(40)]
    #[verifier::spinoff_prover]
    proof fn lemma_rotation_left_around(&self, before: &BetterDeviceRegistry, x: usize, i: usize)
        requires
            before.linked(),
            x < before.node_count(),
            before.riser(x, Rotation::Left) is Some,
            self.is_rotation_of(before, x, Rotation::Left),
            i < before.node_count(),
            before.node_at(before.riser(x, Rotation::Left).unwrap() as int).left == Some(i)
                || before.node_at(x as int).parent == Some(i),
        ensures
            self.link_ok(i),
    {
        let nx = before.nodes@[x as int];
        let y = nx.right.unwrap();
        let ny = before.nodes@[y as int];
        let inner = ny.left;
        let outer = ny.right;
        let other = nx.left;
        let above = nx.parent;
        self.lemma_rotation_left_facts(before, x);
        assert(before.link_ok(x));
        assert(before.link_ok(y));
        if let Some(b) = inner {
            assert(before.link_ok(b));
        }
        if let Some(a) = outer {
            assert(before.link_ok(a));
        }
        if let Some(c) = other {
            assert(before.link_ok(c));
        }
        if let Some(p) = above {
            assert(before.link_ok(p));
        }
        if let Some(r) = before.root {
            assert(before.link_ok(r));
        }
        assert(before.link_ok(i));
    }

    /// After a rotation to the left at `x`, a node away from it is linked as it was.
    #[verifier::rlimit(40)]
    #[verifier::spinoff_prover]
    proof fn lemma_rotation_left_elsewhere(&self, before: &BetterDeviceRegistry, x: usize, i: usize)
        requires
            before.linked(),
            x < before.node_count(),
            before.riser(x, Rotation::Left) is Some,
            self.is_rotation_of(before, x, Rotation::Left),
            i < before.node_count(),
            i != x,
            i != before.riser(x, Rotation::Left).unwrap(),
            before.node_at(before.riser(x, Rotation::Left).unwrap() as int).left != Some(i),
            before.node_at(x as int).parent != Some(i),
        ensures
            self.link_ok(i),
    {
        let nx = before.nodes@[x as int];
        let y = nx.right.unwrap();
        let ny = before.nodes@[y as int];
        let inner = ny.left;
        let outer = ny.right;
        let other = nx.left;
        let above = nx.parent;
        self.lemma_rotation_left_facts(before, x);
        assert(before.link_ok(x));
        assert(before.link_ok(y));
        if let Some(b) = inner {
            assert(before.link_ok(b));
        }
        if let Some(a) = outer {
            assert(before.link_ok(a));
        }
        if let Some(c) = other {
            assert(before.link_ok(c));
        }
        if let Some(p) = above {
            assert(before.link_ok(p));
        }
        if let Some(r) = before.root {
            assert(before.link_ok(r));
        }
        assert(before.link_ok(i));
        let n = before.nodes@[i as int];
        assert(self.nodes@[i as int] == n);
        if let Some(l) = n.left {
            assert(before.link_ok(l));
            assert(l != x && l != y);
            assert(inner != Some(l));
        }
        if let Some(r) = n.right {
            assert(before.link_ok(r));
            assert(r != x && r != y);
            assert(inner != Some(r));
        }
        if let Some(q) = n.parent {
            assert(before.link_ok(q));
        }
    }

    proof fn lemma_rotation_left_linked(&self, before: &BetterDeviceRegistry, x: usize)
        requires
            before.linked(),
            x < before.node_count(),
            before.riser(x, Rotation::Left) is Some,
            self.is_rotation_of(before, x, Rotation::Left),
        ensures
            self.linked(),
            self.in_order() == before.in_order(),
            self.node_count() == before.node_count(),
            self.count() == before.count(),
    {
        let y = before.riser(x, Rotation::Left).unwrap();
        assert(before.link_ok(x));
        self.lemma_rotation_left_at_node(before, x);
        self.lemma_rotation_left_at_riser(before, x);
        assert(self.nodes@.len() == before.nodes@.len());
        assert(self.summary@.len() == self.nodes@.len());
        assert forall|i: usize| i < self.nodes@.len() implies #[trigger] self.link_ok(i) by {
            if i == x || i == y {
            } else if before.node_at(y as int).left == Some(i) || before.node_at(x as int).parent
                == Some(i) {
                self.lemma_rotation_left_around(before, x, i);
            } else {
                self.lemma_rotation_left_elsewhere(before, x, i);
            }
        }
    }

    /// A rotation to the left at `x` and one back at the node that rose undo each other.
    #[verifier::rlimit(40)]
    #[verifier::spinoff_prover]
    proof fn lemma_round_trip_left(
        before: &BetterDeviceRegistry,
        mid: &BetterDeviceRegistry,
        after: &BetterDeviceRegistry,
        x: usize,
    )
        requires
            before.linked(),
            x < before.node_count(),
            before.riser(x, Rotation::Left) is Some,
            mid.is_rotation_of(before, x, Rotation::Left),
            after.is_rotation_of(mid, before.riser(x, Rotation::Left).unwrap(), Rotation::Right),
        ensures
            mid.riser(before.riser(x, Rotation::Left).unwrap(), Rotation::Right) == Some(x),
            after.same_tree(before),
    {
        let nx = before.nodes@[x as int];
        let y = nx.right.unwrap();
        let ny = before.nodes@[y as int];
        let inner = ny.left;
        let above = nx.parent;
        mid.lemma_rotation_left_facts(before, x);
        mid.lemma_rotation_left_linked(before, x);
        after.lemma_rotation_right_facts(mid, y);
        assert(before.link_ok(x));
        assert(before.link_ok(y));
        if let Some(b) = inner {
            assert(before.link_ok(b));
        }
        if let Some(p) = above {
            assert(before.link_ok(p));
        }
        assert(after.nodes@[x as int] == nx);
        assert(after.nodes@[y as int] == ny);
        assert forall|i: int| 0 <= i < before.nodes@.len() implies after.nodes@[i]
            == before.nodes@[i] by {
            let j = i as usize;
            if j != x && j != y && inner != Some(j) && above != Some(j) {
                assert(mid.nodes@[j as int] == before.nodes@[j as int]);
                assert(after.nodes@[j as int] == mid.nodes@[j as int]);
            }
        }
        assert(after.nodes@ =~= before.nodes@);
        assert forall|i: int| 0 <= i < after.summary@.len() implies (#[trigger] after.summary@[i]).size
            == before.summary@[i].size && after.summary@[i].items == before.summary@[i].items by {
            let j = i as usize;
            if j != x && j != y {
                assert(mid.summary@[j as int] == before.summary@[j as int]);
                assert(after.summary@[j as int] == mid.summary@[j as int]);
            }
        }
    }

    /// A rotation at `x`, followed by the opposite rotation at the node that rose, gives the
    /// tree back: every node has its old children and its old parent, the root is the old one,
    /// and below every node are the devices that were there.
    pub proof fn lemma_rotation_round_trip(
        before: &BetterDeviceRegistry,
        mid: &BetterDeviceRegistry,
        after: &BetterDeviceRegistry,
        x: usize,
        direction: Rotation,
    )
        requires
            before.linked(),
            x < before.node_count(),
            before.riser(x, direction) is Some,
            mid.is_rotation_of(before, x, direction),
            after.is_rotation_of(mid, before.riser(x, direction).unwrap(), opposite(direction)),
        ensures
            mid.riser(before.riser(x, direction).unwrap(), opposite(direction)) == Some(x),
            after.same_tree(before),
    {
        match direction {
            Rotation::Right => Self::lemma_round_trip_right(before, mid, after, x),
            Rotation::Left => Self::lemma_round_trip_left(before, mid, after, x),
        }
    }

    /// After a rotation at `x` the node that rose has `x` for its child on the other side and
    /// the old parent of `x` for its parent, `x` has the node that rose for its parent, and the
    /// node that rose is the root where `x` was.
    ///
    /// Node by node: `x` takes the inner child of the riser into the slot that the riser
    /// left, and that child takes `x` for its parent; the old parent of `x` holds the riser in
    /// the slot that held `x`; these four nodes change in nothing else, and no other node
    /// changes at all.
    pub proof fn lemma_rotation_links(
        &self,
        before: &BetterDeviceRegistry,
        x: usize,
        direction: Rotation,
    )
        requires
            before.linked(),
            x < before.node_count(),
            before.riser(x, direction) is Some,
            self.is_rotation_of(before, x, direction),
        ensures
            before.riser(x, direction).unwrap() < self.node_count(),
            self.riser(before.riser(x, direction).unwrap(), opposite(direction)) == Some(x),
            self.node_at(x as int).parent == before.riser(x, direction),
            self.node_at(before.riser(x, direction).unwrap() as int).parent == before.node_at(x as int).parent,
            self.root_index() == if before.node_at(x as int).parent is None {
                before.riser(x, direction)
            } else {
                before.root_index()
            },
            forall|i: int|
                0 <= i < self.node_count() ==> (#[trigger] self.node_at(i)).color
                    == before.node_at(i).color && self.node_at(i).dev == before.node_at(i).dev,
            self.node_count() == before.node_count(),
            ({
                let y = before.riser(x, direction).unwrap();
                let inner = before.riser(y, opposite(direction));
                let above = before.node_at(x as int).parent;
                &&& x != y && inner != Some(x) && inner != Some(y) && above != Some(x) && above
                    != Some(y)
                &&& above is Some ==> above != inner
                &&& self.node_at(x as int) == with_parent(
                    with_riser(before.node_at(x as int), direction, inner),
                    Some(y),
                )
                &&& self.node_at(y as int) == with_parent(
                    with_riser(before.node_at(y as int), opposite(direction), Some(x)),
                    above,
                )
                &&& inner matches Some(b) ==> b < before.node_count() && self.node_at(b as int)
                    == with_parent(before.node_at(b as int), Some(x))
                &&& above matches Some(p) ==> p < before.node_count() && self.node_at(p as int)
                    == with_child_for(before.node_at(p as int), x, y)
                &&& forall|i: int|
                    0 <= i < before.node_count() && i != x && i != y && inner != Some(i as usize)
                        && above != Some(i as usize) ==> #[trigger] self.node_at(i)
                        == before.node_at(i)
            }),
    {
        match direction {
            Rotation::Right => self.lemma_rotation_right_facts(before, x),
            Rotation::Left => self.lemma_rotation_left_facts(before, x),
        }
        assert forall|i: int|
            0 <= i < before.node_count() && i != x && i != before.riser(x, direction).unwrap()
                && before.riser(before.riser(x, direction).unwrap(), opposite(direction)) != Some(
                i as usize,
            ) && before.node_at(x as int).parent != Some(i as usize) implies #[trigger] self.node_at(
            i,
        ) == before.node_at(i) by {
            assert(before.nodes.len() == before.nodes@.len());
            let j = i as usize;
            assert(j < before.nodes@.len() && j != x);
            assert(self.nodes@[j as int] == before.nodes@[j as int]);
        }
        let y = before.riser(x, direction).unwrap();
        let inner = match direction {
            Rotation::Right => before.nodes@[y as int].right,
            Rotation::Left => before.nodes@[y as int].left,
        };
        let above = before.nodes@[x as int].parent;
        assert forall|i: int| 0 <= i < self.node_count() implies (#[trigger] self.node_at(i)).color
            == before.node_at(i).color && self.node_at(i).dev == before.node_at(i).dev by {
            let j = i as usize;
            if j != x && j != y && inner != Some(j) && above != Some(j) {
                assert(self.nodes@[j as int] == before.nodes@[j as int]);
            }
        }
    }

    /// A rotation keeps the tree linked and the devices in their order.
    pub proof fn lemma_rotation_linked(
        &self,
        before: &BetterDeviceRegistry,
        x: usize,
        direction: Rotation,
    )
        requires
            before.linked(),
            x < before.node_count(),
            before.riser(x, direction) is Some,
            self.is_rotation_of(before, x, direction),
        ensures
            self.linked(),
            self.in_order() == before.in_order(),
            self.node_count() == before.node_count(),
            self.count() == before.count(),
    {
        match direction {
            Rotation::Right => self.lemma_rotation_right_linked(before, x),
            Rotation::Left => self.lemma_rotation_left_linked(before, x),
        }
    }

    /// The side of `parent` on which its child `child` hangs. The comparison of the two keys
    /// names the side, as it does on the way down; only a child with the key of its parent
    /// can hang on the other side, and there the links decide.
    pub fn slot(&self, parent: usize, child: usize) -> (side: RBOperation)
        requires
            self.linked(),
            child < self.node_count(),
            self.node_at(child as int).parent == Some(parent),
        ensures
            side == RBOperation::LeftNode <==> self.node_at(parent as int).left == Some(child),
            side == RBOperation::RightNode <==> self.node_at(parent as int).right == Some(child),
            self.node_at(parent as int).dev.numerical_id != self.node_at(
                child as int,
            ).dev.numerical_id ==> side == side_of(
                self.node_at(parent as int).dev.numerical_id,
                self.node_at(child as int).dev.numerical_id,
            ),
    {
        proof {
            reveal(descending);
            assert(self.link_ok(child));
            assert(self.link_ok(parent));
            let items = self.summary@[parent as int].items;
            let mine = self.items_below(self.nodes@[parent as int].left).len() as int;
            let below = self.items_below(self.nodes@[child as int].left).len() as int;
            assert(items[mine] == self.nodes@[parent as int].dev);
            assert(self.summary@[child as int].items[below] == self.nodes@[child as int].dev);
            if self.nodes@[parent as int].left == Some(child) {
                assert(items[below] == self.nodes@[child as int].dev);
            } else {
                assert(items[mine + 1 + below] == self.nodes@[child as int].dev);
            }
        }
        let side = self.check(&self.nodes[parent].dev, &self.nodes[child].dev);
        match side {
            RBOperation::LeftNode => {
                let on_left = match self.nodes[parent].left {
                    Some(l) => l == child,
                    None => false,
                };
                if on_left {
                    RBOperation::LeftNode
                } else {
                    RBOperation::RightNode
                }
            },
            RBOperation::RightNode => RBOperation::RightNode,
        }
    }

    /// The colour of the parent of `n`.
    pub fn parent_color(&self, n: usize) -> (color: Color)
        requires
            self.linked(),
            n < self.node_count(),
            self.node_at(n as int).parent is Some,
        ensures
            color == self.node_at(self.node_at(n as int).parent.unwrap() as int).color,
    {
        proof {
            assert(self.link_ok(n));
        }
        self.nodes[self.nodes[n].parent.unwrap()].color
    }

    /// The sibling of the parent of `tree`, with the side of the grandparent on which it
    /// hangs; nothing where `tree` has no grandparent.
    pub fn uncle(&self, tree: usize) -> (found: Option<(Option<usize>, RBOperation)>)
        requires
            self.linked(),
            tree < self.node_count(),
        ensures
            found is Some <==> self.node_at(tree as int).parent is Some && self.node_at(
                self.node_at(tree as int).parent.unwrap() as int,
            ).parent is Some,
            found matches Some((uncle, side)) ==> {
                let parent = self.node_at(tree as int).parent.unwrap();
                let grandparent = self.node_at(parent as int).parent.unwrap();
                if self.node_at(grandparent as int).left == Some(parent) {
                    side == RBOperation::RightNode && uncle == self.node_at(
                        grandparent as int,
                    ).right
                } else {
                    side == RBOperation::LeftNode && uncle == self.node_at(grandparent as int).left
                        && self.node_at(grandparent as int).right == Some(parent)
                }
            },
    {
        proof {
            assert(self.link_ok(tree));
        }
        if let Some(parent) = self.nodes[tree].parent {
            proof {
                assert(self.link_ok(parent));
            }
            if let Some(grandparent) = self.nodes[parent].parent {
                match self.slot(grandparent, parent) {
                    RBOperation::LeftNode => Some(
                        (self.nodes[grandparent].right, RBOperation::RightNode),
                    ),
                    RBOperation::RightNode => Some(
                        (self.nodes[grandparent].left, RBOperation::LeftNode),
                    ),
                }
            } else {
                None
            }
        } else {
            None
        }
    }

    /// Rotates the tree at `x`. In a rotation to the right the left child `y` of `x` rises:
    /// `x` takes over the right child of `y`, `y` takes the place of `x` under its parent (or
    /// becomes the root), and `x` becomes the right child of `y`. A rotation to the left is
    /// the mirror image. The devices stay in their order.
    #[verifier::rlimit(40)]
    pub fn rotate(&mut self, node: usize, direction: Rotation)
        requires
            old(self).linked(),
            node < old(self).node_count(),
            old(self).riser(node, direction) is Some,
        ensures
            final(self).is_rotation_of(old(self), node, direction),
            final(self).linked(),
            final(self).in_order() == old(self).in_order(),
            final(self).node_count() == old(self).node_count(),
            final(self).count() == old(self).count(),
            old(self).riser(node, direction).unwrap() < final(self).node_count(),
            final(self).riser(old(self).riser(node, direction).unwrap(), opposite(direction))
                == Some(node),
            final(self).node_at(node as int).parent == old(self).riser(node, direction),
            final(self).node_at(old(self).riser(node, direction).unwrap() as int).parent
                == old(self).node_at(node as int).parent,
            final(self).root_index() == if old(self).node_at(node as int).parent is None {
                old(self).riser(node, direction)
            } else {
                old(self).root_index()
            },
    {
        proof {
            assert(self.link_ok(node));
            let y = self.riser(node, direction).unwrap();
            assert(self.link_ok(y));
        }
        let x = node;
        let above = self.nodes[x].parent;
        // Which slot of the parent holds `x` is read before anything moves.
        let held = match above {
            Some(parent) => self.slot(parent, x),
            None => RBOperation::LeftNode,
        };
        match direction {
            Rotation::Right => {
                let y = self.nodes[x].left.unwrap();
                let inner = self.nodes[y].right;
                self.nodes[x].left = inner;
                self.nodes[y].parent = above;
                if let Some(r) = inner {
                    self.nodes[r].parent = Some(x);
                }
                if let Some(parent) = above {
                    match held {
                        RBOperation::RightNode => self.nodes[parent].right = Some(y),
                        RBOperation::LeftNode => self.nodes[parent].left = Some(y),
                    }
                } else {
                    self.root = Some(y);
                }
                self.nodes[y].right = Some(x);
                self.nodes[x].parent = Some(y);
            },
            Rotation::Left => {
                let y = self.nodes[x].right.unwrap();
                let inner = self.nodes[y].left;
                self.nodes[x].right = inner;
                self.nodes[y].parent = above;
                if let Some(l) = inner {
                    self.nodes[l].parent = Some(x);
                }
                if let Some(parent) = above {
                    match held {
                        RBOperation::LeftNode => self.nodes[parent].left = Some(y),
                        RBOperation::RightNode => self.nodes[parent].right = Some(y),
                    }
                } else {
                    self.root = Some(y);
                }
                self.nodes[y].left = Some(x);
                self.nodes[x].parent = Some(y);
            },
        }
        proof {
            self.summary@ = old(self).rotated_summary(x, direction);
            assert(self.nodes@ =~= old(self).rotated_nodes(x, direction));
            self.lemma_rotation_linked(old(self), x, direction);
            self.lemma_rotation_links(old(self), x, direction);
        }
    }

    /// The child of node `i` to which a device with the key `key` goes on: the left one when
    /// the key of `i` is not larger than `key`.
    pub closed spec fn toward(&self, i: usize, key: u64) -> Option<usize> {
        let n = self.nodes@[i as int];
        match side_of(n.dev.numerical_id, key) {
            RBOperation::LeftNode => n.left,
            RBOperation::RightNode => n.right,
        }
    }

    /// Node `j` lies on the way that a device with the key `key` takes down from `node`.
    pub closed spec fn on_path(&self, node: Option<usize>, key: u64, j: usize) -> bool
        decreases self.size_below(node),
    {
        match node {
            None => false,
            Some(i) => i == j || (self.size_below(self.toward(i, key)) < self.size_below(node)
                && self.on_path(self.toward(i, key), key, j)),
        }
    }

    /// The node under which a device with the key `key` is put when it comes down from `node`:
    /// the last node on its way.
    pub closed spec fn landing(&self, node: Option<usize>, key: u64) -> Option<usize>
        decreases self.size_below(node),
    {
        match node {
            None => None,
            Some(i) => if self.toward(i, key) is Some && self.size_below(self.toward(i, key))
                < self.size_below(node) {
                self.landing(self.toward(i, key), key)
            } else {
                Some(i)
            },
        }
    }

    /// The nodes after `dev` has come down from `node`: a new red leaf at the end of the
    /// arena, in the empty slot of its landing node.
    pub closed spec fn grown_nodes(&self, node: Option<usize>, dev: IoTDevice) -> Seq<Node> {
        let leaf = self.nodes.len();
        let fresh = Node { color: Color::Red, dev: dev, parent: None, left: None, right: None };
        match self.landing(node, dev.numerical_id) {
            None => self.nodes@.push(fresh),
            Some(q) => {
                let nq = self.nodes@[q as int];
                let hung = match side_of(nq.dev.numerical_id, dev.numerical_id) {
                    RBOperation::LeftNode => Node { left: Some(leaf), ..nq },
                    RBOperation::RightNode => Node { right: Some(leaf), ..nq },
                };
                self.nodes@.update(q as int, hung).push(Node { parent: Some(q), ..fresh })
            },
        }
    }

    /// The summaries after `dev` has come down from the root: every node on its way has one
    /// node more below it, and `dev` among its devices.
    pub closed spec fn grown_summary(&self, dev: IoTDevice) -> Seq<Summary> {
        Seq::new(
            self.summary@.len() + 1,
            |i: int|
                if i == self.summary@.len() {
                    Summary { size: 1, black_height: 0, items: seq![dev] }
                } else if self.on_path(self.root, dev.numerical_id, i as usize) {
                    let s = self.summary@[i];
                    Summary {
                        size: s.size + 1,
                        black_height: s.black_height,
                        items: s.items.insert(rank(s.items, dev.numerical_id) as int, dev),
                    }
                } else {
                    self.summary@[i]
                },
        )
    }

    /// `self` is `before` with `dev` put in as a red leaf, before any rebalancing.
    pub closed spec fn is_growth_of(&self, before: &BetterDeviceRegistry, dev: IoTDevice) -> bool {
        &&& self.nodes@ == before.grown_nodes(before.root, dev)
        &&& self.root == if before.root is Some {
            before.root
        } else {
            Some(before.nodes.len())
        }
        &&& self.summary@ == before.grown_summary(dev)
    }

    /// A node on the way is in the arena, and so is the next node on the way.
    proof fn lemma_path_child(&self, node: Option<usize>, key: u64, j: usize)
        requires
            self.linked(),
            self.in_arena(node),
            self.on_path(node, key, j),
        ensures
            j < self.nodes@.len(),
            self.size_below(Some(j)) <= self.size_below(node),
            self.toward(j, key) matches Some(c) ==> self.on_path(node, key, c),
        decreases self.size_below(node),
    {
        let i = node.unwrap();
        assert(self.link_ok(i));
        if i == j {
            if let Some(c) = self.toward(j, key) {
                assert(self.link_ok(c));
                assert(self.on_path(Some(c), key, c));
            }
        } else {
            self.lemma_path_child(self.toward(i, key), key, j);
        }
    }

    /// A node on the way, other than the first, is the child to which its parent sends the
    /// key, and the parent is on the way.
    proof fn lemma_path_parent(&self, node: Option<usize>, key: u64, j: usize)
        requires
            self.linked(),
            self.in_arena(node),
            self.on_path(node, key, j),
            node != Some(j),
        ensures
            self.nodes@[j as int].parent matches Some(p) && self.on_path(node, key, p)
                && self.toward(p, key) == Some(j),
        decreases self.size_below(node),
    {
        let i = node.unwrap();
        assert(self.link_ok(i));
        let c = self.toward(i, key);
        if c == Some(j) {
        } else {
            self.lemma_path_parent(c, key, j);
        }
    }

    /// The landing node is the one node on the way that sends the key to an empty slot.
    proof fn lemma_landing(&self, node: Option<usize>, key: u64)
        requires
            self.linked(),
            self.in_arena(node),
        ensures
            self.landing(node, key) is Some <==> node is Some,
            self.landing(node, key) matches Some(q) ==> self.on_path(node, key, q) && self.toward(
                q,
                key,
            ) is None && q < self.nodes@.len() && self.size_below(Some(q)) <= self.size_below(
                node,
            ),
            forall|j: usize|
                self.on_path(node, key, j) && self.toward(j, key) is None ==> self.landing(
                    node,
                    key,
                ) == Some(j),
        decreases self.size_below(node),
    {
        if let Some(i) = node {
            assert(self.link_ok(i));
            let c = self.toward(i, key);
            if let Some(ci) = c {
                assert(self.link_ok(ci));
                self.lemma_landing(c, key);
            }
            assert forall|j: usize|
                self.on_path(node, key, j) && self.toward(j, key) is None implies self.landing(
                node,
                key,
            ) == Some(j) by {
                if j != i {
                    assert(self.on_path(c, key, j));
                }
            }
        }
    }

    /// After a growth the new leaf is linked.
    proof fn lemma_growth_at_leaf(&self, before: &BetterDeviceRegistry, dev: IoTDevice)
        requires
            before.linked(),
            self.is_growth_of(before, dev),
        ensures
            self.link_ok(before.nodes.len()),
            self.in_arena(self.root),
            self.size_below(self.root) == self.nodes@.len(),
            self.in_order() == before.in_order().insert(
                rank(before.in_order(), dev.numerical_id) as int,
                dev,
            ),
    {
        reveal(descending);
        let key = dev.numerical_id;
        before.lemma_landing(before.root, key);
        if let Some(r) = before.root {
            assert(before.link_ok(r));
            assert(before.on_path(before.root, key, r));
        } else {
            assert(before.in_order().insert(0, dev) =~= seq![dev]);
        }
        let leaf = before.nodes.len();
        assert(self.summary@[leaf as int].items =~= Seq::<IoTDevice>::empty() + seq![dev]
            + Seq::<IoTDevice>::empty());
    }

    /// After a growth a node on the way of the new device is linked.
    #[verifier::rlimit(40)]
    #[verifier::spinoff_prover]
    proof fn lemma_growth_on_path(&self, before: &BetterDeviceRegistry, dev: IoTDevice, i: usize)
        requires
            before.linked(),
            self.is_growth_of(before, dev),
            before.on_path(before.root, dev.numerical_id, i),
        ensures
            self.link_ok(i),
    {
        let key = dev.numerical_id;
        let leaf = before.nodes.len();
        before.lemma_landing(before.root, key);
        before.lemma_path_child(before.root, key, i);
        let q = before.landing(before.root, key).unwrap();
        assert(before.link_ok(i));
        let n = before.nodes@[i as int];
        let c = before.toward(i, key);
        let o = match side_of(n.dev.numerical_id, key) {
            RBOperation::LeftNode => n.right,
            RBOperation::RightNode => n.left,
        };
        // the other child is not on the way
        if let Some(oi) = o {
            assert(before.link_ok(oi));
            if before.on_path(before.root, key, oi) {
                before.lemma_path_parent(before.root, key, oi);
            }
            assert(self.summary@[oi as int] == before.summary@[oi as int]);
            assert(oi != q);
            assert(self.nodes@[oi as int] == before.nodes@[oi as int]);
        }
        if let Some(ci) = c {
            assert(before.link_ok(ci));
            assert(i != q);
            assert(self.nodes@[i as int] == n);
            assert(self.nodes@[ci as int].parent == Some(i));
        } else {
            assert(i == q);
        }
        if let Some(p) = n.parent {
            assert(before.link_ok(p));
            if p == q {
                assert(before.toward(p, key) is None);
            }
        }
        let left = before.items_below(n.left);
        let right = before.items_below(n.right);
        lemma_rank_exists(before.items_below(c), key);
        lemma_rank_exists(before.summary@[i as int].items, key);
        let grown = before.items_below(c).insert(rank(before.items_below(c), key) as int, dev);
        if c is None {
            assert(grown =~= seq![dev]);
        }
        match side_of(n.dev.numerical_id, key) {
            RBOperation::LeftNode => {
                lemma_grow_left(left, n.dev, right, dev);
                assert(self.items_below(self.nodes@[i as int].left) == grown);
            },
            RBOperation::RightNode => {
                lemma_grow_right(left, n.dev, right, dev);
                assert(self.items_below(self.nodes@[i as int].right) == grown);
            },
        }
        lemma_insert_keeps_descending(before.summary@[i as int].items, dev);
    }

    /// After a growth a node beside the way of the new device is linked as it was.
    #[verifier::rlimit(40)]
    #[verifier::spinoff_prover]
    proof fn lemma_growth_off_path(&self, before: &BetterDeviceRegistry, dev: IoTDevice, i: usize)
        requires
            before.linked(),
            self.is_growth_of(before, dev),
            i < before.nodes@.len(),
            !before.on_path(before.root, dev.numerical_id, i),
        ensures
            self.link_ok(i),
    {
        let key = dev.numerical_id;
        before.lemma_landing(before.root, key);
        assert(before.link_ok(i));
        let n = before.nodes@[i as int];
        assert(self.nodes@[i as int] == n);
        if let Some(l) = n.left {
            assert(before.link_ok(l));
            if before.on_path(before.root, key, l) {
                before.lemma_path_parent(before.root, key, l);
            }
            assert(self.nodes@[l as int] == before.nodes@[l as int]);
        }
        if let Some(r) = n.right {
            assert(before.link_ok(r));
            if before.on_path(before.root, key, r) {
                before.lemma_path_parent(before.root, key, r);
            }
            assert(self.nodes@[r as int] == before.nodes@[r as int]);
        }
        if let Some(p) = n.parent {
            assert(before.link_ok(p));
        }
        if let Some(r) = before.root {
            assert(before.on_path(before.root, key, r));
        }
    }

    /// A growth, node by node: the new leaf is the last node of the arena, red, with the
    /// device and without children. In an empty tree it is the root. Else it hangs under a
    /// node of the old tree, in the slot on the side of the key, which was empty; that node
    /// changes in nothing else, and no other node changes at all.
    pub proof fn lemma_growth_nodes(&self, before: &BetterDeviceRegistry, dev: IoTDevice)
        requires
            before.linked(),
            self.is_growth_of(before, dev),
        ensures
            self.node_count() == before.node_count() + 1,
            ({
                let leaf = before.node_count() as int;
                let new = self.node_at(leaf);
                &&& new.color == Color::Red && new.dev == dev && new.left is None && new.right
                    is None
                &&& before.root_index() is None ==> new.parent is None && self.root_index() == Some(
                    leaf as usize,
                )
                &&& before.root_index() is Some ==> self.root_index() == before.root_index()
                    && new.parent is Some
                &&& new.parent matches Some(q) ==> {
                    let side = side_of(before.node_at(q as int).dev.numerical_id, dev.numerical_id);
                    &&& q < leaf
                    &&& on_side(before.node_at(q as int), side) is None
                    &&& self.node_at(q as int) == with_side(
                        before.node_at(q as int),
                        side,
                        Some(leaf as usize),
                    )
                }
                &&& forall|i: int|
                    0 <= i < leaf && new.parent != Some(i as usize) ==> #[trigger] self.node_at(i)
                        == before.node_at(i)
            }),
    {
        assert(before.nodes.len() == before.nodes@.len());
        before.lemma_landing(before.root, dev.numerical_id);
    }

    /// After a growth the colours are those of a red-black tree, but for the new leaf, which
    /// is red under a parent that may be red.
    pub proof fn lemma_growth_colored(&self, before: &BetterDeviceRegistry, dev: IoTDevice)
        requires
            before.linked(),
            before.colored(None),
            self.is_growth_of(before, dev),
        ensures
            before.node_count() <= usize::MAX,
            self.colored(Some(before.node_count() as usize)),
            self.node_at(before.node_count() as int).color == Color::Red,
    {
        assert(before.nodes.len() == before.nodes@.len());
        let key = dev.numerical_id;
        let leaf = before.nodes.len();
        before.lemma_landing(before.root, key);
        assert forall|i: usize| i < self.nodes@.len() implies #[trigger] self.color_ok(
            i,
            Some(leaf),
        ) by {
            if i < leaf {
                assert(before.color_ok(i, None));
                assert(before.link_ok(i));
            }
        }
    }

    /// A growth keeps the tree linked, and puts the new device at the rank of its key.
    pub proof fn lemma_growth_linked(&self, before: &BetterDeviceRegistry, dev: IoTDevice)
        requires
            before.linked(),
            self.is_growth_of(before, dev),
        ensures
            self.linked(),
            self.node_count() == before.node_count() + 1,
            self.in_order() == before.in_order().insert(
                rank(before.in_order(), dev.numerical_id) as int,
                dev,
            ),
    {
        let leaf = before.nodes.len();
        before.lemma_landing(before.root, dev.numerical_id);
        self.lemma_growth_at_leaf(before, dev);
        assert forall|i: usize| i < self.nodes@.len() implies #[trigger] self.link_ok(i) by {
            if i == leaf {
            } else if before.on_path(before.root, dev.numerical_id, i) {
                self.lemma_growth_on_path(before, dev, i);
            } else {
                self.lemma_growth_off_path(before, dev, i);
            }
        }
    }

    /// `link` is empty or names a black node.
    pub closed spec fn is_black(&self, link: Option<usize>) -> bool {
        link matches Some(i) ==> self.nodes@[i as int].color == Color::Black
    }

    /// The summaries after node `i` has got the colour `color`: its black height is counted
    /// anew from its children.
    pub closed spec fn painted_summary(&self, i: usize, color: Color) -> Seq<Summary> {
        let n = self.nodes@[i as int];
        let below = if self.blacks_below(n.left) >= self.blacks_below(n.right) {
            self.blacks_below(n.left)
        } else {
            self.blacks_below(n.right)
        };
        let own: nat = if color == Color::Black {
            1
        } else {
            0
        };
        self.summary@.update(
            i as int,
            Summary { black_height: below + own, ..self.summary@[i as int] },
        )
    }

    /// `self` is `before` with node `i` in the colour `color`.
    pub closed spec fn is_painting_of(
        &self,
        before: &BetterDeviceRegistry,
        i: usize,
        color: Color,
    ) -> bool {
        &&& self.nodes@ == before.nodes@.update(
            i as int,
            Node { color: color, ..before.nodes@[i as int] },
        )
        &&& self.summary@ == before.painted_summary(i, color)
        &&& self.root == before.root
        &&& self.length == before.length
    }

    /// A change of colour leaves the links as they are.
    proof fn lemma_painting_linked(&self, before: &BetterDeviceRegistry, i: usize, color: Color)
        requires
            before.linked(),
            i < before.nodes@.len(),
            self.is_painting_of(before, i, color),
        ensures
            self.linked(),
            self.in_order() == before.in_order(),
            self.node_count() == before.node_count(),
            self.count() == before.count(),
    {
        assert forall|j: usize| j < self.nodes@.len() implies #[trigger] self.link_ok(j) by {
            assert(before.link_ok(j));
        }
    }

    /// Gives node `i` the colour `color`.
    fn paint(&mut self, i: usize, color: Color)
        requires
            old(self).linked(),
            i < old(self).node_count(),
        ensures
            final(self).is_painting_of(old(self), i, color),
            final(self).linked(),
            final(self).in_order() == old(self).in_order(),
            final(self).node_count() == old(self).node_count(),
            final(self).count() == old(self).count(),
    {
        self.nodes[i].color = color;
        proof {
            self.summary@ = old(self).painted_summary(i, color);
            self.lemma_painting_linked(old(self), i, color);
        }
    }

    /// The child of `i` on the other side than the riser of a rotation in `direction`.
    pub closed spec fn far(&self, i: usize, direction: Rotation) -> Option<usize> {
        self.riser(i, opposite(direction))
    }

    /// A rotation at `g` in `direction` will make the colours those of a red-black tree: the
    /// riser is black, `g` is red, the two children of the riser and the other child of `g`
    /// have one black height and the two that `g` will hold are black, and every other node is
    /// in order already.
    pub closed spec fn ready(&self, g: usize, direction: Rotation) -> bool {
        &&& self.linked()
        &&& g < self.nodes@.len()
        &&& self.riser(g, direction) matches Some(t) && {
            let outer = self.riser(t, direction);
            let inner = self.far(t, direction);
            let other = self.far(g, direction);
            &&& self.nodes@[t as int].color == Color::Black
            &&& self.nodes@[g as int].color == Color::Red
            &&& self.blacks_below(outer) == self.blacks_below(inner)
            &&& self.blacks_below(inner) == self.blacks_below(other)
            &&& self.summary@[g as int].black_height == self.blacks_below(outer) + 1
            &&& self.is_black(inner)
            &&& self.is_black(other)
            &&& forall|i: usize|
                i < self.nodes@.len() && i != g && i != t ==> #[trigger] self.color_ok(i, None)
        }
    }

    /// A rotation for which the tree is ready leaves a red-black tree.
    #[verifier::rlimit(60)]
    #[verifier::spinoff_prover]
    proof fn lemma_settle(&self, before: &BetterDeviceRegistry, g: usize, direction: Rotation)
        requires
            before.ready(g, direction),
            self.is_rotation_of(before, g, direction),
        ensures
            self.colored(None),
    {
        let t = before.riser(g, direction).unwrap();
        let outer = before.riser(t, direction);
        let inner = before.far(t, direction);
        let other = before.far(g, direction);
        let above = before.nodes@[g as int].parent;
        match direction {
            Rotation::Right => self.lemma_rotation_right_facts(before, g),
            Rotation::Left => self.lemma_rotation_left_facts(before, g),
        }
        assert(before.link_ok(g));
        assert(before.link_ok(t));
        if let Some(a) = outer {
            assert(before.link_ok(a));
            assert(before.color_ok(a, None));
        }
        if let Some(b) = inner {
            assert(before.link_ok(b));
            assert(before.color_ok(b, None));
        }
        if let Some(c) = other {
            assert(before.link_ok(c));
            assert(before.color_ok(c, None));
        }
        if let Some(p) = above {
            assert(before.link_ok(p));
            assert(before.color_ok(p, None));
        }
        assert(self.color_ok(g, None));
        assert(self.color_ok(t, None));
        assert forall|i: usize| i < self.nodes@.len() implies #[trigger] self.color_ok(i, None) by {
            if i != g && i != t {
                assert(before.color_ok(i, None));
                assert(before.link_ok(i));
                let n = before.nodes@[i as int];
                if let Some(l) = n.left {
                    assert(before.link_ok(l));
                }
                if let Some(r) = n.right {
                    assert(before.link_ok(r));
                }
                if let Some(q) = n.parent {
                    assert(before.link_ok(q));
                }
            }
        }
    }

    /// With a red uncle: parent and uncle become black and the grandparent red, and the one
    /// red node that may have a red parent is then the grandparent.
    #[verifier::rlimit(60)]
    #[verifier::spinoff_prover]
    proof fn lemma_push_up(
        &self,
        s0: &BetterDeviceRegistry,
        s1: &BetterDeviceRegistry,
        s2: &BetterDeviceRegistry,
        n: usize,
        p: usize,
        u: usize,
        g: usize,
    )
        requires
            s0.linked(),
            s0.colored(Some(n)),
            n < s0.nodes@.len(),
            s0.nodes@[n as int].parent == Some(p),
            s0.nodes@[p as int].color == Color::Red,
            s0.nodes@[p as int].parent == Some(g),
            u != p,
            u < s0.nodes@.len(),
            s0.nodes@[u as int].parent == Some(g),
            s0.nodes@[u as int].color == Color::Red,
            s1.is_painting_of(s0, p, Color::Black),
            s2.is_painting_of(s1, u, Color::Black),
            self.is_painting_of(s2, g, Color::Red),
        ensures
            self.colored(Some(g)),
            self.nodes@[g as int].color == Color::Red,
            g < s0.nodes@.len(),
            self.size_below(Some(g)) > s0.size_below(Some(n)),
    {
        assert(s0.link_ok(n));
        assert(s0.link_ok(p));
        assert(s0.link_ok(u));
        assert(s0.link_ok(g));
        assert(s0.color_ok(n, Some(n)));
        assert(s0.color_ok(p, Some(n)));
        assert(s0.color_ok(u, Some(n)));
        assert(s0.color_ok(g, Some(n)));
        assert(g != p && g != u && n != g && n != u && n != p);
        assert(s0.nodes@[g as int].color == Color::Black);
        assert(self.nodes@[p as int] == Node { color: Color::Black, ..s0.nodes@[p as int] });
        assert(self.nodes@[u as int] == Node { color: Color::Black, ..s0.nodes@[u as int] });
        assert(self.nodes@[g as int] == Node { color: Color::Red, ..s0.nodes@[g as int] });
        assert forall|i: usize| i < s0.nodes@.len() && i != p && i != u && i != g implies self.nodes@[i as int]
            == s0.nodes@[i as int] && self.summary@[i as int] == s0.summary@[i as int] by {}
        assert(self.summary@[p as int].black_height == s0.summary@[p as int].black_height + 1);
        assert(self.summary@[u as int].black_height == s0.summary@[u as int].black_height + 1);
        assert(self.summary@[g as int].black_height == s0.summary@[g as int].black_height);
        assert(self.color_ok(p, Some(g)));
        assert(self.color_ok(u, Some(g)));
        assert(self.color_ok(g, Some(g)));
        assert forall|i: usize| i < self.nodes@.len() implies #[trigger] self.color_ok(
            i,
            Some(g),
        ) by {
            if i != p && i != u && i != g {
                assert(s0.color_ok(i, Some(n)));
                assert(s0.link_ok(i));
                let nd = s0.nodes@[i as int];
                if let Some(l) = nd.left {
                    assert(s0.link_ok(l));
                }
                if let Some(r) = nd.right {
                    assert(s0.link_ok(r));
                }
                if let Some(q) = nd.parent {
                    assert(s0.link_ok(q));
                }
            }
        }
    }

    /// With a black uncle, and `n` on the outer side of its parent: once the parent is black
    /// and the grandparent red, the tree is ready for the rotation at the grandparent.
    #[verifier::rlimit(60)]
    #[verifier::spinoff_prover]
    proof fn lemma_ready_plain(
        &self,
        s0: &BetterDeviceRegistry,
        s1: &BetterDeviceRegistry,
        n: usize,
        p: usize,
        g: usize,
        direction: Rotation,
    )
        requires
            s0.linked(),
            s0.colored(Some(n)),
            n < s0.nodes@.len(),
            s0.nodes@[n as int].color == Color::Red,
            s0.nodes@[n as int].parent == Some(p),
            s0.nodes@[p as int].color == Color::Red,
            s0.nodes@[p as int].parent == Some(g),
            s0.riser(g, direction) == Some(p),
            s0.riser(p, direction) == Some(n),
            s0.is_black(s0.far(g, direction)),
            s1.is_painting_of(s0, p, Color::Black),
            self.is_painting_of(s1, g, Color::Red),
            self.linked(),
        ensures
            self.ready(g, direction),
            self.nodes@[n as int].color == Color::Red,
            self.nodes@[n as int].parent == Some(p),
    {
        let sibling = s0.far(p, direction);
        let uncle = s0.far(g, direction);
        assert(s0.link_ok(n));
        assert(s0.link_ok(p));
        assert(s0.link_ok(g));
        assert(s0.color_ok(n, Some(n)));
        assert(s0.color_ok(p, Some(n)));
        assert(s0.color_ok(g, Some(n)));
        if let Some(b) = sibling {
            assert(s0.link_ok(b));
            assert(s0.color_ok(b, Some(n)));
        }
        if let Some(c) = uncle {
            assert(s0.link_ok(c));
            assert(s0.color_ok(c, Some(n)));
        }
        assert(g != p && n != g && n != p);
        assert(s0.nodes@[g as int].color == Color::Black);
        assert(self.nodes@[p as int] == Node { color: Color::Black, ..s0.nodes@[p as int] });
        assert(self.nodes@[g as int] == Node { color: Color::Red, ..s0.nodes@[g as int] });
        assert forall|i: usize| i < s0.nodes@.len() && i != p && i != g implies self.nodes@[i as int]
            == s0.nodes@[i as int] && self.summary@[i as int] == s0.summary@[i as int] by {}
        assert(self.summary@[g as int].black_height == s0.summary@[g as int].black_height);
        assert forall|i: usize|
            i < self.nodes@.len() && i != g && i != p implies #[trigger] self.color_ok(i, None) by {
            assert(s0.color_ok(i, Some(n)));
            assert(s0.link_ok(i));
            let nd = s0.nodes@[i as int];
            if let Some(l) = nd.left {
                assert(s0.link_ok(l));
            }
            if let Some(r) = nd.right {
                assert(s0.link_ok(r));
            }
            if let Some(q) = nd.parent {
                assert(s0.link_ok(q));
            }
        }
    }

    /// With a black uncle, and `n` on the inner side of its parent: once the parent has been
    /// rotated below `n`, `n` is black and the grandparent red, the tree is ready for the
    /// rotation at the grandparent.
    #[verifier::rlimit(80)]
    #[verifier::spinoff_prover]
    proof fn lemma_ready_bent(
        &self,
        s0: &BetterDeviceRegistry,
        s1: &BetterDeviceRegistry,
        s2: &BetterDeviceRegistry,
        n: usize,
        p: usize,
        g: usize,
        direction: Rotation,
    )
        requires
            s0.linked(),
            s0.colored(Some(n)),
            n < s0.nodes@.len(),
            s0.nodes@[n as int].color == Color::Red,
            s0.nodes@[n as int].parent == Some(p),
            s0.nodes@[p as int].color == Color::Red,
            s0.nodes@[p as int].parent == Some(g),
            s0.riser(g, direction) == Some(p),
            s0.far(p, direction) == Some(n),
            s0.is_black(s0.far(g, direction)),
            s1.is_rotation_of(s0, p, opposite(direction)),
            s2.is_painting_of(s1, n, Color::Black),
            self.is_painting_of(s2, g, Color::Red),
            self.linked(),
        ensures
            self.ready(g, direction),
            self.nodes@[p as int].color == Color::Red,
            self.nodes@[p as int].parent == Some(n),
            self.nodes@[n as int].parent == Some(g),
    {
        let sibling = s0.riser(p, direction);
        let uncle = s0.far(g, direction);
        let below_in = s0.riser(n, direction);
        let below_out = s0.far(n, direction);
        assert(s0.link_ok(n));
        assert(s0.link_ok(p));
        assert(s0.link_ok(g));
        assert(s0.color_ok(n, Some(n)));
        assert(s0.color_ok(p, Some(n)));
        assert(s0.color_ok(g, Some(n)));
        if let Some(b) = sibling {
            assert(s0.link_ok(b));
            assert(s0.color_ok(b, Some(n)));
        }
        if let Some(c) = uncle {
            assert(s0.link_ok(c));
            assert(s0.color_ok(c, Some(n)));
        }
        if let Some(d) = below_in {
            assert(s0.link_ok(d));
            assert(s0.color_ok(d, Some(n)));
        }
        if let Some(e) = below_out {
            assert(s0.link_ok(e));
            assert(s0.color_ok(e, Some(n)));
        }
        assert(g != p && n != g && n != p);
        assert(s0.nodes@[g as int].color == Color::Black);
        match direction {
            Rotation::Right => s1.lemma_rotation_left_facts(s0, p),
            Rotation::Left => s1.lemma_rotation_right_facts(s0, p),
        }
        assert(self.nodes@[n as int] == Node { color: Color::Black, ..s1.nodes@[n as int] });
        assert(self.nodes@[g as int] == Node { color: Color::Red, ..s1.nodes@[g as int] });
        assert forall|i: usize| i < s0.nodes@.len() && i != n && i != g implies self.nodes@[i as int]
            == s1.nodes@[i as int] && self.summary@[i as int] == s1.summary@[i as int] by {}
        assert(self.summary@[g as int].black_height == s0.summary@[g as int].black_height);
        assert(self.color_ok(p, None));
        assert forall|i: usize|
            i < self.nodes@.len() && i != g && i != n implies #[trigger] self.color_ok(i, None) by {
            if i != p {
                assert(s0.color_ok(i, Some(n)));
                assert(s0.link_ok(i));
                let nd = s0.nodes@[i as int];
                if let Some(l) = nd.left {
                    assert(s0.link_ok(l));
                }
                if let Some(r) = nd.right {
                    assert(s0.link_ok(r));
                }
                if let Some(q) = nd.parent {
                    assert(s0.link_ok(q));
                }
            }
        }
    }

    /// The field `length` has no part in the shape of the tree.
    proof fn lemma_recounted(&self, other: &BetterDeviceRegistry)
        requires
            other.linked(),
            other.colored(None),
            self.nodes@ == other.nodes@,
            self.root == other.root,
            self.summary@ == other.summary@,
        ensures
            self.linked(),
            self.colored(None),
            self.in_order() == other.in_order(),
    {
        assert forall|i: usize| i < self.nodes@.len() implies #[trigger] self.link_ok(i) by {
            assert(other.link_ok(i));
        }
        assert forall|i: usize| i < self.nodes@.len() implies #[trigger] self.color_ok(i, None) by {
            assert(other.color_ok(i, None));
        }
    }

    /// A red-black tree stays one when a node is spared.
    pub proof fn lemma_colored_spare(&self, n: usize)
        requires
            self.colored(None),
        ensures
            self.colored(Some(n)),
    {
        assert forall|i: usize| i < self.nodes@.len() implies #[trigger] self.color_ok(
            i,
            Some(n),
        ) by {
            assert(self.color_ok(i, None));
        }
    }

    /// Once the root is black, a tree whose one red node under a red parent could only be
    /// the root is a red-black tree.
    proof fn lemma_crown(&self, before: &BetterDeviceRegistry, n: usize, r: usize)
        requires
            before.linked(),
            before.colored(Some(n)),
            n < before.nodes@.len(),
            before.root == Some(r),
            n == r || before.color_above(n) == Color::Black,
            self.is_painting_of(before, r, Color::Black),
        ensures
            self.colored(None),
    {
        assert(before.link_ok(r));
        assert(before.color_ok(r, Some(n)));
        assert forall|i: usize| i < self.nodes@.len() implies #[trigger] self.color_ok(i, None) by {
            assert(before.color_ok(i, Some(n)));
            assert(before.link_ok(i));
            let nd = before.nodes@[i as int];
            if let Some(q) = nd.parent {
                assert(before.link_ok(q));
            }
        }
    }

    pub fn new_empty() -> (registry: BetterDeviceRegistry)
        ensures
            registry.is_new(),
    {
        BetterDeviceRegistry { nodes: Vec::new(), root: None, length: 0, summary: Ghost(Seq::empty()) }
    }

    /// The value of the field `length`.
    pub fn len(&self) -> (n: u64)
        ensures
            n == self.count(),
    {
        self.length
    }

    /// The index of the root, if the tree has one.
    pub fn root(&self) -> (root: Option<usize>)
        ensures
            root == self.root_index(),
            self.linked() ==> self.in_arena(root),
    {
        self.root
    }

    /// The node with the index `index`.
    pub fn node(&self, index: usize) -> (node: &Node)
        requires
            index < self.node_count(),
        ensures
            *node == self.node_at(index as int),
    {
        &self.nodes[index]
    }

    /// The side of a node with device `a` on which device `b` belongs: the left one when the
    /// key of `a` is not larger than that of `b`.
    pub fn check(&self, a: &IoTDevice, b: &IoTDevice) -> (side: RBOperation)
        ensures
            side == side_of(a.numerical_id, b.numerical_id),
    {
        if a.numerical_id <= b.numerical_id {
            RBOperation::LeftNode
        } else {
            RBOperation::RightNode
        }
    }

    /// Whether the tree is a red-black tree: no red node has a red parent, the root is not
    /// red, and all paths from the root to an empty position hold the same number
    /// of black nodes.
    pub fn is_a_valid_red_black_tree(&self) -> (valid: bool)
        requires
            self.linked(),
        ensures
            valid == verdict(self.validation()),
            self.colored(None) ==> valid,
    {
        proof {
            if self.root is Some {
                assert(self.link_ok(self.root.unwrap()));
            }
            if self.colored(None) {
                self.lemma_wf_is_valid();
            }
            assert(self.size_below(self.root) == self.nodes.len());
        }
        let result = self.validate(self.root, Color::Red, 0);
        let red_red = result.0;
        let black_height_min = result.1;
        let black_height_max = result.2;
        red_red == 0 && black_height_min == black_height_max
    }

    /// Counts, below `node`, the red nodes with a red parent, and finds the smallest and the
    /// largest black height of a path: `(red_red, min, max)`.
    pub fn validate(&self, node: Option<usize>, parent_color: Color, black_height: usize) -> (counts:
        (usize, usize, usize))
        requires
            self.linked(),
            self.in_arena(node),
            black_height + self.size_below(node) <= usize::MAX,
        ensures
            (counts.0 as nat, counts.1 as nat, counts.2 as nat) == self.validate_spec(
                node,
                parent_color,
                black_height as nat,
            ),
            counts.0 <= self.size_below(node),
            black_height <= counts.1 <= counts.2 <= black_height + self.size_below(node),
        decreases self.size_below(node),
    {
        if let Some(i) = node {
            proof {
                assert(self.link_ok(i));
            }
            let n = &self.nodes[i];
            let red_red: usize = if parent_color == Color::Red && n.color == Color::Red {
                1
            } else {
                0
            };
            let black_height: usize = black_height + match n.color {
                Color::Black => 1,
                _ => 0,
            };
            let l = self.validate(n.left, n.color, black_height);
            let r = self.validate(n.right, n.color, black_height);
            (
                red_red + l.0 + r.0,
                if l.1 <= r.1 {
                    l.1
                } else {
                    r.1
                },
                if l.2 >= r.2 {
                    l.2
                } else {
                    r.2
                },
            )
        } else {
            (0, black_height, black_height)
        }
    }

    /// Brings `device` down from `node` and hangs it as a red leaf into the empty slot that it
    /// reaches: to the left of every node whose key is not larger than its own, to the right of
    /// the others. Returns the subtree, which is `node` unless that was empty, and the new
    /// leaf. Where `node` is the root, the tree has grown by the leaf; a leaf that came down
    /// into an empty tree is its root.
    pub fn add_r(&mut self, node: Option<usize>, device: IoTDevice) -> (grown: (Option<usize>, usize))
        requires
            old(self).linked(),
            old(self).in_arena(node),
        ensures
            node != old(self).root_index() ==> final(self).same_but_nodes(old(self)),
            node == old(self).root_index() ==> final(self).is_growth_of(old(self), device),
            final(self).count() == old(self).count(),
            final(self).all_nodes() == old(self).grown_nodes(node, device),
            grown.1 == old(self).node_count(),
            grown.0 == if node is Some {
                node
            } else {
                Some(grown.1)
            },
        decreases old(self).size_below(node),
    {
        proof {
            self.lemma_landing(node, device.numerical_id);
        }
        let at_root = match node {
            Some(n) => match self.root {
                Some(r) => r == n,
                None => false,
            },
            None => self.root.is_none(),
        };
        if let Some(n) = node {
            let new: usize;
            proof {
                assert(self.link_ok(n));
                self.lemma_landing(self.toward(n, device.numerical_id), device.numerical_id);
                // no child of a node is the root, and a tree with a node has a root
                if let Some(l) = self.nodes@[n as int].left {
                    assert(self.link_ok(l));
                }
                if let Some(r) = self.nodes@[n as int].right {
                    assert(self.link_ok(r));
                }
                assert(self.root is Some);
            }
            let ghost dev = device;
            match self.check(&self.nodes[n].dev, &device) {
                RBOperation::LeftNode => {
                    let left = self.nodes[n].left;
                    let new_tree = self.add_r(left, device);
                    new = new_tree.1;
                    let new_tree = new_tree.0.unwrap();
                    self.nodes[new_tree].parent = Some(n);
                    self.nodes[n].left = Some(new_tree);
                    assert(self.nodes@ =~= old(self).grown_nodes(node, dev));
                },
                RBOperation::RightNode => {
                    let right = self.nodes[n].right;
                    let new_tree = self.add_r(right, device);
                    new = new_tree.1;
                    let new_tree = new_tree.0.unwrap();
                    self.nodes[new_tree].parent = Some(n);
                    self.nodes[n].right = Some(new_tree);
                    assert(self.nodes@ =~= old(self).grown_nodes(node, dev));
                },
            }
            proof {
                if at_root {
                    self.summary@ = old(self).grown_summary(dev);
                }
            }
            (Some(n), new)
        } else {
            let new = self.nodes.len();
            let ghost dev = device;
            self.nodes.push(Node::new(device));
            if at_root {
                self.root = Some(new);
                proof {
                    self.summary@ = old(self).grown_summary(dev);
                }
            }
            (Some(new), new)
        }
    }

    /// Puts `device` into the tree. The device comes down from the root to an empty slot and
    /// becomes a red leaf there; the colours are then put right from the leaf up, and the root
    /// is black at the end. A device whose key the registry holds already is stored beside
    /// the others with that key.
    pub fn add(&mut self, device: IoTDevice)
        requires
            old(self).wf(),
            old(self).count() < u64::MAX,
        ensures
            final(self).is_add_of(old(self), device),
    {
        let root = self.root;
        let ghost dev = device;
        let new_tree = self.add_r(root, device);
        proof {
            self.lemma_growth_linked(old(self), dev);
            self.lemma_growth_colored(old(self), dev);
        }
        self.root = self.fix_tree(new_tree.1);
        let ghost fixed = *self;
        self.length += 1;
        proof {
            self.lemma_recounted(&fixed);
        }
    }

    /// Puts the colours right after `inserted` has been hung into the tree as a red leaf.
    /// While the parent of the node in hand is red: with a red uncle, parent and uncle become
    /// black and the grandparent red, and the grandparent is the next node in hand; with a
    /// black uncle (or none), a node on the inner side of its parent is first rotated to the
    /// outer side, then the parent becomes black, the grandparent red, and a rotation at the
    /// grandparent ends the work. At the end the root is made black. Returns the root.
    pub fn fix_tree(&mut self, inserted: usize) -> (root: Option<usize>)
        requires
            old(self).linked(),
            inserted < old(self).node_count(),
            old(self).colored(Some(inserted)),
            old(self).node_at(inserted as int).color == Color::Red,
        ensures
            final(self).linked(),
            final(self).colored(None),
            final(self).in_order() == old(self).in_order(),
            final(self).node_count() == old(self).node_count(),
            final(self).count() == old(self).count(),
            root == final(self).root_index(),
            root is Some,
            root.unwrap() < final(self).node_count(),
            final(self).node_at(root.unwrap() as int).parent is None,
            final(self).node_at(root.unwrap() as int).color == Color::Black,
            verdict(final(self).validation()),
    {
        proof {
            assert(self.link_ok(inserted));
        }
        let mut not_root = self.nodes[inserted].parent.is_some();
        let mut n = inserted;
        if not_root {
            let mut parent_is_red = self.parent_color(inserted) == Color::Red;
            let ghost mut settled = false;
            while parent_is_red && not_root
                invariant
                    self.linked(),
                    n < self.nodes@.len(),
                    self.colored(Some(n)),
                    self.nodes@[n as int].color == Color::Red,
                    self.in_order() == old(self).in_order(),
                    self.nodes@.len() == old(self).nodes@.len(),
                    self.length == old(self).length,
                    not_root == self.nodes@[n as int].parent is Some,
                    not_root ==> parent_is_red == (self.color_above(n) == Color::Red),
                    settled ==> !(parent_is_red && not_root),
                ensures
                    self.nodes@[n as int].parent is None || self.color_above(n) == Color::Black,
                decreases
                        if settled {
                            0
                        } else {
                            1 + self.nodes@.len() - self.size_below(Some(n))
                        },
            {
                proof {
                    assert(self.link_ok(n));
                    assert(self.color_ok(n, Some(n)));
                    let p = self.nodes@[n as int].parent.unwrap();
                    assert(self.link_ok(p));
                    assert(self.color_ok(p, Some(n)));
                }
                let ghost s0 = *self;
                if let Some(uncle) = self.uncle(n) {
                    let which = uncle.1;
                    let uncle = uncle.0;
                    let mut parent = self.nodes[n].parent.unwrap();
                    let grandparent = self.nodes[parent].parent.unwrap();
                    proof {
                        assert(self.link_ok(grandparent));
                        if let Some(u) = uncle {
                            assert(self.link_ok(u));
                        }
                    }
                    match which {
                        RBOperation::LeftNode => {
                            // uncle is on the left
                            if uncle.is_some() && self.nodes[uncle.unwrap()].color == Color::Red {
                                let uncle = uncle.unwrap();
                                self.paint(parent, Color::Black);
                                let ghost s1 = *self;
                                self.paint(uncle, Color::Black);
                                let ghost s2 = *self;
                                self.paint(grandparent, Color::Red);
                                proof {
                                    self.lemma_push_up(&s0, &s1, &s2, n, parent, uncle, grandparent);
                                }
                                n = grandparent;
                            } else {
                                if self.slot(parent, n) == RBOperation::LeftNode {
                                    // the node in hand is on the inner side: it changes
                                    // places with its parent
                                    n = parent;
                                    self.rotate(n, Rotation::Right);
                                    let ghost s1 = *self;
                                    proof {
                                        self.lemma_rotation_right_facts(&s0, n);
                                    }
                                    parent = self.nodes[n].parent.unwrap();
                                    self.paint(parent, Color::Black);
                                    let ghost s2 = *self;
                                    self.paint(grandparent, Color::Red);
                                    proof {
                                        self.lemma_ready_bent(
                                            &s0,
                                            &s1,
                                            &s2,
                                            parent,
                                            n,
                                            grandparent,
                                            Rotation::Left,
                                        );
                                    }
                                } else {
                                    self.paint(parent, Color::Black);
                                    let ghost s1 = *self;
                                    self.paint(grandparent, Color::Red);
                                    proof {
                                        self.lemma_ready_plain(
                                            &s0,
                                            &s1,
                                            n,
                                            parent,
                                            grandparent,
                                            Rotation::Left,
                                        );
                                    }
                                }
                                let ghost s3 = *self;
                                self.rotate(grandparent, Rotation::Left);
                                proof {
                                    self.lemma_settle(&s3, grandparent, Rotation::Left);
                                    self.lemma_rotation_left_facts(&s3, grandparent);
                                    self.lemma_colored_spare(n);
                                    settled = true;
                                }
                            }
                        },
                        RBOperation::RightNode => {
                            // uncle is on the right
                            if uncle.is_some() && self.nodes[uncle.unwrap()].color == Color::Red {
                                let uncle = uncle.unwrap();
                                self.paint(parent, Color::Black);
                                let ghost s1 = *self;
                                self.paint(uncle, Color::Black);
                                let ghost s2 = *self;
                                self.paint(grandparent, Color::Red);
                                proof {
                                    self.lemma_push_up(&s0, &s1, &s2, n, parent, uncle, grandparent);
                                }
                                n = grandparent;
                            } else {
                                if self.slot(parent, n) == RBOperation::RightNode {
                                    // the node in hand is on the inner side: it changes
                                    // places with its parent
                                    n = parent;
                                    self.rotate(n, Rotation::Left);
                                    let ghost s1 = *self;
                                    proof {
                                        self.lemma_rotation_left_facts(&s0, n);
                                    }
                                    parent = self.nodes[n].parent.unwrap();
                                    self.paint(parent, Color::Black);
                                    let ghost s2 = *self;
                                    self.paint(grandparent, Color::Red);
                                    proof {
                                        self.lemma_ready_bent(
                                            &s0,
                                            &s1,
                                            &s2,
                                            parent,
                                            n,
                                            grandparent,
                                            Rotation::Right,
                                        );
                                    }
                                } else {
                                    self.paint(parent, Color::Black);
                                    let ghost s1 = *self;
                                    self.paint(grandparent, Color::Red);
                                    proof {
                                        self.lemma_ready_plain(
                                            &s0,
                                            &s1,
                                            n,
                                            parent,
                                            grandparent,
                                            Rotation::Right,
                                        );
                                    }
                                }
                                let ghost s3 = *self;
                                self.rotate(grandparent, Rotation::Right);
                                proof {
                                    self.lemma_settle(&s3, grandparent, Rotation::Right);
                                    self.lemma_rotation_right_facts(&s3, grandparent);
                                    self.lemma_colored_spare(n);
                                    settled = true;
                                }
                            }
                        },
                    }
                } else {
                    // a red parent is never the root
                    proof {
                        assert(false);
                    }
                    break ;
                }
                proof {
                    assert(self.link_ok(n));
                }
                not_root = self.nodes[n].parent.is_some();
                if not_root {
                    parent_is_red = self.parent_color(n) == Color::Red;
                }
            }
        }
        let ghost hand = n;
        proof {
            assert(self.link_ok(hand));
        }
        // up to the root, which rotations may have changed
        while self.nodes[n].parent.is_some()
            invariant
                self.linked(),
                n < self.nodes@.len(),
                hand < self.nodes@.len(),
                self.colored(Some(hand)),
                self.nodes@[hand as int].parent is None || self.color_above(hand) == Color::Black,
                self.in_order() == old(self).in_order(),
                self.nodes@.len() == old(self).nodes@.len(),
                self.length == old(self).length,
            decreases self.nodes@.len() - self.size_below(Some(n)),
        {
            proof {
                assert(self.link_ok(n));
                assert(self.link_ok(self.nodes@[n as int].parent.unwrap()));
            }
            n = self.nodes[n].parent.unwrap();
        }
        proof {
            assert(self.link_ok(n));
            assert(self.link_ok(hand));
            assert(self.color_ok(hand, Some(hand)));
        }
        let ghost before = *self;
        self.paint(n, Color::Black);
        proof {
            self.lemma_crown(&before, hand, n);
            self.lemma_links_agree(n);
            self.lemma_colors_agree(n);
            self.lemma_wf_is_valid();
        }
        Some(n)
    }

    /// The device with the key `numerical_id`: of several with that key the one that was added
    /// last, which is the first of them in the order of a walk. `None` where the registry holds
    /// no such device.
    pub fn find(&self, numerical_id: u64) -> (found: Option<IoTDevice>)
        requires
            self.linked(),
        ensures
            self.is_find_of(numerical_id, found),
    {
        self.find_r(self.root, &IoTDevice::new(numerical_id, "".to_owned(), "".to_owned()))
    }

    /// Looks below `node` for the first device in order with the key of `dev`: to the left of
    /// a node with a smaller key, to the right of one with a larger key, and where the node
    /// has the key, first to its left, where a device with that key that was added later
    /// stands.
    pub fn find_r(&self, node: Option<usize>, dev: &IoTDevice) -> (found: Option<IoTDevice>)
        requires
            self.linked(),
            self.in_arena(node),
        ensures
            found == first_with_key(self.items_below(node), dev.numerical_id),
        decreases self.size_below(node),
    {
        match node {
            Some(i) => {
                proof {
                    assert(self.link_ok(i));
                }
                let n = &self.nodes[i];
                proof {
                    lemma_first_among(
                        self.items_below(n.left),
                        n.dev,
                        self.items_below(n.right),
                        dev.numerical_id,
                    );
                }
                if n.dev.numerical_id == dev.numerical_id {
                    match self.find_r(n.left, dev) {
                        Some(later) => Some(later),
                        None => Some(n.dev.clone()),
                    }
                } else {
                    match self.check(&n.dev, dev) {
                        RBOperation::LeftNode => self.find_r(n.left, dev),
                        RBOperation::RightNode => self.find_r(n.right, dev),
                    }
                }
            },
            _ => None,
        }
    }

    /// Calls `callback` once for every device, in order: the largest key first. The callback
    /// is called for devices of the registry only.
    pub fn walk(&self, callback: impl Fn(&IoTDevice) -> ())
        requires
            self.linked(),
            forall|i: int|
                0 <= i < self.in_order().len() ==> call_requires(
                    callback,
                    (&#[trigger] self.in_order()[i],),
                ),
        ensures
            forall|i: int|
                0 <= i < self.in_order().len() ==> call_ensures(
                    callback,
                    (&#[trigger] self.in_order()[i],),
                    (),
                ),
    {
        proof {
            if self.root is Some {
                assert(self.link_ok(self.root.unwrap()));
            }
            assert forall|i: int| 0 <= i < self.items_below(self.root).len() implies call_requires(
                callback,
                (&#[trigger] self.items_below(self.root)[i],),
            ) by {
                assert(self.in_order()[i] == self.items_below(self.root)[i]);
            }
        }
        self.walk_in_order(self.root, &callback);
        proof {
            assert forall|i: int| 0 <= i < self.in_order().len() implies call_ensures(
                callback,
                (&#[trigger] self.in_order()[i],),
                (),
            ) by {
                assert(self.in_order()[i] == self.items_below(self.root)[i]);
            }
        }
    }

    /// Walks the subtree below `node`: the left subtree, the node, the right subtree.
    pub fn walk_in_order(&self, node: Option<usize>, callback: &impl Fn(&IoTDevice) -> ())
        requires
            self.linked(),
            self.in_arena(node),
            forall|i: int|
                0 <= i < self.items_below(node).len() ==> call_requires(
                    *callback,
                    (&#[trigger] self.items_below(node)[i],),
                ),
        ensures
            forall|i: int|
                0 <= i < self.items_below(node).len() ==> call_ensures(
                    *callback,
                    (&#[trigger] self.items_below(node)[i],),
                    (),
                ),
        decreases self.size_below(node),
    {
        if let Some(i) = node {
            proof {
                assert(self.link_ok(i));
            }
            let n = &self.nodes[i];
            let ghost left = self.items_below(n.left);
            let ghost right = self.items_below(n.right);
            let ghost all = self.items_below(node);
            proof {
                assert(all == left + seq![n.dev] + right);
                assert forall|j: int| 0 <= j < left.len() implies call_requires(
                    *callback,
                    (&#[trigger] left[j],),
                ) by {
                    assert(all[j] == left[j]);
                }
                assert forall|j: int| 0 <= j < right.len() implies call_requires(
                    *callback,
                    (&#[trigger] right[j],),
                ) by {
                    assert(all[left.len() + 1 + j] == right[j]);
                }
                assert(all[left.len() as int] == n.dev);
            }
            self.walk_in_order(n.left, callback);
            callback(&n.dev);
            self.walk_in_order(n.right, callback);
            proof {
                assert forall|j: int| 0 <= j < all.len() implies call_ensures(
                    *callback,
                    (&#[trigger] all[j],),
                    (),
                ) by {
                    if j < left.len() {
                        assert(all[j] == left[j]);
                    } else if j > left.len() {
                        assert(all[j] == right[j - left.len() - 1]);
                    }
                }
            }
        }
    }

    /// The devices in the order in which `walk` visits them.
    pub fn devices(&self) -> (all: Vec<IoTDevice>)
        requires
            self.linked(),
        ensures
            all@ == self.in_order(),
    {
        let mut all: Vec<IoTDevice> = Vec::new();
        self.collect_in_order(self.root, &mut all);
        all
    }

    fn collect_in_order(&self, node: Option<usize>, all: &mut Vec<IoTDevice>)
        requires
            self.linked(),
            self.in_arena(node),
        ensures
            final(all)@ == old(all)@ + self.items_below(node),
        decreases self.size_below(node),
    {
        if let Some(i) = node {
            proof {
                assert(self.link_ok(i));
            }
            let n = &self.nodes[i];
            self.collect_in_order(n.left, all);
            all.push(n.dev.clone());
            self.collect_in_order(n.right, all);
            assert(all@ =~= old(all)@ + self.items_below(node));
        } else {
            assert(all@ =~= old(all)@ + self.items_below(node));
        }
    }
}

} // verus!
