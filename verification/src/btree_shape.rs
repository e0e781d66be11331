//! The shape of a B-tree: how many subtrees a node holds, and that all leaves lie on one
//! level.

use vstd::prelude::*;
use crate::btree::{
    below, gathered, gathered_children, key_at, node_wf, slot_for, validate_pairs,
    validate_spec, validate_step, Node, NodeType,
};
use crate::devices::IoTDevice;

verus! {

/// The number of steps from `node` down to a leaf, along the left subtrees.
pub open spec fn height_of(node: Node) -> nat
    decreases node,
{
    match node.node_type {
        NodeType::Leaf => 0,
        NodeType::Regular => match node.left_child {
            Some(tree) => 1 + height_of(*tree),
            None => 1,
        },
    }
}

/// Every subtree of `children` is a tree of the height `height` whose nodes keep to the
/// rules for nodes below the root.
pub open spec fn all_shaped(children: Seq<Option<Box<Node>>>, height: nat, order: nat) -> bool
    decreases height, 2nat,
{
    forall|i: int|
        0 <= i < children.len() ==> tree_shaped(#[trigger] children[i], height, order)
}

/// `tree` is a tree of the height `height` whose nodes keep to the rules for nodes below the
/// root.
pub open spec fn tree_shaped(tree: Option<Box<Node>>, height: nat, order: nat) -> bool
    decreases height, 1nat,
{
    match tree {
        Some(node) => shaped(*node, height, order, order / 2, order),
        None => false,
    }
}

/// All leaves below `node` lie `height` steps below it; `node` holds at most `most` subtrees,
/// and at least `least` where it is no leaf; every node below it holds at most `order`
/// subtrees, and at least half of that where it is no leaf.
pub open spec fn shaped(node: Node, height: nat, order: nat, least: nat, most: nat) -> bool
    decreases height, 0nat,
{
    &&& node.children@.len() + 1 <= most
    &&& match node.node_type {
        NodeType::Leaf => height == 0,
        NodeType::Regular => if height == 0 {
            false
        } else {
            &&& node.children@.len() + 1 >= least
            &&& tree_shaped(node.left_child, (height - 1) as nat, order)
            &&& all_shaped(node.children@, (height - 1) as nat, order)
        },
    }
}

/// A tree has one height only: the one that its left subtrees give.
pub proof fn lemma_height(node: Node, height: nat, order: nat, least: nat, most: nat)
    requires
        shaped(node, height, order, least, most),
    ensures
        height_of(node) == height,
    decreases height,
{
    if node.node_type == NodeType::Regular {
        let left = node.left_child.unwrap();
        lemma_height(*left, (height - 1) as nat, order, order / 2, order);
    }
}

/// With one more subtree of the same shape, all subtrees have that shape.
pub proof fn lemma_all_shaped_insert(
    children: Seq<Option<Box<Node>>>,
    pos: int,
    tree: Option<Box<Node>>,
    height: nat,
    order: nat,
)
    requires
        all_shaped(children, height, order),
        tree_shaped(tree, height, order),
        0 <= pos <= children.len(),
    ensures
        all_shaped(children.insert(pos, tree), height, order),
{
    let after = children.insert(pos, tree);
    assert forall|i: int| 0 <= i < after.len() implies tree_shaped(
        #[trigger] after[i],
        height,
        order,
    ) by {
        if i < pos {
            assert(after[i] == children[i]);
        } else if i > pos {
            assert(after[i] == children[i - 1]);
        }
    }
}

/// Without one of them, the subtrees keep their shape.
pub proof fn lemma_all_shaped_remove(
    children: Seq<Option<Box<Node>>>,
    pos: int,
    height: nat,
    order: nat,
)
    requires
        all_shaped(children, height, order),
        0 <= pos < children.len(),
    ensures
        all_shaped(children.remove(pos), height, order),
        tree_shaped(children[pos], height, order),
{
    let after = children.remove(pos);
    assert forall|i: int| 0 <= i < after.len() implies tree_shaped(
        #[trigger] after[i],
        height,
        order,
    ) by {
        if i < pos {
            assert(after[i] == children[i]);
        } else {
            assert(after[i] == children[i + 1]);
        }
    }
}

/// A stretch of the subtrees keeps their shape.
pub proof fn lemma_all_shaped_subrange(
    children: Seq<Option<Box<Node>>>,
    from: int,
    to: int,
    height: nat,
    order: nat,
)
    requires
        all_shaped(children, height, order),
        0 <= from <= to <= children.len(),
    ensures
        all_shaped(children.subrange(from, to), height, order),
{
    let part = children.subrange(from, to);
    assert forall|i: int| 0 <= i < part.len() implies tree_shaped(
        #[trigger] part[i],
        height,
        order,
    ) by {
        assert(part[i] == children[from + i]);
    }
}

/// Subtrees that are gathered with their devices are as many as before, and keep their
/// shape.
pub proof fn lemma_gathered_shaped(
    devices: Seq<Option<IoTDevice>>,
    children: Seq<Option<Box<Node>>>,
    height: nat,
    order: nat,
)
    requires
        children.len() == devices.len(),
        devices.len() <= usize::MAX,
        all_shaped(children, height, order),
    ensures
        gathered(devices).len() == devices.len(),
        gathered_children(devices, children).len() == children.len(),
        all_shaped(gathered_children(devices, children), height, order),
    decreases devices.len(),
{
    if devices.len() > 0 {
        let rest = devices.drop_first();
        let rest_children = children.drop_first();
        assert forall|i: int| 0 <= i < rest_children.len() implies tree_shaped(
            #[trigger] rest_children[i],
            height,
            order,
        ) by {
            assert(rest_children[i] == children[i + 1]);
        }
        lemma_gathered_shaped(rest, rest_children, height, order);
        let key = key_at(devices[0]);
        crate::btree::lemma_scan_place(gathered(rest), key, gathered(rest).len() as int);
        lemma_all_shaped_insert(
            gathered_children(rest, rest_children),
            slot_for(gathered(rest), key),
            children[0],
            height,
            order,
        );
    }
}

/// The least number of subtrees of a node that is no leaf: two for the root, half of `order`
/// for the others.
pub open spec fn least_for(is_root: bool, order: nat) -> nat {
    if is_root {
        2
    } else {
        order / 2
    }
}

/// The two parts of a node with one subtree too many have the shape of nodes below the
/// root.
pub proof fn lemma_split_shaped(
    full: Node,
    kept: Node,
    sibling: Node,
    height: nat,
    order: nat,
    least: nat,
)
    requires
        shaped(full, height, order, least, order + 1),
        full.children@.len() == order,
        full.devices@.len() == order,
        2 <= order <= usize::MAX,
        kept.node_type == full.node_type,
        sibling.node_type == full.node_type,
        kept.left_child == full.left_child,
        kept.children@ == full.children@.subrange(0, order as int / 2),
        sibling.left_child == full.children@[order as int / 2],
        sibling.children@ == gathered_children(
            full.devices@.subrange(order as int / 2 + 1, order as int),
            full.children@.subrange(order as int / 2 + 1, order as int),
        ),
    ensures
        shaped(kept, height, order, order / 2, order),
        shaped(sibling, height, order, order / 2, order),
{
    let m = order as int / 2;
    let n = order as int;
    let upper = full.children@.subrange(m + 1, n);
    if full.node_type == NodeType::Regular {
        let below = (height - 1) as nat;
        lemma_all_shaped_subrange(full.children@, 0, m, below, order);
        lemma_all_shaped_subrange(full.children@, m + 1, n, below, order);
        lemma_gathered_shaped(full.devices@.subrange(m + 1, n), upper, below, order);
        assert(tree_shaped(full.children@[m], below, order));
    } else {
        lemma_gathered_len(full.devices@.subrange(m + 1, n), upper);
    }
}

/// Subtrees that are gathered with their devices are as many as before.
pub proof fn lemma_gathered_len(
    devices: Seq<Option<IoTDevice>>,
    children: Seq<Option<Box<Node>>>,
)
    requires
        children.len() == devices.len(),
        devices.len() <= usize::MAX,
    ensures
        gathered(devices).len() == devices.len(),
        gathered_children(devices, children).len() == children.len(),
    decreases devices.len(),
{
    if devices.len() > 0 {
        let rest = devices.drop_first();
        lemma_gathered_len(rest, children.drop_first());
        crate::btree::lemma_scan_place(
            gathered(rest),
            key_at(devices[0]),
            gathered(rest).len() as int,
        );
    }
}

/// A new root above the two parts of the old one is a tree that is one step higher.
pub proof fn lemma_new_root_shaped(
    kept: Box<Node>,
    sibling: Box<Node>,
    parent: Node,
    height: nat,
    order: nat,
)
    requires
        shaped(*kept, height, order, order / 2, order),
        shaped(*sibling, height, order, order / 2, order),
        2 <= order,
        parent.node_type == NodeType::Regular,
        parent.left_child == Some(kept),
        parent.children@ == Seq::<Option<Box<Node>>>::empty().insert(0, Some(sibling)),
    ensures
        shaped(parent, height + 1, order, 2, order),
        height_of(parent) == height + 1,
{
    lemma_all_shaped_insert(Seq::empty(), 0, Some(sibling), height, order);
    lemma_height(*kept, height, order, order / 2, order);
}

/// A level, as far as a `usize` counts.
pub open spec fn capped(level: nat) -> nat {
    if level <= usize::MAX {
        level
    } else {
        usize::MAX as nat
    }
}

/// The check finds nothing wrong below a node of a tree that has its shape: every node
/// keeps to the rules, and all leaves lie on the level that the height gives.
pub proof fn lemma_shaped_is_valid(node: Node, height: nat, order: nat, least: nat, level: nat)
    requires
        shaped(node, height, order, least, order),
        order <= usize::MAX,
        level <= usize::MAX,
        least == if level > 0 {
            order / 2
        } else {
            2
        },
    ensures
        validate_spec(node, level, order) == (true, capped(level + height), capped(level + height)),
    decreases height, 0nat,
{
    match node.node_type {
        NodeType::Leaf => {},
        NodeType::Regular => {
            let start = (true, usize::MAX as nat, level);
            lemma_all_shaped_is_valid(
                node.children@,
                node.children@.len() as int,
                (height - 1) as nat,
                order,
                level,
                start,
            );
            let left = node.left_child.unwrap();
            lemma_shaped_is_valid(
                *left,
                (height - 1) as nat,
                order,
                order / 2,
                crate::btree::below(level),
            );
        },
    }
}

/// The check of subtrees that have their shape finds their leaves on one level.
pub proof fn lemma_all_shaped_is_valid(
    children: Seq<Option<Box<Node>>>,
    upto: int,
    height: nat,
    order: nat,
    level: nat,
    start: (bool, nat, nat),
)
    requires
        all_shaped(children, height, order),
        0 <= upto <= children.len(),
        order <= usize::MAX,
        level <= usize::MAX,
        start.1 == usize::MAX,
        start.2 <= capped(level + height + 1),
    ensures
        validate_pairs(children, upto, level, order, start) == if upto == 0 {
            start
        } else {
            (start.0, capped(level + height + 1), capped(level + height + 1))
        },
    decreases height, upto + 1,
{
    if upto > 0 {
        lemma_all_shaped_is_valid(children, upto - 1, height, order, level, start);
        let tree = children[upto - 1];
        assert(tree_shaped(tree, height, order));
        lemma_shaped_is_valid(*tree.unwrap(), height, order, order / 2, crate::btree::below(level));
        let so_far = validate_pairs(children, upto - 1, level, order, start);
        let stats = validate_spec(*tree.unwrap(), crate::btree::below(level), order);
        assert(stats.1 == capped(level + height + 1));
        assert(validate_pairs(children, upto, level, order, start) == validate_step(
            tree,
            level,
            order,
            so_far,
        ));
        assert(validate_step(tree, level, order, so_far) == (
            so_far.0 && stats.0,
            crate::btree::smaller(stats.1, so_far.1),
            crate::btree::larger(stats.2, so_far.2),
        ));
    }
}

/// What the check finds below a subtree of a node on the level `level`.
pub open spec fn found_below(tree: Option<Box<Node>>, level: nat, order: nat) -> (bool, nat, nat) {
    match tree {
        Some(node) => validate_spec(*node, below(level), order),
        None => (true, usize::MAX as nat, 0),
    }
}

/// After the first `upto` subtrees the check has found a fault if it had found one before
/// or finds one below a subtree; its smallest level is not above, and its largest level not
/// below, what it had before and what it finds below any of the subtrees.
pub proof fn lemma_pairs_gather(
    children: Seq<Option<Box<Node>>>,
    upto: int,
    level: nat,
    order: nat,
    start: (bool, nat, nat),
)
    requires
        0 <= upto <= children.len(),
        forall|i: int| 0 <= i < children.len() ==> (#[trigger] children[i]) is Some,
    ensures
        validate_pairs(children, upto, level, order, start).0 ==> start.0,
        validate_pairs(children, upto, level, order, start).1 <= start.1,
        validate_pairs(children, upto, level, order, start).2 >= start.2,
        forall|i: int|
            0 <= i < upto ==> {
                &&& validate_pairs(children, upto, level, order, start).0 ==> (
                #[trigger] found_below(children[i], level, order)).0
                &&& validate_pairs(children, upto, level, order, start).1 <= found_below(
                    children[i],
                    level,
                    order,
                ).1
                &&& validate_pairs(children, upto, level, order, start).2 >= found_below(
                    children[i],
                    level,
                    order,
                ).2
            },
    decreases upto,
{
    if upto > 0 {
        lemma_pairs_gather(children, upto - 1, level, order, start);
        let so_far = validate_pairs(children, upto - 1, level, order, start);
        assert(children[upto - 1] is Some);
        assert(validate_pairs(children, upto, level, order, start) == validate_step(
            children[upto - 1],
            level,
            order,
            so_far,
        ));
    }
}

/// The leaves that the check finds below a well-formed node lie on the level of the node or
/// below it, the highest of them not below the lowest.
pub proof fn lemma_validate_bounds(node: Node, level: nat, order: nat)
    requires
        node_wf(node),
        level <= usize::MAX,
    ensures
        level <= validate_spec(node, level, order).1 <= validate_spec(node, level, order).2,
    decreases node, 0nat,
{
    if node.node_type == NodeType::Regular {
        crate::btree::lemma_node_wf(node);
        let subtrees: nat = if node.children@.len() < usize::MAX {
            node.children@.len() + 1
        } else {
            usize::MAX as nat
        };
        let least: nat = if level > 0 {
            order / 2
        } else {
            2
        };
        let start = (subtrees <= order && subtrees >= least, usize::MAX as nat, level);
        let left = node.left_child.unwrap();
        lemma_validate_bounds(*left, below(level), order);
        let first = validate_pairs(node.children@, node.children@.len() as int, level, order, start);
        assert(validate_spec(node, level, order) == validate_step(
            node.left_child,
            level,
            order,
            first,
        ));
        assert forall|i: int| 0 <= i < node.children@.len() implies (
        #[trigger] node.children@[i]) is Some && node_wf(*node.children@[i].unwrap()) by {
            assert(crate::btree::child_wf(node.children@[i], NodeType::Regular));
        }
        lemma_lowest_below(node.children@, node.children@.len() as int, level, order, start);
    }
}

/// The smallest level after the first `upto` subtrees is the one before them, or lies on
/// the level below `level` or further down.
pub proof fn lemma_lowest_below(
    children: Seq<Option<Box<Node>>>,
    upto: int,
    level: nat,
    order: nat,
    start: (bool, nat, nat),
)
    requires
        0 <= upto <= children.len(),
        level <= usize::MAX,
        forall|i: int|
            0 <= i < children.len() ==> (#[trigger] children[i]) is Some && node_wf(
                *children[i].unwrap(),
            ),
    ensures
        validate_pairs(children, upto, level, order, start).1 == start.1 || validate_pairs(
            children,
            upto,
            level,
            order,
            start,
        ).1 >= below(level),
    decreases children, upto,
{
    if upto > 0 {
        lemma_lowest_below(children, upto - 1, level, order, start);
        assert(children[upto - 1] is Some);
        let c = children[upto - 1].unwrap();
        lemma_validate_bounds(*c, below(level), order);
        let so_far = validate_pairs(children, upto - 1, level, order, start);
        assert(validate_pairs(children, upto, level, order, start) == validate_step(
            children[upto - 1],
            level,
            order,
            so_far,
        ));
    }
}

/// A well-formed tree in which the check finds no fault, and all leaves on one level that a
/// `usize` counts, has its shape: the height is the distance of that level.
pub proof fn lemma_valid_is_shaped(node: Node, level: nat, order: nat)
    requires
        node_wf(node),
        level <= usize::MAX,
        order < usize::MAX,
        validate_spec(node, level, order).0,
        validate_spec(node, level, order).1 == validate_spec(node, level, order).2,
        validate_spec(node, level, order).2 < usize::MAX,
    ensures
        validate_spec(node, level, order).1 >= level,
        shaped(
            node,
            (validate_spec(node, level, order).1 - level) as nat,
            order,
            if level > 0 {
                order / 2
            } else {
                2
            },
            order,
        ),
    decreases node,
{
    lemma_validate_bounds(node, level, order);
    if node.node_type == NodeType::Regular {
        crate::btree::lemma_node_wf(node);
        let children = node.children@;
        let subtrees: nat = if children.len() < usize::MAX {
            children.len() + 1
        } else {
            usize::MAX as nat
        };
        let least: nat = if level > 0 {
            order / 2
        } else {
            2
        };
        let start = (subtrees <= order && subtrees >= least, usize::MAX as nat, level);
        let left = node.left_child.unwrap();
        let first = validate_pairs(children, children.len() as int, level, order, start);
        let all = validate_spec(node, level, order);
        let leaves = all.1;
        assert(all == validate_step(node.left_child, level, order, first));
        lemma_pairs_gather(children, children.len() as int, level, order, start);
        lemma_validate_bounds(*left, below(level), order);
        lemma_valid_is_shaped(*left, below(level), order);
        let height = (leaves - level) as nat;
        assert(level < usize::MAX);
        assert forall|i: int| 0 <= i < children.len() implies tree_shaped(
            #[trigger] children[i],
            (height - 1) as nat,
            order,
        ) by {
            let c = children[i].unwrap();
            assert(crate::btree::child_wf(children[i], NodeType::Regular));
            assert(found_below(children[i], level, order) == validate_spec(
                *c,
                below(level),
                order,
            ));
            lemma_validate_bounds(*c, below(level), order);
            lemma_valid_is_shaped(*c, below(level), order);
        }
    }
}

} // verus!
