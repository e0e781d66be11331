//! A set of byte sequences, such as network addresses, kept as a trie: one node for every
//! byte of a sequence, the nodes below a node in ascending order of their bytes.

use vstd::prelude::*;

verus! {

pub struct Node {
    pub key: u8,
    pub next: Vec<Box<Node>>,
    pub ends_here: bool,
}

impl Node {
    pub fn new(key: u8, ends_here: bool) -> (node: Box<Node>)
        ensures
            node.key == key,
            node.ends_here == ends_here,
            node.next@.len() == 0,
    {
        Box::new(Node { key: key, next: Vec::new(), ends_here: ends_here })
    }
}

/// `i` is the first place on the level `children` of a node with the byte `c`.
pub open spec fn is_first(children: Seq<Box<Node>>, c: u8, i: int) -> bool {
    &&& 0 <= i < children.len()
    &&& children[i].key == c
    &&& forall|j: int| 0 <= j < i ==> (#[trigger] children[j]).key != c
}

/// The first place on the level `children` of a node with the byte `c`.
pub open spec fn place(children: Seq<Box<Node>>, c: u8) -> Option<int> {
    if exists|i: int| is_first(children, c, i) {
        Some(choose|i: int| is_first(children, c, i))
    } else {
        None
    }
}

/// There is one first place.
pub proof fn lemma_first(children: Seq<Box<Node>>, c: u8, i: int)
    requires
        is_first(children, c, i),
    ensures
        place(children, c) == Some(i),
{
    let f = choose|f: int| is_first(children, c, f);
    if f < i {
        assert(children[f].key != c);
    }
    if i < f {
        assert(children[i].key != c);
    }
}

/// Without a node with the byte there is no place.
pub proof fn lemma_no_place(children: Seq<Box<Node>>, c: u8)
    requires
        forall|j: int| 0 <= j < children.len() ==> (#[trigger] children[j]).key != c,
    ensures
        place(children, c) is None,
{
    if exists|i: int| is_first(children, c, i) {
        let f = choose|f: int| is_first(children, c, f);
        assert(children[f].key != c);
    }
}

/// The sequence `key` ends at a node below `children`.
pub open spec fn member(children: Seq<Box<Node>>, key: Seq<u8>) -> bool
    decreases key.len(),
{
    key.len() > 0 && match place(children, key[0]) {
        Some(i) => if key.len() == 1 {
            children[i].ends_here
        } else {
            member(children[i].next@, key.drop_first())
        },
        None => false,
    }
}

/// The bytes of the nodes of one level ascend.
pub open spec fn ascending(children: Seq<Box<Node>>) -> bool {
    forall|i: int, j: int| 0 <= i < j < children.len() ==> children[i].key < children[j].key
}

/// The bytes of the nodes ascend on every level.
pub open spec fn ordered(children: Seq<Box<Node>>) -> bool
    decreases children,
{
    ascending(children) && forall|i: int|
        0 <= i < children.len() ==> ordered((#[trigger] children[i]).next@)
}

/// On a level of ascending bytes a node is the first with its byte.
pub proof fn lemma_one_node(children: Seq<Box<Node>>, i: int)
    requires
        ascending(children),
        0 <= i < children.len(),
    ensures
        place(children, children[i].key) == Some(i),
{
    assert forall|j: int| 0 <= j < i implies (#[trigger] children[j]).key != children[i].key by {
        assert(children[j].key < children[i].key);
    }
    lemma_first(children, children[i].key, i);
}

/// What `contains` finds for `path` below `children`, with `so_far` found on the way: it
/// goes down for as long as there is a node for the next byte, and tells whether a sequence
/// ends at the last node that it has reached.
pub open spec fn reaches(children: Seq<Box<Node>>, path: Seq<u8>, so_far: bool) -> bool
    decreases path.len(),
{
    if path.len() == 0 {
        so_far
    } else {
        match place(children, path[0]) {
            Some(i) => reaches(children[i].next@, path.drop_first(), children[i].ends_here),
            None => so_far,
        }
    }
}

/// A member is found.
pub proof fn lemma_member_reached(children: Seq<Box<Node>>, key: Seq<u8>, so_far: bool)
    requires
        member(children, key),
    ensures
        reaches(children, key, so_far),
    decreases key.len(),
{
    let i = place(children, key[0]).unwrap();
    if key.len() > 1 {
        lemma_member_reached(children[i].next@, key.drop_first(), children[i].ends_here);
    } else {
        assert(key.drop_first().len() == 0);
        assert(reaches(children[i].next@, key.drop_first(), children[i].ends_here)
            == children[i].ends_here);
    }
}

/// Whether a sequence is a member is seen at the node of its first byte.
pub proof fn lemma_member_at(children: Seq<Box<Node>>, key: Seq<u8>, i: int)
    requires
        key.len() > 0,
        place(children, key[0]) == Some(i),
    ensures
        member(children, key) == if key.len() == 1 {
            children[i].ends_here
        } else {
            member(children[i].next@, key.drop_first())
        },
{
}

/// A sequence without a node for its first byte is no member.
pub proof fn lemma_member_none(children: Seq<Box<Node>>, key: Seq<u8>)
    requires
        key.len() == 0 || place(children, key[0]) is None,
    ensures
        !member(children, key),
{
}

/// What is found with an end on the way, and not without it, is that end.
pub proof fn lemma_reaches_by_end(children: Seq<Box<Node>>, path: Seq<u8>, so_far: bool)
    requires
        reaches(children, path, so_far),
        !reaches(children, path, false),
    ensures
        so_far,
    decreases path.len(),
{
    if path.len() > 0 {
        if let Some(i) = place(children, path[0]) {
        }
    }
}

/// What is found is a member, or a member that the sequence starts with.
pub proof fn lemma_reached_starts(children: Seq<Box<Node>>, key: Seq<u8>)
    requires
        reaches(children, key, false),
    ensures
        exists|n: int| 1 <= n <= key.len() && member(children, #[trigger] key.subrange(0, n)),
    decreases key.len(),
{
    let i = place(children, key[0]).unwrap();
    let rest = key.drop_first();
    if reaches(children[i].next@, rest, false) {
        lemma_reached_starts(children[i].next@, rest);
        let n = choose|n: int|
            1 <= n <= rest.len() && member(children[i].next@, #[trigger] rest.subrange(0, n));
        let longer = key.subrange(0, n + 1);
        assert(longer.drop_first() =~= rest.subrange(0, n));
        assert(longer[0] == key[0]);
        assert(member(children, longer));
    } else {
        lemma_reaches_by_end(children[i].next@, rest, children[i].ends_here);
        let first = key.subrange(0, 1);
        assert(first[0] == key[0]);
        assert(member(children, first));
    }
}

/// 1 for a node at which a sequence ends.
pub open spec fn end_count(node: Node) -> nat {
    if node.ends_here {
        1
    } else {
        0
    }
}

/// The number of sequences that end below the first `upto` of `children`.
pub open spec fn size_upto(children: Seq<Box<Node>>, upto: int) -> nat
    decreases children, upto,
{
    if upto <= 0 || upto > children.len() {
        0
    } else {
        size_upto(children, upto - 1) + size_upto(
            children[upto - 1].next@,
            children[upto - 1].next@.len() as int,
        ) + end_count(*children[upto - 1])
    }
}

/// The number of sequences that end below `children`.
pub open spec fn size(children: Seq<Box<Node>>) -> nat {
    size_upto(children, children.len() as int)
}

/// The sequences that end below the first `upto` of `children`, each behind `prefix`, in
/// the order of a walk: for every node first those that go on below it, then the one that
/// ends there.
pub open spec fn listing_upto(children: Seq<Box<Node>>, prefix: Seq<u8>, upto: int) -> Seq<Seq<u8>>
    decreases children, upto,
{
    if upto <= 0 || upto > children.len() {
        Seq::empty()
    } else {
        let node = children[upto - 1];
        listing_upto(children, prefix, upto - 1) + listing_upto(
            node.next@,
            prefix.push(node.key),
            node.next@.len() as int,
        ) + if node.ends_here {
            seq![prefix.push(node.key)]
        } else {
            Seq::empty()
        }
    }
}

/// The sequences that end below `children`, each behind `prefix`, in the order of a walk.
pub open spec fn listing(children: Seq<Box<Node>>, prefix: Seq<u8>) -> Seq<Seq<u8>> {
    listing_upto(children, prefix, children.len() as int)
}

/// The sequences that end at and below `node`, each behind `prefix`, in the order of a walk.
pub open spec fn listing_at(node: Node, prefix: Seq<u8>) -> Seq<Seq<u8>> {
    listing_upto(node.next@, prefix.push(node.key), node.next@.len() as int) + if node.ends_here {
        seq![prefix.push(node.key)]
    } else {
        Seq::empty()
    }
}

/// `callback` has been called on a slice that holds `key`.
pub open spec fn called<F: Fn(&[u8]) -> ()>(callback: F, key: Seq<u8>) -> bool {
    exists|k: &[u8]| k@ == key && #[trigger] call_ensures(callback, (k,), ())
}

/// `callback` has been called on each of `keys`.
pub open spec fn called_on<F: Fn(&[u8]) -> ()>(callback: F, keys: Seq<Seq<u8>>) -> bool {
    forall|j: int| 0 <= j < keys.len() ==> called(callback, #[trigger] keys[j])
}

/// The listing of one node more is the listing so far with what ends at and below that
/// node behind it.
pub proof fn lemma_listing_step(children: Seq<Box<Node>>, prefix: Seq<u8>, upto: int)
    requires
        0 < upto <= children.len(),
    ensures
        listing_upto(children, prefix, upto) == listing_upto(children, prefix, upto - 1)
            + listing_at(*children[upto - 1], prefix),
{
    let node = children[upto - 1];
    let before = listing_upto(children, prefix, upto - 1);
    let below = listing_upto(node.next@, prefix.push(node.key), node.next@.len() as int);
    let here = if node.ends_here {
        seq![prefix.push(node.key)]
    } else {
        Seq::empty()
    };
    assert((before + below) + here =~= before + (below + here));
}

/// The listing holds as many sequences as end below the nodes.
pub proof fn lemma_listing_len(children: Seq<Box<Node>>, prefix: Seq<u8>, upto: int)
    ensures
        listing_upto(children, prefix, upto).len() == size_upto(children, upto),
    decreases children, upto,
{
    if upto <= 0 || upto > children.len() {
    } else {
        let node = children[upto - 1];
        lemma_listing_len(children, prefix, upto - 1);
        lemma_listing_len(node.next@, prefix.push(node.key), node.next@.len() as int);
    }
}

/// Every sequence of the listing is the prefix with a member behind it.
pub proof fn lemma_listing_sound(children: Seq<Box<Node>>, prefix: Seq<u8>, upto: int, j: int)
    requires
        ordered(children),
        0 <= j < listing_upto(children, prefix, upto).len(),
    ensures
        exists|rest: Seq<u8>|
            #[trigger] member(children, rest) && listing_upto(children, prefix, upto)[j] == prefix
                + rest,
    decreases children, upto,
{
    if upto <= 0 || upto > children.len() {
    } else {
        let node = children[upto - 1];
        let first = listing_upto(children, prefix, upto - 1);
        let below = listing_upto(node.next@, prefix.push(node.key), node.next@.len() as int);
        let one = seq![node.key];
        lemma_one_node(children, upto - 1);
        if j < first.len() {
            lemma_listing_sound(children, prefix, upto - 1, j);
            let rest = choose|rest: Seq<u8>|
                #[trigger] member(children, rest) && first[j] == prefix + rest;
            assert(member(children, rest) && listing_upto(children, prefix, upto)[j] == prefix
                + rest);
        } else if j < first.len() + below.len() {
            assert(ordered(children[upto - 1].next@));
            lemma_listing_sound(
                node.next@,
                prefix.push(node.key),
                node.next@.len() as int,
                j - first.len(),
            );
            let tail = choose|tail: Seq<u8>|
                #[trigger] member(node.next@, tail) && below[j - first.len()] == prefix.push(
                    node.key,
                ) + tail;
            let rest = one + tail;
            assert(tail.len() > 0);
            assert(rest.drop_first() =~= tail);
            assert(rest[0] == node.key);
            assert(member(children, rest));
            assert(prefix.push(node.key) + tail =~= prefix + rest);
            assert(member(children, rest) && listing_upto(children, prefix, upto)[j] == prefix
                + rest);
        } else {
            assert(one[0] == node.key);
            assert(member(children, one));
            assert(prefix.push(node.key) =~= prefix + one);
            assert(member(children, one) && listing_upto(children, prefix, upto)[j] == prefix
                + one);
        }
    }
}

/// A shorter listing is the start of a longer one.
pub proof fn lemma_listing_grows(children: Seq<Box<Node>>, prefix: Seq<u8>, a: int, b: int, j: int)
    requires
        0 <= a <= b <= children.len(),
        0 <= j < listing_upto(children, prefix, a).len(),
    ensures
        j < listing_upto(children, prefix, b).len(),
        listing_upto(children, prefix, b)[j] == listing_upto(children, prefix, a)[j],
    decreases b - a,
{
    if a < b {
        lemma_listing_grows(children, prefix, a, b - 1, j);
    }
}

/// Every sequence of the listing is longer than the prefix, and goes on behind it with the
/// byte of one of the nodes: the one at the place that is returned.
pub proof fn lemma_listing_heads(children: Seq<Box<Node>>, prefix: Seq<u8>, upto: int, j: int) -> (i:
    int)
    requires
        ordered(children),
        0 <= j < listing_upto(children, prefix, upto).len(),
    ensures
        0 <= i < upto <= children.len(),
        listing_upto(children, prefix, upto)[j].len() > prefix.len(),
        listing_upto(children, prefix, upto)[j][prefix.len() as int] == children[i].key,
    decreases upto,
{
    let node = children[upto - 1];
    let first = listing_upto(children, prefix, upto - 1);
    let below = listing_upto(node.next@, prefix.push(node.key), node.next@.len() as int);
    lemma_listing_long(children, prefix, upto, j);
    if j < first.len() {
        lemma_listing_heads(children, prefix, upto - 1, j)
    } else {
        if j < first.len() + below.len() {
            let at = j - first.len();
            lemma_listing_sound(node.next@, prefix.push(node.key), node.next@.len() as int, at);
            let rest = choose|rest: Seq<u8>|
                #[trigger] member(node.next@, rest) && below[at] == prefix.push(node.key) + rest;
            assert((prefix.push(node.key) + rest)[prefix.len() as int] == node.key);
        }
        upto - 1
    }
}

/// Where the bytes ascend on every level, no sequence stands twice in the listing.
pub proof fn lemma_listing_distinct(children: Seq<Box<Node>>, prefix: Seq<u8>, upto: int)
    requires
        ordered(children),
    ensures
        listing_upto(children, prefix, upto).no_duplicates(),
    decreases children, upto,
{
    if upto <= 0 || upto > children.len() {
    } else {
        let node = children[upto - 1];
        let deeper = prefix.push(node.key);
        let first = listing_upto(children, prefix, upto - 1);
        let below = listing_upto(node.next@, deeper, node.next@.len() as int);
        let all = listing_upto(children, prefix, upto);
        let width = prefix.len() as int;
        lemma_listing_distinct(children, prefix, upto - 1);
        lemma_listing_distinct(node.next@, deeper, node.next@.len() as int);
        assert forall|a: int, b: int| 0 <= a < b < all.len() implies all[a] != all[b] by {
            if b < first.len() {
                assert(first[a] != first[b]);
            } else if a < first.len() {
                let i = lemma_listing_heads(children, prefix, upto - 1, a);
                assert(children[i].key < node.key);
                if b < first.len() + below.len() {
                    let at = b - first.len();
                    lemma_listing_sound(node.next@, deeper, node.next@.len() as int, at);
                    let rest = choose|rest: Seq<u8>|
                        #[trigger] member(node.next@, rest) && below[at] == deeper + rest;
                    assert((deeper + rest)[width] == node.key);
                } else {
                    assert(all[b] == deeper);
                    assert(deeper[width] == node.key);
                }
            } else if b < first.len() + below.len() {
                assert(below[a - first.len()] != below[b - first.len()]);
            } else {
                lemma_listing_long(
                    node.next@,
                    deeper,
                    node.next@.len() as int,
                    a - first.len(),
                );
                assert(all[b] == deeper);
            }
        }
    }
}

/// The prefix with a member behind it is in the listing.
pub proof fn lemma_listing_complete(children: Seq<Box<Node>>, prefix: Seq<u8>, key: Seq<u8>)
    requires
        member(children, key),
    ensures
        exists|j: int|
            0 <= j < listing(children, prefix).len() && #[trigger] listing(children, prefix)[j]
                == prefix + key,
    decreases key.len(),
{
    let i = place(children, key[0]).unwrap();
    let node = children[i];
    let first = listing_upto(children, prefix, i);
    let below = listing_upto(node.next@, prefix.push(node.key), node.next@.len() as int);
    let upto = listing_upto(children, prefix, i + 1);
    let one = seq![node.key];
    let at: int;
    if key.len() == 1 {
        at = (first.len() + below.len()) as int;
        assert(key =~= one);
        assert(prefix.push(node.key) =~= prefix + key);
        assert(upto[at] == prefix + key);
    } else {
        lemma_listing_complete(node.next@, prefix.push(node.key), key.drop_first());
        let j = choose|j: int|
            0 <= j < below.len() && #[trigger] listing(node.next@, prefix.push(node.key))[j]
                == prefix.push(node.key) + key.drop_first();
        at = first.len() as int + j;
        assert(prefix.push(node.key) + key.drop_first() =~= prefix + key);
        assert(upto[at] == prefix + key);
    }
    lemma_listing_grows(children, prefix, i + 1, children.len() as int, at);
    assert(listing(children, prefix)[at] == prefix + key);
}

/// The count of a level into which a node without an end below it was put.
pub proof fn lemma_size_insert(children: Seq<Box<Node>>, i: int, node: Box<Node>, upto: int)
    requires
        0 <= i <= children.len(),
        0 <= upto <= children.len(),
        node.next@.len() == 0,
        !node.ends_here,
    ensures
        size_upto(children.insert(i, node), upto + 1) == if i <= upto {
            size_upto(children, upto)
        } else {
            size_upto(children, upto + 1)
        },
    decreases upto,
{
    let after = children.insert(i, node);
    assert(after.len() == children.len() + 1);
    assert(size_upto(after, upto + 1) == size_upto(after, upto) + size_upto(
        after[upto].next@,
        after[upto].next@.len() as int,
    ) + end_count(*after[upto]));
    assert(size_upto(node.next@, 0) == 0);
    if upto > 0 {
        lemma_size_insert(children, i, node, upto - 1);
    }
    if i < upto {
        assert(after[upto] == children[upto - 1]);
    } else if i == upto {
        assert(after[upto] == node);
    } else {
        assert(after[upto] == children[upto]);
    }
}

/// The count of a level on which the node at place `i` has changed.
pub proof fn lemma_size_update(before: Seq<Box<Node>>, after: Seq<Box<Node>>, i: int, upto: int)
    requires
        0 <= i < before.len(),
        after.len() == before.len(),
        0 <= upto <= before.len(),
        forall|j: int| 0 <= j < before.len() && j != i ==> after[j] == before[j],
    ensures
        i < upto ==> size_upto(after, upto) + size(before[i].next@) + end_count(*before[i])
            == size_upto(before, upto) + size(after[i].next@) + end_count(*after[i]),
        i >= upto ==> size_upto(after, upto) == size_upto(before, upto),
    decreases upto,
{
    if upto > 0 {
        lemma_size_update(before, after, i, upto - 1);
        if upto - 1 != i {
            assert(after[upto - 1] == before[upto - 1]);
        }
    }
}

/// On a level on which one node has changed below itself, the places are what they were.
pub proof fn lemma_place_kept(before: Seq<Box<Node>>, after: Seq<Box<Node>>, c: u8)
    requires
        after.len() == before.len(),
        forall|j: int| 0 <= j < before.len() ==> (#[trigger] after[j]).key == before[j].key,
    ensures
        place(after, c) == place(before, c),
{
    if let Some(i) = place(before, c) {
        assert forall|j: int| 0 <= j < i implies (#[trigger] after[j]).key != c by {
            assert(before[j].key != c);
        }
        lemma_first(after, c, i);
    } else {
        if let Some(i) = place(after, c) {
            assert forall|j: int| 0 <= j < i implies (#[trigger] before[j]).key != c by {
                assert(after[j].key != c);
            }
            lemma_first(before, c, i);
        }
    }
}

/// A new node without an end below it, at its place on a level, adds no sequence.
pub proof fn lemma_barren(before: Seq<Box<Node>>, i: int, node: Box<Node>)
    requires
        ordered(before),
        0 <= i <= before.len(),
        node.next@.len() == 0,
        !node.ends_here,
        forall|j: int| 0 <= j < i ==> (#[trigger] before[j]).key < node.key,
        i < before.len() ==> before[i].key > node.key,
    ensures
        ordered(before.insert(i, node)),
        size(before.insert(i, node)) == size(before),
        forall|key: Seq<u8>| member(before.insert(i, node), key) <==> member(before, key),
{
    let after = before.insert(i, node);
    lemma_size_insert(before, i, node, before.len() as int);
    assert forall|a: int, b: int| 0 <= a < b < after.len() implies after[a].key
        < after[b].key by {
        let x = if a < i {
            a
        } else {
            a - 1
        };
        let y = if b < i {
            b
        } else {
            b - 1
        };
        if a != i && b != i {
            assert(before[x].key < before[y].key);
        } else if a == i {
            if i < y {
                assert(before[i].key < before[y].key);
            }
        }
    }
    assert forall|a: int| 0 <= a < after.len() implies ordered((#[trigger] after[a]).next@) by {
        if a < i {
            assert(after[a] == before[a]);
        } else if a > i {
            assert(after[a] == before[a - 1]);
        }
    }
    assert forall|key: Seq<u8>| member(after, key) <==> member(before, key) by {
        if key.len() > 0 {
            let c = key[0];
            if c == node.key {
                assert(after[i] == node);
                lemma_one_node(after, i);
                assert forall|j: int| 0 <= j < before.len() implies (#[trigger] before[j]).key
                    != c by {
                    if j > i {
                        assert(before[i].key < before[j].key);
                    }
                }
                lemma_no_place(before, c);
                lemma_member_none(before, key);
                lemma_member_at(after, key, i);
                if key.len() > 1 {
                    lemma_no_place(node.next@, key.drop_first()[0]);
                    lemma_member_none(node.next@, key.drop_first());
                }
            } else {
                if let Some(b) = place(before, c) {
                    assert(is_first(before, c, b));
                    let a = if b < i {
                        b
                    } else {
                        b + 1
                    };
                    assert(after[a] == before[b]);
                    lemma_one_node(after, a);
                    lemma_member_at(before, key, b);
                    lemma_member_at(after, key, a);
                } else {
                    lemma_member_none(before, key);
                    if let Some(a) = place(after, c) {
                        assert(is_first(after, c, a));
                        let b = if a < i {
                            a
                        } else {
                            a - 1
                        };
                        assert(before[b] == after[a]);
                        lemma_one_node(before, b);
                    } else {
                        lemma_member_none(after, key);
                    }
                }
            }
        } else {
            lemma_member_none(before, key);
            lemma_member_none(after, key);
        }
    }
}

/// What holds of a level after the sequence `rest` was marked at or below the node at
/// place `i`, whose byte is the first of `rest`.
pub proof fn lemma_marked(before: Seq<Box<Node>>, after: Seq<Box<Node>>, i: int, rest: Seq<u8>)
    requires
        ordered(before),
        0 <= i < before.len(),
        after.len() == before.len(),
        rest.len() >= 1,
        rest[0] == before[i].key,
        after[i].key == before[i].key,
        forall|j: int| 0 <= j < before.len() && j != i ==> after[j] == before[j],
        rest.len() == 1 ==> after[i].next == before[i].next && after[i].ends_here,
        rest.len() > 1 ==> after[i].ends_here == before[i].ends_here && ordered(after[i].next@)
            && size(after[i].next@) == size(before[i].next@) + if member(
            before[i].next@,
            rest.drop_first(),
        ) {
            0nat
        } else {
            1nat
        } && forall|key: Seq<u8>|
            member(after[i].next@, key) <==> member(before[i].next@, key) || key
                == rest.drop_first(),
    ensures
        ordered(after),
        member(before, rest) == if rest.len() == 1 {
            before[i].ends_here
        } else {
            member(before[i].next@, rest.drop_first())
        },
        size(after) == size(before) + if member(before, rest) {
            0nat
        } else {
            1nat
        },
        forall|key: Seq<u8>| member(after, key) <==> member(before, key) || key == rest,
{
    lemma_one_node(before, i);
    lemma_size_update(before, after, i, before.len() as int);
    assert forall|a: int, b: int| 0 <= a < b < after.len() implies after[a].key
        < after[b].key by {
        assert(before[a].key < before[b].key);
    }
    assert forall|a: int| 0 <= a < after.len() implies ordered((#[trigger] after[a]).next@) by {
        if a != i {
            assert(ordered(before[a].next@));
        } else {
            assert(ordered(before[i].next@));
        }
    }
    lemma_member_at(before, rest, i);
    assert forall|key: Seq<u8>| member(after, key) <==> member(before, key) || key == rest by {
        if key.len() > 0 {
            lemma_place_kept(before, after, key[0]);
            if key[0] == rest[0] {
                lemma_member_at(before, key, i);
                lemma_member_at(after, key, i);
                if key.len() == 1 && rest.len() == 1 {
                    assert(key =~= rest);
                }
                if key.len() > 1 && rest.len() > 1 && key.drop_first() == rest.drop_first() {
                    assert(key =~= seq![key[0]] + key.drop_first());
                    assert(rest =~= seq![rest[0]] + rest.drop_first());
                }
            } else {
                if let Some(a) = place(before, key[0]) {
                    assert(is_first(before, key[0], a));
                    assert(a != i);
                    lemma_member_at(before, key, a);
                    lemma_member_at(after, key, a);
                } else {
                    lemma_member_none(before, key);
                    lemma_member_none(after, key);
                }
            }
        } else {
            lemma_member_none(before, key);
            lemma_member_none(after, key);
        }
    }
}

pub type NetworkDeviceStore = TrieSet;

pub struct TrieSet {
    pub length: u64,
    root: Vec<Box<Node>>,
}

impl TrieSet {
    /// `key` is a sequence of the set.
    pub closed spec fn has(&self, key: Seq<u8>) -> bool {
        member(self.root@, key)
    }

    /// What `contains` finds for `key`.
    pub closed spec fn finds(&self, key: Seq<u8>) -> bool {
        reaches(self.root@, key, false)
    }

    /// The sequences of the set in the order of a walk.
    pub closed spec fn in_order(&self) -> Seq<Seq<u8>> {
        listing(self.root@, Seq::empty())
    }

    /// The sequences of the set.
    pub closed spec fn members(&self) -> Set<Seq<u8>> {
        self.in_order().to_set()
    }

    /// The value of the field `length`.
    pub closed spec fn count(&self) -> nat {
        self.length as nat
    }

    /// The value of the field `length`.
    pub fn len(&self) -> (n: u64)
        ensures
            n == self.count(),
    {
        self.length
    }

    /// The bytes of the nodes ascend on every level, and `length` counts the sequences.
    pub closed spec fn wf(&self) -> bool {
        ordered(self.root@) && self.length == size(self.root@)
    }

    /// A sequence of the set is found, and what is found is a sequence of the set or starts
    /// with one.
    pub proof fn lemma_finds(&self, key: Seq<u8>)
        ensures
            self.has(key) ==> self.finds(key),
            self.finds(key) ==> exists|n: int|
                1 <= n <= key.len() && self.has(#[trigger] key.subrange(0, n)),
    {
        if self.has(key) {
            lemma_member_reached(self.root@, key, false);
        }
        if self.finds(key) {
            lemma_reached_starts(self.root@, key);
        }
    }

    /// A walk meets the sequences of the set, and no others, each of them once, and `length`
    /// is their number.
    pub proof fn lemma_in_order(&self)
        requires
            self.wf(),
        ensures
            self.in_order().len() == self.count(),
            self.in_order().no_duplicates(),
            self.in_order().to_set().len() == self.count(),
            forall|key: Seq<u8>| self.has(key) <==> self.in_order().contains(key),
    {
        let none = Seq::<u8>::empty();
        lemma_listing_len(self.root@, none, self.root@.len() as int);
        lemma_listing_distinct(self.root@, none, self.root@.len() as int);
        self.in_order().unique_seq_to_set();
        assert forall|key: Seq<u8>| self.has(key) <==> self.in_order().contains(key) by {
            assert(none + key =~= key);
            if self.has(key) {
                lemma_listing_complete(self.root@, none, key);
            }
            if self.in_order().contains(key) {
                let j = choose|j: int|
                    0 <= j < self.in_order().len() && self.in_order()[j] == key;
                lemma_listing_sound(self.root@, none, self.root@.len() as int, j);
                let rest = choose|rest: Seq<u8>|
                    #[trigger] member(self.root@, rest) && listing(self.root@, none)[j] == none
                        + rest;
                assert(none + rest =~= rest);
            }
        }
    }

    /// The set holds finitely many sequences, and `length` is their number.
    pub proof fn lemma_members(&self)
        requires
            self.wf(),
        ensures
            self.members().finite(),
            self.members().len() == self.count(),
            forall|key: Seq<u8>| #[trigger] self.members().contains(key) <==> self.has(key),
    {
        self.lemma_in_order();
        assert forall|key: Seq<u8>| #[trigger]
            self.members().contains(key) <==> self.has(key) by {
            assert(self.in_order().to_set().contains(key) <==> self.in_order().contains(key));
        }
    }

    pub fn new_empty() -> (set: TrieSet)
        ensures
            set.wf(),
            set.count() == 0,
            forall|key: Seq<u8>| !set.has(key),
    {
        let set = TrieSet { length: 0, root: Vec::new() };
        proof {
            assert forall|key: Seq<u8>| !set.has(key) by {
                if key.len() > 0 {
                    lemma_no_place(set.root@, key[0]);
                }
            }
        }
        set
    }

    /// Puts the sequence `elements` into the set; an empty sequence is not put in.
    pub fn insert(&mut self, elements: &[u8])
        requires
            old(self).wf(),
            old(self).count() < u64::MAX,
        ensures
            final(self).wf(),
            forall|key: Seq<u8>|
                final(self).has(key) <==> old(self).has(key) || (key == elements@
                    && elements@.len() > 0),
            final(self).count() == if old(self).has(elements@) || elements@.len() == 0 {
                old(self).count()
            } else {
                old(self).count() + 1
            },
    {
        if elements.len() > 0 {
            assert(elements@.subrange(0, elements@.len() as int) =~= elements@);
            let added = mark(&mut self.root, elements, 0);
            if added {
                self.length += 1;
            }
        }
    }

    /// Whether a sequence of the set ends where the way of `key` through the trie ends: at
    /// the node of its last byte, or at the last node that there is for a byte of it.
    pub fn contains(&self, key: &[u8]) -> (found: bool)
        ensures
            found == self.finds(key@),
    {
        let mut level = &self.root;
        let mut so_far = false;
        let mut k: usize = 0;
        assert(key@.subrange(0, key@.len() as int) =~= key@);
        while k < key.len()
            invariant
                k <= key@.len(),
                reaches(self.root@, key@, false) == reaches(
                    level@,
                    key@.subrange(k as int, key@.len() as int),
                    so_far,
                ),
            ensures
                so_far == reaches(self.root@, key@, false),
            decreases key@.len() - k,
        {
            let ghost rest = key@.subrange(k as int, key@.len() as int);
            assert(rest[0] == key@[k as int]);
            assert(rest.drop_first() =~= key@.subrange(k + 1, key@.len() as int));
            match position(level, key[k]) {
                Some(i) => {
                    so_far = level[i].ends_here;
                    level = &level[i].next;
                },
                None => {
                    break ;
                },
            }
            k += 1;
        }
        so_far
    }

    /// The sequences of the set that `other` does not find.
    pub fn difference(self, other: TrieSet) -> (rest: TrieSet)
        requires
            self.wf(),
        ensures
            rest.wf(),
            forall|key: Seq<u8>| rest.has(key) <==> self.has(key) && !other.finds(key),
            rest.count() == rest.members().len(),
            forall|key: Seq<u8>| #[trigger] rest.members().contains(key) <==> rest.has(key),
    {
        let mut new = TrieSet::new_empty();
        let keys = self.keys();
        proof {
            self.lemma_in_order();
        }
        let mut k: usize = 0;
        while k < keys.len()
            invariant
                k <= keys@.len(),
                new.wf(),
                new.count() <= k,
                keys@.len() <= u64::MAX,
                forall|key: Seq<u8>|
                    new.has(key) <==> (exists|j: int| 0 <= j < k && (#[trigger] keys@[j])@ == key)
                        && !other.finds(key),
                forall|j: int| 0 <= j < keys@.len() ==> (#[trigger] keys@[j])@.len() > 0,
            decreases keys@.len() - k,
        {
            if !other.contains(keys[k].as_slice()) {
                new.insert(keys[k].as_slice())
            }
            k += 1;
        }
        proof {
            self.lemma_keys(keys@);
            new.lemma_members();
        }
        new
    }

    /// The sequences of both sets: each of them once.
    pub fn union(self, other: TrieSet) -> (both: TrieSet)
        requires
            self.wf(),
            other.wf(),
            self.count() + other.count() <= u64::MAX,
        ensures
            both.wf(),
            forall|key: Seq<u8>| both.has(key) <==> self.has(key) || other.has(key),
            both.members() == self.members().union(other.members()),
            both.count() == both.members().len(),
            forall|key: Seq<u8>| #[trigger] both.members().contains(key) <==> both.has(key),
    {
        let mut new = TrieSet::new_empty();
        let keys = self.keys();
        let more = other.keys();
        proof {
            self.lemma_in_order();
            other.lemma_in_order();
        }
        let mut k: usize = 0;
        while k < keys.len()
            invariant
                k <= keys@.len(),
                new.wf(),
                new.count() <= k,
                keys@.len() + more@.len() <= u64::MAX,
                forall|key: Seq<u8>|
                    new.has(key) <==> exists|j: int| 0 <= j < k && (#[trigger] keys@[j])@ == key,
                forall|j: int| 0 <= j < keys@.len() ==> (#[trigger] keys@[j])@.len() > 0,
            decreases keys@.len() - k,
        {
            new.insert(keys[k].as_slice());
            k += 1;
        }
        let mut m: usize = 0;
        while m < more.len()
            invariant
                m <= more@.len(),
                new.wf(),
                new.count() <= keys@.len() + m,
                keys@.len() + more@.len() <= u64::MAX,
                forall|key: Seq<u8>|
                    new.has(key) <==> (exists|j: int|
                        0 <= j < keys@.len() && (#[trigger] keys@[j])@ == key) || (exists|j: int|
                        0 <= j < m && (#[trigger] more@[j])@ == key),
                forall|j: int| 0 <= j < more@.len() ==> (#[trigger] more@[j])@.len() > 0,
            decreases more@.len() - m,
        {
            new.insert(more[m].as_slice());
            m += 1;
        }
        proof {
            self.lemma_keys(keys@);
            other.lemma_keys(more@);
            new.lemma_members();
            self.lemma_members();
            other.lemma_members();
            assert(new.members() =~= self.members().union(other.members()));
        }
        new
    }

    /// The sequences of the smaller set that the other set finds; those of `other` where
    /// both sets are of one size.
    pub fn intersection(self, other: TrieSet) -> (common: TrieSet)
        requires
            self.wf(),
            other.wf(),
        ensures
            common.wf(),
            forall|key: Seq<u8>|
                common.has(key) <==> if self.count() < other.count() {
                    self.has(key) && other.finds(key)
                } else {
                    other.has(key) && self.finds(key)
                },
            common.count() == common.members().len(),
            forall|key: Seq<u8>| #[trigger] common.members().contains(key) <==> common.has(key),
    {
        let mut new = TrieSet::new_empty();
        if self.length < other.length {
            let keys = self.keys();
            proof {
                self.lemma_in_order();
            }
            let mut k: usize = 0;
            while k < keys.len()
                invariant
                    k <= keys@.len(),
                    new.wf(),
                    new.count() <= k,
                    keys@.len() <= u64::MAX,
                    forall|key: Seq<u8>|
                        new.has(key) <==> (exists|j: int|
                            0 <= j < k && (#[trigger] keys@[j])@ == key) && other.finds(key),
                    forall|j: int| 0 <= j < keys@.len() ==> (#[trigger] keys@[j])@.len() > 0,
                decreases keys@.len() - k,
            {
                if other.contains(keys[k].as_slice()) {
                    new.insert(keys[k].as_slice())
                }
                k += 1;
            }
            proof {
                self.lemma_keys(keys@);
            }
        } else {
            let keys = other.keys();
            proof {
                other.lemma_in_order();
            }
            let mut k: usize = 0;
            while k < keys.len()
                invariant
                    k <= keys@.len(),
                    new.wf(),
                    new.count() <= k,
                    keys@.len() <= u64::MAX,
                    forall|key: Seq<u8>|
                        new.has(key) <==> (exists|j: int|
                            0 <= j < k && (#[trigger] keys@[j])@ == key) && self.finds(key),
                    forall|j: int| 0 <= j < keys@.len() ==> (#[trigger] keys@[j])@.len() > 0,
                decreases keys@.len() - k,
            {
                if self.contains(keys[k].as_slice()) {
                    new.insert(keys[k].as_slice())
                }
                k += 1;
            }
            proof {
                other.lemma_keys(keys@);
            }
        }
        proof {
            new.lemma_members();
        }
        new
    }

    /// The sequences of a set are those that stand in the vector of its keys.
    proof fn lemma_keys(&self, keys: Seq<Vec<u8>>)
        requires
            self.wf(),
            keys.len() == self.in_order().len(),
            forall|j: int| 0 <= j < keys.len() ==> (#[trigger] keys[j])@ == self.in_order()[j],
        ensures
            forall|key: Seq<u8>|
                self.has(key) <==> exists|j: int| 0 <= j < keys.len() && (#[trigger] keys[j])@ == key,
    {
        self.lemma_in_order();
        assert forall|key: Seq<u8>| self.has(key) <==> exists|j: int|
            0 <= j < keys.len() && (#[trigger] keys[j])@ == key by {
            if self.has(key) {
                let j = choose|j: int|
                    0 <= j < self.in_order().len() && self.in_order()[j] == key;
                assert(keys[j]@ == key);
            }
            if exists|j: int| 0 <= j < keys.len() && (#[trigger] keys[j])@ == key {
                let j = choose|j: int| 0 <= j < keys.len() && (#[trigger] keys[j])@ == key;
                assert(self.in_order()[j] == key);
            }
        }
    }

    /// Calls `callback` once for every sequence of the set: below every node first for the
    /// sequences that go on, in ascending order of their next byte, and then for the one that
    /// ends there. The callback has then been called on every sequence of the set.
    pub fn walk(&self, callback: impl Fn(&[u8]) -> ())
        requires
            forall|k: &[u8]| call_requires(callback, (k,)),
        ensures
            called_on(callback, self.in_order()),
    {
        let mut r: usize = 0;
        let empty: Vec<u8> = Vec::new();
        while r < self.root.len()
            invariant
                r <= self.root@.len(),
                empty@ == Seq::<u8>::empty(),
                forall|k: &[u8]| call_requires(callback, (k,)),
                called_on(callback, listing_upto(self.root@, empty@, r as int)),
            decreases self.root@.len() - r,
        {
            Self::walk_r(&self.root[r], &empty, &callback);
            proof {
                lemma_listing_step(self.root@, empty@, r + 1);
            }
            r += 1;
        }
    }

    /// Walks the sequences that end at and below `node`, each behind `value`.
    pub fn walk_r(node: &Box<Node>, value: &Vec<u8>, callback: &impl Fn(&[u8]) -> ())
        requires
            forall|k: &[u8]| call_requires(*callback, (k,)),
        ensures
            called_on(*callback, listing_at(**node, value@)),
        decreases **node,
    {
        let mut v = value.clone();
        v.push(node.key);
        let mut n: usize = 0;
        while n < node.next.len()
            invariant
                n <= node.next@.len(),
                v@ == value@.push(node.key),
                forall|k: &[u8]| call_requires(*callback, (k,)),
                called_on(*callback, listing_upto(node.next@, v@, n as int)),
            decreases node.next@.len() - n,
        {
            Self::walk_r(&node.next[n], &v, callback);
            proof {
                lemma_listing_step(node.next@, v@, n + 1);
            }
            n += 1;
        }
        if node.ends_here {
            callback(v.as_slice());
            assert(called(*callback, v@));
        }
    }

    /// The sequences of the set, in the order of a walk.
    pub fn keys(&self) -> (all: Vec<Vec<u8>>)
        ensures
            all@.len() == self.in_order().len(),
            forall|j: int| 0 <= j < all@.len() ==> (#[trigger] all@[j])@ == self.in_order()[j],
            forall|j: int| 0 <= j < all@.len() ==> (#[trigger] all@[j])@.len() > 0,
    {
        let mut all: Vec<Vec<u8>> = Vec::new();
        let empty: Vec<u8> = Vec::new();
        gather(&self.root, &empty, &mut all);
        proof {
            assert(views(all@) =~= listing(self.root@, empty@));
            assert forall|j: int| 0 <= j < all@.len() implies (#[trigger] all@[j])@
                == self.in_order()[j] && all@[j]@.len() > 0 by {
                assert(views(all@)[j] == all@[j]@);
                lemma_listing_long(self.root@, empty@, self.root@.len() as int, j);
            }
        }
        all
    }

    /// An iterator over the sequences of the set, in the order of a walk.
    pub fn into_iter(self) -> (iter: SetIterator)
        ensures
            iter.position() == 0,
            iter.items().len() == self.in_order().len(),
            forall|j: int|
                0 <= j < iter.items().len() ==> (#[trigger] iter.items()[j])@ == self.in_order()[j],
    {
        let keys = self.keys();
        SetIterator::new(keys, 0)
    }
}

/// The sequences that stand in vectors.
pub open spec fn views(all: Seq<Vec<u8>>) -> Seq<Seq<u8>> {
    Seq::new(all.len(), |j: int| all[j]@)
}

/// A sequence of a listing is longer than the prefix.
pub proof fn lemma_listing_long(children: Seq<Box<Node>>, prefix: Seq<u8>, upto: int, j: int)
    requires
        0 <= j < listing_upto(children, prefix, upto).len(),
    ensures
        listing_upto(children, prefix, upto)[j].len() > prefix.len(),
    decreases children, upto,
{
    if upto <= 0 || upto > children.len() {
    } else {
        let node = children[upto - 1];
        let first = listing_upto(children, prefix, upto - 1);
        let below = listing_upto(node.next@, prefix.push(node.key), node.next@.len() as int);
        if j < first.len() {
            lemma_listing_long(children, prefix, upto - 1, j);
        } else if j < first.len() + below.len() {
            lemma_listing_long(
                node.next@,
                prefix.push(node.key),
                node.next@.len() as int,
                j - first.len(),
            );
        }
    }
}

/// The place of the first node with the byte `c` on a level.
pub fn position(children: &Vec<Box<Node>>, c: u8) -> (found: Option<usize>)
    ensures
        match found {
            Some(i) => place(children@, c) == Some(i as int) && i < children@.len(),
            None => place(children@, c) is None,
        },
{
    let mut i: usize = 0;
    while i < children.len()
        invariant
            i <= children@.len(),
            forall|j: int| 0 <= j < i ==> (#[trigger] children@[j]).key != c,
        decreases children@.len() - i,
    {
        if children[i].key == c {
            proof {
                lemma_first(children@, c, i as int);
            }
            return Some(i);
        }
        i += 1;
    }
    proof {
        lemma_no_place(children@, c);
    }
    None
}

/// Marks the end of the sequence `path[from..]` below `children`, with new nodes where the
/// way is not there yet; tells whether the sequence is new.
pub fn mark(children: &mut Vec<Box<Node>>, path: &[u8], from: usize) -> (added: bool)
    requires
        from < path@.len(),
        ordered(old(children)@),
    ensures
        ordered(final(children)@),
        added == !member(old(children)@, path@.subrange(from as int, path@.len() as int)),
        size(final(children)@) == size(old(children)@) + if added {
            1nat
        } else {
            0nat
        },
        forall|key: Seq<u8>|
            member(final(children)@, key) <==> member(old(children)@, key) || key
                == path@.subrange(from as int, path@.len() as int),
    decreases path@.len() - from,
{
    let c = path[from];
    let ghost rest = path@.subrange(from as int, path@.len() as int);
    let ghost before = children@;
    let mut i: usize = 0;
    while i < children.len() && children[i].key < c
        invariant
            i <= children@.len(),
            children@ == before,
            forall|j: int| 0 <= j < i ==> (#[trigger] children@[j]).key < c,
        decreases children@.len() - i,
    {
        i += 1;
    }
    if i == children.len() || children[i].key != c {
        children.insert(i, Node::new(c, false));
        proof {
            lemma_barren(before, i as int, children@[i as int]);
        }
    }
    let ghost ready = children@;
    proof {
        assert(ready[i as int].key == c);
        assert(rest[0] == c);
        assert(rest.drop_first() =~= path@.subrange(from + 1, path@.len() as int));
        assert(ordered(ready[i as int].next@));
    }
    if from + 1 == path.len() {
        let was = children[i].ends_here;
        children[i].ends_here = true;
        proof {
            lemma_marked(ready, children@, i as int, rest);
        }
        !was
    } else {
        let added = mark(&mut children[i].next, path, from + 1);
        proof {
            lemma_marked(ready, children@, i as int, rest);
        }
        added
    }
}

/// Puts behind `all` the sequences that end below `children`, each behind `prefix`.
pub fn gather(children: &Vec<Box<Node>>, prefix: &Vec<u8>, all: &mut Vec<Vec<u8>>)
    ensures
        views(final(all)@) == views(old(all)@) + listing(children@, prefix@),
    decreases children@,
{
    let mut n: usize = 0;
    assert(views(all@) =~= views(old(all)@) + listing_upto(children@, prefix@, 0));
    while n < children.len()
        invariant
            n <= children@.len(),
            views(all@) == views(old(all)@) + listing_upto(children@, prefix@, n as int),
        decreases children@.len() - n,
    {
        let node = &children[n];
        let mut v = prefix.clone();
        v.push(node.key);
        let ghost start = all@;
        gather(&node.next, &v, all);
        let ghost below = all@;
        if node.ends_here {
            all.push(v.clone());
            assert(views(all@) =~= views(below) + seq![v@]);
        }
        assert(views(all@) =~= views(old(all)@) + listing_upto(children@, prefix@, n + 1));
        n += 1;
    }
}

/// Walks over sequences.
pub struct SetIterator {
    data: Vec<Vec<u8>>,
    last_index: usize,
}

impl SetIterator {
    /// The sequences over which the iterator walks.
    pub closed spec fn items(&self) -> Seq<Vec<u8>> {
        self.data@
    }

    /// The place of the sequence in hand.
    pub closed spec fn position(&self) -> nat {
        self.last_index as nat
    }

    pub fn new(data: Vec<Vec<u8>>, start_at: usize) -> (iter: SetIterator)
        ensures
            iter.items() == data@,
            iter.position() == start_at,
    {
        SetIterator { data: data, last_index: start_at }
    }

    /// The sequence in hand, and a step on; nothing behind the last sequence.
    pub fn next(&mut self) -> (item: Option<Vec<u8>>)
        ensures
            final(self).items() == old(self).items(),
            old(self).position() < old(self).items().len() ==> final(self).position() == old(self).position() + 1 && (item matches Some(v) && v@ == old(self).items()[old(self).position() as int]@),
            old(self).position() >= old(self).items().len() ==> item is None,
    {
        if self.last_index < self.data.len() {
            let result = self.data[self.last_index].clone();
            self.last_index += 1;
            Some(result)
        } else {
            None
        }
    }
}

} // verus!
