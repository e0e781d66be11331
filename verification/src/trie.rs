//! A trie of devices by the characters of their paths.

use vstd::prelude::*;
use vstd::string::StrSliceExecFns;
use crate::devices::IoTDevice;

verus! {

pub struct Node {
    pub key: char,
    pub next: Vec<Box<Node>>,
    pub value: Option<IoTDevice>,
}

impl Node {
    pub fn new(key: char, device: Option<IoTDevice>) -> (node: Box<Node>)
        ensures
            node.key == key,
            node.value == device,
            node.next@.len() == 0,
    {
        Box::new(Node { key: key, next: Vec::new(), value: device })
    }
}

/// `i` is the first place on the level `children` of a node with the character `c`.
pub open spec fn is_first(children: Seq<Box<Node>>, c: char, i: int) -> bool {
    &&& 0 <= i < children.len()
    &&& children[i].key == c
    &&& forall|j: int| 0 <= j < i ==> (#[trigger] children[j]).key != c
}

/// The first place on the level `children` of a node with the character `c`.
pub open spec fn place(children: Seq<Box<Node>>, c: char) -> Option<int> {
    if exists|i: int| is_first(children, c, i) {
        Some(choose|i: int| is_first(children, c, i))
    } else {
        None
    }
}

/// There is one first place.
pub proof fn lemma_first(children: Seq<Box<Node>>, c: char, i: int)
    requires
        is_first(children, c, i),
    ensures
        place(children, c) == Some(i),
{
    let f = choose|f: int| is_first(children, c, f);
    if f < i {
        assert(children[f].key != c);
    }
    if i < f {
        assert(children[i].key != c);
    }
}

/// Without a node with the character there is no place.
pub proof fn lemma_no_place(children: Seq<Box<Node>>, c: char)
    requires
        forall|j: int| 0 <= j < children.len() ==> (#[trigger] children[j]).key != c,
    ensures
        place(children, c) is None,
{
    if exists|i: int| is_first(children, c, i) {
        let f = choose|f: int| is_first(children, c, f);
        assert(children[f].key != c);
    }
}

/// The device that is stored under the path `path` below `children`.
pub open spec fn stored(children: Seq<Box<Node>>, path: Seq<char>) -> Option<IoTDevice>
    decreases path.len(),
{
    if path.len() == 0 {
        None
    } else {
        match place(children, path[0]) {
            Some(i) => if path.len() == 1 {
                children[i].value
            } else {
                stored(children[i].next@, path.drop_first())
            },
            None => None,
        }
    }
}

/// What `find` returns for `path` below `children`, with `so_far` found on the way: it goes
/// down for as long as there is a node for the next character, and returns what is stored at
/// the last node that it has reached.
pub open spec fn reaches(
    children: Seq<Box<Node>>,
    path: Seq<char>,
    so_far: Option<IoTDevice>,
) -> Option<IoTDevice>
    decreases path.len(),
{
    if path.len() == 0 {
        so_far
    } else {
        match place(children, path[0]) {
            Some(i) => reaches(children[i].next@, path.drop_first(), children[i].value),
            None => so_far,
        }
    }
}

/// What is stored under a path is found under it.
pub proof fn lemma_stored_reached(
    children: Seq<Box<Node>>,
    path: Seq<char>,
    so_far: Option<IoTDevice>,
)
    requires
        stored(children, path) is Some,
    ensures
        reaches(children, path, so_far) == stored(children, path),
    decreases path.len(),
{
    let i = place(children, path[0]).unwrap();
    if path.len() > 1 {
        lemma_stored_reached(children[i].next@, path.drop_first(), children[i].value);
    } else {
        assert(path.drop_first().len() == 0);
        assert(reaches(children[i].next@, path.drop_first(), children[i].value)
            == children[i].value);
    }
}

/// What is found below a node for a path that goes on there does not depend on what was
/// found on the way.
pub proof fn lemma_reaches_deeper(
    children: Seq<Box<Node>>,
    path: Seq<char>,
    a: Option<IoTDevice>,
    b: Option<IoTDevice>,
)
    requires
        path.len() > 0,
        place(children, path[0]) is Some,
    ensures
        reaches(children, path, a) == reaches(children, path, b),
{
}

/// What is found under a path is stored under the path or under a path that it starts with.
pub proof fn lemma_reached_starts(children: Seq<Box<Node>>, path: Seq<char>)
    requires
        reaches(children, path, None) is Some,
    ensures
        exists|n: int|
            1 <= n <= path.len() && stored(children, #[trigger] path.subrange(0, n)) == reaches(
                children,
                path,
                None,
            ),
    decreases path.len(),
{
    let i = place(children, path[0]).unwrap();
    let rest = path.drop_first();
    if rest.len() > 0 && place(children[i].next@, rest[0]) is Some {
        lemma_reaches_deeper(children[i].next@, rest, children[i].value, None);
        lemma_reached_starts(children[i].next@, rest);
        let n = choose|n: int|
            1 <= n <= rest.len() && stored(children[i].next@, #[trigger] rest.subrange(0, n))
                == reaches(children[i].next@, rest, None);
        let longer = path.subrange(0, n + 1);
        assert(longer.drop_first() =~= rest.subrange(0, n));
        assert(longer[0] == path[0]);
        assert(stored(children, longer) == reaches(children, path, None));
    } else {
        let first = path.subrange(0, 1);
        assert(first[0] == path[0]);
        assert(reaches(children[i].next@, rest, children[i].value) == children[i].value);
        assert(stored(children, first) == reaches(children, path, None));
    }
}

/// What is stored under a path is seen at the node of its first character.
pub proof fn lemma_stored_at(children: Seq<Box<Node>>, path: Seq<char>, i: int)
    requires
        path.len() > 0,
        place(children, path[0]) == Some(i),
    ensures
        stored(children, path) == if path.len() == 1 {
            children[i].value
        } else {
            stored(children[i].next@, path.drop_first())
        },
{
}

/// Nothing is stored under a path without a node for its first character.
pub proof fn lemma_stored_none(children: Seq<Box<Node>>, path: Seq<char>)
    requires
        path.len() == 0 || place(children, path[0]) is None,
    ensures
        stored(children, path) is None,
{
}

/// A new last node without a device below it stores nothing.
pub proof fn lemma_barren(before: Seq<Box<Node>>, node: Box<Node>)
    requires
        node.next@.len() == 0,
        node.value is None,
        place(before, node.key) is None,
    ensures
        place(before.push(node), node.key) == Some(before.len() as int),
        forall|path: Seq<char>| stored(before.push(node), path) == stored(before, path),
{
    let after = before.push(node);
    let last = before.len() as int;
    assert forall|j: int| 0 <= j < last implies (#[trigger] after[j]).key != node.key by {
        if before[j].key == node.key {
            lemma_found(before, node.key, j);
        }
    }
    lemma_first(after, node.key, last);
    assert forall|path: Seq<char>| stored(after, path) == stored(before, path) by {
        if path.len() > 0 {
            let c = path[0];
            if c == node.key {
                lemma_stored_none(before, path);
                lemma_stored_at(after, path, last);
                if path.len() > 1 {
                    lemma_no_place(node.next@, path.drop_first()[0]);
                    lemma_stored_none(node.next@, path.drop_first());
                }
            } else {
                if let Some(b) = place(before, c) {
                    assert(is_first(before, c, b));
                    assert(after[b] == before[b]);
                    assert forall|j: int| 0 <= j < b implies (#[trigger] after[j]).key != c by {
                        assert(before[j].key != c);
                    }
                    lemma_first(after, c, b);
                    lemma_stored_at(before, path, b);
                    lemma_stored_at(after, path, b);
                } else {
                    lemma_stored_none(before, path);
                    if let Some(a) = place(after, c) {
                        assert(is_first(after, c, a));
                        assert(a < last);
                        lemma_found(before, c, a);
                    } else {
                        lemma_stored_none(after, path);
                    }
                }
            }
        } else {
            lemma_stored_none(before, path);
            lemma_stored_none(after, path);
        }
    }
}

/// A level with a node for a character has a first place for it.
pub proof fn lemma_found(children: Seq<Box<Node>>, c: char, j: int)
    requires
        0 <= j < children.len(),
        children[j].key == c,
    ensures
        place(children, c) is Some,
    decreases j,
{
    if forall|k: int| 0 <= k < j ==> (#[trigger] children[k]).key != c {
        lemma_first(children, c, j);
    } else {
        let k = choose|k: int| 0 <= k < j && (#[trigger] children[k]).key == c;
        lemma_found(children, c, k);
    }
}

/// On a level on which one node has changed below itself, the places are what they were.
pub proof fn lemma_place_kept(before: Seq<Box<Node>>, after: Seq<Box<Node>>, c: char)
    requires
        after.len() == before.len(),
        forall|j: int| 0 <= j < before.len() ==> (#[trigger] after[j]).key == before[j].key,
    ensures
        place(after, c) == place(before, c),
{
    if let Some(i) = place(before, c) {
        assert forall|j: int| 0 <= j < i implies (#[trigger] after[j]).key != c by {
            assert(before[j].key != c);
        }
        lemma_first(after, c, i);
    } else {
        if let Some(i) = place(after, c) {
            assert forall|j: int| 0 <= j < i implies (#[trigger] before[j]).key != c by {
                assert(after[j].key != c);
            }
            lemma_first(before, c, i);
        }
    }
}

/// What holds of a level after `device` was stored under `rest` at or below the node at
/// place `i`, the first with the first character of `rest`.
pub proof fn lemma_put(
    before: Seq<Box<Node>>,
    after: Seq<Box<Node>>,
    i: int,
    rest: Seq<char>,
    device: IoTDevice,
)
    requires
        0 <= i < before.len(),
        after.len() == before.len(),
        rest.len() >= 1,
        place(before, rest[0]) == Some(i),
        after[i].key == before[i].key,
        forall|j: int| 0 <= j < before.len() && j != i ==> after[j] == before[j],
        rest.len() == 1 ==> after[i].next == before[i].next && after[i].value == Some(device),
        rest.len() > 1 ==> after[i].value == before[i].value && forall|path: Seq<char>|
            stored(after[i].next@, path) == if path == rest.drop_first() {
                Some(device)
            } else {
                stored(before[i].next@, path)
            },
    ensures
        forall|path: Seq<char>|
            stored(after, path) == if path == rest {
                Some(device)
            } else {
                stored(before, path)
            },
{
    assert forall|path: Seq<char>|
        stored(after, path) == if path == rest {
            Some(device)
        } else {
            stored(before, path)
        } by {
        if path.len() > 0 {
            lemma_place_kept(before, after, path[0]);
            if path[0] == rest[0] {
                lemma_stored_at(before, path, i);
                lemma_stored_at(after, path, i);
                if path.len() == 1 && rest.len() == 1 {
                    assert(path =~= rest);
                }
                if path.len() > 1 && rest.len() > 1 && path.drop_first() == rest.drop_first() {
                    assert(path =~= seq![path[0]] + path.drop_first());
                    assert(rest =~= seq![rest[0]] + rest.drop_first());
                }
            } else {
                if let Some(a) = place(before, path[0]) {
                    assert(is_first(before, path[0], a));
                    assert(is_first(before, rest[0], i));
                    assert(a != i);
                    lemma_stored_at(before, path, a);
                    lemma_stored_at(after, path, a);
                } else {
                    lemma_stored_none(before, path);
                    lemma_stored_none(after, path);
                }
            }
        } else {
            lemma_stored_none(before, path);
            lemma_stored_none(after, path);
        }
    }
}

/// The place of the first node with the character `c` on a level.
pub fn position(children: &Vec<Box<Node>>, c: char) -> (found: Option<usize>)
    ensures
        match found {
            Some(i) => place(children@, c) == Some(i as int) && i < children@.len(),
            None => place(children@, c) is None,
        },
{
    let mut i: usize = 0;
    while i < children.len()
        invariant
            i <= children@.len(),
            forall|j: int| 0 <= j < i ==> (#[trigger] children@[j]).key != c,
        decreases children@.len() - i,
    {
        if children[i].key == c {
            proof {
                lemma_first(children@, c, i as int);
            }
            return Some(i);
        }
        i += 1;
    }
    proof {
        lemma_no_place(children@, c);
    }
    None
}

/// Stores `device` under the path `path[from..]` below `children`, with new nodes where the
/// way is not there yet.
pub fn put(children: &mut Vec<Box<Node>>, path: &Vec<char>, from: usize, device: IoTDevice)
    requires
        from < path@.len(),
    ensures
        forall|p: Seq<char>|
            stored(final(children)@, p) == if p == path@.subrange(
                from as int,
                path@.len() as int,
            ) {
                Some(device)
            } else {
                stored(old(children)@, p)
            },
    decreases path@.len() - from,
{
    let c = path[from];
    assert(from < path.len());
    let ghost rest = path@.subrange(from as int, path@.len() as int);
    let ghost before = children@;
    let i = match position(children, c) {
        Some(i) => i,
        None => {
            children.push(Node::new(c, None));
            proof {
                lemma_barren(before, children@[before.len() as int]);
            }
            children.len() - 1
        },
    };
    let ghost ready = children@;
    proof {
        assert(rest[0] == c);
        assert(rest.drop_first() =~= path@.subrange(from + 1, path@.len() as int));
    }
    if from + 1 == path.len() {
        children[i].value = Some(device);
        proof {
            lemma_put(ready, children@, i as int, rest, device);
        }
    } else {
        put(&mut children[i].next, path, from + 1, device);
        proof {
            lemma_put(ready, children@, i as int, rest, device);
        }
    }
}

/// The characters of a string.
pub fn characters(text: &str) -> (all: Vec<char>)
    ensures
        all@ == text@,
{
    let n = text.unicode_len();
    let mut all: Vec<char> = Vec::new();
    let mut i: usize = 0;
    while i < n
        invariant
            i <= n,
            n == text@.len(),
            all@ == text@.subrange(0, i as int),
        decreases n - i,
    {
        all.push(text.get_char(i));
        assert(all@ =~= text@.subrange(0, i + 1));
        i += 1;
    }
    assert(all@ =~= text@);
    all
}

pub struct BestDeviceRegistry {
    pub length: u64,
    root: Vec<Box<Node>>,
}

impl BestDeviceRegistry {
    /// The device that is stored under the path `path`.
    pub closed spec fn at(&self, path: Seq<char>) -> Option<IoTDevice> {
        stored(self.root@, path)
    }

    /// What `find` returns for `path`.
    pub closed spec fn finds(&self, path: Seq<char>) -> Option<IoTDevice> {
        reaches(self.root@, path, None)
    }

    /// The value of the field `length`.
    pub closed spec fn count(&self) -> nat {
        self.length as nat
    }

    /// The value of the field `length`.
    pub fn len(&self) -> (n: u64)
        ensures
            n == self.count(),
    {
        self.length
    }

    /// A device that is stored under a path is found under it, and what is found under a path
    /// is stored under it or under a path that it starts with.
    pub proof fn lemma_finds(&self, path: Seq<char>)
        ensures
            self.at(path) is Some ==> self.finds(path) == self.at(path),
            self.finds(path) is Some ==> exists|n: int|
                1 <= n <= path.len() && self.at(#[trigger] path.subrange(0, n)) == self.finds(
                    path,
                ),
    {
        if self.at(path) is Some {
            lemma_stored_reached(self.root@, path, None);
        }
        if self.finds(path) is Some {
            lemma_reached_starts(self.root@, path);
        }
    }

    pub fn new_empty() -> (registry: BestDeviceRegistry)
        ensures
            registry.count() == 0,
            forall|path: Seq<char>| registry.at(path) is None,
    {
        let registry = BestDeviceRegistry { length: 0, root: Vec::new() };
        proof {
            assert forall|path: Seq<char>| registry.at(path) is None by {
                if path.len() > 0 {
                    lemma_no_place(registry.root@, path[0]);
                }
            }
        }
        registry
    }

    /// Stores `device` under its path, in place of a device that was stored there; a device
    /// without a path is not stored. `length` counts the devices that were stored.
    pub fn add(&mut self, device: IoTDevice)
        requires
            old(self).count() < u64::MAX,
        ensures
            device.path@.len() == 0 ==> final(self).count() == old(self).count() && forall|
                path: Seq<char>,
            | final(self).at(path) == old(self).at(path),
            device.path@.len() > 0 ==> final(self).count() == old(self).count() + 1 && forall|
                path: Seq<char>,
            |
                final(self).at(path) == if path == device.path@ {
                    Some(device)
                } else {
                    old(self).at(path)
                },
    {
        let path = characters(device.path.as_str());
        if path.len() > 0 {
            self.length += 1;
            assert(path@.subrange(0, path@.len() as int) =~= path@);
            put(&mut self.root, &path, 0, device);
        }
    }

    /// The device that is stored where the way of `path` through the trie ends: at the node
    /// of its last character, or at the last node that there is for a character of it.
    pub fn find(&self, path: &str) -> (found: Option<IoTDevice>)
        ensures
            found == self.finds(path@),
    {
        let path = characters(path);
        let mut level = &self.root;
        let mut so_far: Option<&IoTDevice> = None;
        let mut k: usize = 0;
        assert(path@.subrange(0, path@.len() as int) =~= path@);
        while k < path.len()
            invariant
                k <= path@.len(),
                reaches(self.root@, path@, None) == reaches(
                    level@,
                    path@.subrange(k as int, path@.len() as int),
                    match so_far {
                        Some(d) => Some(*d),
                        None => None,
                    },
                ),
            ensures
                reaches(self.root@, path@, None) == match so_far {
                    Some(d) => Some(*d),
                    None => None,
                },
            decreases path@.len() - k,
        {
            let ghost rest = path@.subrange(k as int, path@.len() as int);
            assert(rest[0] == path@[k as int]);
            assert(rest.drop_first() =~= path@.subrange(k + 1, path@.len() as int));
            match position(level, path[k]) {
                Some(i) => {
                    so_far = level[i].value.as_ref();
                    level = &level[i].next;
                },
                None => {
                    break ;
                },
            }
            k += 1;
        }
        match so_far {
            Some(d) => Some(d.clone()),
            None => None,
        }
    }

    /// Calls `callback` once for every device: below every node first for the devices
    /// whose paths go on, and then for the one that is stored there. The callback has then
    /// been called on every device that is stored under a path.
    pub fn walk(&self, callback: impl Fn(&IoTDevice) -> ())
        requires
            forall|d: &IoTDevice| call_requires(callback, (d,)),
        ensures
            forall|path: Seq<char>|
                (#[trigger] self.at(path)) matches Some(d) ==> call_ensures(callback, (&d,), ()),
    {
        let mut r: usize = 0;
        while r < self.root.len()
            invariant
                r <= self.root@.len(),
                forall|d: &IoTDevice| call_requires(callback, (d,)),
                forall|i: int| 0 <= i < r ==> walked(*#[trigger] self.root@[i], callback),
            decreases self.root@.len() - r,
        {
            Self::walk_r(&self.root[r], &callback);
            r += 1;
        }
        proof {
            lemma_walked(self.root@, callback);
        }
    }

    /// Walks the devices at and below `node`.
    pub fn walk_r(node: &Box<Node>, callback: &impl Fn(&IoTDevice) -> ())
        requires
            forall|d: &IoTDevice| call_requires(*callback, (d,)),
        ensures
            walked(**node, *callback),
        decreases **node,
    {
        let mut n: usize = 0;
        while n < node.next.len()
            invariant
                n <= node.next@.len(),
                forall|d: &IoTDevice| call_requires(*callback, (d,)),
                forall|i: int| 0 <= i < n ==> walked(*#[trigger] node.next@[i], *callback),
            decreases node.next@.len() - n,
        {
            Self::walk_r(&node.next[n], callback);
            n += 1;
        }
        if let Some(ref dev) = node.value {
            callback(dev);
        }
        proof {
            lemma_walked(node.next@, *callback);
        }
    }
}

/// `callback` has been called on the device of `node`, and on every device that is stored
/// under a path below it.
pub open spec fn walked<F: Fn(&IoTDevice) -> ()>(node: Node, callback: F) -> bool {
    &&& node.value matches Some(d) ==> call_ensures(callback, (&d,), ())
    &&& forall|path: Seq<char>|
        (#[trigger] stored(node.next@, path)) matches Some(d) ==> call_ensures(
            callback,
            (&d,),
            (),
        )
}

/// A callback that has been called at and below every node of a level has been called on
/// every device that is stored under a path from that level on.
pub proof fn lemma_walked<F: Fn(&IoTDevice) -> ()>(children: Seq<Box<Node>>, callback: F)
    requires
        forall|i: int| 0 <= i < children.len() ==> walked(*#[trigger] children[i], callback),
    ensures
        forall|path: Seq<char>|
            (#[trigger] stored(children, path)) matches Some(d) ==> call_ensures(
                callback,
                (&d,),
                (),
            ),
{
    assert forall|path: Seq<char>| (#[trigger] stored(children, path)) is Some implies call_ensures(
        callback,
        (&stored(children, path).unwrap(),),
        (),
    ) by {
        let i = place(children, path[0]).unwrap();
        assert(is_first(children, path[0], i));
        assert(walked(*children[i], callback));
        if path.len() > 1 {
            assert(stored(children[i].next@, path.drop_first()) == stored(children, path));
        }
    }
}

} // verus!
