//! A skip list of commands by their offsets in a transaction log. Every entry takes part
//! in the lowest level, and by the flip of a coin in the levels above it.

use vstd::prelude::*;

verus! {

/// One flip of a coin, made by `rand::random::<bool>()`. Nothing is claimed of the
/// outcome.
#[verifier::external_body]
fn coin() -> (heads: bool) {
    rand::random::<bool>()
}

/// The level after one more flip of the coin: one higher for a head below the highest
/// level; nothing where the flips end, with a tail or at the highest level.
pub fn raised(level: usize, heads: bool, max_level: usize) -> (higher: Option<usize>)
    ensures
        higher == if heads && level < max_level {
            Some((level + 1) as usize)
        } else {
            None
        },
{
    if heads && level < max_level {
        Some(level + 1)
    } else {
        None
    }
}

pub struct Node {
    /// For every level in which the entry takes part, the place of the next entry of
    /// that level.
    pub next: Vec<Option<usize>>,
    pub offset: u64,
    pub command: String,
}

impl Node {
    pub fn new(links: Vec<Option<usize>>, offset: u64, command: String) -> (node: Node)
        ensures
            node.next == links,
            node.offset == offset,
            node.command == command,
    {
        Node { next: links, offset: offset, command: command }
    }
}

impl Clone for Node {
    fn clone(&self) -> (copy: Node)
        ensures
            copy.next@ == self.next@,
            copy.offset == self.offset,
            copy.command == self.command,
    {
        let mut links: Vec<Option<usize>> = Vec::new();
        let mut i: usize = 0;
        while i < self.next.len()
            invariant
                i <= self.next@.len(),
                links@ == self.next@.subrange(0, i as int),
            decreases self.next@.len() - i,
        {
            links.push(self.next[i]);
            assert(links@ =~= self.next@.subrange(0, i + 1));
            i += 1;
        }
        assert(links@ =~= self.next@);
        Node { next: links, offset: self.offset, command: self.command.clone() }
    }
}

/// A link of a level leads to a later entry that takes part in that level.
pub open spec fn linked_forward(nodes: Seq<Node>) -> bool {
    forall|k: int, i: int|
        0 <= k < nodes.len() && 0 <= i < nodes[k].next@.len() ==> (
        #[trigger] nodes[k].next@[i] matches Some(j) ==> k < j < nodes.len() && nodes[j as int].next@.len()
            > i)
}

/// The entries of `nodes` hang together: in the lowest level every entry is linked to the
/// one behind it, and a link of a higher level leads to a later entry of that level.
pub open spec fn chained(nodes: Seq<Node>, max_level: int) -> bool {
    &&& forall|k: int|
        0 <= k < nodes.len() ==> 1 <= (#[trigger] nodes[k]).next@.len() <= max_level + 1
    &&& forall|k: int|
        0 <= k < nodes.len() ==> (#[trigger] nodes[k]).next@[0] == if k + 1 < nodes.len() {
            Some((k + 1) as usize)
        } else {
            None
        }
    &&& linked_forward(nodes)
    &&& nodes.len() > 0 ==> nodes[0].next@.len() == max_level + 1
}

/// The offsets never fall along `nodes`.
pub open spec fn offsets_ascend(nodes: Seq<Node>) -> bool {
    forall|a: int, b: int| 0 <= a <= b < nodes.len() ==> nodes[a].offset <= nodes[b].offset
}

/// Some entry of `nodes` has the offset `offset`.
pub open spec fn holds_offset(nodes: Seq<Node>, offset: u64) -> bool {
    exists|k: int| 0 <= k < nodes.len() && (#[trigger] nodes[k]).offset == offset
}

pub struct BestTransactionLog {
    nodes: Vec<Node>,
    head: Option<usize>,
    tails: Vec<Option<usize>>,
    max_level: usize,
    pub length: u64,
}

impl BestTransactionLog {
    /// The entries in the order in which they were appended.
    pub closed spec fn entries(&self) -> Seq<Node> {
        self.nodes@
    }

    /// The offsets and commands in the order in which they were appended.
    pub open spec fn view(&self) -> Seq<(u64, String)> {
        Seq::new(self.entries().len(), |k: int| (self.entries()[k].offset, self.entries()[k].command))
    }

    /// The highest level.
    pub closed spec fn top(&self) -> nat {
        self.max_level as nat
    }

    /// The value of the field `length`.
    pub closed spec fn count(&self) -> nat {
        self.length as nat
    }

    /// The value of the field `length`.
    pub fn len(&self) -> (n: u64)
        ensures
            n == self.count(),
    {
        self.length
    }

    pub closed spec fn wf(&self) -> bool {
        &&& chained(self.nodes@, self.max_level as int)
        &&& self.max_level < usize::MAX
        &&& self.tails@.len() == self.max_level + 1
        &&& forall|i: int|
            0 <= i <= self.max_level ==> (#[trigger] self.tails@[i] matches Some(t) ==> t
                < self.nodes@.len() && self.nodes@[t as int].next@.len() > i
                && self.nodes@[t as int].next@[i] is None)
        &&& self.nodes@.len() > 0 ==> self.tails@[0] == Some((self.nodes@.len() - 1) as usize)
        &&& self.head == if self.nodes@.len() > 0 {
            Some(0usize)
        } else {
            None
        }
        &&& self.length == self.nodes@.len()
    }

    /// The entries hang together: every entry is linked to the one behind it in the lowest
    /// level, a link of a higher level leads to a later entry of that level, and the first
    /// entry takes part in every level.
    pub proof fn lemma_chained(&self)
        requires
            self.wf(),
        ensures
            chained(self.entries(), self.top() as int),
            self.entries().len() > 0 ==> self.entries()[0].next@.len() == self.top() + 1,
    {
    }

    /// `length` counts the entries.
    pub proof fn lemma_count(&self)
        requires
            self.wf(),
        ensures
            self@.len() == self.count(),
            self.entries().len() == self.count(),
    {
    }

    /// An empty list of `max_level + 1` levels.
    pub fn new_empty(max_level: usize) -> (list: BestTransactionLog)
        requires
            max_level < usize::MAX,
        ensures
            list.wf(),
            list.top() == max_level,
            list@ == Seq::<(u64, String)>::empty(),
    {
        let list = BestTransactionLog {
            max_level: max_level,
            head: None,
            tails: vec![None; max_level + 1],
            length: 0,
            nodes: Vec::new(),
        };
        assert(list@ =~= Seq::<(u64, String)>::empty());
        list
    }

    /// The highest level.
    pub fn max_level(&self) -> (level: usize)
        ensures
            level == self.top(),
    {
        self.max_level
    }

    /// A level by flips of a coin: one higher for every head in a row, up to the highest.
    pub fn get_level(&self) -> (level: usize)
        ensures
            level <= self.top(),
    {
        let mut n: usize = 0;
        // bool = p(true) = 0.5
        loop
            invariant
                n <= self.max_level,
            decreases self.max_level - n,
        {
            match raised(n, coin(), self.max_level) {
                Some(higher) => {
                    n = higher;
                },
                None => {
                    break ;
                },
            }
        }
        n
    }

    /// Puts a command behind the others. The first entry takes part in all levels, a
    /// later one in as many as the coin gives it.
    pub fn append(&mut self, offset: u64, value: String)
        requires
            old(self).wf(),
            old(self).count() < u64::MAX,
        ensures
            final(self).wf(),
            final(self).top() == old(self).top(),
            final(self).count() == old(self).count() + 1,
            final(self)@ == old(self)@.push((offset, value)),
            final(self).entries().len() == old(self).entries().len() + 1,
            final(self).entries()[0].next@.len() == final(self).top() + 1,
            chained(final(self).entries(), final(self).top() as int),
    {
        let level = 1 + if self.head.is_none() {
            self.max_level  // use the maximum level for the first node
        } else {
            self.get_level()  // determine the level by coin flips
        };
        self.append_with_level(offset, value, level);
    }

    /// Puts a command behind the others, as an entry of the lowest `level` levels.
    pub fn append_with_level(&mut self, offset: u64, value: String, level: usize)
        requires
            old(self).wf(),
            old(self).count() < u64::MAX,
            1 <= level <= old(self).top() + 1,
            old(self).entries().len() == 0 ==> level == old(self).top() + 1,
        ensures
            final(self).wf(),
            final(self).top() == old(self).top(),
            final(self).count() == old(self).count() + 1,
            final(self)@ == old(self)@.push((offset, value)),
            final(self).entries().len() == old(self).entries().len() + 1,
            final(self).entries().last().next@.len() == level,
            final(self).entries()[0].next@.len() == final(self).top() + 1,
            chained(final(self).entries(), final(self).top() as int),
    {
        let new = self.nodes.len();
        self.nodes.push(Node::new(vec![None; level], offset, value));
        let ghost pushed = self.nodes@;

        // update the tails for each level
        let mut i: usize = 0;
        while i < level
            invariant
                i <= level <= self.max_level + 1,
                self.max_level < usize::MAX,
                self.max_level == old(self).max_level,
                self.head == old(self).head,
                self.length == old(self).length,
                new == old(self).nodes@.len(),
                old(self).wf(),
                self.nodes@.len() == new + 1,
                self.tails@.len() == self.max_level + 1,
                self.nodes@[new as int] == pushed[new as int],
                pushed[new as int].next@.len() == level,
                pushed[new as int].offset == offset,
                pushed[new as int].command == value,
                forall|l: int| 0 <= l < level ==> pushed[new as int].next@[l] is None,
                forall|k: int|
                    0 <= k < new ==> (#[trigger] self.nodes@[k]).offset == old(self).nodes@[k].offset
                        && self.nodes@[k].command == old(self).nodes@[k].command
                        && self.nodes@[k].next@.len() == old(self).nodes@[k].next@.len(),
                forall|k: int, l: int|
                    0 <= k < new && 0 <= l < self.nodes@[k].next@.len() ==> #[trigger] self.nodes@[k].next@[l]
                        == if l < i && old(self).tails@[l] == Some(k as usize) {
                        Some(new)
                    } else {
                        old(self).nodes@[k].next@[l]
                    },
                forall|l: int| 0 <= l < i ==> #[trigger] self.tails@[l] == Some(new),
                forall|l: int|
                    i <= l <= self.max_level ==> #[trigger] self.tails@[l] == old(self).tails@[l],
            decreases level - i,
        {
            if let Some(old) = self.tails[i] {
                self.nodes[old].next[i] = Some(new);
            }
            self.tails[i] = Some(new);
            i += 1;
        }

        // this is the first node in the list
        if self.head.is_none() {
            self.head = Some(new);
        }
        self.length += 1;
        proof {
            assert(self@ =~= old(self)@.push((offset, value)));
            self.lemma_appended(old(self), level as int);
        }
    }

    /// What holds of a list after a new last entry was linked into the lowest `level` levels.
    #[verifier::rlimit(50)]
    #[verifier::spinoff_prover]
    proof fn lemma_appended(&self, before: &BestTransactionLog, level: int)
        requires
            before.wf(),
            1 <= level <= before.max_level + 1,
            before.nodes@.len() == 0 ==> level == before.max_level + 1,
            self.max_level == before.max_level,
            self.length == before.length + 1,
            self.nodes@.len() == before.nodes@.len() + 1,
            self.tails@.len() == self.max_level + 1,
            self.head == if before.head is None {
                Some(before.nodes.len())
            } else {
                before.head
            },
            self.nodes@.last().next@.len() == level,
            forall|l: int| 0 <= l < level ==> self.nodes@.last().next@[l] is None,
            forall|k: int|
                0 <= k < before.nodes@.len() ==> (#[trigger] self.nodes@[k]).next@.len()
                    == before.nodes@[k].next@.len(),
            forall|k: int, l: int|
                0 <= k < before.nodes@.len() && 0 <= l < self.nodes@[k].next@.len()
                    ==> #[trigger] self.nodes@[k].next@[l] == if l < level && before.tails@[l]
                    == Some(k as usize) {
                    Some(before.nodes.len())
                } else {
                    before.nodes@[k].next@[l]
                },
            forall|l: int| 0 <= l < level ==> #[trigger] self.tails@[l] == Some(before.nodes.len()),
            forall|l: int|
                level <= l <= self.max_level ==> #[trigger] self.tails@[l] == before.tails@[l],
        ensures
            self.wf(),
    {
        let new = before.nodes@.len() as int;
        assert(self.nodes@.last() == self.nodes@[new]);
        assert forall|k: int| 0 <= k < self.nodes@.len() implies (#[trigger] self.nodes@[k]).next@[0]
            == if k + 1 < self.nodes@.len() {
            Some((k + 1) as usize)
        } else {
            None
        } by {
            if k < new {
                assert(before.nodes@[k].next@.len() >= 1);
                assert(self.nodes@[k].next@[0] == if before.tails@[0] == Some(k as usize) {
                    Some(before.nodes.len())
                } else {
                    before.nodes@[k].next@[0]
                });
            }
        }
        assert forall|k: int, l: int|
            0 <= k < self.nodes@.len() && 0 <= l < self.nodes@[k].next@.len() implies (
        #[trigger] self.nodes@[k].next@[l] matches Some(j) ==> k < j < self.nodes@.len()
            && self.nodes@[j as int].next@.len() > l) by {
            if k < new {
                if l < level && before.tails@[l] == Some(k as usize) {
                } else {
                    assert(self.nodes@[k].next@[l] == before.nodes@[k].next@[l]);
                    if let Some(j) = before.nodes@[k].next@[l] {
                        assert(self.nodes@[j as int].next@.len() == before.nodes@[j as int].next@.len());
                    }
                }
            }
        }
        assert forall|l: int| 0 <= l <= self.max_level implies (
        #[trigger] self.tails@[l] matches Some(t) ==> t < self.nodes@.len()
            && self.nodes@[t as int].next@.len() > l && self.nodes@[t as int].next@[l] is None) by {
            if l >= level {
                if let Some(t) = before.tails@[l] {
                    assert(self.nodes@[t as int].next@[l] == before.nodes@[t as int].next@[l]);
                }
            }
        }
        assert forall|k: int| 0 <= k < self.nodes@.len() implies 1 <= (#[trigger] self.nodes@[k]).next@.len()
            <= self.max_level + 1 by {
            if k < new {
                assert(1 <= before.nodes@[k].next@.len() <= before.max_level + 1);
            }
        }
    }

    /// The command with the offset `offset`. In a list whose offsets ascend, nothing is
    /// returned only where no entry has that offset.
    pub fn find(&self, offset: u64) -> (command: Option<String>)
        requires
            self.wf(),
        ensures
            command matches Some(c) ==> exists|k: int|
                0 <= k < self.entries().len() && (#[trigger] self.entries()[k]).offset == offset
                    && self.entries()[k].command == c,
            command is None && offsets_ascend(self.entries()) ==> !holds_offset(
                self.entries(),
                offset,
            ),
    {
        match self.head {
            Some(head) => {
                let mut start_level = self.max_level;
                let node = head;
                let mut result = None;
                loop
                    invariant
                        self.wf(),
                        node == 0,
                        self.nodes@.len() > 0,
                        start_level <= self.max_level,
                    decreases start_level,
                {
                    if self.nodes[node].next[start_level].is_some() || start_level == 0 {
                        break ;
                    }
                    start_level -= 1;
                }
                let mut n = node;
                let mut level = start_level + 1;
                while level > 0
                    invariant_except_break
                        result is None,
                        level == 0 ==> self.nodes@[n as int].offset != offset && (n + 1
                            < self.nodes@.len() ==> self.nodes@[n + 1].offset > offset),
                    invariant
                        self.wf(),
                        n < self.nodes@.len(),
                        level <= self.max_level + 1,
                        level <= self.nodes@[n as int].next@.len(),
                        n > 0 ==> self.nodes@[n as int].offset <= offset,
                    ensures
                        n < self.nodes@.len(),
                        result matches Some(c) ==> self.nodes@[n as int].offset == offset
                            && self.nodes@[n as int].command == c,
                        result is None ==> self.nodes@[n as int].offset != offset && (n > 0
                            ==> self.nodes@[n as int].offset <= offset) && (n + 1
                            < self.nodes@.len() ==> self.nodes@[n + 1].offset > offset),
                    decreases level,
                {
                    level -= 1;
                    loop
                        invariant
                            self.wf(),
                            n < self.nodes@.len(),
                            level < self.nodes@[n as int].next@.len(),
                            n > 0 ==> self.nodes@[n as int].offset <= offset,
                        ensures
                            n < self.nodes@.len(),
                            level < self.nodes@[n as int].next@.len(),
                            n > 0 ==> self.nodes@[n as int].offset <= offset,
                            self.nodes@[n as int].next@[level as int] matches Some(j)
                                ==> self.nodes@[j as int].offset > offset,
                        decreases self.nodes@.len() - n,
                    {
                        match self.nodes[n].next[level] {
                            Some(next) => {
                                if self.nodes[next].offset <= offset {
                                    n = next;
                                } else {
                                    break ;
                                }
                            },
                            _ => {
                                break ;
                            },
                        };
                    }
                    if self.nodes[n].offset == offset {
                        result = Some(self.nodes[n].command.clone());
                        break ;
                    }
                }
                proof {
                    if result is Some {
                        assert(self.entries()[n as int].offset == offset);
                    }
                    if result is None && offsets_ascend(self.nodes@) {
                        assert forall|k: int| 0 <= k < self.nodes@.len() implies (
                        #[trigger] self.nodes@[k]).offset != offset by {
                            if k <= n {
                                assert(self.nodes@[k].offset <= self.nodes@[n as int].offset);
                                if n == 0 {
                                } else {
                                }
                            } else {
                                assert(self.nodes@[n + 1].offset <= self.nodes@[k].offset);
                            }
                        }
                    }
                }
                result
            },
            None => None,
        }
    }

    /// An iterator over the entries of level `level`, from the head.
    pub fn iter_level(&self, level: usize) -> (iter: ListIterator)
        requires
            self.wf(),
            level <= self.top(),
        ensures
            iter.wf(),
            iter.rest().len() == self.entries().len(),
    {
        let mut nodes: Vec<Node> = Vec::new();
        let mut k: usize = 0;
        while k < self.nodes.len()
            invariant
                k <= self.nodes@.len(),
                nodes@.len() == k,
                forall|j: int|
                    0 <= j < k ==> (#[trigger] nodes@[j]).next@ == self.nodes@[j].next@ && nodes@[j].offset
                        == self.nodes@[j].offset && nodes@[j].command == self.nodes@[j].command,
            decreases self.nodes@.len() - k,
        {
            nodes.push(self.nodes[k].clone());
            k += 1;
        }
        proof {
            assert forall|a: int, i: int|
                0 <= a < nodes@.len() && 0 <= i < nodes@[a].next@.len() implies (
            #[trigger] nodes@[a].next@[i] matches Some(j) ==> a < j < nodes@.len() && nodes@[j as int].next@.len()
                > i) by {
                assert(nodes@[a].next@[i] == self.nodes@[a].next@[i]);
                if let Some(j) = self.nodes@[a].next@[i] {
                    assert(nodes@[j as int].next@ == self.nodes@[j as int].next@);
                }
            }
        }
        ListIterator::new(nodes, self.head, level)
    }

    /// An iterator over all entries, from the head.
    pub fn into_iter(self) -> (iter: ListIterator)
        requires
            self.wf(),
        ensures
            iter.wf(),
            iter.rest() == self.entries(),
    {
        ListIterator::new(self.nodes, self.head, 0)
    }
}

/// Walks along one level of a list.
pub struct ListIterator {
    nodes: Vec<Node>,
    current: Option<usize>,
    level: usize,
}

impl ListIterator {
    /// The entries among which the iterator walks.
    pub closed spec fn rest(&self) -> Seq<Node> {
        self.nodes@
    }

    /// The place of the entry in hand.
    pub closed spec fn position(&self) -> Option<usize> {
        self.current
    }

    /// The links of the iterator's level lead to entries, and onwards.
    pub closed spec fn wf(&self) -> bool {
        &&& self.current matches Some(c) ==> c < self.nodes@.len() && self.level
            < self.nodes@[c as int].next@.len()
        &&& linked_forward(self.nodes@)
    }

    pub fn new(nodes: Vec<Node>, start_at: Option<usize>, level: usize) -> (iter: ListIterator)
        requires
            linked_forward(nodes@),
            start_at matches Some(c) ==> c < nodes@.len() && level < nodes@[c as int].next@.len(),
        ensures
            iter.wf(),
            iter.rest() == nodes@,
            iter.position() == start_at,
    {
        ListIterator { nodes: nodes, current: start_at, level: level }
    }

    /// Offset and command of the entry in hand, and a step along the level; nothing behind
    /// the last entry.
    pub fn next(&mut self) -> (item: Option<(u64, String)>)
        requires
            old(self).wf(),
        ensures
            final(self).wf(),
            final(self).rest() == old(self).rest(),
            old(self).position() is None ==> item is None && final(self).position() is None,
            old(self).position() matches Some(c) ==> item == Some(
                (old(self).rest()[c as int].offset, old(self).rest()[c as int].command),
            ),
    {
        let mut result = None;
        self.current = match self.current {
            Some(current) => {
                let node = &self.nodes[current];
                result = Some((node.offset, node.command.clone()));
                node.next[self.level]
            },
            _ => None,
        };
        result
    }
}

} // verus!
