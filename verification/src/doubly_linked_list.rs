//! A list of log entries with links in both directions.

use vstd::prelude::*;

verus! {

/// One entry, with the places of its neighbours in the store of the list.
pub struct Node {
    pub value: Option<String>,
    pub next: Option<usize>,
    pub prev: Option<usize>,
}

impl Node {
    pub fn new(value: String) -> (node: Node)
        ensures
            node.value == Some(value),
            node.next is None,
            node.prev is None,
    {
        Node { value: Some(value), next: None, prev: None }
    }
}

/// Entries are appended behind the tail and taken from the head.
pub struct DoublyLinkedList {
    nodes: Vec<Node>,
    head: Option<usize>,
    tail: Option<usize>,
    pub length: u64,
}

impl DoublyLinkedList {
    /// The place in the store at which the entries of the list start.
    pub closed spec fn first(&self) -> int {
        match self.head {
            Some(h) => h as int,
            None => self.nodes@.len() as int,
        }
    }

    /// The entries from the head to the tail.
    pub closed spec fn view(&self) -> Seq<String> {
        Seq::new(
            (self.nodes@.len() - self.first()) as nat,
            |i: int| self.nodes@[self.first() + i].value.unwrap(),
        )
    }

    /// The value of the field `length`.
    pub closed spec fn count(&self) -> nat {
        self.length as nat
    }

    /// The value of the field `length`.
    pub fn len(&self) -> (n: u64)
        ensures
            n == self.count(),
    {
        self.length
    }

    /// The entries of the list stand in the store from the head on, each linked to the
    /// next, and the tail is the last of them.
    pub closed spec fn wf(&self) -> bool {
        &&& 0 <= self.first() <= self.nodes@.len()
        &&& self.head is Some <==> self.first() < self.nodes@.len()
        &&& self.tail == if self.head is Some {
            Some((self.nodes@.len() - 1) as usize)
        } else {
            None
        }
        &&& self.length == self.nodes@.len() - self.first()
        &&& forall|i: int|
            self.first() <= i < self.nodes@.len() ==> (#[trigger] self.nodes@[i]).value is Some
                && self.nodes@[i].next == if i + 1 < self.nodes@.len() {
                Some((i + 1) as usize)
            } else {
                None
            }
    }

    /// `length` is the number of entries.
    pub proof fn lemma_count(&self)
        requires
            self.wf(),
        ensures
            self@.len() == self.count(),
    {
    }

    pub fn new_empty() -> (list: DoublyLinkedList)
        ensures
            list.wf(),
            list@ == Seq::<String>::empty(),
    {
        let list = DoublyLinkedList { nodes: Vec::new(), head: None, tail: None, length: 0 };
        assert(list@ =~= Seq::<String>::empty());
        list
    }

    /// Puts `value` behind the tail.
    pub fn append(&mut self, value: String)
        requires
            old(self).wf(),
            old(self).count() < u64::MAX,
        ensures
            final(self).wf(),
            final(self)@ == old(self)@.push(value),
    {
        let new = self.nodes.len();
        self.nodes.push(Node::new(value));
        match self.tail {
            Some(old) => {
                self.nodes[old].next = Some(new);
            },
            None => {
                self.head = Some(new);
            },
        };
        self.length += 1;
        self.tail = Some(new);
        assert(self@ =~= old(self)@.push(value));
    }

    /// Takes the entry at the head.
    pub fn pop(&mut self) -> (value: Option<String>)
        requires
            old(self).wf(),
        ensures
            final(self).wf(),
            old(self)@.len() == 0 ==> value is None && final(self)@ == old(self)@,
            old(self)@.len() > 0 ==> value == Some(old(self)@[0]) && final(self)@ == old(self)@.drop_first(),
    {
        match self.head {
            Some(head) => {
                let next = self.nodes[head].next;
                let value = self.nodes[head].value.take();
                if next.is_some() {
                    self.head = next;
                } else {
                    self.head = None;
                    self.tail = None;
                }
                self.length -= 1;
                proof {
                    assert(old(self).nodes@[head as int].value is Some);
                    assert(old(self).nodes.len() == old(self).nodes@.len());
                    assert(self.first() == old(self).first() + 1);
                    assert(self@ =~= old(self)@.drop_first());
                    assert(old(self)@[0] == old(self).nodes@[head as int].value.unwrap());
                }
                value
            },
            None => None,
        }
    }
}

} // verus!
