//! A binary heap of message notifications: the device with the most messages comes first.

use vstd::prelude::*;
use crate::devices::MessageNotification;

verus! {

/// No notification counts more messages than the one above it in the heap.
pub open spec fn heap_ordered(s: Seq<MessageNotification>) -> bool {
    forall|i: int| 1 <= i < s.len() ==> s[(i - 1) / 2].no_messages >= (#[trigger] s[i]).no_messages
}

/// No notification but the one at `hole` counts more messages than the one above it, and
/// those below `hole` do not count more than the one above `hole`.
pub open spec fn heap_ordered_but(s: Seq<MessageNotification>, hole: int) -> bool {
    &&& forall|i: int|
        1 <= i < s.len() && i != hole ==> s[(i - 1) / 2].no_messages >= (#[trigger] s[i]).no_messages
    &&& forall|i: int|
        1 <= i < s.len() && (i - 1) / 2 == hole && hole >= 1 ==> s[(hole - 1) / 2].no_messages >= (
        #[trigger] s[i]).no_messages
}

/// The first notification of an ordered heap counts the most messages.
pub proof fn lemma_top_is_most(s: Seq<MessageNotification>, i: int)
    requires
        heap_ordered(s),
        0 <= i < s.len(),
    ensures
        s[0].no_messages >= s[i].no_messages,
    decreases i,
{
    if i > 0 {
        lemma_top_is_most(s, (i - 1) / 2);
    }
}

/// `s` with the notifications at `a` and `b` exchanged.
pub open spec fn exchanged(s: Seq<MessageNotification>, a: int, b: int) -> Seq<
    MessageNotification,
> {
    s.update(a, s[b]).update(b, s[a])
}

/// The heap after the notification at place `i`, counted from 1, has gone up: it changes
/// places with the one above it, at place `i / 2`, for as long as it counts at least as
/// many messages.
pub open spec fn risen(s: Seq<MessageNotification>, i: int) -> Seq<MessageNotification>
    decreases i,
{
    if i < 2 || i > s.len() {
        s
    } else if s[i - 1].no_messages >= s[i / 2 - 1].no_messages {
        risen(exchanged(s, i - 1, i / 2 - 1), i / 2)
    } else {
        s
    }
}

/// Of the two places below place `i`, the one whose notification goes up if one does: the
/// left one where it counts at least as many messages as the right one.
pub open spec fn larger_below(s: Seq<MessageNotification>, i: int) -> int {
    if s[2 * i - 1].no_messages >= s[2 * i].no_messages {
        2 * i
    } else {
        2 * i + 1
    }
}

/// The heap after the notification at place `i`, counted from 1, has gone down: for as long
/// as it has two notifications below it and the larger of them counts at least as many
/// messages as it does, it changes places with that one.
pub open spec fn sunk(s: Seq<MessageNotification>, i: int) -> Seq<MessageNotification>
    decreases s.len() - i,
{
    if i < 1 || 2 * i >= s.len() {
        s
    } else if s[larger_below(s, i) - 1].no_messages >= s[i - 1].no_messages {
        sunk(exchanged(s, i - 1, larger_below(s, i) - 1), larger_below(s, i))
    } else {
        s
    }
}

pub struct MessageChecker {
    pub length: usize,
    heap: Vec<MessageNotification>,
}

impl MessageChecker {
    /// The notifications as they lie in the heap: the two below place `i` lie at `2i + 1` and
    /// `2i + 2`.
    pub closed spec fn view(&self) -> Seq<MessageNotification> {
        self.heap@
    }

    /// The value of the field `length`.
    pub closed spec fn count(&self) -> nat {
        self.length as nat
    }

    /// The value of the field `length`.
    pub fn len(&self) -> (n: usize)
        ensures
            n == self.count(),
    {
        self.length
    }

    /// `length` is the number of notifications.
    pub closed spec fn wf(&self) -> bool {
        self.length == self.heap@.len()
    }

    pub proof fn lemma_count(&self)
        requires
            self.wf(),
        ensures
            self@.len() == self.count(),
    {
    }

    pub fn new_empty() -> (checker: MessageChecker)
        ensures
            checker.wf(),
            checker.count() == 0,
            checker@ == Seq::<MessageNotification>::empty(),
    {
        MessageChecker { length: 0, heap: Vec::new() }
    }

    /// Exchanges the notifications at the places `pos1` and `pos2`, counted from 1.
    pub fn swap(&mut self, pos1: usize, pos2: usize)
        requires
            1 <= pos1 <= old(self)@.len(),
            1 <= pos2 <= old(self)@.len(),
        ensures
            final(self)@ == old(self)@.update(pos1 - 1, old(self)@[pos2 - 1]).update(
                pos2 - 1,
                old(self)@[pos1 - 1],
            ),
            final(self).count() == old(self).count(),
            final(self)@.to_multiset() == old(self)@.to_multiset(),
    {
        let m1 = self.heap[pos1 - 1].clone();
        let m2 = self.heap[pos2 - 1].clone();
        self.heap[pos1 - 1] = m2;
        self.heap[pos2 - 1] = m1;
        proof {
            let before = old(self).heap@;
            let after = before.update(pos1 - 1, before[pos2 - 1]).update(pos2 - 1, before[pos1 - 1]);
            assert(self.heap@ =~= after);
            assert(after.to_multiset() =~= before.to_multiset()) by {
                before.to_multiset_ensures();
                vstd::seq_lib::to_multiset_update(before, pos1 - 1, before[pos2 - 1]);
                vstd::seq_lib::to_multiset_update(
                    before.update(pos1 - 1, before[pos2 - 1]),
                    pos2 - 1,
                    before[pos1 - 1],
                );
            }
        }
    }

    /// Whether the notification at place `pos1` counts at least as many messages as the one
    /// at `pos2`; places are counted from 1.
    pub fn has_more_messages(&self, pos1: usize, pos2: usize) -> (more: bool)
        requires
            1 <= pos1 <= self@.len(),
            1 <= pos2 <= self@.len(),
        ensures
            more == (self@[pos1 - 1].no_messages >= self@[pos2 - 1].no_messages),
    {
        let a = &self.heap[pos1 - 1];
        let b = &self.heap[pos2 - 1];
        a.no_messages >= b.no_messages
    }

    /// Puts `notification` into the heap: at the end, and then up for as long as it counts
    /// at least as many messages as the one above it.
    pub fn add(&mut self, notification: MessageNotification)
        requires
            old(self).wf(),
        ensures
            final(self).wf(),
            final(self).count() == old(self).count() + 1,
            final(self)@ == risen(old(self)@.push(notification), old(self)@.len() as int + 1),
            final(self)@.to_multiset() == old(self)@.to_multiset().insert(notification),
            heap_ordered(old(self)@) ==> heap_ordered(final(self)@),
    {
        self.heap.push(notification);
        self.length = self.heap.len();
        proof {
            vstd::seq_lib::to_multiset_build(old(self).heap@, notification);
        }
        let ghost start = self.heap@;
        if self.length > 1 {
            let mut i = self.length;
            while i / 2 > 0 && self.has_more_messages(i, i / 2)
                invariant
                    1 <= i <= self.heap@.len(),
                    self.length == self.heap@.len(),
                    self.heap@.len() == old(self).heap@.len() + 1,
                    self.heap@.to_multiset() == old(self)@.to_multiset().insert(notification),
                    heap_ordered(old(self)@) ==> heap_ordered_but(self.heap@, i - 1),
                    risen(start, start.len() as int) == risen(self.heap@, i as int),
                decreases i,
            {
                let ghost before = self.heap@;
                self.swap(i, i / 2);
                proof {
                    assert(self.heap@ == exchanged(before, i - 1, i / 2 - 1));
                    if heap_ordered(old(self)@) {
                        let hole = i - 1;
                        let up = i / 2 - 1;
                        assert(up == (hole - 1) / 2);
                        assert forall|k: int| 1 <= k < self.heap@.len() && k != up implies self.heap@[(
                        k - 1) / 2].no_messages >= (#[trigger] self.heap@[k]).no_messages by {
                            if k == hole {
                            } else if (k - 1) / 2 == hole {
                                assert(before[(hole - 1) / 2].no_messages >= before[k].no_messages);
                            } else if (k - 1) / 2 == up {
                                assert(before[up].no_messages >= before[k].no_messages);
                            } else {
                                assert(before[(k - 1) / 2].no_messages >= before[k].no_messages);
                            }
                        }
                        assert forall|k: int|
                            1 <= k < self.heap@.len() && (k - 1) / 2 == up && up
                                >= 1 implies self.heap@[(up - 1) / 2].no_messages >= (
                        #[trigger] self.heap@[k]).no_messages by {
                            assert(before[(up - 1) / 2].no_messages >= before[up].no_messages);
                            if k != hole {
                                assert(before[up].no_messages >= before[k].no_messages);
                            }
                        }
                    }
                }
                i /= 2;
            }
        }
    }

    /// Takes the first notification out of the heap. The last one takes its place and goes
    /// down for as long as it has two notifications below it and the larger of them counts at
    /// least as many messages as it does.
    pub fn pop(&mut self) -> (first: Option<MessageNotification>)
        requires
            old(self).wf(),
            old(self).count() <= usize::MAX / 2,
        ensures
            final(self).wf(),
            final(self).count() == if old(self).count() == 0 {
                0
            } else {
                (old(self).count() - 1) as nat
            },
            old(self)@.len() == 0 ==> first is None && final(self)@ == old(self)@,
            old(self)@.len() > 0 ==> first == Some(old(self)@[0]) && final(self)@.to_multiset()
                == old(self)@.to_multiset().remove(old(self)@[0]),
            old(self)@.len() > 0 ==> final(self)@ == sunk(
                old(self)@.update(0, old(self)@.last()).drop_last(),
                1,
            ),
    {
        if self.length > 0 {
            let elem = self.heap.swap_remove(0);
            self.length = self.heap.len();
            proof {
                let before = old(self).heap@;
                let moved = before.update(0, before.last());
                assert(self.heap@ =~= moved.drop_last());
                broadcast use vstd::multiset::group_multiset_axioms;
                vstd::seq_lib::to_multiset_update(before, 0, before.last());
                assert(moved =~= moved.drop_last().push(before.last()));
                vstd::seq_lib::to_multiset_build(moved.drop_last(), before.last());
                let rest = moved.drop_last().to_multiset();
                let want = before.to_multiset().remove(before[0]);
                assert(rest.insert(before.last()) == want.insert(before.last()));
                assert forall|m: MessageNotification| rest.count(m) == want.count(m) by {
                    assert(rest.insert(before.last()).count(m) == want.insert(before.last()).count(
                        m,
                    ));
                }
                assert(rest =~= want);
            }
            let ghost start = self.heap@;
            let mut i: usize = 1;
            while i * 2 < self.length
                invariant
                    sunk(start, 1) == sunk(self.heap@, i as int),
                    1 <= i <= self.length + 1,
                    self.length == self.heap@.len(),
                    self.heap@.len() == old(self).heap@.len() - 1,
                    self.length < usize::MAX / 2,
                    old(self)@.len() > 0,
                    self.heap@.to_multiset() == old(self)@.to_multiset().remove(old(self)@[0]),
                ensures
                    self.heap@ == sunk(start, 1),
                decreases self.length + 1 - i,
            {
                let ghost before = self.heap@;
                let ghost down = larger_below(before, i as int);
                let children = (i * 2, i * 2 + 1);
                i = if self.has_more_messages(children.0, children.1) {
                    if self.has_more_messages(children.0, i) {
                        self.swap(i, children.0);
                        children.0
                    } else {
                        break ;
                    }
                } else {
                    if self.has_more_messages(children.1, i) {
                        self.swap(i, children.1);
                        children.1
                    } else {
                        break ;
                    }
                }
            }
            Some(elem)
        } else {
            None
        }
    }
}

} // verus!
