//! Growing arrays of numbers.

use vstd::prelude::*;

verus! {

pub const MIN_SIZE: usize = 10;

/// The largest number of values that an array takes.
pub const MAX_LENGTH: usize = 0x3fff_ffff;

/// The numbers that stand in the slots of `buf` before the first empty one.
pub open spec fn filled(buf: Seq<Option<u64>>, length: int) -> Seq<u64> {
    Seq::new(length as nat, |i: int| buf[i].unwrap())
}

/// The first `length` slots of `buf` are taken, the others empty.
pub open spec fn packed(buf: Seq<Option<u64>>, length: int) -> bool {
    &&& 0 <= length <= buf.len()
    &&& forall|i: int| 0 <= i < length ==> (#[trigger] buf[i]) is Some
    &&& forall|i: int| length <= i < buf.len() ==> (#[trigger] buf[i]) is None
}

/// A buffer of `cap` slots that starts with the slots of `buf`.
fn grown(buf: &Vec<Option<u64>>, cap: usize) -> (wider: Vec<Option<u64>>)
    requires
        buf@.len() <= cap,
    ensures
        wider@.len() == cap,
        forall|i: int| 0 <= i < buf@.len() ==> wider@[i] == buf@[i],
        forall|i: int| buf@.len() <= i < cap ==> wider@[i] is None,
{
    let mut wider: Vec<Option<u64>> = vec![None; cap];
    let mut i: usize = 0;
    while i < buf.len()
        invariant
            i <= buf@.len() <= cap,
            wider@.len() == cap,
            forall|j: int| 0 <= j < i ==> wider@[j] == buf@[j],
            forall|j: int| i <= j < cap ==> wider@[j] is None,
        decreases buf@.len() - i,
    {
        wider[i] = buf[i];
        i += 1;
    }
    wider
}

/// An array of timestamps that grows by half when it is full.
pub struct TimestampSaver {
    buf: Vec<Option<u64>>,
    cap: usize,
    pub length: usize,
}

impl TimestampSaver {
    /// The timestamps in the order in which they were appended.
    pub closed spec fn view(&self) -> Seq<u64> {
        filled(self.buf@, self.length as int)
    }

    pub closed spec fn capacity(&self) -> nat {
        self.cap as nat
    }

    /// The value of the field `length`.
    pub closed spec fn count(&self) -> nat {
        self.length as nat
    }

    /// The value of the field `length`.
    pub fn len(&self) -> (n: usize)
        ensures
            n == self.count(),
    {
        self.length
    }

    /// The first `length` slots are taken, and there are at least `MIN_SIZE` slots and no
    /// more than twice the taken ones and `MIN_SIZE`.
    pub closed spec fn wf(&self) -> bool {
        &&& packed(self.buf@, self.length as int)
        &&& self.cap == self.buf@.len()
        &&& MIN_SIZE <= self.cap <= 2 * self.length + MIN_SIZE
    }

    /// The array is well formed, and `length` is the number of its timestamps.
    pub proof fn lemma_count(&self)
        requires
            self.wf(),
        ensures
            self.view().len() == self.count(),
            self.count() <= self.capacity(),
    {
    }

    pub fn new_empty() -> (array: TimestampSaver)
        ensures
            array.wf(),
            array@ == Seq::<u64>::empty(),
            array.capacity() == MIN_SIZE,
    {
        let array = TimestampSaver { buf: vec![None; MIN_SIZE], length: 0, cap: MIN_SIZE };
        assert(array@ =~= Seq::<u64>::empty());
        array
    }

    /// Makes room in a full array for at least `min_cap` timestamps: half as much again as
    /// there is, or `min_cap` where that is more.
    fn grow(&mut self, min_cap: usize)
        requires
            old(self).wf(),
            old(self).capacity() + old(self).capacity() / 2 <= usize::MAX,
            old(self).count() == old(self).capacity(),
            min_cap <= old(self).count() + 1,
        ensures
            final(self).wf(),
            final(self)@ == old(self)@,
            final(self).count() == old(self).count(),
            final(self).capacity() == if old(self).capacity() + old(self).capacity() / 2
                >= min_cap {
                old(self).capacity() + old(self).capacity() / 2
            } else {
                min_cap as nat
            },
    {
        let old_cap = self.buf.len();
        let half = old_cap / 2;
        let mut new_cap = old_cap + half;
        if new_cap < min_cap {
            new_cap = min_cap;
        }
        self.cap = new_cap;
        self.buf = grown(&self.buf, new_cap);
        assert(self@ =~= old(self)@);
    }

    /// Puts `value` behind the others.
    pub fn append(&mut self, value: u64)
        requires
            old(self).wf(),
            old(self).count() < MAX_LENGTH,
        ensures
            final(self).wf(),
            final(self)@ == old(self)@.push(value),
            final(self).count() == old(self).count() + 1,
    {
        if self.length == self.cap {
            self.grow(self.length + 1);
        }
        self.buf[self.length] = Some(value);
        self.length += 1;
        assert(self@ =~= old(self)@.push(value));
    }

    /// The timestamp at `index`, if there is one.
    pub fn at(&mut self, index: usize) -> (value: Option<u64>)
        requires
            old(self).wf(),
        ensures
            *final(self) == *old(self),
            value == if index < old(self)@.len() {
                Some(old(self)@[index as int])
            } else {
                None
            },
    {
        if self.length > index {
            self.buf[index]
        } else {
            None
        }
    }

    /// An iterator over the slots of the array, from the first.
    pub fn into_iter(self) -> (iter: ListIterator)
        requires
            self.wf(),
        ensures
            iter.position() == 0,
            iter.slots().len() == self.capacity(),
            packed(iter.slots(), self@.len() as int),
            filled(iter.slots(), self@.len() as int) == self@,
    {
        ListIterator::new(0, self.buf)
    }
}

/// Walks over the slots of an array.
pub struct ListIterator {
    current: usize,
    data: Vec<Option<u64>>,
}

impl ListIterator {
    pub closed spec fn position(&self) -> nat {
        self.current as nat
    }

    pub closed spec fn slots(&self) -> Seq<Option<u64>> {
        self.data@
    }

    pub fn new(index: usize, buf: Vec<Option<u64>>) -> (iter: ListIterator)
        ensures
            iter.position() == index,
            iter.slots() == buf@,
    {
        ListIterator { current: index, data: buf }
    }

    /// The content of the slot in hand, and a step forward; nothing behind the last slot.
    pub fn next(&mut self) -> (item: Option<u64>)
        ensures
            final(self).slots() == old(self).slots(),
            old(self).position() < old(self).slots().len() ==> item == old(self).slots()[old(self).position() as int] && final(self).position() == old(self).position() + 1,
            old(self).position() >= old(self).slots().len() ==> item is None && final(self).position() == old(self).position(),
    {
        if self.current < self.data.len() {
            let item = self.data[self.current];
            self.current += 1;
            item
        } else {
            None
        }
    }

    /// The content of the slot in hand, and a step back; from the first slot the step goes
    /// to the last one. Nothing behind the last slot.
    pub fn next_back(&mut self) -> (item: Option<u64>)
        ensures
            final(self).slots() == old(self).slots(),
            old(self).position() < old(self).slots().len() ==> item == old(self).slots()[old(self).position() as int] && final(self).position() == if old(self).position() == 0 {
                (old(self).slots().len() - 1) as nat
            } else {
                (old(self).position() - 1) as nat
            },
            old(self).position() >= old(self).slots().len() ==> item is None && final(self).position() == old(self).position(),
    {
        if self.current < self.data.len() {
            let item = self.data[self.current];
            if self.current == 0 {
                self.current = self.data.len() - 1;
            } else {
                self.current -= 1;
            }
            item
        } else {
            None
        }
    }
}

/// An array of log offsets that grows by half when it is full.
pub struct LogSaver {
    buf: Vec<Option<u64>>,
    cap: usize,
    pub length: usize,
}

impl LogSaver {
    /// The offsets in the order in which they were appended.
    pub closed spec fn view(&self) -> Seq<u64> {
        filled(self.buf@, self.length as int)
    }

    pub closed spec fn capacity(&self) -> nat {
        self.cap as nat
    }

    /// The value of the field `length`.
    pub closed spec fn count(&self) -> nat {
        self.length as nat
    }

    /// The value of the field `length`.
    pub fn len(&self) -> (n: usize)
        ensures
            n == self.count(),
    {
        self.length
    }

    /// The first `length` slots are taken, and there are at least `MIN_SIZE` slots and no
    /// more than twice the taken ones and `MIN_SIZE`.
    pub closed spec fn wf(&self) -> bool {
        &&& packed(self.buf@, self.length as int)
        &&& self.cap == self.buf@.len()
        &&& MIN_SIZE <= self.cap <= 2 * self.length + MIN_SIZE
    }

    pub fn new_empty() -> (array: LogSaver)
        ensures
            array.wf(),
            array@ == Seq::<u64>::empty(),
            array.capacity() == MIN_SIZE,
    {
        let array = LogSaver { buf: vec![None; MIN_SIZE], length: 0, cap: MIN_SIZE };
        assert(array@ =~= Seq::<u64>::empty());
        array
    }

    /// Makes room in a full array for at least `min_cap` offsets: half as much again as
    /// there is, or `min_cap` where that is more.
    fn grow(&mut self, min_cap: usize)
        requires
            old(self).wf(),
            old(self).capacity() + old(self).capacity() / 2 <= usize::MAX,
            old(self).count() == old(self).capacity(),
            min_cap <= old(self).count() + 1,
        ensures
            final(self).wf(),
            final(self)@ == old(self)@,
            final(self).count() == old(self).count(),
            final(self).capacity() == if old(self).capacity() + old(self).capacity() / 2
                >= min_cap {
                old(self).capacity() + old(self).capacity() / 2
            } else {
                min_cap as nat
            },
    {
        let old_cap = self.buf.len();
        let half = old_cap / 2;
        let mut new_cap = old_cap + half;
        if new_cap < min_cap {
            new_cap = min_cap;
        }
        self.cap = new_cap;
        self.buf = grown(&self.buf, new_cap);
        assert(self@ =~= old(self)@);
    }

    /// Puts `value` behind the others.
    pub fn append(&mut self, value: u64)
        requires
            old(self).wf(),
            old(self).count() < MAX_LENGTH,
        ensures
            final(self).wf(),
            final(self)@ == old(self)@.push(value),
            final(self).count() == old(self).count() + 1,
    {
        if self.length == self.cap {
            self.grow(self.length + 1);
        }
        self.buf[self.length] = Some(value);
        self.length += 1;
        assert(self@ =~= old(self)@.push(value));
    }

    /// The offset at `index`, if there is one.
    pub fn at(&mut self, index: usize) -> (value: Option<u64>)
        requires
            old(self).wf(),
        ensures
            *final(self) == *old(self),
            value == if index < old(self)@.len() {
                Some(old(self)@[index as int])
            } else {
                None
            },
    {
        if self.length > index {
            self.buf[index]
        } else {
            None
        }
    }
}

} // verus!
