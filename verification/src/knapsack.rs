//! Filling a knapsack, in two ways.

use vstd::prelude::*;

verus! {

#[derive(Debug, PartialEq, Eq, Structural)]
pub struct Item {
    pub weight: u32,
    pub value: u32,
}

pub struct Knapsack {
    capacity: usize,
}

/// The larger of two numbers.
pub open spec fn larger(a: int, b: int) -> int {
    if a >= b {
        a
    } else {
        b
    }
}

/// What the search by trial finds for the items `remaining`, with `weight` in the knapsack
/// already: the mark `i64::MIN` where that is more than the knapsack takes, nothing where the
/// knapsack is full or no item is left, and else the better of two trials, one with the first
/// item and one without it.
pub open spec fn tried(remaining: Seq<&Item>, capacity: int, weight: int) -> int
    decreases remaining.len(),
{
    if weight > capacity {
        i64::MIN as int
    } else if remaining.len() > 0 && weight < capacity {
        larger(
            remaining[0].value + tried(
                remaining.drop_first(),
                capacity,
                weight + remaining[0].weight,
            ),
            tried(remaining.drop_first(), capacity, weight),
        )
    } else {
        0
    }
}

/// A trial ends between the mark and the value of all items.
pub proof fn lemma_tried_bounds(remaining: Seq<&Item>, capacity: int, weight: int)
    ensures
        i64::MIN <= tried(remaining, capacity, weight) <= remaining.len() * 0x1_0000_0000,
    decreases remaining.len(),
{
    if weight <= capacity && remaining.len() > 0 && weight < capacity {
        let rest = remaining.drop_first();
        lemma_tried_bounds(rest, capacity, weight + remaining[0].weight);
        lemma_tried_bounds(rest, capacity, weight);
        assert(rest.len() * 0x1_0000_0000 + 0x1_0000_0000 == remaining.len() * 0x1_0000_0000)
            by (nonlinear_arith)
            requires
                rest.len() + 1 == remaining.len(),
        ;
    } else {
        assert(0 <= remaining.len() * 0x1_0000_0000) by (nonlinear_arith);
    }
}

/// What the table holds for the first `count` of `items` and a knapsack that takes `room`:
/// nothing for no item or no room, and else the better of the value without the last of
/// these items, and its value with what the table holds for the others in the room that it
/// leaves.
pub open spec fn tabled(items: Seq<&Item>, count: int, room: int) -> int
    decreases count,
{
    if count <= 0 || room <= 0 {
        0
    } else if items[count - 1].weight <= room {
        larger(
            items[count - 1].value + tabled(items, count - 1, room - items[count - 1].weight),
            tabled(items, count - 1, room),
        )
    } else {
        tabled(items, count - 1, room)
    }
}

/// An entry of the table lies between nothing and the value of all items so far.
pub proof fn lemma_tabled_bounds(items: Seq<&Item>, count: int, room: int)
    requires
        0 <= count <= items.len(),
    ensures
        0 <= tabled(items, count, room) <= count * 0x1_0000_0000,
    decreases count,
{
    if count > 0 && room > 0 {
        lemma_tabled_bounds(items, count - 1, room);
        if items[count - 1].weight <= room {
            lemma_tabled_bounds(items, count - 1, room - items[count - 1].weight);
        }
        assert((count - 1) * 0x1_0000_0000 + 0x1_0000_0000 == count * 0x1_0000_0000)
            by (nonlinear_arith);
    } else {
        assert(0 <= count * 0x1_0000_0000) by (nonlinear_arith)
            requires
                0 <= count,
        ;
    }
}

pub trait DynamicProgramming {
    /// The weight that the knapsack takes.
    spec fn room(&self) -> nat;

    /// The value that the table gives for all `items`.
    fn fill(&self, items: Vec<&Item>) -> (value: u64)
        requires
            self.room() < usize::MAX,
            items@.len() < 0xffff_ffff,
        ensures
            value == tabled(items@, items@.len() as int, self.room() as int),
    ;
}

pub trait Backtracking {
    /// The weight that the knapsack takes.
    spec fn limit(&self) -> nat;

    /// The value that the search by trial finds for `items`.
    fn fill(&self, items: Vec<&Item>) -> (value: u64)
        requires
            items@.len() < 0x4000_0000,
        ensures
            value == larger(0, tried(items@, self.limit() as int, 0)),
    ;

    fn fill_r(&self, remaining: &[&Item], current_weight: usize) -> (value: i64)
        requires
            remaining@.len() < 0x4000_0000,
        ensures
            value == tried(remaining@, self.limit() as int, current_weight as int),
    ;
}

impl Knapsack {
    pub closed spec fn capacity(&self) -> nat {
        self.capacity as nat
    }

    pub fn new(capacity: usize) -> (knapsack: Knapsack)
        ensures
            knapsack.capacity() == capacity,
    {
        Knapsack { capacity: capacity }
    }
}

impl Backtracking for Knapsack {
    open spec fn limit(&self) -> nat {
        self.capacity()
    }

    fn fill(&self, items: Vec<&Item>) -> (value: u64) {
        let value = self.fill_r(items.as_slice(), 0);
        if value < 0 {
            0
        } else {
            value as u64
        }
    }

    fn fill_r(&self, remaining: &[&Item], current_weight: usize) -> (value: i64)
        decreases remaining@.len(),
    {
        let w = current_weight;

        if w > self.capacity {
            return i64::MIN;
        }
        if remaining.len() > 0 && w < self.capacity {
            let rest = vstd::slice::slice_subrange(remaining, 1, remaining.len());
            proof {
                assert(rest@ =~= remaining@.drop_first());
                lemma_tried_bounds(
                    rest@,
                    self.capacity as int,
                    current_weight + remaining@[0].weight,
                );
                lemma_tried_bounds(rest@, self.capacity as int, current_weight as int);
                assert(rest@.len() * 0x1_0000_0000 <= 0x4000_0000 * 0x1_0000_0000)
                    by (nonlinear_arith)
                    requires
                        rest@.len() < 0x4000_0000,
                ;
            }
            let taken = match current_weight.checked_add(remaining[0].weight as usize) {
                Some(weight) => remaining[0].value as i64 + self.fill_r(rest, weight),
                // more than any knapsack takes
                None => remaining[0].value as i64 + i64::MIN,
            };
            let left_out = self.fill_r(rest, current_weight);
            if taken >= left_out {
                taken
            } else {
                left_out
            }
        } else {
            0
        }
    }
}

impl DynamicProgramming for Knapsack {
    open spec fn room(&self) -> nat {
        self.capacity()
    }

    fn fill(&self, items: Vec<&Item>) -> (value: u64) {
        let mut cache: Vec<Vec<u64>> = Vec::new();
        let mut row: usize = 0;
        while row < items.len() + 1
            invariant
                row <= items@.len() + 1,
                items@.len() < 0xffff_ffff,
                self.capacity < usize::MAX,
                cache@.len() == row,
                forall|i: int|
                    0 <= i < row ==> (#[trigger] cache@[i])@.len() == self.capacity + 1 && forall|
                        w: int,
                    | 0 <= w <= self.capacity ==> cache@[i]@[w] == 0,
            decreases items@.len() + 1 - row,
        {
            cache.push(vec![0u64; self.capacity + 1]);
            row += 1;
        }
        let mut i: usize = 1;
        while i < items.len() + 1
            invariant
                1 <= i <= items@.len() + 1,
                items@.len() < 0xffff_ffff,
                self.capacity < usize::MAX,
                cache@.len() == items@.len() + 1,
                forall|k: int|
                    0 <= k < cache@.len() ==> (#[trigger] cache@[k])@.len() == self.capacity + 1,
                forall|k: int, w: int|
                    0 <= k < i && 0 <= w <= self.capacity ==> (#[trigger] cache@[k]@[w]) == tabled(
                        items@,
                        k,
                        w,
                    ),
                forall|k: int, w: int|
                    i <= k <= items@.len() && 0 <= w <= self.capacity ==> (
                    #[trigger] cache@[k]@[w]) == 0,
            decreases items@.len() + 1 - i,
        {
            let mut w: usize = 1;
            while w < self.capacity + 1
                invariant
                    1 <= i <= items@.len(),
                    1 <= w <= self.capacity + 1,
                    items@.len() < 0xffff_ffff,
                    self.capacity < usize::MAX,
                    cache@.len() == items@.len() + 1,
                    forall|k: int|
                        0 <= k < cache@.len() ==> (#[trigger] cache@[k])@.len() == self.capacity
                            + 1,
                    forall|k: int, v: int|
                        0 <= k < i && 0 <= v <= self.capacity ==> (#[trigger] cache@[k]@[v])
                            == tabled(items@, k, v),
                    forall|v: int|
                        0 <= v < w ==> (#[trigger] cache@[i as int]@[v]) == tabled(
                            items@,
                            i as int,
                            v,
                        ),
                    forall|v: int| w <= v <= self.capacity ==> (#[trigger] cache@[i as int]@[v]) == 0,
                    forall|k: int, v: int|
                        i < k <= items@.len() && 0 <= v <= self.capacity ==> (
                        #[trigger] cache@[k]@[v]) == 0,
                decreases self.capacity + 1 - w,
            {
                proof {
                    lemma_tabled_bounds(items@, i - 1, w as int);
                    if items@[i - 1].weight <= w {
                        lemma_tabled_bounds(items@, i - 1, w - items@[i - 1].weight);
                    }
                    assert((i - 1) * 0x1_0000_0000 <= 0xffff_ffff * 0x1_0000_0000)
                        by (nonlinear_arith)
                        requires
                            i - 1 < 0xffff_ffff,
                    ;
                }
                if items[i - 1].weight as usize <= w {
                    let prev_weight = w - (items[i - 1].weight as usize);
                    let with = items[i - 1].value as u64 + cache[i - 1][prev_weight];
                    let without = cache[i - 1][w];
                    let best = if with >= without {
                        with
                    } else {
                        without
                    };
                    cache[i][w] = best;
                } else {
                    let without = cache[i - 1][w];
                    cache[i][w] = without;
                }
                w += 1;
            }
            i += 1;
        }
        cache[items.len()][self.capacity]
    }
}

} // verus!
