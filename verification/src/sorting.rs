//! Sorts of slices of integers. Every sort returns the values of its argument in ascending
//! order, each as often as it occurs there.

use vstd::prelude::*;
use vstd::slice::slice_to_vec;
use crate::searching::ascending;

verus! {

/// `result` holds the values of `source` in ascending order.
pub open spec fn is_sorted_copy(result: Seq<i64>, source: Seq<i64>) -> bool {
    ascending(result) && result.to_multiset() == source.to_multiset()
}

/// Neighbours in order make the whole sequence ascending.
pub proof fn lemma_neighbours_ascending(s: Seq<i64>)
    requires
        forall|k: int| 0 < k < s.len() ==> s[k - 1] <= #[trigger] s[k],
    ensures
        ascending(s),
{
    assert forall|i: int, j: int| 0 <= i <= j < s.len() implies s[i] <= s[j] by {
        lemma_neighbours_reach(s, i, j);
    }
}

proof fn lemma_neighbours_reach(s: Seq<i64>, i: int, j: int)
    requires
        forall|k: int| 0 < k < s.len() ==> s[k - 1] <= #[trigger] s[k],
        0 <= i <= j < s.len(),
    ensures
        s[i] <= s[j],
    decreases j - i,
{
    if i < j {
        lemma_neighbours_reach(s, i, j - 1);
        assert(s[j - 1] <= s[j]);
    }
}

/// Two values that change places leave the same values.
pub proof fn lemma_exchange(s: Seq<i64>, i: int, j: int)
    requires
        0 <= i < s.len(),
        0 <= j < s.len(),
    ensures
        s.update(i, s[j]).update(j, s[i]).to_multiset() == s.to_multiset(),
{
    broadcast use vstd::multiset::group_multiset_axioms;
    vstd::seq_lib::to_multiset_update(s, i, s[j]);
    vstd::seq_lib::to_multiset_update(s.update(i, s[j]), j, s[i]);
    s.to_multiset_ensures();
    assert(s.to_multiset().insert(s[j]).remove(s[i]).insert(s[i]).remove(s.update(i, s[j])[j])
        =~= s.to_multiset());
}

/// Exchanges the values at `i` and `j`.
pub fn swap(values: &mut Vec<i64>, i: usize, j: usize)
    requires
        i < old(values)@.len(),
        j < old(values)@.len(),
    ensures
        final(values)@ == old(values)@.update(i as int, old(values)@[j as int]).update(
            j as int,
            old(values)@[i as int],
        ),
        final(values)@.to_multiset() == old(values)@.to_multiset(),
{
    let a = values[i];
    let b = values[j];
    values[i] = b;
    values[j] = a;
    proof {
        lemma_exchange(old(values)@, i as int, j as int);
        assert(values@ =~= old(values)@.update(i as int, b).update(j as int, a));
    }
}

/// How far a round that stands at `i` has carried the largest value: to `i`, but not into
/// the `settled` last places.
pub open spec fn reached(i: int, unsettled: int) -> int {
    if i < unsettled {
        i
    } else {
        unsettled
    }
}

/// Sorts by exchanging neighbours that stand in the wrong order, round after round, until a
/// round finds none.
pub fn bubble_sort(collection: &[i64]) -> (result: Vec<i64>)
    ensures
        is_sorted_copy(result@, collection@),
{
    let mut result: Vec<i64> = slice_to_vec(collection);
    let n = result.len();
    let mut round: usize = 0;
    while round < n
        invariant_except_break
            round <= n,
            forall|i: int, j: int| n - round <= i <= j < n ==> result@[i] <= result@[j],
            forall|i: int, j: int| 0 <= i < n - round <= j < n ==> result@[i] <= result@[j],
        invariant
            result@.len() == n,
            result@.to_multiset() == collection@.to_multiset(),
        ensures
            ascending(result@),
        decreases n - round,
    {
        let mut swaps: usize = 0;
        let mut i: usize = 1;
        while i < n
            invariant
                1 <= i <= n,
                round < n,
                swaps < i,
                result@.len() == n,
                result@.to_multiset() == collection@.to_multiset(),
                forall|a: int, b: int| n - round <= a <= b < n ==> result@[a] <= result@[b],
                forall|a: int, b: int| 0 <= a < n - round <= b < n ==> result@[a] <= result@[b],
                forall|k: int|
                    0 <= k < reached(i as int, n - round) ==> #[trigger] result@[k] <= result@[reached(
                        i as int,
                        n - round,
                    ) - 1],
                swaps == 0 ==> forall|k: int| 0 < k < i ==> result@[k - 1] <= #[trigger] result@[k],
            decreases n - i,
        {
            if result[i - 1] > result[i] {
                assert(i < n - round);
                swap(&mut result, i - 1, i);
                swaps += 1;
            }
            i += 1;
        }
        if swaps == 0 {
            proof {
                lemma_neighbours_ascending(result@);
            }
            break ;
        }
        round += 1;
    }
    result
}

/// Sorts by insertion over ever smaller gaps: values `gap` apart are brought in order, for
/// half the length as the first gap, then half of that, down to neighbours.
pub fn shell_sort(collection: &[i64]) -> (result: Vec<i64>)
    ensures
        is_sorted_copy(result@, collection@),
{
    let n = collection.len();
    let mut gap = n / 2;
    let mut result: Vec<i64> = slice_to_vec(collection);
    proof {
        if n <= 1 {
            assert forall|a: int, b: int| 0 <= a <= b < result@.len() implies result@[a]
                <= result@[b] by {}
        }
    }
    while gap > 0
        invariant
            result@.len() == n,
            result@.to_multiset() == collection@.to_multiset(),
            gap == 0 ==> ascending(result@),
        decreases gap,
    {
        let mut i = gap;
        proof {
            if gap == 1 {
                assert forall|a: int, b: int| 0 <= a <= b < 1 implies result@.subrange(0, 1)[a]
                    <= result@.subrange(0, 1)[b] by {}
            }
        }
        while i < n
            invariant
                0 < gap <= i,
                result@.len() == n,
                i <= n || gap > n,
                result@.to_multiset() == collection@.to_multiset(),
                gap == 1 ==> forall|a: int, b: int| 0 <= a <= b < i ==> result@[a] <= result@[b],
            decreases n - i,
        {
            let temp = result[i];
            let mut j = i;
            assert(result@.update(j as int, temp) =~= result@);
            while j >= gap && result[j - gap] > temp
                invariant
                    0 < gap,
                    j <= i < n,
                    result@.len() == n,
                    result@.update(j as int, temp).to_multiset() == collection@.to_multiset(),
                    gap == 1 ==> forall|a: int, b: int|
                        0 <= a <= b < j ==> result@[a] <= result@[b],
                    gap == 1 ==> forall|a: int, b: int|
                        j < a <= b <= i ==> result@[a] <= result@[b],
                    gap == 1 ==> forall|b: int| j < b <= i ==> temp < #[trigger] result@[b],
                    gap == 1 ==> forall|a: int, b: int|
                        0 <= a < j && j < b <= i ==> result@[a] <= result@[b],
                decreases j,
            {
                proof {
                    let held = result@.update(j as int, temp);
                    lemma_exchange(held, j as int, j - gap);
                    assert(result@.update(j as int, result@[j - gap]).update(j - gap, temp)
                        =~= held.update(j as int, held[j - gap]).update(j - gap, held[j as int]));
                }
                result[j] = result[j - gap];
                j -= gap;
            }
            result[j] = temp;
            i += 1;
        }
        proof {
            if gap == 1 {
                assert forall|a: int, b: int| 0 <= a <= b < result@.len() implies result@[a]
                    <= result@[b] by {}
            }
        }
        gap /= 2;
    }
    result
}

/// The values of `s` from `low` to `high`, both counted in.
pub open spec fn stretch(s: Seq<i64>, low: int, high: int) -> Seq<i64> {
    s.subrange(low, high + 1)
}

/// `after` is `before` with the values from `low` to `high` in another order.
pub open spec fn rearranged(before: Seq<i64>, after: Seq<i64>, low: int, high: int) -> bool {
    &&& after.len() == before.len()
    &&& stretch(after, low, high).to_multiset() == stretch(before, low, high).to_multiset()
    &&& forall|k: int| 0 <= k < before.len() && (k < low || k > high) ==> after[k] == before[k]
}

/// An exchange of two values of a stretch rearranges the stretch.
pub proof fn lemma_exchange_in_stretch(s: Seq<i64>, low: int, high: int, i: int, j: int)
    requires
        0 <= low <= i <= high < s.len(),
        low <= j <= high,
    ensures
        rearranged(s, s.update(i, s[j]).update(j, s[i]), low, high),
{
    let part = stretch(s, low, high);
    lemma_exchange(part, i - low, j - low);
    assert(stretch(s.update(i, s[j]).update(j, s[i]), low, high) =~= part.update(
        i - low,
        part[j - low],
    ).update(j - low, part[i - low]));
}

/// A value of a rearranged stretch is a value of the stretch as it was.
pub proof fn lemma_rearranged_value(before: Seq<i64>, after: Seq<i64>, low: int, high: int, k: int)
    requires
        rearranged(before, after, low, high),
        0 <= low <= k <= high < before.len(),
    ensures
        exists|m: int| low <= m <= high && before[m] == after[k],
{
    let a = stretch(after, low, high);
    let b = stretch(before, low, high);
    assert(a[k - low] == after[k]);
    assert(a.contains(after[k]));
    vstd::seq_lib::to_multiset_contains(a, after[k]);
    vstd::seq_lib::to_multiset_contains(b, after[k]);
    let m = choose|m: int| 0 <= m < b.len() && b[m] == after[k];
    assert(before[low + m] == after[k]);
}

/// A stretch that was rearranged part by part was rearranged.
pub proof fn lemma_rearranged_parts(
    before: Seq<i64>,
    mid: Seq<i64>,
    after: Seq<i64>,
    low: int,
    split: int,
    high: int,
)
    requires
        0 <= low <= split < high < before.len(),
        rearranged(before, mid, low, split),
        rearranged(mid, after, split + 1, high),
    ensures
        rearranged(before, after, low, high),
{
    assert(stretch(before, low, high) =~= stretch(before, low, split) + stretch(
        before,
        split + 1,
        high,
    ));
    assert(stretch(after, low, high) =~= stretch(after, low, split) + stretch(
        after,
        split + 1,
        high,
    ));
    assert(stretch(after, low, split) =~= stretch(mid, low, split));
    assert(stretch(mid, split + 1, high) =~= stretch(before, split + 1, high));
    vstd::seq_lib::lemma_multiset_commutative(
        stretch(before, low, split),
        stretch(before, split + 1, high),
    );
    vstd::seq_lib::lemma_multiset_commutative(
        stretch(after, low, split),
        stretch(after, split + 1, high),
    );
}

/// Parts the values from `low` to `high` around the value at `high`: returns a place `split`
/// before `high` such that no value up to `split` is larger than that value, and no value
/// behind `split` is smaller.
pub fn partition(collection: &mut Vec<i64>, low: usize, high: usize) -> (split: usize)
    requires
        low < high < old(collection)@.len(),
        old(collection)@.len() < 0x7fff_ffff_ffff_fff0,
    ensures
        low <= split < high,
        rearranged(old(collection)@, final(collection)@, low as int, high as int),
        forall|a: int, b: int|
            low <= a <= split && split < b <= high ==> final(collection)@[a] <= final(collection)@[b],
{
    let pivot = collection[high];
    let (mut i, mut j): (i64, i64) = (low as i64 - 1, high as i64 + 1);
    proof {
        assert(stretch(collection@, low as int, high as int) =~= stretch(
            old(collection)@,
            low as int,
            high as int,
        ));
    }
    loop
        invariant
            low < high < collection@.len(),
            collection@.len() < 0x7fff_ffff_ffff_fff0,
            rearranged(old(collection)@, collection@, low as int, high as int),
            (i == low - 1 && j == high + 1 && collection@[high as int] == pivot) || (low <= i <= j
                <= high && (i < j || i > low)),
            forall|k: int| low <= k <= i ==> collection@[k] <= pivot,
            forall|k: int| j <= k <= high ==> collection@[k] >= pivot,
        decreases j - i,
    {
        let ghost first = j > high;
        let ghost i0 = i;
        let ghost j0 = j;
        loop
            invariant_except_break
                i0 <= i <= j,
                i == j ==> i == i0,
                first ==> i < high,
                forall|k: int| low <= k <= i ==> collection@[k] <= pivot,
            invariant
                low < high < collection@.len(),
                collection@.len() < 0x7fff_ffff_ffff_fff0,
                low - 1 <= i,
                j == j0,
                forall|k: int| j0 <= k <= high ==> collection@[k] >= pivot,
                j <= high + 1,
                first ==> collection@[high as int] == pivot && j == high + 1,
                !first ==> j <= high,
            ensures
                i0 < i <= j + 1,
                low <= i <= high + 1,
                first ==> i <= high,
                i <= j ==> i <= high && collection@[i as int] >= pivot,
                i > j ==> i0 == j0,
                forall|k: int| low <= k < i ==> collection@[k] <= pivot,
            decreases high + 2 - i,
        {
            i += 1;
            if i > j || collection[i as usize] >= pivot {
                break ;
            }
        }
        loop
            invariant_except_break
                i - 1 <= j <= j0,
                j0 >= i ==> j >= i,
                first ==> j == high + 1,
                forall|k: int| j <= k <= high ==> collection@[k] >= pivot,
            invariant
                low < high < collection@.len(),
                collection@.len() < 0x7fff_ffff_ffff_fff0,
                low <= i <= high + 1,
                j <= high + 1,
                j0 <= high + 1,
                first ==> i <= high && collection@[high as int] == pivot,
            ensures
                i - 2 <= j < j0,
                j0 >= i ==> j >= i - 1,
                j <= high,
                first ==> j == high,
                i <= j ==> low <= j && collection@[j as int] <= pivot,
                forall|k: int| j < k <= high ==> collection@[k] >= pivot,
            decreases j + 2 - i,
        {
            j -= 1;
            if i > j || collection[j as usize] <= pivot {
                break ;
            }
        }

        if i > j {
            assert(low <= j < high);
            return j as usize;
        }
        proof {
            lemma_exchange_in_stretch(collection@, low as int, high as int, i as int, j as int);
        }
        swap(collection, i as usize, j as usize);
        proof {
            assert(stretch(collection@, low as int, high as int).to_multiset() == stretch(
                old(collection)@,
                low as int,
                high as int,
            ).to_multiset());
        }
    }
}

/// Sorts the values from `low` to `high`.
pub fn quick_sort_r(collection: &mut Vec<i64>, low: usize, high: usize)
    requires
        low <= high < old(collection)@.len(),
        old(collection)@.len() < 0x7fff_ffff_ffff_fff0,
    ensures
        rearranged(old(collection)@, final(collection)@, low as int, high as int),
        ascending(stretch(final(collection)@, low as int, high as int)),
    decreases high - low,
{
    if low < high {
        let pivot = partition(collection, low, high);
        let ghost parted = collection@;
        quick_sort_r(collection, low, pivot);
        let ghost half = collection@;
        quick_sort_r(collection, pivot + 1, high);
        proof {
            let done = collection@;
            lemma_rearranged_parts(parted, half, done, low as int, pivot as int, high as int);
            let whole = stretch(done, low as int, high as int);
            assert forall|a: int, b: int| 0 <= a <= b < whole.len() implies whole[a]
                <= whole[b] by {
                let x = low + a;
                let y = low + b;
                if y <= pivot {
                    assert(done[x] == half[x] && done[y] == half[y]);
                    assert(stretch(half, low as int, pivot as int)[a] <= stretch(
                        half,
                        low as int,
                        pivot as int,
                    )[b]);
                } else if x > pivot {
                    assert(stretch(done, pivot + 1, high as int)[x - pivot - 1] <= stretch(
                        done,
                        pivot + 1,
                        high as int,
                    )[y - pivot - 1]);
                } else {
                    assert(done[x] == half[x]);
                    lemma_rearranged_value(parted, half, low as int, pivot as int, x);
                    lemma_rearranged_value(half, done, pivot + 1, high as int, y);
                    let m = choose|m: int| low <= m <= pivot && parted[m] == half[x];
                    let r = choose|r: int| pivot + 1 <= r <= high && half[r] == done[y];
                    assert(half[r] == parted[r]);
                }
            }
            // the stretch as a whole
            let start = old(collection)@;
            assert(stretch(done, low as int, high as int).to_multiset() == stretch(
                start,
                low as int,
                high as int,
            ).to_multiset());
        }
    } else {
        proof {
            let whole = stretch(collection@, low as int, high as int);
            assert forall|a: int, b: int| 0 <= a <= b < whole.len() implies whole[a]
                <= whole[b] by {}
        }
    }
}

/// Sorts by parting the values around one of them, and sorting the two parts.
pub fn quick_sort(collection: &[i64]) -> (result: Vec<i64>)
    requires
        collection@.len() < 0x7fff_ffff_ffff_fff0,
    ensures
        is_sorted_copy(result@, collection@),
{
    let mut result = slice_to_vec(collection);
    if collection.len() > 0 {
        quick_sort_r(&mut result, 0, collection.len() - 1);
        proof {
            assert(stretch(result@, 0, collection@.len() - 1) =~= result@);
            assert(stretch(collection@, 0, collection@.len() - 1) =~= collection@);
        }
    } else {
        proof {
            assert forall|a: int, b: int| 0 <= a <= b < result@.len() implies result@[a]
                <= result@[b] by {}
        }
    }
    result
}

/// Sorts by putting every value into its place in an ascending vector, which stands for the
/// heap.
pub fn heap_sort(collection: &[i64]) -> (result: Vec<i64>)
    ensures
        is_sorted_copy(result@, collection@),
{
    let mut heap: Vec<i64> = Vec::new();
    let mut c: usize = 0;
    assert(collection@.subrange(0, 0) =~= heap@);
    while c < collection.len()
        invariant
            c <= collection@.len(),
            ascending(heap@),
            heap@.to_multiset() == collection@.subrange(0, c as int).to_multiset(),
        decreases collection@.len() - c,
    {
        let value = collection[c];
        let mut at: usize = 0;
        while at < heap.len() && heap[at] <= value
            invariant
                at <= heap@.len(),
                forall|k: int| 0 <= k < at ==> heap@[k] <= value,
            decreases heap@.len() - at,
        {
            at += 1;
        }
        proof {
            let before = heap@;
            let after = before.insert(at as int, value);
            assert forall|i: int, j: int| 0 <= i <= j < after.len() implies after[i]
                <= after[j] by {
                if i < at && j > at {
                    assert(before[i] <= before[j - 1]);
                } else if i > at {
                    assert(before[i - 1] <= before[j - 1]);
                } else if j < at {
                    assert(before[i] <= before[j]);
                } else if i == at && j > at {
                    assert(before[at as int] <= before[j - 1]);
                }
            }
            vstd::seq_lib::to_multiset_insert(before, at as int, value);
            let taken = collection@.subrange(0, c as int);
            assert(collection@.subrange(0, c + 1) =~= taken.push(value));
            vstd::seq_lib::to_multiset_build(taken, value);
        }
        heap.insert(at, value);
        c += 1;
    }
    assert(collection@.subrange(0, c as int) =~= collection@);
    heap
}

/// Sorts the two halves, and merges them.
pub fn merge_sort(collection: &[i64]) -> (result: Vec<i64>)
    ensures
        is_sorted_copy(result@, collection@),
    decreases collection@.len(),
{
    if collection.len() > 1 {
        let (l, r) = collection.split_at(collection.len() / 2);
        let sorted_l = merge_sort(l);
        let sorted_r = merge_sort(r);
        let mut result: Vec<i64> = slice_to_vec(collection);
        let (mut i, mut j): (usize, usize) = (0, 0);
        let mut k: usize = 0;
        proof {
            assert(collection@ =~= l@ + r@);
            vstd::seq_lib::lemma_multiset_commutative(l@, r@);
            sorted_l@.to_multiset_ensures();
            sorted_r@.to_multiset_ensures();
            l@.to_multiset_ensures();
            r@.to_multiset_ensures();
            assert(sorted_l@.subrange(0, 0) =~= Seq::<i64>::empty());
            assert(sorted_r@.subrange(0, 0) =~= Seq::<i64>::empty());
            assert(result@.subrange(0, 0) =~= Seq::<i64>::empty());
            let none = Seq::<i64>::empty();
            assert(none + none =~= none);
            vstd::seq_lib::lemma_multiset_commutative(none, none);
        }
        while i < sorted_l.len() && j < sorted_r.len()
            invariant
                merged(result@, sorted_l@, sorted_r@, i as int, j as int, k as int),
                ascending(sorted_l@),
                ascending(sorted_r@),
            decreases sorted_l@.len() - i + sorted_r@.len() - j,
        {
            if sorted_l[i] <= sorted_r[j] {
                proof {
                    lemma_take_left(result@, sorted_l@, sorted_r@, i as int, j as int, k as int);
                }
                result[k] = sorted_l[i];
                i += 1;
            } else {
                proof {
                    lemma_take_right(result@, sorted_l@, sorted_r@, i as int, j as int, k as int);
                }
                result[k] = sorted_r[j];
                j += 1;
            }
            assert(k < result.len());
            k += 1;
        }
        while i < sorted_l.len()
            invariant
                merged(result@, sorted_l@, sorted_r@, i as int, j as int, k as int),
                ascending(sorted_l@),
                ascending(sorted_r@),
                i < sorted_l@.len() ==> j == sorted_r@.len(),
            decreases sorted_l@.len() - i,
        {
            proof {
                lemma_take_left(result@, sorted_l@, sorted_r@, i as int, j as int, k as int);
            }
            result[k] = sorted_l[i];
            assert(k < result.len());
            k += 1;
            i += 1;
        }

        while j < sorted_r.len()
            invariant
                merged(result@, sorted_l@, sorted_r@, i as int, j as int, k as int),
                ascending(sorted_l@),
                ascending(sorted_r@),
                i == sorted_l@.len(),
            decreases sorted_r@.len() - j,
        {
            proof {
                lemma_take_right(result@, sorted_l@, sorted_r@, i as int, j as int, k as int);
            }
            result[k] = sorted_r[j];
            assert(k < result.len());
            k += 1;
            j += 1;
        }
        proof {
            assert(result@.subrange(0, k as int) =~= result@);
            assert(sorted_l@.subrange(0, i as int) =~= sorted_l@);
            assert(sorted_r@.subrange(0, j as int) =~= sorted_r@);
        }
        result
    } else {
        proof {
            assert forall|i: int, j: int| 0 <= i <= j < collection@.len() implies collection@[i]
                <= collection@[j] by {}
        }
        slice_to_vec(collection)
    }
}

/// The first `k` places of `result` hold the first `i` values of `left` and the first `j`
/// of `right` in ascending order, and none of them is larger than a value that is still to
/// come.
pub open spec fn merged(
    result: Seq<i64>,
    left: Seq<i64>,
    right: Seq<i64>,
    i: int,
    j: int,
    k: int,
) -> bool {
    &&& 0 <= i <= left.len()
    &&& 0 <= j <= right.len()
    &&& k == i + j
    &&& result.len() == left.len() + right.len()
    &&& ascending(result.subrange(0, k))
    &&& result.subrange(0, k).to_multiset() == left.subrange(0, i).to_multiset().add(
        right.subrange(0, j).to_multiset(),
    )
    &&& forall|x: int| 0 <= x < k && i < left.len() ==> result[x] <= left[i]
    &&& forall|x: int| 0 <= x < k && j < right.len() ==> result[x] <= right[j]
}

/// The next value of `left` may follow in `result` where it is not larger than the next of
/// `right`.
pub proof fn lemma_take_left(
    result: Seq<i64>,
    left: Seq<i64>,
    right: Seq<i64>,
    i: int,
    j: int,
    k: int,
)
    requires
        merged(result, left, right, i, j, k),
        ascending(left),
        i < left.len(),
        j < right.len() ==> left[i] <= right[j],
    ensures
        merged(result.update(k, left[i]), left, right, i + 1, j, k + 1),
{
    let next = result.update(k, left[i]);
    let head = result.subrange(0, k);
    assert(next.subrange(0, k + 1) =~= head.push(left[i]));
    assert(left.subrange(0, i + 1) =~= left.subrange(0, i).push(left[i]));
    vstd::seq_lib::to_multiset_build(head, left[i]);
    vstd::seq_lib::to_multiset_build(left.subrange(0, i), left[i]);
    broadcast use vstd::multiset::group_multiset_axioms;
    assert(next.subrange(0, k + 1).to_multiset() =~= left.subrange(0, i + 1).to_multiset().add(
        right.subrange(0, j).to_multiset(),
    ));
    let longer = next.subrange(0, k + 1);
    assert forall|a: int, b: int| 0 <= a <= b < longer.len() implies longer[a] <= longer[b] by {
        if b < k {
            assert(head[a] <= head[b]);
        } else if a < k {
            assert(longer[a] == result[a]);
        }
    }
}

/// The next value of `right` may follow in `result` where it is not larger than the next of
/// `left`.
pub proof fn lemma_take_right(
    result: Seq<i64>,
    left: Seq<i64>,
    right: Seq<i64>,
    i: int,
    j: int,
    k: int,
)
    requires
        merged(result, left, right, i, j, k),
        ascending(right),
        j < right.len(),
        i < left.len() ==> right[j] <= left[i],
    ensures
        merged(result.update(k, right[j]), left, right, i, j + 1, k + 1),
{
    let next = result.update(k, right[j]);
    let head = result.subrange(0, k);
    assert(next.subrange(0, k + 1) =~= head.push(right[j]));
    assert(right.subrange(0, j + 1) =~= right.subrange(0, j).push(right[j]));
    vstd::seq_lib::to_multiset_build(head, right[j]);
    vstd::seq_lib::to_multiset_build(right.subrange(0, j), right[j]);
    broadcast use vstd::multiset::group_multiset_axioms;
    assert(next.subrange(0, k + 1).to_multiset() =~= left.subrange(0, i).to_multiset().add(
        right.subrange(0, j + 1).to_multiset(),
    ));
    let longer = next.subrange(0, k + 1);
    assert forall|a: int, b: int| 0 <= a <= b < longer.len() implies longer[a] <= longer[b] by {
        if b < k {
            assert(head[a] <= head[b]);
        } else if a < k {
            assert(longer[a] == result[a]);
        }
    }
}

} // verus!
