//! Searches in slices of integers.

use vstd::prelude::*;

verus! {

/// The values never fall along `s`.
pub open spec fn ascending(s: Seq<i64>) -> bool {
    forall|i: int, j: int| 0 <= i <= j < s.len() ==> s[i] <= s[j]
}

/// The first place at or after `from` where `s` holds `needle`.
pub open spec fn first_place(s: Seq<i64>, needle: i64, from: int) -> Option<usize>
    decreases s.len() - from,
{
    if from < 0 || from >= s.len() {
        None
    } else if s[from] == needle {
        Some(from as usize)
    } else {
        first_place(s, needle, from + 1)
    }
}

/// `first_place` gives a place of `needle` with no `needle` between `from` and it, and gives
/// nothing only where there is no `needle` from `from` on.
pub proof fn lemma_first_place(s: Seq<i64>, needle: i64, from: int)
    requires
        0 <= from,
        s.len() <= usize::MAX,
    ensures
        match first_place(s, needle, from) {
            Some(k) => from <= k < s.len() && s[k as int] == needle && forall|j: int|
                from <= j < k ==> s[j] != needle,
            None => forall|j: int| from <= j < s.len() ==> s[j] != needle,
        },
    decreases s.len() - from,
{
    if from < s.len() && s[from] != needle {
        lemma_first_place(s, needle, from + 1);
    }
}

/// The probe that follows the probe at `i`: one jump further, or the last place where the
/// jump would leave the haystack.
pub open spec fn next_probe(length: int, jump: int, i: int) -> int {
    if i + jump < length {
        i + jump
    } else {
        length - 1
    }
}

/// What a search by jumps gives that has come to the place `i`: it goes to the next probe,
/// reports a hit there by its place, looks one by one through the `jump` places before a
/// probe that is larger than `needle`, and reports a hit there by its place in that stretch;
/// after a probe that is smaller it goes on, until it stands at the last place.
pub open spec fn jumped(s: Seq<i64>, needle: i64, jump: int, i: int) -> Option<usize>
    decreases s.len() - i,
{
    if jump <= 0 || i < 0 || i >= s.len() - 1 {
        None
    } else {
        let at = next_probe(s.len() as int, jump, i);
        if s[at] == needle {
            Some(at as usize)
        } else if s[at] > needle {
            first_place(s.subrange(at - jump, at), needle, 0)
        } else {
            jumped(s, needle, jump, at)
        }
    }
}

/// What `jump_search` gives: nothing for a haystack that is not longer than the jump, else
/// what the jumps give from the first place on.
pub open spec fn jump_found(s: Seq<i64>, needle: i64, jump: int) -> Option<usize> {
    if jump < s.len() {
        jumped(s, needle, jump, 0)
    } else {
        None
    }
}

/// The first place of `needle` in `haystack`.
pub fn linear_search(haystack: &[i64], needle: &i64) -> (found: Option<usize>)
    ensures
        found == first_place(haystack@, *needle, 0),
        found matches Some(i) ==> i < haystack@.len() && haystack@[i as int] == *needle
            && !haystack@.subrange(0, i as int).contains(*needle),
        found is None ==> !haystack@.contains(*needle),
{
    let mut i: usize = 0;
    while i < haystack.len()
        invariant
            i <= haystack@.len(),
            forall|j: int| 0 <= j < i ==> haystack@[j] != *needle,
            first_place(haystack@, *needle, 0) == first_place(haystack@, *needle, i as int),
        decreases haystack@.len() - i,
    {
        if haystack[i] == *needle {
            return Some(i);
        }
        i += 1;
    }
    None
}

/// Looks for `needle` by jumps of `jump_size`, and then one by one in the stretch before the
/// first probe that is larger. A hit in such a stretch is reported by its place in the
/// stretch, which starts `jump_size` before the probe; a direct hit by its place in
/// `haystack`. In an ascending haystack nothing is returned only where `needle` is missing.
/// A haystack that is not longer than the jump is not searched.
pub fn jump_search(haystack: &[i64], needle: &i64, jump_size: usize) -> (found: Option<usize>)
    requires
        jump_size > 0,
    ensures
        found == jump_found(haystack@, *needle, jump_size as int),
        found matches Some(k) ==> exists|place: int|
            k <= place < haystack@.len() && #[trigger] haystack@[place] == *needle,
        found is None && ascending(haystack@) && jump_size < haystack@.len()
            ==> !haystack@.contains(*needle),
{
    if jump_size < haystack.len() {
        let mut i: usize = 0;
        while i < haystack.len() - 1
            invariant
                0 < jump_size < haystack@.len(),
                i < haystack@.len(),
                i == 0 || i >= jump_size,
                i > 0 ==> haystack@[i as int] < *needle,
                jump_found(haystack@, *needle, jump_size as int) == jumped(
                    haystack@,
                    *needle,
                    jump_size as int,
                    i as int,
                ),
            decreases haystack@.len() - i,
        {
            if jump_size < haystack.len() - i {
                i += jump_size
            } else {
                i = haystack.len() - 1;
            }
            if haystack[i] == *needle {
                assert(haystack@[i as int] == *needle);
                return Some(i);
            } else if haystack[i] > *needle {
                let part = vstd::slice::slice_subrange(haystack, i - jump_size, i);
                let found = linear_search(part, needle);
                proof {
                    if let Some(k) = found {
                        assert(part@[k as int] == haystack@[(i - jump_size) + k]);
                        assert(haystack@[(i - jump_size) + k] == *needle);
                    } else if ascending(haystack@) {
                        assert forall|j: int| 0 <= j < haystack@.len() implies haystack@[j]
                            != *needle by {
                            if j >= i {
                                assert(haystack@[i as int] <= haystack@[j]);
                            } else if j >= i - jump_size {
                                assert(part@[j - (i - jump_size)] == haystack@[j]);
                                assert(part@.contains(haystack@[j]));
                            }
                        }
                    }
                }
                return found;
            }
        }
        proof {
            if ascending(haystack@) {
                assert forall|j: int| 0 <= j < haystack@.len() implies haystack@[j] != *needle by {
                    assert(haystack@[j] <= haystack@[i as int]);
                }
            }
        }
    }
    None
}

/// What a search by halving gives between the places `left` and `right`: the middle place
/// where it holds `needle`, else what the search gives in the half in which `needle` would
/// lie if the values ascended.
pub open spec fn halved(s: Seq<i64>, needle: i64, left: int, right: int) -> Option<usize>
    decreases right + 1 - left,
{
    if left < 0 || left > right || right >= s.len() {
        None
    } else {
        let pivot = left + (right - left) / 2;
        if needle < s[pivot] {
            halved(s, needle, left, pivot - 1)
        } else if needle > s[pivot] {
            halved(s, needle, pivot + 1, right)
        } else {
            Some(pivot as usize)
        }
    }
}

/// Looks for `needle` in an ascending haystack by halving. In an ascending haystack nothing
/// is returned only where `needle` is missing.
pub fn binary_search(haystack: &[i64], needle: &i64) -> (found: Option<usize>)
    ensures
        found == halved(haystack@, *needle, 0, haystack@.len() - 1),
        found matches Some(i) ==> i < haystack@.len() && haystack@[i as int] == *needle,
        found is None && ascending(haystack@) ==> !haystack@.contains(*needle),
{
    if haystack.len() == 0 {
        return None;
    }
    let (mut left, mut right): (usize, usize) = (0, haystack.len() - 1);
    while left <= right
        invariant
            right < haystack@.len(),
            left <= right + 1,
            halved(haystack@, *needle, 0, haystack@.len() - 1) == halved(
                haystack@,
                *needle,
                left as int,
                right as int,
            ),
            ascending(haystack@) ==> forall|j: int| 0 <= j < left ==> haystack@[j] < *needle,
            ascending(haystack@) ==> forall|j: int|
                right < j < haystack@.len() ==> haystack@[j] > *needle,
        decreases right + 1 - left,
    {
        let pivot = left + (right - left) / 2;
        if *needle < haystack[pivot] {
            if pivot == 0 {
                assert(halved(haystack@, *needle, left as int, pivot - 1) is None);
                return None;
            }
            right = pivot - 1;
        } else if *needle > haystack[pivot] {
            left = pivot + 1;
        } else {
            return Some(pivot);  // lucky find
        }
    }
    None
}

} // verus!
