//! Nearest-neighbour search over an ascending grid, with ties going to the
//! higher index.

use vstd::prelude::*;

verus! {

/// Distance between two points on the number line.
pub open spec fn dist(a: int, b: int) -> int {
    if a >= b {
        a - b
    } else {
        b - a
    }
}

/// The values never decrease from one index to the next.
pub open spec fn is_ascending(s: Seq<i64>) -> bool {
    forall|i: int, j: int| 0 <= i <= j < s.len() ==> s[i] <= s[j]
}

/// The values grow strictly from one index to the next.
pub open spec fn is_strictly_ascending(s: Seq<i64>) -> bool {
    forall|i: int, j: int| 0 <= i < j < s.len() ==> s[i] < s[j]
}

/// `r` indexes a value of `s` that lies closest to `v`, and every later index
/// lies strictly farther away unless it holds that same value: among two
/// equally close grid values the higher one wins.
pub open spec fn is_closest_index(s: Seq<i64>, v: i64, r: int) -> bool {
    &&& 0 <= r < s.len()
    &&& forall|j: int|
        0 <= j < s.len() ==> dist(v as int, s[r] as int) <= dist(v as int, #[trigger] s[j] as int)
    &&& forall|j: int|
        r < j < s.len() ==> dist(v as int, s[r] as int) < dist(v as int, #[trigger] s[j] as int)
            || s[j] == s[r]
}

fn distance(a: i64, b: i64) -> (d: i128)
    ensures
        d == dist(a as int, b as int),
{
    let x = a as i128;
    let y = b as i128;
    if x >= y {
        x - y
    } else {
        y - x
    }
}

/// The bracket that bisection narrows `[lo, hi]` to for the query `v`: while
/// it is more than one step wide, its midpoint replaces the lower end where
/// `v` lies above the midpoint's value, and the upper end otherwise.
pub open spec fn bisect(s: Seq<i64>, v: i64, lo: int, hi: int) -> (int, int)
    decreases hi - lo,
{
    if hi - lo > 1 {
        let mid = lo + (hi - lo) / 2;
        if v > s[mid] {
            bisect(s, v, mid, hi)
        } else {
            bisect(s, v, lo, mid)
        }
    } else {
        (lo, hi)
    }
}

/// The index that the nearest-neighbour search gives for `v` in `s`: the end
/// of the final bracket that is nearer to `v`, the upper one on a tie.
pub open spec fn closest_index(s: Seq<i64>, v: i64) -> int {
    let (lo, hi) = bisect(s, v, 0, s.len() - 1);
    if dist(v as int, s[lo] as int) < dist(v as int, s[hi] as int) {
        lo
    } else {
        hi
    }
}

/// Bisection keeps its bracket within the list, ends with it at most one
/// step wide, and keeps everything below the lower end under `v` and the
/// upper end at or over `v`.
proof fn lemma_bisect_bracket(s: Seq<i64>, v: i64, lo: int, hi: int)
    requires
        0 <= lo <= hi < s.len(),
        lo == 0 || s[lo] < v,
        hi == s.len() - 1 || v <= s[hi],
    ensures
        ({
            let (l, h) = bisect(s, v, lo, hi);
            &&& lo <= l <= h <= hi
            &&& h - l <= 1
            &&& l == 0 || s[l] < v
            &&& h == s.len() - 1 || v <= s[h]
        }),
    decreases hi - lo,
{
    if hi - lo > 1 {
        let mid = lo + (hi - lo) / 2;
        if v > s[mid] {
            lemma_bisect_bracket(s, v, mid, hi);
        } else {
            lemma_bisect_bracket(s, v, lo, mid);
        }
    }
}

/// On an ascending list the search gives a closest index.
pub proof fn lemma_closest_index_is_closest(s: Seq<i64>, v: i64)
    requires
        s.len() > 0,
        is_ascending(s),
    ensures
        is_closest_index(s, v, closest_index(s, v)),
{
    lemma_bisect_bracket(s, v, 0, s.len() - 1);
    let (lo, hi) = bisect(s, v, 0, s.len() - 1);
    lemma_bracket_is_closest(s, v, lo, hi);
}

/// The search gives an index of the list.
pub proof fn lemma_closest_index_in_range(s: Seq<i64>, v: i64)
    requires
        s.len() > 0,
    ensures
        0 <= closest_index(s, v) < s.len(),
{
    lemma_bisect_bracket(s, v, 0, s.len() - 1);
}

/// Index of the entry of `list` closest to `value` by bisection; on an
/// ascending list it is a closest entry, and of two equally close entries
/// the one with the higher index.
///
/// A bracket `[min_index, max_index]` is narrowed by bisection until it is
/// at most one step wide; then the nearer end is chosen.
pub fn get_closest_index(list: &[i64], value: i64) -> (r: usize)
    requires
        list@.len() > 0,
    ensures
        r == closest_index(list@, value),
        r < list@.len(),
        is_ascending(list@) ==> is_closest_index(list@, value, r as int),
{
    let mut min_index: usize = 0;
    let mut max_index: usize = list.len() - 1;
    while max_index - min_index > 1
        invariant
            min_index <= max_index < list@.len(),
            bisect(list@, value, min_index as int, max_index as int) == bisect(
                list@,
                value,
                0,
                list@.len() - 1,
            ),
        decreases max_index - min_index,
    {
        let mid_index = min_index + (max_index - min_index) / 2;
        if value > list[mid_index] {
            min_index = mid_index;
        } else {
            max_index = mid_index;
        }
    }
    proof {
        lemma_closest_index_in_range(list@, value);
        if is_ascending(list@) {
            lemma_closest_index_is_closest(list@, value);
        }
    }
    if distance(value, list[min_index]) < distance(value, list[max_index]) {
        min_index
    } else {
        max_index
    }
}

/// Once the bracket is at most one step wide, the nearer of its ends (the
/// upper one on a tie) is a closest index.
proof fn lemma_bracket_is_closest(s: Seq<i64>, value: i64, lo: int, hi: int)
    requires
        is_ascending(s),
        0 <= lo <= hi < s.len(),
        hi - lo <= 1,
        lo == 0 || s[lo] < value,
        hi == s.len() - 1 || value <= s[hi],
    ensures
        dist(value as int, s[lo] as int) < dist(value as int, s[hi] as int) ==> is_closest_index(
            s,
            value,
            lo,
        ),
        !(dist(value as int, s[lo] as int) < dist(value as int, s[hi] as int))
            ==> is_closest_index(s, value, hi),
{
    let v = value as int;
    // Everything below the bracket lies at or below its lower end, everything
    // above it at or above its upper end.
    assert forall|j: int| 0 <= j < lo implies dist(v, s[j] as int) >= dist(v, s[lo] as int) by {
        assert(s[j] <= s[lo]);
    }
    assert forall|j: int| hi < j < s.len() implies dist(v, s[j] as int) >= dist(v, s[hi] as int)
        && (dist(v, s[j] as int) == dist(v, s[hi] as int) ==> s[j] == s[hi]) by {
        assert(s[hi] <= s[j]);
    }
}

/// In a strictly ascending grid every grid value is found at its own index.
pub proof fn lemma_grid_value_maps_to_itself(s: Seq<i64>, i: int, r: int)
    requires
        is_strictly_ascending(s),
        0 <= i < s.len(),
        is_closest_index(s, s[i], r),
    ensures
        r == i,
{
    assert(dist(s[i] as int, s[i] as int) == 0);
    if r < i {
        assert(s[r] < s[i]);
    } else if r > i {
        assert(s[i] < s[r]);
    }
}

/// A query at or below the first value of a strictly ascending grid maps to
/// index 0.
pub proof fn lemma_below_grid_maps_to_first(s: Seq<i64>, v: i64, r: int)
    requires
        is_strictly_ascending(s),
        s.len() > 0,
        v <= s[0],
        is_closest_index(s, v, r),
    ensures
        r == 0,
{
    if r > 0 {
        assert(s[0] < s[r]);
        assert(dist(v as int, s[r] as int) <= dist(v as int, s[0] as int));
    }
}

/// A query at or above the last value of a strictly ascending grid maps to
/// the last index.
pub proof fn lemma_above_grid_maps_to_last(s: Seq<i64>, v: i64, r: int)
    requires
        is_strictly_ascending(s),
        s.len() > 0,
        v >= s[s.len() - 1],
        is_closest_index(s, v, r),
    ensures
        r == s.len() - 1,
{
    let last = s.len() - 1;
    if r < last {
        assert(s[r] < s[last]);
        assert(dist(v as int, s[r] as int) <= dist(v as int, s[last] as int));
    }
}

/// A query exactly halfway between two neighbouring values of a strictly
/// ascending grid maps to the higher of the two indices.
pub proof fn lemma_midpoint_goes_up(s: Seq<i64>, i: int, v: i64, r: int)
    requires
        is_strictly_ascending(s),
        0 <= i,
        i + 1 < s.len(),
        2 * v == s[i] + s[i + 1],
        is_closest_index(s, v, r),
    ensures
        r == i + 1,
{
    let h = dist(v as int, s[i] as int);
    assert(dist(v as int, s[i + 1] as int) == h);
    assert(s[i] < s[i + 1]);
    if r < i {
        assert(s[r] < s[i]);
    } else if r > i + 1 {
        assert(s[i + 1] < s[r]);
    } else if r == i {
        assert(s[i + 1] != s[i]);
    }
}

} // verus!
