//! The three searches, each a halving of an interval of positions.
use crate::model::{
    comparator_ok, gives, is_gap, is_lower_bound, is_match, is_upper_bound, only_gives, rank,
    sorted_against,
};
use std::cmp::Ordering;
use vstd::prelude::*;

verus! {

/// In a sorted sequence, what an element at or before position `m` compares
/// as ranks at most as high as what the element at `m` was seen to compare as,
/// and what one at or after `m` compares as ranks at least as high.
proof fn lemma_sorted_around<T, F: Fn(&T, &T) -> Ordering>(s: Seq<T>, t: T, cmp: F, m: int, c: Ordering)
    requires
        sorted_against(s, t, cmp),
        0 <= m < s.len(),
        gives(cmp, s[m], t, c),
    ensures
        forall|j: int, p: Ordering|
            0 <= j <= m && #[trigger] gives(cmp, s[j], t, p) ==> rank(p) <= rank(c),
        forall|j: int, p: Ordering|
            m <= j < s.len() && #[trigger] gives(cmp, s[j], t, p) ==> rank(c) <= rank(p),
{
}

/// Finds the first element that is not less than `target`: the lower bound
/// of a range that starts at `target`.
///
/// Returns `None` where every element is less than `target`, the empty
/// sequence included.
pub fn bsearch_ge<T, F>(arr: &[T], target: &T, cmp: F) -> (r: Option<usize>) where
    F: Fn(&T, &T) -> Ordering,

    requires
        comparator_ok(cmp),
        sorted_against(arr@, *target, cmp),
    ensures
        is_lower_bound(arr@, *target, cmp, r),
{
    let ghost s = arr@;
    let ghost t = *target;
    let mut lo: usize = 0;
    let mut hi: usize = arr.len();
    while lo < hi
        invariant
            s == arr@,
            t == *target,
            comparator_ok(cmp),
            sorted_against(s, t, cmp),
            lo <= hi <= s.len(),
            forall|j: int| 0 <= j < lo ==> #[trigger] only_gives(cmp, s[j], t, Ordering::Less),
            lo > 0 ==> gives(cmp, s[lo - 1], t, Ordering::Less),
            hi < s.len() ==> exists|p: Ordering|
                p != Ordering::Less && #[trigger] gives(cmp, s[hi as int], t, p),
        decreases hi - lo,
    {
        let mid: usize = lo + (hi - lo) / 2;
        let c = cmp(&arr[mid], target);
        proof {
            lemma_sorted_around(s, t, cmp, mid as int, c);
        }
        match c {
            Ordering::Less => {
                proof {
                    assert forall|j: int| 0 <= j <= mid implies #[trigger] only_gives(
                        cmp,
                        s[j],
                        t,
                        Ordering::Less,
                    ) by {
                        assert forall|p: Ordering| #[trigger] gives(cmp, s[j], t, p) implies p
                            == Ordering::Less by {
                            assert(rank(p) <= rank(c));
                        }
                    }
                }
                lo = mid + 1;
            },
            _ => {
                assert(gives(cmp, s[mid as int], t, c));
                hi = mid;
            },
        }
    }
    if lo < arr.len() {
        Some(lo)
    } else {
        None
    }
}

/// Finds the last element that is not greater than `target`: the upper bound
/// of a range that ends at `target`.
///
/// Returns `None` where every element is greater than `target`, the empty
/// sequence included.
pub fn bsearch_le<T, F>(arr: &[T], target: &T, cmp: F) -> (r: Option<usize>) where
    F: Fn(&T, &T) -> Ordering,

    requires
        comparator_ok(cmp),
        sorted_against(arr@, *target, cmp),
    ensures
        is_upper_bound(arr@, *target, cmp, r),
{
    let ghost s = arr@;
    let ghost t = *target;
    let mut lo: usize = 0;
    let mut hi: usize = arr.len();
    while lo < hi
        invariant
            s == arr@,
            t == *target,
            comparator_ok(cmp),
            sorted_against(s, t, cmp),
            lo <= hi <= s.len(),
            forall|j: int|
                hi <= j < s.len() ==> #[trigger] only_gives(cmp, s[j], t, Ordering::Greater),
            hi < s.len() ==> gives(cmp, s[hi as int], t, Ordering::Greater),
            lo > 0 ==> exists|p: Ordering|
                p != Ordering::Greater && #[trigger] gives(cmp, s[lo - 1], t, p),
        decreases hi - lo,
    {
        let mid: usize = lo + (hi - lo) / 2;
        let c = cmp(&arr[mid], target);
        proof {
            lemma_sorted_around(s, t, cmp, mid as int, c);
        }
        match c {
            Ordering::Greater => {
                proof {
                    assert forall|j: int| mid <= j < s.len() implies #[trigger] only_gives(
                        cmp,
                        s[j],
                        t,
                        Ordering::Greater,
                    ) by {
                        assert forall|p: Ordering| #[trigger] gives(cmp, s[j], t, p) implies p
                            == Ordering::Greater by {
                            assert(rank(c) <= rank(p));
                        }
                    }
                }
                hi = mid;
            },
            _ => {
                lo = mid + 1;
                assert(gives(cmp, s[lo - 1], t, c));
            },
        }
    }
    if lo > 0 {
        Some(lo - 1)
    } else {
        None
    }
}

/// Finds an element equal to `target`; where several are, any one of them.
///
/// Returns `None` where no element is equal to `target`.
pub fn bsearch_eq<T, F>(arr: &[T], target: &T, cmp: F) -> (r: Option<usize>) where
    F: Fn(&T, &T) -> Ordering,

    requires
        comparator_ok(cmp),
        sorted_against(arr@, *target, cmp),
    ensures
        is_match(arr@, *target, cmp, r),
{
    let ghost s = arr@;
    let ghost t = *target;
    let mut lo: usize = 0;
    let mut hi: usize = arr.len();
    while lo < hi
        invariant
            s == arr@,
            t == *target,
            comparator_ok(cmp),
            sorted_against(s, t, cmp),
            lo <= hi <= s.len(),
            forall|j: int| 0 <= j < lo ==> !(#[trigger] gives(cmp, s[j], t, Ordering::Equal)),
            forall|j: int|
                hi <= j < s.len() ==> !(#[trigger] gives(cmp, s[j], t, Ordering::Equal)),
            lo > 0 ==> gives(cmp, s[lo - 1], t, Ordering::Less),
            hi < s.len() ==> gives(cmp, s[hi as int], t, Ordering::Greater),
        decreases hi - lo,
    {
        let mid: usize = lo + (hi - lo) / 2;
        let c = cmp(&arr[mid], target);
        proof {
            lemma_sorted_around(s, t, cmp, mid as int, c);
        }
        match c {
            Ordering::Less => {
                proof {
                    assert forall|j: int| 0 <= j <= mid implies !(#[trigger] gives(
                        cmp,
                        s[j],
                        t,
                        Ordering::Equal,
                    )) by {
                        if gives(cmp, s[j], t, Ordering::Equal) {
                            assert(rank(Ordering::Equal) <= rank(c));
                        }
                    }
                }
                lo = mid + 1;
            },
            Ordering::Greater => {
                proof {
                    assert forall|j: int| mid <= j < s.len() implies !(#[trigger] gives(
                        cmp,
                        s[j],
                        t,
                        Ordering::Equal,
                    )) by {
                        if gives(cmp, s[j], t, Ordering::Equal) {
                            assert(rank(c) <= rank(Ordering::Equal));
                        }
                    }
                }
                hi = mid;
            },
            Ordering::Equal => {
                return Some(mid);
            },
        }
    }
    proof {
        assert(is_gap(s, t, cmp, lo as int));
    }
    None
}

} // verus!
