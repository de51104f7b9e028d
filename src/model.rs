//! The mathematical model of a search: the orderings that the comparator may
//! give for the elements against the target, and what each search returns.
//!
//! Of a comparator Verus knows which outcomes a call may return
//! (`cmp.ensures`), not that some outcome exists. So each result below comes
//! with the outcomes that decided it, one or two calls that the search made:
//! a caller who knows what the comparator returns can then tell the result
//! apart from every other index.
use std::cmp::Ordering;
use vstd::prelude::*;

verus! {

/// The comparator may be called on any two elements.
pub open spec fn comparator_ok<T, F: Fn(&T, &T) -> Ordering>(cmp: F) -> bool {
    forall|a: &T, b: &T| #[trigger] cmp.requires((a, b))
}

/// A call of the comparator on `a` and `b` may return `o`.
pub open spec fn gives<T, F: Fn(&T, &T) -> Ordering>(cmp: F, a: T, b: T, o: Ordering) -> bool {
    cmp.ensures((&a, &b), o)
}

/// Every ordering that the comparator may give for `a` against `b` is `o`.
pub open spec fn only_gives<T, F: Fn(&T, &T) -> Ordering>(cmp: F, a: T, b: T, o: Ordering) -> bool {
    forall|p: Ordering| #[trigger] gives(cmp, a, b, p) ==> p == o
}

/// `Less` before `Equal` before `Greater`.
pub open spec fn rank(o: Ordering) -> int {
    match o {
        Ordering::Less => 0,
        Ordering::Equal => 1,
        Ordering::Greater => 2,
    }
}

/// As seen from the target `t`, the sequence is sorted: the orderings of its
/// elements against `t` never step back from `Greater` to `Equal` or from
/// `Equal` to `Less`. Taking `i == j`, each element has one ordering against
/// `t`: the comparator is a function there.
pub open spec fn sorted_against<T, F: Fn(&T, &T) -> Ordering>(s: Seq<T>, t: T, cmp: F) -> bool {
    forall|i: int, j: int, p: Ordering, q: Ordering|
        0 <= i <= j < s.len() && #[trigger] gives(cmp, s[i], t, p) && #[trigger] gives(
            cmp,
            s[j],
            t,
            q,
        ) ==> rank(p) <= rank(q)
}

/// No two positions hold elements equal to the target.
pub open spec fn at_most_one_equal<T, F: Fn(&T, &T) -> Ordering>(s: Seq<T>, t: T, cmp: F) -> bool {
    forall|i: int, j: int|
        0 <= i < s.len() && 0 <= j < s.len() && #[trigger] gives(cmp, s[i], t, Ordering::Equal)
            && #[trigger] gives(cmp, s[j], t, Ordering::Equal) ==> i == j
}

/// `k` is where the target would be inserted: the element before it is less
/// than the target and the element at it greater.
pub open spec fn is_gap<T, F: Fn(&T, &T) -> Ordering>(s: Seq<T>, t: T, cmp: F, k: int) -> bool {
    &&& 0 <= k <= s.len()
    &&& k > 0 ==> gives(cmp, s[k - 1], t, Ordering::Less)
    &&& k < s.len() ==> gives(cmp, s[k], t, Ordering::Greater)
}

/// `r` is the lower bound of `t`: the first position whose element is not
/// less than `t`, or `None` where every element is less.
pub open spec fn is_lower_bound<T, F: Fn(&T, &T) -> Ordering>(
    s: Seq<T>,
    t: T,
    cmp: F,
    r: Option<usize>,
) -> bool {
    match r {
        Some(i) => {
            &&& i < s.len()
            &&& exists|p: Ordering| p != Ordering::Less && #[trigger] gives(cmp, s[i as int], t, p)
            &&& i > 0 ==> gives(cmp, s[i - 1], t, Ordering::Less)
            &&& forall|j: int| 0 <= j < i ==> #[trigger] only_gives(cmp, s[j], t, Ordering::Less)
        },
        None => {
            &&& s.len() > 0 ==> gives(cmp, s[s.len() - 1], t, Ordering::Less)
            &&& forall|j: int|
                0 <= j < s.len() ==> #[trigger] only_gives(cmp, s[j], t, Ordering::Less)
        },
    }
}

/// `r` is the upper bound of `t`: the last position whose element is not
/// greater than `t`, or `None` where every element is greater.
pub open spec fn is_upper_bound<T, F: Fn(&T, &T) -> Ordering>(
    s: Seq<T>,
    t: T,
    cmp: F,
    r: Option<usize>,
) -> bool {
    match r {
        Some(i) => {
            &&& i < s.len()
            &&& exists|p: Ordering|
                p != Ordering::Greater && #[trigger] gives(cmp, s[i as int], t, p)
            &&& i + 1 < s.len() ==> gives(cmp, s[i + 1], t, Ordering::Greater)
            &&& forall|j: int|
                i < j < s.len() ==> #[trigger] only_gives(cmp, s[j], t, Ordering::Greater)
        },
        None => {
            &&& s.len() > 0 ==> gives(cmp, s[0], t, Ordering::Greater)
            &&& forall|j: int|
                0 <= j < s.len() ==> #[trigger] only_gives(cmp, s[j], t, Ordering::Greater)
        },
    }
}

/// `r` is a match of `t`: a position whose element is equal to `t`, or `None`
/// where no element is, and `t` falls into a gap between the elements.
pub open spec fn is_match<T, F: Fn(&T, &T) -> Ordering>(
    s: Seq<T>,
    t: T,
    cmp: F,
    r: Option<usize>,
) -> bool {
    match r {
        Some(i) => i < s.len() && gives(cmp, s[i as int], t, Ordering::Equal),
        None => {
            &&& exists|k: int| is_gap(s, t, cmp, k)
            &&& forall|j: int|
                0 <= j < s.len() ==> !(#[trigger] gives(cmp, s[j], t, Ordering::Equal))
        },
    }
}

} // verus!
