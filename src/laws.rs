//! Laws that relate several calls of the searches, proved over their contracts.
use crate::model::{
    at_most_one_equal, gives, is_lower_bound, is_match, is_upper_bound, only_gives, rank,
    sorted_against,
};
use std::cmp::Ordering;
use vstd::prelude::*;

verus! {

/// Two calls of `bsearch_ge` with the same arguments return the same result:
/// the lower bound is determined by the sequence, the target and the comparator.
pub proof fn lemma_ge_repeated_calls_agree<T, F: Fn(&T, &T) -> Ordering>(
    s: Seq<T>,
    t: T,
    cmp: F,
    r1: Option<usize>,
    r2: Option<usize>,
)
    requires
        is_lower_bound(s, t, cmp, r1),
        is_lower_bound(s, t, cmp, r2),
    ensures
        r1 == r2,
{
    match (r1, r2) {
        (Some(i), Some(j)) => {
            if i < j {
                assert(only_gives(cmp, s[i as int], t, Ordering::Less));
            } else if j < i {
                assert(only_gives(cmp, s[j as int], t, Ordering::Less));
            }
        },
        (Some(i), None) => {
            assert(only_gives(cmp, s[i as int], t, Ordering::Less));
        },
        (None, Some(j)) => {
            assert(only_gives(cmp, s[j as int], t, Ordering::Less));
        },
        (None, None) => {},
    }
}

/// Two calls of `bsearch_le` with the same arguments return the same result:
/// the upper bound is determined by the sequence, the target and the comparator.
pub proof fn lemma_le_repeated_calls_agree<T, F: Fn(&T, &T) -> Ordering>(
    s: Seq<T>,
    t: T,
    cmp: F,
    r1: Option<usize>,
    r2: Option<usize>,
)
    requires
        is_upper_bound(s, t, cmp, r1),
        is_upper_bound(s, t, cmp, r2),
    ensures
        r1 == r2,
{
    match (r1, r2) {
        (Some(i), Some(j)) => {
            if i < j {
                assert(only_gives(cmp, s[j as int], t, Ordering::Greater));
            } else if j < i {
                assert(only_gives(cmp, s[i as int], t, Ordering::Greater));
            }
        },
        (Some(i), None) => {
            assert(only_gives(cmp, s[i as int], t, Ordering::Greater));
        },
        (None, Some(j)) => {
            assert(only_gives(cmp, s[j as int], t, Ordering::Greater));
        },
        (None, None) => {},
    }
}

/// Two calls of `bsearch_eq` with the same arguments return the same result
/// where the sequence holds no two elements equal to the target.
pub proof fn lemma_eq_repeated_calls_agree<T, F: Fn(&T, &T) -> Ordering>(
    s: Seq<T>,
    t: T,
    cmp: F,
    r1: Option<usize>,
    r2: Option<usize>,
)
    requires
        at_most_one_equal(s, t, cmp),
        is_match(s, t, cmp, r1),
        is_match(s, t, cmp, r2),
    ensures
        r1 == r2,
{
    match (r1, r2) {
        (Some(i), Some(j)) => {
            assert(gives(cmp, s[i as int], t, Ordering::Equal));
            assert(gives(cmp, s[j as int], t, Ordering::Equal));
        },
        (Some(i), None) => {
            assert(gives(cmp, s[i as int], t, Ordering::Equal));
        },
        (None, Some(j)) => {
            assert(gives(cmp, s[j as int], t, Ordering::Equal));
        },
        (None, None) => {},
    }
}

/// In a sequence sorted as seen from `lo` and from `hi`, a lower bound `a`
/// for `lo` and an upper bound `b` for `hi` with `a <= b` delimit a range
/// query: every element at a position in `a..=b` is not less than `lo` and
/// not greater than `hi`, and every element at another position is less
/// than `lo` or greater than `hi`.
pub proof fn lemma_range_composition<T, F: Fn(&T, &T) -> Ordering>(
    s: Seq<T>,
    lo: T,
    hi: T,
    cmp: F,
    a: usize,
    b: usize,
)
    requires
        sorted_against(s, lo, cmp),
        sorted_against(s, hi, cmp),
        is_lower_bound(s, lo, cmp, Some(a)),
        is_upper_bound(s, hi, cmp, Some(b)),
        a <= b,
    ensures
        forall|k: int, p: Ordering|
            a <= k <= b && #[trigger] gives(cmp, s[k], lo, p) ==> p != Ordering::Less,
        forall|k: int, q: Ordering|
            a <= k <= b && #[trigger] gives(cmp, s[k], hi, q) ==> q != Ordering::Greater,
        forall|k: int| 0 <= k < a ==> #[trigger] only_gives(cmp, s[k], lo, Ordering::Less),
        forall|k: int|
            b < k < s.len() ==> #[trigger] only_gives(cmp, s[k], hi, Ordering::Greater),
{
    let pa = choose|p: Ordering| p != Ordering::Less && #[trigger] gives(cmp, s[a as int], lo, p);
    let qb = choose|q: Ordering| q != Ordering::Greater && #[trigger] gives(cmp, s[b as int], hi, q);
    assert forall|k: int, p: Ordering| a <= k <= b && #[trigger] gives(cmp, s[k], lo, p) implies p
        != Ordering::Less by {
        assert(rank(pa) <= rank(p));
    }
    assert forall|k: int, q: Ordering| a <= k <= b && #[trigger] gives(cmp, s[k], hi, q) implies q
        != Ordering::Greater by {
        assert(rank(q) <= rank(qb));
    }
}

} // verus!
