//! Orderings of keys, what it means for a comparator to answer by one, and
//! for a sequence to be sorted by one.
use vstd::prelude::*;
use std::cmp::Ordering;

verus! {

/// The answer for `(b, a)` that matches `o` for `(a, b)`.
pub open spec fn flipped(o: Ordering) -> Ordering {
    match o {
        Ordering::Less => Ordering::Greater,
        Ordering::Equal => Ordering::Equal,
        Ordering::Greater => Ordering::Less,
    }
}

/// Under `ord`, `a` may stand before `b`: `ord` does not put `a` after `b`.
pub open spec fn le_by(ord: spec_fn(usize, usize) -> Ordering, a: usize, b: usize) -> bool {
    ord(a, b) != Ordering::Greater
}

/// On the keys of `keys`, `ord` is a strict weak ordering given as a
/// three-way comparison: swapped arguments give the flipped answer, and "may
/// stand before" is transitive.
pub open spec fn is_weak_order_on(ord: spec_fn(usize, usize) -> Ordering, keys: Seq<usize>) -> bool {
    &&& forall|a: usize, b: usize|
        keys.contains(a) && keys.contains(b) ==> #[trigger] ord(a, b) == flipped(ord(b, a))
    &&& forall|a: usize, b: usize, c: usize|
        keys.contains(a) && keys.contains(b) && keys.contains(c) && #[trigger] le_by(ord, a, b)
            && #[trigger] le_by(ord, b, c) ==> le_by(ord, a, c)
}

/// On the keys of `keys`, `ord` is a strict weak ordering, and every answer
/// the comparator can give for a pair of those keys is the answer of `ord`.
pub open spec fn answers_by<F: FnMut(usize, usize) -> Ordering>(
    cmp: F,
    ord: spec_fn(usize, usize) -> Ordering,
    keys: Seq<usize>,
) -> bool {
    &&& is_weak_order_on(ord, keys)
    &&& forall|a: usize, b: usize, o: Ordering|
        keys.contains(a) && keys.contains(b) && #[trigger] call_ensures(cmp, (a, b), o) ==> o == ord(
            a,
            b,
        )
}

/// Under `ord`, every element may stand before every later one.
pub open spec fn sorted_by(ord: spec_fn(usize, usize) -> Ordering, s: Seq<usize>) -> bool {
    forall|i: int, j: int| 0 <= i < j < s.len() ==> le_by(ord, #[trigger] s[i], #[trigger] s[j])
}

/// The comparator can be called on every pair of keys of `keys`.
pub open spec fn callable<F: FnMut(usize, usize) -> Ordering>(cmp: F, keys: Seq<usize>) -> bool {
    forall|a: usize, b: usize| keys.contains(a) && keys.contains(b) ==> call_requires(cmp, (a, b))
}

/// `after` holds the keys of `before`, each as often, and is sorted by every
/// ordering that `cmp` answers by on those keys.
pub open spec fn is_sorting_of<F: FnMut(usize, usize) -> Ordering>(
    cmp: F,
    before: Seq<usize>,
    after: Seq<usize>,
) -> bool {
    &&& after.to_multiset() == before.to_multiset()
    &&& forall|ord: spec_fn(usize, usize) -> Ordering| #[trigger]
        answers_by(cmp, ord, before) ==> sorted_by(ord, after)
}

/// How the natural order of the keys compares `a` with `b`.
pub open spec fn natural(a: usize, b: usize) -> Ordering {
    if a < b {
        Ordering::Less
    } else if a == b {
        Ordering::Equal
    } else {
        Ordering::Greater
    }
}

/// The natural order of the keys, as a three-way comparison.
pub open spec fn natural_order() -> spec_fn(usize, usize) -> Ordering {
    |a: usize, b: usize| natural(a, b)
}

/// Every answer the comparator can give is that of the natural order.
pub open spec fn orders_naturally<F: FnMut(usize, usize) -> Ordering>(cmp: F) -> bool {
    forall|a: usize, b: usize, o: Ordering| #[trigger]
        call_ensures(cmp, (a, b), o) ==> o == natural(a, b)
}

/// Each key is at most the next.
pub open spec fn ascending(s: Seq<usize>) -> bool {
    forall|i: int, j: int| 0 <= i < j < s.len() ==> s[i] <= s[j]
}

} // verus!
