//! Facts about sorting by the natural order of the keys, proved from the
//! contract of `sort`.
use vstd::prelude::*;
use std::cmp::Ordering;
use crate::merge_insertion::is_merge_insertion_of;
use crate::order::{
    answers_by, ascending, is_sorting_of, is_weak_order_on, le_by, natural_order, orders_naturally,
    sorted_by,
};

verus! {

/// The natural order of the keys is a strict weak ordering, under which "may
/// stand before" is `<=`.
pub proof fn natural_order_is_weak(keys: Seq<usize>)
    ensures
        is_weak_order_on(natural_order(), keys),
        forall|a: usize, b: usize| #[trigger] le_by(natural_order(), a, b) <==> a <= b,
{
}

/// A comparator that answers as the natural order does answers by it, on
/// any keys.
pub proof fn natural_comparator_answers_by_natural_order<F>(cmp: F, keys: Seq<usize>)
    where
        F: FnMut(usize, usize) -> Ordering,
    requires
        orders_naturally(cmp),
    ensures
        answers_by(cmp, natural_order(), keys),
{
    natural_order_is_weak(keys);
}

/// Two ascending sequences that hold the same keys, each as often, are equal.
pub proof fn ascending_arrangement_is_unique(s: Seq<usize>, t: Seq<usize>)
    requires
        ascending(s),
        ascending(t),
        s.to_multiset() == t.to_multiset(),
    ensures
        s == t,
    decreases s.len(),
{
    s.to_multiset_ensures();
    t.to_multiset_ensures();
    if s.len() == 0 {
        assert(s =~= t);
    } else {
        assert(s.contains(s[0]));
        assert(s.to_multiset().count(s[0]) > 0);
        assert(t.contains(s[0]));
        assert(t.contains(t[0]));
        assert(t.to_multiset().count(t[0]) > 0);
        assert(s.contains(t[0]));
        let k = choose|k: int| 0 <= k < t.len() && t[k] == s[0];
        let m = choose|m: int| 0 <= m < s.len() && s[m] == t[0];
        assert(t[0] <= t[k]);
        assert(s[0] <= s[m]);
        assert(s.remove(0) =~= s.drop_first());
        assert(t.remove(0) =~= t.drop_first());
        assert(s[0] == t[0]);
        assert(s.remove(0).to_multiset() == s.to_multiset().remove(s[0]));
        assert(t.remove(0).to_multiset() == t.to_multiset().remove(t[0]));
        assert(s.len() == t.len());
        ascending_arrangement_is_unique(s.drop_first(), t.drop_first());
        assert forall|i: int| 0 < i < s.len() implies s[i] == t[i] by {
            assert(s.drop_first()[i - 1] == t.drop_first()[i - 1]);
        }
        assert(s =~= t);
    }
}

/// Sorting by the natural order gives an ascending arrangement of the same
/// keys, duplicates included.
pub proof fn natural_sort_is_ascending<F>(cmp: F, before: Seq<usize>, after: Seq<usize>)
    where
        F: FnMut(usize, usize) -> Ordering,
    requires
        orders_naturally(cmp),
        is_sorting_of(cmp, before, after),
    ensures
        after.to_multiset() == before.to_multiset(),
        ascending(after),
{
    natural_comparator_answers_by_natural_order(cmp, before);
    natural_order_is_weak(before);
    assert forall|i: int, j: int| 0 <= i < j < after.len() implies after[i] <= after[j] by {
        assert(le_by(natural_order(), after[i], after[j]));
    }
}

/// Sorting by the natural order gives exactly what any other correct sort of
/// the same keys gives.
pub proof fn natural_sort_agrees_with_any_sort<F>(
    cmp: F,
    before: Seq<usize>,
    after: Seq<usize>,
    other: Seq<usize>,
)
    where
        F: FnMut(usize, usize) -> Ordering,
    requires
        orders_naturally(cmp),
        is_sorting_of(cmp, before, after),
        other.to_multiset() == before.to_multiset(),
        ascending(other),
    ensures
        after == other,
{
    natural_sort_is_ascending(cmp, before, after);
    ascending_arrangement_is_unique(after, other);
}

/// Sorting an input that is already ascending, by the natural order, leaves
/// it as it was.
pub proof fn natural_sort_keeps_sorted_input<F>(cmp: F, before: Seq<usize>, after: Seq<usize>)
    where
        F: FnMut(usize, usize) -> Ordering,
    requires
        orders_naturally(cmp),
        ascending(before),
        is_sorting_of(cmp, before, after),
    ensures
        after == before,
{
    natural_sort_agrees_with_any_sort(cmp, before, after, before);
}

/// Two sorts of the same input, by comparators that answer by the same
/// ordering on its keys, give the same result.
pub proof fn same_answers_same_result<F, G>(
    first: F,
    second: G,
    ord: spec_fn(usize, usize) -> Ordering,
    before: Seq<usize>,
    after_first: Seq<usize>,
    after_second: Seq<usize>,
)
    where
        F: FnMut(usize, usize) -> Ordering,
        G: FnMut(usize, usize) -> Ordering,
    requires
        answers_by(first, ord, before),
        answers_by(second, ord, before),
        is_merge_insertion_of(first, before, after_first),
        is_merge_insertion_of(second, before, after_second),
    ensures
        after_first == after_second,
{
}

/// `ord` answers `Equal` on the keys of `keys` only for a key and itself.
pub open spec fn ties_only_equal(ord: spec_fn(usize, usize) -> Ordering, keys: Seq<usize>) -> bool {
    forall|a: usize, b: usize|
        keys.contains(a) && keys.contains(b) && #[trigger] ord(a, b) == Ordering::Equal ==> a == b
}

/// Two sequences of keys of `keys`, sorted by an ordering that ties no two
/// different keys, and holding the same keys as often, are equal.
pub proof fn sorted_arrangement_is_unique(
    ord: spec_fn(usize, usize) -> Ordering,
    keys: Seq<usize>,
    s: Seq<usize>,
    t: Seq<usize>,
)
    requires
        is_weak_order_on(ord, keys),
        ties_only_equal(ord, keys),
        forall|p: int| 0 <= p < s.len() ==> keys.contains(#[trigger] s[p]),
        forall|p: int| 0 <= p < t.len() ==> keys.contains(#[trigger] t[p]),
        sorted_by(ord, s),
        sorted_by(ord, t),
        s.to_multiset() == t.to_multiset(),
    ensures
        s == t,
    decreases s.len(),
{
    s.to_multiset_ensures();
    t.to_multiset_ensures();
    if s.len() == 0 {
        assert(s =~= t);
    } else {
        assert(s.contains(s[0]));
        assert(s.to_multiset().count(s[0]) > 0);
        assert(t.contains(s[0]));
        assert(t.contains(t[0]));
        assert(t.to_multiset().count(t[0]) > 0);
        assert(s.contains(t[0]));
        let k = choose|k: int| 0 <= k < t.len() && t[k] == s[0];
        let m = choose|m: int| 0 <= m < s.len() && s[m] == t[0];
        assert(keys.contains(s[0]) && keys.contains(t[0]));
        if k > 0 {
            assert(le_by(ord, t[0], t[k]));
        }
        if m > 0 {
            assert(le_by(ord, s[0], s[m]));
        }
        assert(ord(s[0], t[0]) == crate::order::flipped(ord(t[0], s[0])));
        assert(s[0] == t[0]);
        assert(s.remove(0) =~= s.drop_first());
        assert(t.remove(0) =~= t.drop_first());
        assert(s.remove(0).to_multiset() == s.to_multiset().remove(s[0]));
        assert(t.remove(0).to_multiset() == t.to_multiset().remove(t[0]));
        let s1 = s.drop_first();
        let t1 = t.drop_first();
        assert forall|i: int, j: int| 0 <= i < j < s1.len() implies le_by(ord, #[trigger] s1[i], #[trigger] s1[j]) by {
            assert(s1[i] == s[i + 1] && s1[j] == s[j + 1]);
        }
        assert forall|i: int, j: int| 0 <= i < j < t1.len() implies le_by(ord, #[trigger] t1[i], #[trigger] t1[j]) by {
            assert(t1[i] == t[i + 1] && t1[j] == t[j + 1]);
        }
        assert forall|p: int| 0 <= p < s1.len() implies keys.contains(#[trigger] s1[p]) by {
            assert(s1[p] == s[p + 1]);
        }
        assert forall|p: int| 0 <= p < t1.len() implies keys.contains(#[trigger] t1[p]) by {
            assert(t1[p] == t[p + 1]);
        }
        sorted_arrangement_is_unique(ord, keys, s1, t1);
        assert forall|i: int| 0 < i < s.len() implies s[i] == t[i] by {
            assert(s1[i - 1] == t1[i - 1]);
        }
        assert(s =~= t);
    }
}

/// Sorting an input that is already sorted, by a comparator that answers by
/// an ordering that ties no two different keys of it, leaves it as it was.
pub proof fn sorting_sorted_input_keeps_it<F>(
    cmp: F,
    ord: spec_fn(usize, usize) -> Ordering,
    before: Seq<usize>,
    after: Seq<usize>,
)
    where
        F: FnMut(usize, usize) -> Ordering,
    requires
        answers_by(cmp, ord, before),
        ties_only_equal(ord, before),
        sorted_by(ord, before),
        is_sorting_of(cmp, before, after),
    ensures
        after == before,
{
    before.to_multiset_ensures();
    after.to_multiset_ensures();
    assert forall|p: int| 0 <= p < before.len() implies before.contains(#[trigger] before[p]) by {}
    assert forall|p: int| 0 <= p < after.len() implies before.contains(#[trigger] after[p]) by {
        assert(after.contains(after[p]));
        assert(after.to_multiset().count(after[p]) > 0);
    }
    sorted_arrangement_is_unique(ord, before, after, before);
}

} // verus!
