//! The merge-insertion sorter and its binary search.
use vstd::prelude::*;
use std::cmp::Ordering;
use crate::order::{answers_by, callable, flipped, is_sorting_of, is_weak_order_on, le_by, sorted_by};
use crate::partners::PartnerStacks;

verus! {

/// Where the binary search for `x` in `s[lo..hi]` ends when `ord` gives the
/// answers: it probes the middle, stops there on `Equal`, and goes on in the
/// left half on `Less` and in the right half on `Greater`.
pub open spec fn search_of(
    ord: spec_fn(usize, usize) -> Ordering,
    x: usize,
    s: Seq<usize>,
    lo: int,
    hi: int,
) -> int
    decreases hi - lo,
{
    if hi <= lo {
        lo
    } else {
        let mid = lo + (hi - lo) / 2;
        match ord(x, s[mid]) {
            Ordering::Equal => mid,
            Ordering::Less => search_of(ord, x, s, lo, mid),
            Ordering::Greater => search_of(ord, x, s, mid + 1, hi),
        }
    }
}

/// Every key of `s[0..end]` is a key of `keys`.
pub open spec fn within(s: Seq<usize>, end: int, keys: Seq<usize>) -> bool {
    forall|p: int| 0 <= p < end ==> keys.contains(#[trigger] s[p])
}

/// What one probe of a sorted window tells: the probed key may stand after
/// everything before it and before everything after it, and the two argument
/// orders of a comparison give flipped answers.
proof fn lemma_probe(
    ord: spec_fn(usize, usize) -> Ordering,
    keys: Seq<usize>,
    s: Seq<usize>,
    end: int,
    x: usize,
    mid: int,
)
    requires
        is_weak_order_on(ord, keys),
        keys.contains(x),
        within(s, end, keys),
        0 <= mid < end <= s.len(),
        sorted_by(ord, s.subrange(0, end)),
    ensures
        forall|j: int| 0 <= j < mid ==> le_by(ord, #[trigger] s[j], s[mid]),
        forall|j: int| mid < j < end ==> le_by(ord, s[mid], #[trigger] s[j]),
        ord(s[mid], x) == flipped(ord(x, s[mid])),
{
    let w = s.subrange(0, end);
    assert(w[mid] == s[mid]);
    assert(keys.contains(s[mid]));
    assert forall|j: int| 0 <= j < mid implies le_by(ord, #[trigger] s[j], s[mid]) by {
        assert(w[j] == s[j]);
    }
    assert forall|j: int| mid < j < end implies le_by(ord, s[mid], #[trigger] s[j]) by {
        assert(w[j] == s[j]);
    }
}

/// `r` is a place for `x` among `xs[0..end]` under `ord`: every key before it
/// may stand before `x`, and `x` may stand before every key from it on.
pub open spec fn fits_at(ord: spec_fn(usize, usize) -> Ordering, x: usize, xs: Seq<usize>, r: int, end: int) -> bool {
    &&& forall|j: int| 0 <= j < r ==> le_by(ord, #[trigger] xs[j], x)
    &&& forall|j: int| r <= j < end ==> le_by(ord, x, #[trigger] xs[j])
}

/// Finds where `x` goes among the sorted keys `xs[0..end]`, by binary search.
/// A key that compares `Equal` to `x` ends the search at once, so among equal
/// keys the place is the one probed, not necessarily the leftmost.
pub(crate) fn find_insert_point<F>(
    x: usize,
    xs: &[usize],
    end: usize,
    cmp: &mut F,
    Ghost(keys): Ghost<Seq<usize>>,
) -> (r: usize)
    where
        F: FnMut(usize, usize) -> Ordering,
    requires
        end <= xs.len(),
        keys.contains(x),
        within(xs@, end as int, keys),
        callable(*old(cmp), keys),
    ensures
        *final(cmp) == *old(cmp),
        r <= end,
        forall|ord: spec_fn(usize, usize) -> Ordering| #[trigger] answers_by(*old(cmp), ord, keys) ==> {
            &&& r == search_of(ord, x, xs@, 0, end as int)
            &&& sorted_by(ord, xs@.subrange(0, end as int)) ==> fits_at(ord, x, xs@, r as int, end as int)
        },
{
    let ghost f = *cmp;
    let mut lo: usize = 0;
    let mut hi: usize = end;
    while hi > lo
        invariant
            *cmp == f,
            f == *old(cmp),
            callable(f, keys),
            keys.contains(x),
            within(xs@, end as int, keys),
            lo <= hi <= end <= xs.len(),
            forall|ord: spec_fn(usize, usize) -> Ordering| #[trigger] answers_by(f, ord, keys) ==> {
                &&& search_of(ord, x, xs@, lo as int, hi as int) == search_of(ord, x, xs@, 0, end as int)
                &&& sorted_by(ord, xs@.subrange(0, end as int)) ==> {
                    &&& forall|j: int| 0 <= j < lo ==> le_by(ord, #[trigger] xs@[j], x)
                    &&& forall|j: int| hi <= j < end ==> le_by(ord, x, #[trigger] xs@[j])
                }
            },
        decreases hi - lo,
    {
        let mid = lo + (hi - lo) / 2;
        let m = xs[mid];
        assert(keys.contains(m));
        let o = cmp(x, m);
        proof {
            assert forall|ord: spec_fn(usize, usize) -> Ordering| #[trigger] answers_by(f, ord, keys) implies {
                &&& o == ord(x, m)
                &&& sorted_by(ord, xs@.subrange(0, end as int)) ==> {
                    &&& forall|j: int| 0 <= j < mid ==> le_by(ord, #[trigger] xs@[j], m)
                    &&& forall|j: int| mid < j < end ==> le_by(ord, m, #[trigger] xs@[j])
                    &&& ord(m, x) == flipped(ord(x, m))
                }
            } by {
                if sorted_by(ord, xs@.subrange(0, end as int)) {
                    lemma_probe(ord, keys, xs@, end as int, x, mid as int);
                }
            }
        }
        match o {
            Ordering::Equal => {
                assert forall|ord: spec_fn(usize, usize) -> Ordering| #[trigger] answers_by(f, ord, keys)
                    && sorted_by(ord, xs@.subrange(0, end as int)) implies fits_at(ord, x, xs@, mid as int, end as int) by {
                    assert(le_by(ord, m, x) && le_by(ord, x, m));
                }
                return mid;
            },
            Ordering::Less => {
                assert forall|ord: spec_fn(usize, usize) -> Ordering| #[trigger] answers_by(f, ord, keys)
                    && sorted_by(ord, xs@.subrange(0, end as int)) implies
                    forall|j: int| mid <= j < end ==> le_by(ord, x, #[trigger] xs@[j]) by {
                    assert(le_by(ord, x, m));
                }
                hi = mid;
            },
            Ordering::Greater => {
                assert forall|ord: spec_fn(usize, usize) -> Ordering| #[trigger] answers_by(f, ord, keys)
                    && sorted_by(ord, xs@.subrange(0, end as int)) implies
                    forall|j: int| 0 <= j <= mid ==> le_by(ord, #[trigger] xs@[j], x) by {
                    assert(le_by(ord, m, x));
                }
                lo = mid + 1;
            },
        }
    }
    lo
}

/// `s` with `s[idx..end]` shifted one place to the right, over the key at
/// `end`, and `v` written at `idx`.
pub open spec fn shifted_in(s: Seq<usize>, idx: int, end: int, v: usize) -> Seq<usize> {
    s.subrange(0, idx).push(v) + s.subrange(idx, end) + s.subrange(end + 1, s.len() as int)
}

/// Shifts `xs[idx..end]` one place to the right, over the key at `end`, and
/// writes `v` at `idx`.
fn insert_at(xs: &mut [usize], idx: usize, end: usize, v: usize)
    requires
        idx <= end < old(xs).len(),
    ensures
        final(xs)@ == shifted_in(old(xs)@, idx as int, end as int, v),
{
    let ghost o = xs@;
    let mut k: usize = end;
    while k > idx
        invariant
            idx <= k <= end < xs.len(),
            xs.len() == o.len(),
            forall|p: int| 0 <= p <= k ==> xs@[p] == o[p],
            forall|p: int| k < p <= end ==> xs@[p] == o[p - 1],
            forall|p: int| end < p < o.len() ==> xs@[p] == o[p],
        decreases k,
    {
        let prev = xs[k - 1];
        xs[k] = prev;
        k -= 1;
    }
    xs[idx] = v;
    assert(xs@ =~= o.subrange(0, idx as int).push(v) + o.subrange(idx as int, end as int)
        + o.subrange(end + 1, o.len() as int));
}

/// A prefix of a sorted sequence is sorted.
proof fn lemma_sorted_prefix(ord: spec_fn(usize, usize) -> Ordering, s: Seq<usize>, m: int)
    requires
        sorted_by(ord, s),
        0 <= m <= s.len(),
    ensures
        sorted_by(ord, s.subrange(0, m)),
{
    let t = s.subrange(0, m);
    assert forall|i: int, j: int| 0 <= i < j < t.len() implies le_by(ord, #[trigger] t[i], #[trigger] t[j]) by {
        assert(t[i] == s[i] && t[j] == s[j]);
    }
}

/// Putting `y` where everything before may precede it, and it may precede
/// everything after, keeps a sorted sequence sorted.
proof fn lemma_insert_sorted(
    ord: spec_fn(usize, usize) -> Ordering,
    keys: Seq<usize>,
    s: Seq<usize>,
    idx: int,
    y: usize,
)
    requires
        is_weak_order_on(ord, keys),
        keys.contains(y),
        within(s, s.len() as int, keys),
        sorted_by(ord, s),
        0 <= idx <= s.len(),
        forall|q: int| 0 <= q < idx ==> le_by(ord, #[trigger] s[q], y),
        forall|q: int| idx <= q < s.len() ==> le_by(ord, y, #[trigger] s[q]),
    ensures
        sorted_by(ord, s.subrange(0, idx).push(y) + s.subrange(idx, s.len() as int)),
{
    let t = s.subrange(0, idx).push(y) + s.subrange(idx, s.len() as int);
    assert forall|p: int, q: int| 0 <= p < q < t.len() implies le_by(ord, #[trigger] t[p], #[trigger] t[q]) by {
        if p < idx {
            assert(t[p] == s[p]);
            if q < idx {
                assert(t[q] == s[q]);
            } else if q > idx {
                assert(t[q] == s[q - 1]);
                assert(le_by(ord, s[p], s[q - 1]));
            }
        } else if p == idx {
            assert(t[q] == s[q - 1]);
        } else {
            assert(t[p] == s[p - 1] && t[q] == s[q - 1]);
            assert(le_by(ord, s[p - 1], s[q - 1]));
        }
    }
}

/// Putting `y` into a sequence adds it to the sequence's multiset.
proof fn lemma_insert_multiset(a: Seq<usize>, b: Seq<usize>, y: usize)
    ensures
        (a.push(y) + b).to_multiset() =~= (a + b).to_multiset().insert(y),
{
    broadcast use vstd::seq_lib::group_to_multiset_ensures, vstd::multiset::group_multiset_axioms;
    vstd::seq_lib::lemma_multiset_commutative(a.push(y), b);
    vstd::seq_lib::lemma_multiset_commutative(a, b);
}

/// The winner of each recorded pair in turn.
spec fn winners(pairs: Seq<(usize, usize)>) -> Seq<usize> {
    pairs.map_values(|e: (usize, usize)| e.0)
}

/// The partner of each recorded pair in turn.
spec fn losers(pairs: Seq<(usize, usize)>) -> Seq<usize> {
    pairs.map_values(|e: (usize, usize)| e.1)
}

/// For every ordering that `cmp` answers by on the keys of `before`, `after`
/// is what merge insertion makes of `before` under that ordering.
pub open spec fn is_merge_insertion_of<F: FnMut(usize, usize) -> Ordering>(
    cmp: F,
    before: Seq<usize>,
    after: Seq<usize>,
) -> bool {
    forall|ord: spec_fn(usize, usize) -> Ordering| #[trigger]
        answers_by(cmp, ord, before) ==> after == merge_insertion_of(ord, before, before.len() as int)
}

/// The index of the last pair in `pairs` whose winner is `key`, or -1.
pub open spec fn last_with(pairs: Seq<(usize, usize)>, key: usize) -> int
    decreases pairs.len(),
{
    if pairs.len() == 0 {
        -1
    } else if pairs.last().0 == key {
        pairs.len() - 1
    } else {
        last_with(pairs.drop_last(), key)
    }
}

/// The first `i` steps of the pairing pass over `s` with `half` pairs, when
/// `ord` gives the answers: the keys after them, and the pairs recorded.
pub open spec fn pairing_of(ord: spec_fn(usize, usize) -> Ordering, s: Seq<usize>, half: int, i: int) -> (
    Seq<usize>,
    Seq<(usize, usize)>,
)
    decreases i,
{
    if i <= 0 {
        (s, Seq::empty())
    } else {
        let (t, pairs) = pairing_of(ord, s, half, i - 1);
        let a = t[i - 1];
        let b = t[i - 1 + half];
        let u = if ord(a, b) == Ordering::Less {
            t.update(i - 1, b).update(i - 1 + half, a)
        } else {
            t
        };
        (u, pairs.push((u[i - 1], u[i - 1 + half])))
    }
}

/// The first `i` insertions of partners into the sorted winners of `s`, when
/// `ord` gives the answers: the keys after them, and the pairs left.
pub open spec fn merging_of(
    ord: spec_fn(usize, usize) -> Ordering,
    s: Seq<usize>,
    pairs: Seq<(usize, usize)>,
    half: int,
    i: int,
) -> (Seq<usize>, Seq<(usize, usize)>)
    decreases i,
{
    if i <= 0 {
        (s, pairs)
    } else {
        let (t, rest) = merging_of(ord, s, pairs, half, i - 1);
        let j = last_with(rest, t[2 * (i - 1)]);
        let y = rest[j].1;
        let idx = search_of(ord, y, t, 0, 2 * (i - 1));
        (shifted_in(t, idx, half + i - 1, y), rest.remove(j))
    }
}

/// What merge insertion makes of `s[0..n]` when `ord` gives the answers.
pub open spec fn merge_insertion_of(ord: spec_fn(usize, usize) -> Ordering, s: Seq<usize>, n: int) -> Seq<usize>
    decreases n,
{
    if n < 2 {
        s
    } else {
        let half = n / 2;
        let (t, pairs) = pairing_of(ord, s, half, half);
        let u = merge_insertion_of(ord, t, half);
        let (v, rest) = merging_of(ord, u, pairs, half, half);
        if n % 2 == 1 {
            let idx = search_of(ord, v[n - 1], v, 0, n - 1);
            shifted_in(v, idx, n - 1, v[n - 1])
        } else {
            v
        }
    }
}

/// The last pair with a given winner is the one `last_with` names.
proof fn lemma_last_with(pairs: Seq<(usize, usize)>, key: usize, j: int)
    requires
        0 <= j < pairs.len(),
        pairs[j].0 == key,
        forall|q: int| j < q < pairs.len() ==> (#[trigger] pairs[q]).0 != key,
    ensures
        last_with(pairs, key) == j,
    decreases pairs.len(),
{
    if j < pairs.len() - 1 {
        assert(pairs.last() == pairs[pairs.len() - 1]);
        let d = pairs.drop_last();
        assert forall|q: int| j < q < d.len() implies (#[trigger] d[q]).0 != key by {
            assert(d[q] == pairs[q]);
        }
        lemma_last_with(d, key, j);
    }
}

/// Sorts `xs[0..n]` in place by merge insertion, leaving the rest of `xs`
/// as it was.
#[verifier::rlimit(60)]
fn sort_prefix<F>(xs: &mut [usize], n: usize, cmp: &mut F, Ghost(keys): Ghost<Seq<usize>>)
    where
        F: FnMut(usize, usize) -> Ordering,
    requires
        n <= old(xs).len(),
        within(old(xs)@, n as int, keys),
        callable(*old(cmp), keys),
    ensures
        within(final(xs)@, n as int, keys),
        *final(cmp) == *old(cmp),
        final(xs).len() == old(xs).len(),
        final(xs)@.subrange(n as int, final(xs).len() as int) == old(xs)@.subrange(
            n as int,
            old(xs).len() as int,
        ),
        final(xs)@.subrange(0, n as int).to_multiset() == old(xs)@.subrange(
            0,
            n as int,
        ).to_multiset(),
        forall|ord: spec_fn(usize, usize) -> Ordering| #[trigger] answers_by(*old(cmp), ord, keys) ==> sorted_by(
            ord,
            final(xs)@.subrange(0, n as int),
        ),
        forall|ord: spec_fn(usize, usize) -> Ordering| #[trigger] answers_by(*old(cmp), ord, keys) ==> final(xs)@
            == merge_insertion_of(ord, old(xs)@, n as int),
    decreases n,
{
    broadcast use vstd::seq_lib::group_to_multiset_ensures, vstd::multiset::group_multiset_axioms;

    let ghost f = *cmp;
    let ghost o = xs@;
    if n < 2 {
        assert(xs@.subrange(n as int, xs.len() as int) =~= o.subrange(n as int, o.len() as int));
        return;
    }
    // Pair the key at `i` with the key at `i + half`, the larger one in front.

    let half = n / 2;
    let mut partners = PartnerStacks::new();
    let mut i: usize = 0;
    while i < half
        invariant
            *cmp == f,
            f == *old(cmp),
            callable(f, keys),
            within(xs@, n as int, keys),
            half == n / 2,
            2 <= n <= o.len(),
            xs.len() == o.len(),
            i <= half,
            forall|p: int| (i <= p < half || half + i <= p < o.len()) ==> xs@[p] == o[p],
            xs@.subrange(0, n as int).to_multiset() == o.subrange(0, n as int).to_multiset(),
            winners(partners@) =~= xs@.subrange(0, i as int),
            losers(partners@) =~= xs@.subrange(half as int, half + i),
            forall|ord: spec_fn(usize, usize) -> Ordering| #[trigger] answers_by(f, ord, keys) ==> forall|p: int|
                0 <= p < i ==> le_by(ord, #[trigger] xs@[p + half], xs@[p]),
            forall|ord: spec_fn(usize, usize) -> Ordering| #[trigger] answers_by(f, ord, keys) ==> xs@ == pairing_of(ord, o, half as int, i as int).0
                && partners@ == pairing_of(ord, o, half as int, i as int).1,
        decreases half - i,
    {
        let a = xs[i];
        let b = xs[i + half];
        assert(keys.contains(a) && keys.contains(b));
        let c = cmp(a, b);
        let ghost before = xs@;
        match c {
            Ordering::Less => {
                xs[i] = b;
                xs[i + half] = a;
                proof {
                    assert(xs@.subrange(0, n as int) =~= before.subrange(0, n as int).update(
                        i as int,
                        b,
                    ).update(i + half, a));
                    vstd::seq_lib::to_multiset_update(before.subrange(0, n as int), i as int, b);
                    vstd::seq_lib::to_multiset_update(
                        before.subrange(0, n as int).update(i as int, b),
                        i + half,
                        a,
                    );
                    let m = before.subrange(0, n as int).to_multiset();
                    assert(before.subrange(0, n as int)[i as int] == a);
                    assert(before.subrange(0, n as int)[i + half] == b);
                    before.subrange(0, n as int).to_multiset_ensures();
                    assert(before.subrange(0, n as int).contains(a));
                    assert(m.count(a) > 0);
                    assert(m.insert(b).remove(a).insert(a).remove(b) =~= m);
                    assert(xs@ =~= before.update(i as int, b).update(i + half, a));
                    assert forall|p: int| 0 <= p < n implies keys.contains(#[trigger] xs@[p]) by {
                        if p != i && p != i + half {
                            assert(xs@[p] == before[p]);
                        }
                    }
                }
            },
            _ => {},
        }
        let ghost old_pairs = partners@;
        partners.push(xs[i], xs[i + half]);
        proof {
            assert(winners(partners@) =~= winners(old_pairs).push(xs@[i as int]));
            assert(losers(partners@) =~= losers(old_pairs).push(xs@[i + half]));
            assert(xs@.subrange(0, i as int) =~= before.subrange(0, i as int));
            assert(xs@.subrange(half as int, half + i) =~= before.subrange(half as int, half + i));
            assert forall|ord: spec_fn(usize, usize) -> Ordering| #[trigger] answers_by(f, ord, keys) implies
                xs@ == pairing_of(ord, o, half as int, i + 1).0
                && partners@ == pairing_of(ord, o, half as int, i + 1).1 by {
                assert(c == ord(a, b));
                assert(before == pairing_of(ord, o, half as int, i as int).0);
                assert(old_pairs == pairing_of(ord, o, half as int, i as int).1);
            }
            assert forall|ord: spec_fn(usize, usize) -> Ordering| #[trigger] answers_by(f, ord, keys) implies forall|p: int|
                0 <= p < i + 1 ==> le_by(ord, #[trigger] xs@[p + half], xs@[p]) by {
                assert(c == ord(a, b));
                assert(ord(b, a) == flipped(ord(a, b)));
                assert forall|p: int| 0 <= p < i + 1 implies le_by(ord, #[trigger] xs@[p + half], xs@[p]) by {
                    if p < i {
                        assert(xs@[p] == before[p] && xs@[p + half] == before[p + half]);
                    }
                }
            }
        }
        i += 1;
    }
    let ghost paired = xs@;
    assert forall|p: int| 0 <= p < half implies (#[trigger] partners@[p]).0 == paired[p]
        && partners@[p].1 == paired[p + half] by {
        assert(winners(partners@)[p] == paired[p]);
        assert(losers(partners@)[p] == paired[p + half]);
    }
    assert(losers(partners@) =~= paired.subrange(half as int, 2 * half));

    // Sort the winners, then bring each partner in by binary search.

    let ghost pairs0 = partners@;
    sort_prefix(xs, half, cmp, Ghost(keys));
    let ghost sorted0 = xs@;
    let ghost backbone = xs@.subrange(0, half as int);
    proof {
        vstd::seq_lib::lemma_multiset_commutative(
            paired.subrange(0, half as int),
            paired.subrange(half as int, 2 * half),
        );
        assert(paired.subrange(0, half as int) + paired.subrange(half as int, 2 * half)
            =~= paired.subrange(0, 2 * half));
        assert(xs@.subrange(0, half as int) =~= backbone.subrange(0, half as int));
        assert(backbone.subrange(0, half as int) =~= backbone);
        assert forall|p: int| half <= p < o.len() implies xs@[p] == paired[p] by {
            assert(xs@.subrange(half as int, xs.len() as int)[p - half] == xs@[p]);
        }
        assert forall|p: int| 0 <= p < n implies keys.contains(#[trigger] xs@[p]) by {
            if p >= half {
                assert(xs@[p] == paired[p]);
            }
        }
    }
    let mut i: usize = 0;
    while i < half
        invariant
            *cmp == f,
            f == *old(cmp),
            callable(f, keys),
            within(xs@, n as int, keys),
            half == n / 2,
            2 <= n <= o.len(),
            xs.len() == o.len(),
            i <= half,
            backbone.len() == half,
            forall|p: int| half + i <= p < o.len() ==> xs@[p] == paired[p],
            forall|p: int| 2 * i <= p < half + i ==> xs@[p] == backbone[p - i],
            forall|ord: spec_fn(usize, usize) -> Ordering| #[trigger] answers_by(f, ord, keys) ==> sorted_by(ord, xs@.subrange(0, half + i)),
            partners@.len() == half - i,
            forall|p: int| 0 <= p < partners@.len() ==> keys.contains((#[trigger] partners@[p]).1),
            forall|ord: spec_fn(usize, usize) -> Ordering| #[trigger] answers_by(f, ord, keys) ==> paired == pairing_of(ord, o, half as int, half as int).0
                && pairs0 == pairing_of(ord, o, half as int, half as int).1
                && sorted0 == merge_insertion_of(ord, paired, half as int)
                && xs@ == merging_of(ord, sorted0, pairs0, half as int, i as int).0
                && partners@ == merging_of(ord, sorted0, pairs0, half as int, i as int).1,
            winners(partners@).to_multiset() == backbone.subrange(i as int, half as int).to_multiset(),
            forall|ord: spec_fn(usize, usize) -> Ordering| #[trigger] answers_by(f, ord, keys) ==> forall|p: int|
                0 <= p < partners@.len() ==> le_by(ord, (#[trigger] partners@[p]).1, partners@[p].0),
            xs@.subrange(0, half + i).to_multiset().add(losers(partners@).to_multiset())
                == paired.subrange(0, 2 * half).to_multiset(),
        decreases half - i,
    {
        let k = xs[2 * i];
        assert(keys.contains(k));
        let ghost pairs = partners@;
        let ghost prefix = xs@.subrange(0, half + i);
        proof {
            let rest = backbone.subrange(i as int, half as int);
            assert(rest[0] == k);
            rest.to_multiset_ensures();
            winners(pairs).to_multiset_ensures();
            losers(pairs).to_multiset_ensures();
            assert(rest.contains(k));
            assert(rest.to_multiset().count(k) > 0);
            assert(winners(pairs).contains(k));
            let j = choose|j: int| 0 <= j < winners(pairs).len() && winners(pairs)[j] == k;
            assert(pairs[j].0 == k);
        }
        let y = partners.pop(k);
        let ghost j = choose|j: int|
            0 <= j < pairs.len() && pairs[j] == (k, y) && partners@ == pairs.remove(j) && forall|
                q: int,
            | j < q < pairs.len() ==> (#[trigger] pairs[q]).0 != k;
        proof {
            let rest = backbone.subrange(i as int, half as int);
            assert(winners(partners@) =~= winners(pairs).remove(j));
            assert(losers(partners@) =~= losers(pairs).remove(j));
            assert(rest.remove(0) =~= backbone.subrange(i + 1, half as int));
            assert(losers(pairs)[j] == y);
            assert(winners(pairs)[j] == k);
            assert(winners(pairs).remove(j).to_multiset() == winners(pairs).to_multiset().remove(k));
            assert(rest.remove(0).to_multiset() == rest.to_multiset().remove(k));
            assert(losers(pairs).remove(j).to_multiset() == losers(pairs).to_multiset().remove(y));
            assert(losers(pairs).contains(y));
            assert(prefix.subrange(0, 2 * i) =~= xs@.subrange(0, 2 * i));
            assert forall|ord: spec_fn(usize, usize) -> Ordering| #[trigger] answers_by(f, ord, keys) implies {
                &&& le_by(ord, y, k)
                &&& sorted_by(ord, xs@.subrange(0, 2 * i))
                &&& forall|p: int| 0 <= p < partners@.len() ==> le_by(ord, (#[trigger] partners@[p]).1, partners@[p].0)
            } by {
                assert(le_by(ord, pairs[j].1, pairs[j].0));
                lemma_sorted_prefix(ord, prefix, 2 * i);
                assert forall|p: int| 0 <= p < partners@.len() implies le_by(
                    ord,
                    (#[trigger] partners@[p]).1,
                    partners@[p].0,
                ) by {
                    if p < j {
                        assert(partners@[p] == pairs[p]);
                    } else {
                        assert(partners@[p] == pairs[p + 1]);
                    }
                }
            }
            assert forall|p: int| 0 <= p < partners@.len() implies keys.contains((#[trigger] partners@[p]).1) by {
                if p < j {
                    assert(partners@[p] == pairs[p]);
                } else {
                    assert(partners@[p] == pairs[p + 1]);
                }
            }
            assert(keys.contains(pairs[j].1));
        }
        let ghost cur = xs@;
        let idx = find_insert_point(y, xs, 2 * i, cmp, Ghost(keys));
        insert_at(xs, idx, half + i, y);
        proof {
            assert(xs@.subrange(0, half + i + 1) =~= prefix.subrange(0, idx as int).push(y)
                + prefix.subrange(idx as int, prefix.len() as int));
            assert(prefix =~= prefix.subrange(0, idx as int) + prefix.subrange(
                idx as int,
                prefix.len() as int,
            ));
            lemma_insert_multiset(
                prefix.subrange(0, idx as int),
                prefix.subrange(idx as int, prefix.len() as int),
                y,
            );
            assert(losers(pairs).to_multiset().count(y) > 0);
            let pm = prefix.to_multiset();
            let lm = losers(pairs).to_multiset();
            assert(pm.insert(y).add(lm.remove(y)) =~= pm.add(lm));
            lemma_last_with(pairs, k, j);
            assert forall|ord: spec_fn(usize, usize) -> Ordering| #[trigger] answers_by(f, ord, keys) implies
                xs@ == merging_of(ord, sorted0, pairs0, half as int, i + 1).0
                && partners@ == merging_of(ord, sorted0, pairs0, half as int, i + 1).1 by {
                assert(cur == merging_of(ord, sorted0, pairs0, half as int, i as int).0);
                assert(pairs == merging_of(ord, sorted0, pairs0, half as int, i as int).1);
                assert(idx == search_of(ord, y, cur, 0, 2 * i));
            }
            assert forall|p: int| 0 <= p < n implies keys.contains(#[trigger] xs@[p]) by {
                if p < idx {
                    assert(xs@[p] == cur[p]);
                } else if p > idx && p <= half + i {
                    assert(xs@[p] == cur[p - 1]);
                } else if p > half + i {
                    assert(xs@[p] == cur[p]);
                }
            }
            assert forall|q: int| 0 <= q < prefix.len() implies keys.contains(#[trigger] prefix[q]) by {
                assert(prefix[q] == cur[q]);
            }
            assert forall|ord: spec_fn(usize, usize) -> Ordering| #[trigger] answers_by(f, ord, keys) implies sorted_by(
                ord,
                xs@.subrange(0, half + i + 1),
            ) by {
                assert(fits_at(ord, y, cur, idx as int, 2 * i));
                assert forall|q: int| 0 <= q < idx implies le_by(ord, #[trigger] prefix[q], y) by {
                    assert(prefix[q] == cur[q]);
                }
                assert forall|q: int| idx <= q < prefix.len() implies le_by(
                    ord,
                    y,
                    #[trigger] prefix[q],
                ) by {
                    assert(prefix[q] == cur[q]);
                    if q >= 2 * i {
                        assert(prefix[2 * i] == k);
                        if q > 2 * i {
                            assert(le_by(ord, prefix[2 * i], prefix[q]));
                        }
                    }
                }
                lemma_insert_sorted(ord, keys, prefix, idx as int, y);
            }
        }
        i += 1;
    }
    proof {
        assert(losers(partners@) =~= Seq::<usize>::empty());
    }

    // An odd key out goes in last, by a search over everything before it.

    if n % 2 == 1 {
        let last = xs[n - 1];
        let ghost prefix = xs@.subrange(0, n - 1);
        let ghost cur = xs@;
        assert(last == cur[n - 1]);
        let idx = find_insert_point(last, xs, n - 1, cmp, Ghost(keys));
        insert_at(xs, idx, n - 1, last);
        proof {
            assert(xs@.subrange(0, n as int) =~= prefix.subrange(0, idx as int).push(last)
                + prefix.subrange(idx as int, prefix.len() as int));
            assert(prefix =~= prefix.subrange(0, idx as int) + prefix.subrange(
                idx as int,
                prefix.len() as int,
            ));
            lemma_insert_multiset(
                prefix.subrange(0, idx as int),
                prefix.subrange(idx as int, prefix.len() as int),
                last,
            );
            assert(paired.subrange(0, n as int) =~= paired.subrange(0, n - 1).push(last));
            assert forall|p: int| 0 <= p < n implies keys.contains(#[trigger] xs@[p]) by {
                if p < idx {
                    assert(xs@[p] == cur[p]);
                } else if p > idx {
                    assert(xs@[p] == cur[p - 1]);
                }
            }
            assert forall|q: int| 0 <= q < prefix.len() implies keys.contains(#[trigger] prefix[q]) by {
                assert(prefix[q] == cur[q]);
            }
            assert(prefix.subrange(0, n - 1) =~= prefix);
            assert forall|ord: spec_fn(usize, usize) -> Ordering| #[trigger] answers_by(f, ord, keys) implies sorted_by(
                ord,
                xs@.subrange(0, n as int),
            ) by {
                assert(cur.subrange(0, n - 1) =~= prefix);
                assert(fits_at(ord, last, cur, idx as int, n - 1));
                assert forall|q: int| 0 <= q < idx implies le_by(ord, #[trigger] prefix[q], last) by {
                    assert(prefix[q] == cur[q]);
                }
                assert forall|q: int| idx <= q < prefix.len() implies le_by(ord, last, #[trigger] prefix[q]) by {
                    assert(prefix[q] == cur[q]);
                }
                lemma_insert_sorted(ord, keys, prefix, idx as int, last);
            }
        }
    }
    proof {
        assert(xs@.subrange(n as int, xs.len() as int) =~= o.subrange(n as int, o.len() as int));
        assert forall|ord: spec_fn(usize, usize) -> Ordering| #[trigger] answers_by(f, ord, keys) implies xs@
            == merge_insertion_of(ord, o, n as int) by {
            let v = merging_of(ord, sorted0, pairs0, half as int, half as int).0;
            if n % 2 == 1 {
                assert(merge_insertion_of(ord, o, n as int) == shifted_in(
                    v,
                    search_of(ord, v[n - 1], v, 0, n - 1),
                    n - 1,
                    v[n - 1],
                ));
            } else {
                assert(merge_insertion_of(ord, o, n as int) == v);
            }
        }
    }
}

/// Sorts `xs` in place by `cmp`, by merge insertion (the Ford–Johnson
/// algorithm), which spends few comparator calls. Whatever the comparator
/// answers, `xs` ends up holding the same keys as before, each as often. When
/// its answers on those keys are those of a strict weak ordering, `xs` ends up sorted by
/// that ordering. The result is then `merge_insertion_of` that ordering and
/// the input: it depends on nothing but the input and the answers, so runs on
/// the same input with the same answers agree. Keys that compare `Equal` are
/// not kept in their input order.
pub fn sort<F>(xs: &mut [usize], cmp: &mut F)
    where
        F: FnMut(usize, usize) -> Ordering,
    requires
        callable(*old(cmp), old(xs)@),
    ensures
        final(xs).len() == old(xs).len(),
        is_sorting_of(*old(cmp), old(xs)@, final(xs)@),
        is_merge_insertion_of(*old(cmp), old(xs)@, final(xs)@),
{
    let ghost o = xs@;
    let n = xs.len();
    assert forall|p: int| 0 <= p < n implies o.contains(#[trigger] o[p]) by {}
    sort_prefix(xs, n, cmp, Ghost(o));
    assert(xs@.subrange(0, n as int) =~= xs@);
    assert(o.subrange(0, n as int) =~= o);
}

} // verus!
