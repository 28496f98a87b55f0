//! The single-pass counting scan and its chunked form.
//!
//! Relative to a candidate key, one pass over the dataset yields how many
//! elements lie at or below it, how many lie at or above it, the greatest
//! element strictly below it and the least element strictly above it.
//! The chunked form scans contiguous segments separately and combines the
//! partial results; the combination is proved to agree with the direct scan.

use vstd::prelude::*;

use crate::keys::KEY_NEG_INF;
use crate::keys::KEY_POS_INF;

verus! {

/// How many elements of `s` are at or below `p`.
pub open spec fn count_le(s: Seq<u64>, p: u64) -> int
    decreases s.len(),
{
    if s.len() == 0 {
        0
    } else {
        count_le(s.drop_last(), p) + if s.last() <= p {
            1int
        } else {
            0int
        }
    }
}

/// How many elements of `s` are strictly below `p`.
pub open spec fn count_lt(s: Seq<u64>, p: u64) -> int
    decreases s.len(),
{
    if s.len() == 0 {
        0
    } else {
        count_lt(s.drop_last(), p) + if s.last() < p {
            1int
        } else {
            0int
        }
    }
}

/// How many elements of `s` are at or above `p`.
pub open spec fn count_ge(s: Seq<u64>, p: u64) -> int {
    s.len() - count_lt(s, p)
}

/// How many elements of `s` equal `p`.
pub open spec fn count_eq(s: Seq<u64>, p: u64) -> int {
    count_le(s, p) - count_lt(s, p)
}

/// The greatest element of `s` strictly below `p`, or [`KEY_NEG_INF`] if
/// no element of `s` exceeds that floor.
pub open spec fn max_below(s: Seq<u64>, p: u64) -> u64
    decreases s.len(),
{
    if s.len() == 0 {
        KEY_NEG_INF
    } else {
        let rest = max_below(s.drop_last(), p);
        if s.last() < p && s.last() > rest {
            s.last()
        } else {
            rest
        }
    }
}

/// The least element of `s` strictly above `p`, or [`KEY_POS_INF`] if no
/// element of `s` undercuts that ceiling.
pub open spec fn min_above(s: Seq<u64>, p: u64) -> u64
    decreases s.len(),
{
    if s.len() == 0 {
        KEY_POS_INF
    } else {
        let rest = min_above(s.drop_last(), p);
        if s.last() > p && s.last() < rest {
            s.last()
        } else {
            rest
        }
    }
}

/// The four counting results bundled, as the contracts state them.
pub open spec fn counts_ok(s: Seq<u64>, p: u64, r: (usize, usize, u64, u64)) -> bool {
    &&& r.0 == count_le(s, p)
    &&& r.1 == count_ge(s, p)
    &&& r.2 == max_below(s, p)
    &&& r.3 == min_above(s, p)
}

/// Scan the elements of `data` with indices in `from .. to` and count them
/// against the candidate `partition`.
fn count_range(data: &[u64], partition: u64, from: usize, to: usize) -> (r: (
    usize,
    usize,
    u64,
    u64,
))
    requires
        from <= to <= data@.len(),
    ensures
        counts_ok(data@.subrange(from as int, to as int), partition, r),
{
    let mut below: u64 = KEY_NEG_INF;
    let mut above: u64 = KEY_POS_INF;
    let mut nlow: usize = 0;
    let mut nhigh: usize = 0;
    let mut i: usize = from;
    while i < to
        invariant
            from <= i <= to <= data@.len(),
            counts_ok(data@.subrange(from as int, i as int), partition, (nlow, nhigh, below, above)),
        decreases to - i,
    {
        let ghost pre = data@.subrange(from as int, i as int);
        let value = data[i];
        proof {
            let post = data@.subrange(from as int, i as int + 1);
            assert(post.drop_last() =~= pre);
            assert(post.last() == value);
            lemma_counts_bounded(pre, partition);
        }
        if value <= partition {
            nlow = nlow + 1;
        }
        if value >= partition {
            nhigh = nhigh + 1;
        }
        if value < partition && below < value {
            below = value;
        }
        if value > partition && above > value {
            above = value;
        }
        i = i + 1;
    }
    (nlow, nhigh, below, above)
}

/// The tallies lie between zero and the length of the scanned sequence.
pub proof fn lemma_counts_bounded(s: Seq<u64>, p: u64)
    ensures
        0 <= count_lt(s, p) <= count_le(s, p) <= s.len(),
    decreases s.len(),
{
    if s.len() > 0 {
        lemma_counts_bounded(s.drop_last(), p);
    }
}

/// Count the whole dataset against the candidate `partition` in one linear
/// pass: elements at or below it, elements at or above it, and the nearest
/// distinct neighbours below and above it.  An element equal to the
/// candidate counts on both sides.
pub fn calccounts(data: &[u64], partition: u64) -> (r: (usize, usize, u64, u64))
    ensures
        counts_ok(data@, partition, r),
{
    let r = count_range(data, partition, 0, data.len());
    proof {
        assert(data@.subrange(0, data@.len() as int) =~= data@);
    }
    r
}

/// Counting a concatenation is counting the parts and combining them: the
/// tallies add, the lower neighbours take their maximum and the upper
/// neighbours take their minimum.  This is why segment scans may run in any
/// order, or simultaneously, and still combine to the direct scan's result.
pub proof fn lemma_counts_concat(a: Seq<u64>, b: Seq<u64>, p: u64)
    ensures
        count_le(a + b, p) == count_le(a, p) + count_le(b, p),
        count_lt(a + b, p) == count_lt(a, p) + count_lt(b, p),
        max_below(a + b, p) == if max_below(b, p) > max_below(a, p) {
            max_below(b, p)
        } else {
            max_below(a, p)
        },
        min_above(a + b, p) == if min_above(b, p) < min_above(a, p) {
            min_above(b, p)
        } else {
            min_above(a, p)
        },
    decreases b.len(),
{
    if b.len() == 0 {
        assert(a + b =~= a);
        assert(max_below(b, p) == KEY_NEG_INF);
        assert(min_above(b, p) == KEY_POS_INF);
        lemma_max_below_floor(a, p);
        lemma_min_above_ceiling(a, p);
    } else {
        lemma_counts_concat(a, b.drop_last(), p);
        assert((a + b).drop_last() =~= a + b.drop_last());
        assert((a + b).last() == b.last());
    }
}

/// The lower neighbour never falls below its floor.
pub proof fn lemma_max_below_floor(s: Seq<u64>, p: u64)
    ensures
        max_below(s, p) >= KEY_NEG_INF,
    decreases s.len(),
{
    if s.len() > 0 {
        lemma_max_below_floor(s.drop_last(), p);
    }
}

/// The upper neighbour never rises above its ceiling.
pub proof fn lemma_min_above_ceiling(s: Seq<u64>, p: u64)
    ensures
        min_above(s, p) <= KEY_POS_INF,
    decreases s.len(),
{
    if s.len() > 0 {
        lemma_min_above_ceiling(s.drop_last(), p);
    }
}

/// Count the dataset against the candidate `partition` segment by segment.
///
/// The dataset is split into `chunks` contiguous segments of
/// `data.len() / chunks` elements each, except the last, which absorbs the
/// remainder.  Each segment is scanned on its own and the partial results
/// are combined.  The contract is the same as that of [`calccounts`]: the
/// segmented scan computes exactly what the direct scan computes.
pub fn calccounts_chunks(data: &[u64], partition: u64, chunks: usize) -> (r: (
    usize,
    usize,
    u64,
    u64,
))
    requires
        1 <= chunks <= data@.len(),
    ensures
        counts_ok(data@, partition, r),
{
    let len = data.len();
    let seg = len / chunks;
    let mut nlow: usize = 0;
    let mut nhigh: usize = 0;
    let mut below: u64 = KEY_NEG_INF;
    let mut above: u64 = KEY_POS_INF;
    let mut c: usize = 0;
    let mut done: usize = 0;
    while c < chunks
        invariant
            1 <= chunks <= data@.len(),
            len == data@.len(),
            seg == data@.len() as int / chunks as int,
            c <= chunks,
            done == if c < chunks {
                c * seg
            } else {
                data@.len() as int
            },
            done <= data@.len(),
            counts_ok(data@.subrange(0, done as int), partition, (nlow, nhigh, below, above)),
        decreases chunks - c,
    {
        proof {
            vstd::arithmetic::div_mod::lemma_fundamental_div_mod(data@.len() as int, chunks as int);
            vstd::arithmetic::div_mod::lemma_mod_bound(data@.len() as int, chunks as int);
            assert(0 <= c * seg && c * seg + seg == (c + 1) * seg && (c + 1) * seg <= chunks * seg)
                by (nonlinear_arith)
                requires
                    0 <= c,
                    c + 1 <= chunks,
                    0 <= seg,
            ;
        }
        let start = done;
        let end = if c == chunks - 1 {
            len
        } else {
            start + seg
        };
        let part = count_range(data, partition, start, end);
        proof {
            let front = data@.subrange(0, start as int);
            let piece = data@.subrange(start as int, end as int);
            assert(data@.subrange(0, end as int) =~= front + piece);
            lemma_counts_concat(front, piece, partition);
            lemma_counts_bounded(data@.subrange(0, end as int), partition);
        }
        nlow = nlow + part.0;
        nhigh = nhigh + part.1;
        if part.2 > below {
            below = part.2;
        }
        if part.3 < above {
            above = part.3;
        }
        done = end;
        c = c + 1;
    }
    proof {
        assert(data@.subrange(0, data@.len() as int) =~= data@);
    }
    (nlow, nhigh, below, above)
}


/// Counting is monotone in the candidate.
pub proof fn lemma_count_mono(s: Seq<u64>, p1: u64, p2: u64)
    requires
        p1 <= p2,
    ensures
        count_le(s, p1) <= count_le(s, p2),
        count_lt(s, p1) <= count_lt(s, p2),
        p1 < p2 ==> count_le(s, p1) <= count_lt(s, p2),
    decreases s.len(),
{
    if s.len() > 0 {
        lemma_count_mono(s.drop_last(), p1, p2);
    }
}

/// An element that occurs in the sequence is counted at least once among
/// its equals.
pub proof fn lemma_contains_count_eq(s: Seq<u64>, v: u64)
    requires
        s.contains(v),
    ensures
        count_eq(s, v) >= 1,
    decreases s.len(),
{
    lemma_counts_bounded(s.drop_last(), v);
    if s.last() != v {
        let i = choose|i: int| 0 <= i < s.len() && s[i] == v;
        assert(s.drop_last()[i] == v);
        lemma_contains_count_eq(s.drop_last(), v);
    }
}

/// What the lower neighbour is: absent exactly when nothing lies below the
/// candidate, otherwise an element of the sequence that bounds everything
/// below the candidate from above.  Elements are assumed to sit at or
/// above the floor, as every non-NaN key does.
pub proof fn lemma_max_below_counts(s: Seq<u64>, p: u64)
    requires
        forall|i: int| 0 <= i < s.len() ==> #[trigger] s[i] >= KEY_NEG_INF,
    ensures
        count_lt(s, p) == 0 ==> max_below(s, p) == KEY_NEG_INF,
        count_lt(s, p) > 0 ==> s.contains(max_below(s, p)) && max_below(s, p) < p,
        forall|i: int| 0 <= i < s.len() && #[trigger] s[i] < p ==> s[i] <= max_below(s, p),
    decreases s.len(),
{
    if s.len() > 0 {
        let rest = s.drop_last();
        assert forall|i: int| 0 <= i < rest.len() implies #[trigger] rest[i] >= KEY_NEG_INF by {
            assert(s[i] == rest[i]);
        }
        lemma_max_below_counts(rest, p);
        lemma_counts_bounded(rest, p);
        let last = s.last();
        assert(s[s.len() - 1] == last);
        if count_lt(s, p) > 0 {
            if last < p {
                if last > max_below(rest, p) {
                    assert(max_below(s, p) == last);
                } else if count_lt(rest, p) > 0 {
                    let x = max_below(rest, p);
                    let i = choose|i: int| 0 <= i < rest.len() && rest[i] == x;
                    assert(s[i] == x);
                } else {
                    assert(max_below(rest, p) == KEY_NEG_INF);
                    assert(last == KEY_NEG_INF);
                    assert(max_below(s, p) == last);
                }
            } else {
                let x = max_below(rest, p);
                let i = choose|i: int| 0 <= i < rest.len() && rest[i] == x;
                assert(s[i] == x);
            }
        }
        assert forall|i: int| 0 <= i < s.len() && #[trigger] s[i] < p implies s[i] <= max_below(
            s,
            p,
        ) by {
            if i < s.len() - 1 {
                assert(rest[i] == s[i]);
            }
        }
    }
}

/// What the upper neighbour is, mirroring the lower one.
pub proof fn lemma_min_above_counts(s: Seq<u64>, p: u64)
    requires
        forall|i: int| 0 <= i < s.len() ==> #[trigger] s[i] <= KEY_POS_INF,
    ensures
        count_le(s, p) == s.len() ==> min_above(s, p) == KEY_POS_INF,
        count_le(s, p) < s.len() ==> s.contains(min_above(s, p)) && min_above(s, p) > p,
        forall|i: int| 0 <= i < s.len() && #[trigger] s[i] > p ==> s[i] >= min_above(s, p),
    decreases s.len(),
{
    lemma_counts_bounded(s, p);
    if s.len() > 0 {
        let rest = s.drop_last();
        assert forall|i: int| 0 <= i < rest.len() implies #[trigger] rest[i] <= KEY_POS_INF by {
            assert(s[i] == rest[i]);
        }
        lemma_min_above_counts(rest, p);
        lemma_counts_bounded(rest, p);
        let last = s.last();
        assert(s[s.len() - 1] == last);
        if count_le(s, p) < s.len() {
            if last > p {
                if last < min_above(rest, p) {
                    assert(min_above(s, p) == last);
                } else if count_le(rest, p) < rest.len() {
                    let x = min_above(rest, p);
                    let i = choose|i: int| 0 <= i < rest.len() && rest[i] == x;
                    assert(s[i] == x);
                } else {
                    assert(min_above(rest, p) == KEY_POS_INF);
                    assert(last == KEY_POS_INF);
                    assert(min_above(s, p) == last);
                }
            } else {
                let x = min_above(rest, p);
                let i = choose|i: int| 0 <= i < rest.len() && rest[i] == x;
                assert(s[i] == x);
            }
        }
        assert forall|i: int| 0 <= i < s.len() && #[trigger] s[i] > p implies s[i] >= min_above(
            s,
            p,
        ) by {
            if i < s.len() - 1 {
                assert(rest[i] == s[i]);
            }
        }
    }
}

/// Everything strictly below the candidate is at or under any bound that
/// dominates it element by element.
proof fn lemma_count_dominated_below(s: Seq<u64>, p: u64, b: u64)
    requires
        forall|i: int| 0 <= i < s.len() && s[i] < p ==> s[i] <= b,
    ensures
        count_lt(s, p) <= count_le(s, b),
    decreases s.len(),
{
    if s.len() > 0 {
        let rest = s.drop_last();
        assert forall|i: int| 0 <= i < rest.len() && rest[i] < p implies rest[i] <= b by {
            assert(s[i] == rest[i]);
        }
        lemma_count_dominated_below(rest, p, b);
    }
}

/// Everything strictly below a bound that is undercut by every element
/// above the candidate is itself at or under the candidate.
proof fn lemma_count_dominated_above(s: Seq<u64>, p: u64, b: u64)
    requires
        forall|i: int| 0 <= i < s.len() && s[i] > p ==> s[i] >= b,
    ensures
        count_lt(s, b) <= count_le(s, p),
    decreases s.len(),
{
    if s.len() > 0 {
        let rest = s.drop_last();
        assert forall|i: int| 0 <= i < rest.len() && rest[i] > p implies rest[i] >= b by {
            assert(s[i] == rest[i]);
        }
        lemma_count_dominated_above(rest, p, b);
    }
}

/// The elements at or under the lower neighbour are exactly the elements
/// strictly below the candidate.
pub proof fn lemma_max_below_count_le(s: Seq<u64>, p: u64)
    requires
        forall|i: int| 0 <= i < s.len() ==> #[trigger] s[i] >= KEY_NEG_INF,
        count_lt(s, p) > 0,
    ensures
        count_le(s, max_below(s, p)) == count_lt(s, p),
{
    lemma_max_below_counts(s, p);
    lemma_count_mono(s, max_below(s, p), p);
    lemma_count_dominated_below(s, p, max_below(s, p));
}

/// The elements strictly below the upper neighbour are exactly the
/// elements at or under the candidate.
pub proof fn lemma_min_above_count_lt(s: Seq<u64>, p: u64)
    requires
        forall|i: int| 0 <= i < s.len() ==> #[trigger] s[i] <= KEY_POS_INF,
        count_le(s, p) < s.len(),
    ensures
        count_lt(s, min_above(s, p)) == count_le(s, p),
{
    lemma_min_above_counts(s, p);
    lemma_count_mono(s, p, min_above(s, p));
    lemma_count_dominated_above(s, p, min_above(s, p));
}

/// The tallies depend only on which elements the dataset holds, not on
/// their order: datasets with equal multisets count alike.
pub proof fn lemma_counts_permutation(s1: Seq<u64>, s2: Seq<u64>, p: u64)
    requires
        s1.to_multiset() == s2.to_multiset(),
    ensures
        count_le(s1, p) == count_le(s2, p),
        count_lt(s1, p) == count_lt(s2, p),
    decreases s1.len(),
{
    broadcast use vstd::seq_lib::group_to_multiset_ensures;

    vstd::seq_lib::to_multiset_len(s1);
    vstd::seq_lib::to_multiset_len(s2);
    if s1.len() > 0 {
        let a = s1.last();
        assert(s1[s1.len() - 1] == a);
        assert(s1.contains(a));
        vstd::seq_lib::to_multiset_contains(s1, a);
        vstd::seq_lib::to_multiset_contains(s2, a);
        assert(s2.contains(a));
        let j = choose|j: int| 0 <= j < s2.len() && s2[j] == a;
        let left = s2.subrange(0, j);
        let right = s2.subrange(j + 1, s2.len() as int);
        let t = left + right;
        assert(s2.remove(j) =~= t);
        assert(s1.drop_last() =~= s1.remove(s1.len() - 1));
        vstd::seq_lib::to_multiset_remove(s1, s1.len() - 1);
        vstd::seq_lib::to_multiset_remove(s2, j);
        assert(s1.drop_last().to_multiset() == s1.to_multiset().remove(a));
        assert(t.to_multiset() == s2.to_multiset().remove(a));
        lemma_counts_permutation(s1.drop_last(), t, p);
        let one = seq![a];
        assert(one.drop_last() =~= Seq::<u64>::empty());
        assert(one.last() == a);
        assert(count_le(Seq::<u64>::empty(), p) == 0);
        assert(count_lt(Seq::<u64>::empty(), p) == 0);
        assert(count_le(one, p) == if a <= p { 1int } else { 0int });
        assert(count_lt(one, p) == if a < p { 1int } else { 0int });
        lemma_counts_concat(left, one, p);
        lemma_counts_concat(left + one, right, p);
        lemma_counts_concat(left, right, p);
        assert(s2 =~= (left + one) + right);
        assert(count_le(s2, p) == count_le(left, p) + count_le(one, p) + count_le(right, p));
        assert(count_le(t, p) == count_le(left, p) + count_le(right, p));
        assert(count_le(s1, p) == count_le(s1.drop_last(), p) + if a <= p { 1int } else { 0int });
    }
}


/// An element counted among its equals occurs in the sequence.
pub proof fn lemma_count_eq_contains(s: Seq<u64>, v: u64)
    requires
        count_eq(s, v) >= 1,
    ensures
        s.contains(v),
    decreases s.len(),
{
    lemma_counts_bounded(s, v);
    if s.len() > 0 {
        lemma_counts_bounded(s.drop_last(), v);
        if s.last() == v {
            assert(s[s.len() - 1] == v);
        } else {
            lemma_count_eq_contains(s.drop_last(), v);
            let i = choose|i: int| 0 <= i < s.len() - 1 && s.drop_last()[i] == v;
            assert(s[i] == v);
        }
    }
}

/// The lower neighbour is the one element below the candidate that
/// accounts for everything below the candidate: no other value can.
pub proof fn lemma_max_below_unique(s: Seq<u64>, p: u64, v: u64)
    requires
        forall|i: int| 0 <= i < s.len() ==> #[trigger] s[i] >= KEY_NEG_INF,
        s.contains(v),
        v < p,
        count_le(s, v) == count_lt(s, p),
    ensures
        v == max_below(s, p),
{
    lemma_contains_count_eq(s, v);
    lemma_counts_bounded(s, v);
    lemma_count_mono(s, v, p);
    assert(count_lt(s, p) >= 1);
    lemma_max_below_counts(s, p);
    lemma_max_below_count_le(s, p);
    let mb = max_below(s, p);
    lemma_contains_count_eq(s, mb);
    if v < mb {
        lemma_count_mono(s, v, mb);
    } else if mb < v {
        lemma_count_mono(s, mb, v);
    }
}

/// The upper neighbour is likewise the one element above the candidate
/// undercut by exactly the elements at or under the candidate.
pub proof fn lemma_min_above_unique(s: Seq<u64>, p: u64, v: u64)
    requires
        forall|i: int| 0 <= i < s.len() ==> #[trigger] s[i] <= KEY_POS_INF,
        s.contains(v),
        v > p,
        count_lt(s, v) == count_le(s, p),
    ensures
        v == min_above(s, p),
{
    lemma_contains_count_eq(s, v);
    lemma_counts_bounded(s, v);
    lemma_count_mono(s, p, v);
    assert(count_le(s, p) < s.len());
    lemma_min_above_counts(s, p);
    lemma_min_above_count_lt(s, p);
    let ma = min_above(s, p);
    lemma_contains_count_eq(s, ma);
    if v < ma {
        lemma_count_mono(s, v, ma);
    } else if ma < v {
        lemma_count_mono(s, ma, v);
    }
}

/// The neighbours too depend only on which elements the dataset holds.
pub proof fn lemma_neighbours_permutation(s1: Seq<u64>, s2: Seq<u64>, p: u64)
    requires
        forall|i: int| 0 <= i < s1.len() ==> KEY_NEG_INF <= #[trigger] s1[i] <= KEY_POS_INF,
        forall|i: int| 0 <= i < s2.len() ==> KEY_NEG_INF <= #[trigger] s2[i] <= KEY_POS_INF,
        s1.to_multiset() == s2.to_multiset(),
    ensures
        max_below(s1, p) == max_below(s2, p),
        min_above(s1, p) == min_above(s2, p),
{
    lemma_counts_permutation(s1, s2, p);
    lemma_counts_bounded(s1, p);
    lemma_counts_bounded(s2, p);
    vstd::seq_lib::to_multiset_len(s1);
    vstd::seq_lib::to_multiset_len(s2);
    lemma_max_below_counts(s1, p);
    lemma_max_below_counts(s2, p);
    if count_lt(s1, p) == 0 {
    } else {
        let mb = max_below(s1, p);
        lemma_max_below_count_le(s1, p);
        lemma_contains_count_eq(s1, mb);
        lemma_counts_permutation(s1, s2, mb);
        lemma_count_eq_contains(s2, mb);
        lemma_max_below_unique(s2, p, mb);
    }
    lemma_min_above_counts(s1, p);
    lemma_min_above_counts(s2, p);
    if count_le(s1, p) == s1.len() {
    } else {
        let ma = min_above(s1, p);
        lemma_min_above_count_lt(s1, p);
        lemma_contains_count_eq(s1, ma);
        lemma_counts_permutation(s1, s2, ma);
        lemma_count_eq_contains(s2, ma);
        lemma_min_above_unique(s2, p, ma);
    }
}

} // verus!
