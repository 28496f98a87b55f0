//! The iterative partition-refinement median solver.
//!
//! The solver keeps one candidate key and no per-element state.  Each
//! round counts the dataset against the candidate; the counts either show
//! that the candidate brackets the middle order statistics — the solver
//! stops and names the median — or they hand the controller an imbalance,
//! which moves the candidate for the next round.
//!
//! The result is a [`MedianOutcome`]: the median is one element, or the
//! midpoint of two elements that the caller still has to average, or it is
//! undefined (empty dataset), or the round cap ran out first.  The
//! contract pins the result twice over.  It equals [`spec_solve`], the
//! specification-level replay of the bounded search, so the outcome is a
//! function of the dataset and the tuning alone.  And whenever a
//! converged outcome is returned it names the true middle order
//! statistics, proved from the counts at the final candidate; for tied
//! datasets of even length the tie-resolution rule may name the tied
//! element itself, and the contract says exactly which ranks that element
//! then covers.

use vstd::prelude::*;

use crate::controller::diff_exceeds;
use crate::controller::init_factor;
use crate::controller::overshoots;
use crate::controller::prev_mag;
use crate::controller::prev_up;
use crate::controller::ratio_wf;
use crate::controller::shrunk_factor;
use crate::controller::step_target;
use crate::controller::PrevStep;
use crate::controller::tolerance_wf;
use crate::controller::Controller;
use crate::controller::Ratio;
use crate::controller::Tolerance;
use crate::counting::calccounts;
use crate::counting::calccounts_chunks;
use crate::counting::count_eq;
use crate::counting::count_ge;
use crate::counting::count_le;
use crate::counting::count_lt;
use crate::counting::lemma_contains_count_eq;
use crate::counting::lemma_count_mono;
use crate::counting::lemma_counts_bounded;
use crate::counting::lemma_counts_permutation;
use crate::counting::lemma_neighbours_permutation;
use crate::counting::lemma_max_below_count_le;
use crate::counting::lemma_max_below_counts;
use crate::counting::lemma_min_above_count_lt;
use crate::counting::lemma_min_above_counts;
use crate::counting::max_below;
use crate::counting::min_above;
use crate::keys::key_in_range;
use crate::keys::KEY_NEG_INF;
use crate::keys::KEY_POS_INF;

verus! {

/// What a solve returns.
#[derive(Clone, Copy, Debug, PartialEq, Eq, Structural)]
pub enum MedianOutcome {
    /// The dataset was empty: it has no median.
    Undefined,
    /// The median is this element.
    Value(u64),
    /// The median is the midpoint of these two elements, the lower one
    /// first; the caller averages them in its own value domain.
    Midpoint(u64, u64),
    /// The round cap ran out before the search converged.
    Unconverged,
}

/// The number of refinement rounds after which a solve gives up and
/// reports that it did not converge, rather than search forever.
pub const MAX_ITERATIONS: u64 = 4096;

/// Every element carries an admissible key: the no-NaN precondition.
pub open spec fn in_range_all(s: Seq<u64>) -> bool {
    forall|i: int| 0 <= i < s.len() ==> KEY_NEG_INF <= #[trigger] s[i] <= KEY_POS_INF
}

/// `v` is the `k`-th smallest element of `s` (ranks start at one):
/// fewer than `k` elements lie strictly below it and at least `k` lie at
/// or below it.
pub open spec fn is_kth_smallest(s: Seq<u64>, k: int, v: u64) -> bool {
    count_lt(s, v) < k <= count_le(s, v)
}

/// What a solve's outcome asserts about the dataset.
///
/// - `Undefined` is returned exactly for the empty dataset.
/// - For odd length, a converged outcome is the middle element.
/// - For even length, a `Midpoint` names the two middle order statistics
///   in order, and a `Value` names an element tied at least twice whose
///   run covers a middle rank: the tie-resolution rule keeps such an
///   element as the median without averaging.
pub open spec fn outcome_ok(s: Seq<u64>, r: MedianOutcome) -> bool {
    let n = s.len() as int;
    match r {
        MedianOutcome::Undefined => n == 0,
        MedianOutcome::Unconverged => n >= 3,
        MedianOutcome::Value(v) => {
            &&& n >= 1
            &&& n % 2 == 1 ==> is_kth_smallest(s, (n + 1) / 2, v)
            &&& n % 2 == 0 ==> count_eq(s, v) >= 2 && count_lt(s, v) <= n / 2 <= count_le(s, v)
        },
        MedianOutcome::Midpoint(a, b) => {
            &&& n >= 2
            &&& n % 2 == 0
            &&& a <= b
            &&& is_kth_smallest(s, n / 2, a)
            &&& is_kth_smallest(s, n / 2 + 1, b)
        },
    }
}

/// The sum of all keys.
pub open spec fn key_sum(s: Seq<u64>) -> int
    decreases s.len(),
{
    if s.len() == 0 {
        0
    } else {
        key_sum(s.drop_last()) + s.last()
    }
}

/// The search state between two rounds: the candidate and the
/// controller's mutable fields.
pub struct SearchState {
    pub candidate: u64,
    pub factor: u64,
    pub prev: PrevStep,
    pub delta: u64,
    pub prevpartition: u64,
}

/// One controller decision, at the specification level: what
/// [`Controller::advance`] does to the state, given the imbalance, the
/// direction and the observed neighbours.
pub open spec fn advance_state(
    maxdiff: Tolerance,
    decrease: Ratio,
    len: int,
    st: SearchState,
    diff: u64,
    up: bool,
    below: u64,
    above: u64,
) -> SearchState {
    if !diff_exceeds(diff as int, maxdiff, len) {
        SearchState {
            candidate: if up {
                above
            } else {
                below
            },
            factor: st.factor,
            prev: st.prev,
            delta: st.delta,
            prevpartition: st.prevpartition,
        }
    } else if overshoots(st.prev, diff as int) {
        let shrunk = shrunk_factor(st.factor, prev_mag(st.prev), diff, decrease) as u64;
        SearchState {
            candidate: step_target(
                st.prevpartition,
                prev_mag(st.prev),
                prev_up(st.prev),
                shrunk,
                st.delta,
            ),
            factor: shrunk,
            prev: st.prev,
            delta: st.delta,
            prevpartition: st.prevpartition,
        }
    } else {
        SearchState {
            candidate: step_target(st.candidate, diff, up, st.factor, (above - below) as u64),
            factor: st.factor,
            prev: PrevStep::Accepted { mag: diff, up },
            delta: (above - below) as u64,
            prevpartition: st.candidate,
        }
    }
}

/// The bounded search itself, at the specification level: count the
/// dataset against the candidate, stop at a terminal configuration with
/// the outcome the tie-resolution rule dictates, or move the candidate
/// and spend one round of fuel.  Out of fuel, the search reports that it
/// did not converge.
pub open spec fn spec_search(
    s: Seq<u64>,
    maxdiff: Tolerance,
    decrease: Ratio,
    st: SearchState,
    fuel: nat,
) -> MedianOutcome
    decreases fuel,
{
    if fuel == 0 {
        MedianOutcome::Unconverged
    } else {
        let n = s.len() as int;
        let c = st.candidate;
        let nle = count_le(s, c);
        let nge = count_ge(s, c);
        let neq = count_eq(s, c);
        let below = max_below(s, c);
        let above = min_above(s, c);
        if nle == nge {
            if neq == 0 {
                MedianOutcome::Midpoint(below, above)
            } else {
                MedianOutcome::Value(c)
            }
        } else if nle > nge {
            if nle - nge <= neq {
                if n % 2 == 0 && neq == 1 {
                    MedianOutcome::Midpoint(below, c)
                } else {
                    MedianOutcome::Value(c)
                }
            } else {
                spec_search(
                    s,
                    maxdiff,
                    decrease,
                    advance_state(
                        maxdiff,
                        decrease,
                        n,
                        st,
                        (nle - nge - neq) as u64,
                        false,
                        below,
                        above,
                    ),
                    (fuel - 1) as nat,
                )
            }
        } else {
            if nge - nle <= neq {
                if n % 2 == 0 && neq == 1 {
                    MedianOutcome::Midpoint(c, above)
                } else {
                    MedianOutcome::Value(c)
                }
            } else {
                spec_search(
                    s,
                    maxdiff,
                    decrease,
                    advance_state(
                        maxdiff,
                        decrease,
                        n,
                        st,
                        (nge - nle - neq) as u64,
                        true,
                        below,
                        above,
                    ),
                    (fuel - 1) as nat,
                )
            }
        }
    }
}

/// What a solve returns, as a function of its inputs: the empty, one- and
/// two-element answers, and otherwise the bounded search from the key
/// mean with the given tuning.  The chunk count is absent on purpose: the
/// segmented and the direct counting pass compute the same counts, so the
/// outcome does not depend on it.
pub open spec fn spec_solve(
    s: Seq<u64>,
    maxdiff: Tolerance,
    factor: Ratio,
    decrease: Ratio,
) -> MedianOutcome {
    let n = s.len() as int;
    if n == 0 {
        MedianOutcome::Undefined
    } else if n == 1 {
        MedianOutcome::Value(s[0])
    } else if n == 2 {
        if s[0] <= s[1] {
            MedianOutcome::Midpoint(s[0], s[1])
        } else {
            MedianOutcome::Midpoint(s[1], s[0])
        }
    } else {
        let m = (key_sum(s) / n) as u64;
        spec_search(
            s,
            maxdiff,
            decrease,
            SearchState {
                candidate: m,
                factor: init_factor(factor),
                prev: PrevStep::Unbounded,
                delta: 0,
                prevpartition: m,
            },
            MAX_ITERATIONS as nat,
        )
    }
}

/// The starting candidate: the integer mean of the keys, which lies
/// within the admissible band because every key does.
fn mean_of_keys(data: &[u64]) -> (m: u64)
    requires
        data@.len() >= 1,
        in_range_all(data@),
    ensures
        m == key_sum(data@) / data@.len() as int,
        key_in_range(m),
{
    let len = data.len();
    let mut acc: u128 = 0;
    let mut i: usize = 0;
    while i < len
        invariant
            0 <= i <= len,
            len == data@.len(),
            in_range_all(data@),
            acc == key_sum(data@.subrange(0, i as int)),
            (KEY_NEG_INF as int) * i <= acc <= (KEY_POS_INF as int) * i,
        decreases len - i,
    {
        let ghost pre = data@.subrange(0, i as int);
        proof {
            let post = data@.subrange(0, i as int + 1);
            assert(post.drop_last() =~= pre);
            assert(post.last() == data@[i as int]);
            assert((KEY_NEG_INF as int) * (i + 1) == (KEY_NEG_INF as int) * i + KEY_NEG_INF)
                by (nonlinear_arith);
            assert((KEY_POS_INF as int) * (i + 1) == (KEY_POS_INF as int) * i + KEY_POS_INF)
                by (nonlinear_arith);
            vstd::arithmetic::mul::lemma_mul_upper_bound(
                KEY_POS_INF as int,
                u64::MAX as int,
                (i + 1) as int,
                u64::MAX as int,
            );
        }
        acc = acc + (data[i] as u128);
        i = i + 1;
    }
    proof {
        assert(data@.subrange(0, len as int) =~= data@);
        let n = len as int;
        vstd::arithmetic::div_mod::lemma_div_is_ordered((KEY_NEG_INF as int) * n, acc as int, n);
        vstd::arithmetic::div_mod::lemma_div_is_ordered(acc as int, (KEY_POS_INF as int) * n, n);
        vstd::arithmetic::div_mod::lemma_div_multiples_vanish(KEY_NEG_INF as int, n);
        vstd::arithmetic::div_mod::lemma_div_multiples_vanish(KEY_POS_INF as int, n);
    }
    (acc / (len as u128)) as u64
}

/// An odd length split at the middle: the rank of the middle element.
proof fn lemma_odd_middle(n: int)
    requires
        n >= 1,
        n % 2 == 1,
    ensures
        2 * ((n + 1) / 2) == n + 1,
        1 <= (n + 1) / 2 <= n,
{
    vstd::arithmetic::div_mod::lemma_fundamental_div_mod(n, 2);
    vstd::arithmetic::div_mod::lemma_div_multiples_vanish(n / 2 + 1, 2);
    assert(n + 1 == 2 * (n / 2 + 1));
}

/// An even length split at the middle: the rank of the lower middle
/// element.
proof fn lemma_even_middle(n: int)
    requires
        n >= 2,
        n % 2 == 0,
    ensures
        2 * (n / 2) == n,
        1 <= n / 2 < n,
{
    vstd::arithmetic::div_mod::lemma_fundamental_div_mod(n, 2);
}

/// A terminal count with balanced tallies and no ties: the candidate
/// straddles the two middle order statistics of an even-length dataset,
/// and its neighbours are exactly those statistics.
proof fn lemma_terminal_balanced_straddle(s: Seq<u64>, c: u64)
    requires
        in_range_all(s),
        s.len() >= 3,
        count_le(s, c) == count_ge(s, c),
        count_eq(s, c) == 0,
    ensures
        s.len() % 2 == 0,
        is_kth_smallest(s, s.len() as int / 2, max_below(s, c)),
        is_kth_smallest(s, s.len() as int / 2 + 1, min_above(s, c)),
        max_below(s, c) <= min_above(s, c),
{
    let n = s.len() as int;
    lemma_counts_bounded(s, c);
    let nle = count_le(s, c);
    assert(2 * nle == n);
    assert(n % 2 == 0) by {
        vstd::arithmetic::div_mod::lemma_mod_multiples_basic(nle, 2);
        assert(nle * 2 == 2 * nle);
    }
    vstd::arithmetic::div_mod::lemma_div_multiples_vanish(nle, 2);
    assert(n / 2 == nle);
    lemma_max_below_counts(s, c);
    lemma_max_below_count_le(s, c);
    let mb = max_below(s, c);
    lemma_contains_count_eq(s, mb);
    lemma_min_above_counts(s, c);
    lemma_min_above_count_lt(s, c);
    let ma = min_above(s, c);
    lemma_contains_count_eq(s, ma);
}

/// A terminal count with balanced tallies and ties: the candidate itself
/// is the middle order statistic — both of them, for even length.
proof fn lemma_terminal_tied_balanced(s: Seq<u64>, c: u64)
    requires
        s.len() >= 1,
        count_le(s, c) == count_ge(s, c),
        count_eq(s, c) >= 1,
    ensures
        s.len() % 2 == 1 ==> is_kth_smallest(s, (s.len() as int + 1) / 2, c),
        s.len() % 2 == 0 ==> count_eq(s, c) >= 2 && count_lt(s, c) <= s.len() as int / 2
            <= count_le(s, c),
{
    let n = s.len() as int;
    lemma_counts_bounded(s, c);
    let nle = count_le(s, c);
    let nlt = count_lt(s, c);
    assert(nle + nlt == n);
    if n % 2 == 1 {
        lemma_odd_middle(n);
    } else {
        lemma_even_middle(n);
        assert(count_eq(s, c) != 1) by {
            if nle - nlt == 1 {
                vstd::arithmetic::div_mod::lemma_mod_multiples_basic(nlt, 2);
                assert(n == 2 * nlt + 1);
                assert(nlt * 2 == 2 * nlt);
                vstd::arithmetic::div_mod::lemma_fundamental_div_mod(n, 2);
                vstd::arithmetic::div_mod::lemma_fundamental_div_mod_converse(n, 2, nlt, 1);
            }
        }
    }
}

/// A terminal count that is low-heavy by no more than the tie count: the
/// candidate is the middle element for odd length; for even length with a
/// single tie its lower neighbour and itself are the two middle
/// statistics, and with more ties its run covers a middle rank.
proof fn lemma_terminal_low_heavy(s: Seq<u64>, c: u64)
    requires
        in_range_all(s),
        s.len() >= 3,
        count_ge(s, c) < count_le(s, c),
        count_le(s, c) - count_ge(s, c) <= count_eq(s, c),
    ensures
        s.len() % 2 == 1 ==> is_kth_smallest(s, (s.len() as int + 1) / 2, c),
        s.len() % 2 == 0 && count_eq(s, c) == 1 ==> is_kth_smallest(
            s,
            s.len() as int / 2,
            max_below(s, c),
        ) && is_kth_smallest(s, s.len() as int / 2 + 1, c) && max_below(s, c) <= c,
        s.len() % 2 == 0 && count_eq(s, c) >= 2 ==> count_lt(s, c) <= s.len() as int / 2
            <= count_le(s, c),
        count_eq(s, c) >= 1,
{
    let n = s.len() as int;
    lemma_counts_bounded(s, c);
    let nle = count_le(s, c);
    let nlt = count_lt(s, c);
    assert(nle + nlt >= n + 1);
    assert(2 * nlt <= n);
    if n % 2 == 1 {
        lemma_odd_middle(n);
    } else {
        lemma_even_middle(n);
        if nle - nlt == 1 {
            assert(2 * nlt >= n);
            assert(nlt == n / 2);
            lemma_max_below_counts(s, c);
            lemma_max_below_count_le(s, c);
            let mb = max_below(s, c);
            lemma_contains_count_eq(s, mb);
        }
    }
}

/// A terminal count that is high-heavy by no more than the tie count,
/// mirroring the low-heavy case with the upper neighbour.
proof fn lemma_terminal_high_heavy(s: Seq<u64>, c: u64)
    requires
        in_range_all(s),
        s.len() >= 3,
        count_le(s, c) < count_ge(s, c),
        count_ge(s, c) - count_le(s, c) <= count_eq(s, c),
    ensures
        s.len() % 2 == 1 ==> is_kth_smallest(s, (s.len() as int + 1) / 2, c),
        s.len() % 2 == 0 && count_eq(s, c) == 1 ==> is_kth_smallest(s, s.len() as int / 2, c)
            && is_kth_smallest(s, s.len() as int / 2 + 1, min_above(s, c)) && c <= min_above(s, c),
        s.len() % 2 == 0 && count_eq(s, c) >= 2 ==> count_lt(s, c) <= s.len() as int / 2
            <= count_le(s, c),
        count_eq(s, c) >= 1,
{
    let n = s.len() as int;
    lemma_counts_bounded(s, c);
    let nle = count_le(s, c);
    let nlt = count_lt(s, c);
    assert(nle + nlt <= n - 1);
    assert(2 * nle >= n);
    if n % 2 == 1 {
        lemma_odd_middle(n);
    } else {
        lemma_even_middle(n);
        if nle - nlt == 1 {
            assert(2 * nle <= n);
            assert(nle == n / 2);
            lemma_min_above_counts(s, c);
            lemma_min_above_count_lt(s, c);
            let ma = min_above(s, c);
            lemma_contains_count_eq(s, ma);
        }
    }
}

/// Solve with every tuning parameter explicit.
///
/// `maxdiff` is the movement threshold, `factor` the initial step
/// multiplier, `decrease` the minimum shrink ratio applied on overshoot
/// (a proper fraction), and `chunks` the number of contiguous segments
/// the counting pass scans separately.
///
/// The dataset is read through its keys and never reordered.  An empty
/// dataset has no median; one or two elements are answered exactly
/// without iterating; otherwise the solver searches from the key mean and
/// returns a converged outcome satisfying [`outcome_ok`], or
/// [`MedianOutcome::Unconverged`] after [`MAX_ITERATIONS`] rounds.
///
/// The outcome is exactly [`spec_solve`]: a function of the dataset and
/// the tuning alone.  The search is not optional — a body that skipped it
/// could not meet this contract — and the chunk count cannot change the
/// answer.
pub fn calcgen(data: &[u64], maxdiff: Tolerance, factor: Ratio, decrease: Ratio, chunks: usize) -> (r:
    MedianOutcome)
    requires
        in_range_all(data@),
        tolerance_wf(maxdiff),
        ratio_wf(factor),
        ratio_wf(decrease),
        decrease.num < decrease.den,
        chunks >= 1,
        data@.len() >= 3 ==> chunks <= data@.len(),
    ensures
        r == spec_solve(data@, maxdiff, factor, decrease),
        outcome_ok(data@, r),
        (data@.len() == 0) <==> (r == MedianOutcome::Undefined),
        data@.len() == 1 ==> r == MedianOutcome::Value(data@[0]),
        data@.len() == 2 ==> r == (if data@[0] <= data@[1] {
            MedianOutcome::Midpoint(data@[0], data@[1])
        } else {
            MedianOutcome::Midpoint(data@[1], data@[0])
        }),
{
    let len = data.len();
    if len == 0 {
        return MedianOutcome::Undefined;
    }
    if len == 1 {
        let v = data[0];
        proof {
            let s = data@;
            assert(s.drop_last() =~= Seq::<u64>::empty());
            assert(s.last() == v);
            assert(count_le(Seq::<u64>::empty(), v) == 0);
            assert(count_lt(Seq::<u64>::empty(), v) == 0);
            assert(count_le(s, v) == 1);
            assert(count_lt(s, v) == 0);
        }
        return MedianOutcome::Value(v);
    }
    if len == 2 {
        let x = data[0];
        let y = data[1];
        let (lo, hi) = if x <= y {
            (x, y)
        } else {
            (y, x)
        };
        proof {
            let s = data@;
            let first = s.drop_last();
            assert(first.drop_last() =~= Seq::<u64>::empty());
            assert(first.last() == x);
            assert(s.last() == y);
            assert(count_le(Seq::<u64>::empty(), hi) == 0);
            assert(count_lt(Seq::<u64>::empty(), hi) == 0);
            assert(count_le(Seq::<u64>::empty(), lo) == 0);
            assert(count_lt(Seq::<u64>::empty(), lo) == 0);
            assert(count_le(first, hi) == 1);
            assert(count_le(s, hi) == 2);
            assert(count_lt(first, hi) <= 1);
            assert(count_lt(first, lo) == 0);
            assert(count_le(first, lo) == if x <= lo {
                1int
            } else {
                0int
            });
            assert(count_lt(s, hi) <= 1);
            assert(count_le(s, lo) >= 1);
            assert(count_lt(s, lo) == 0);
        }
        return MedianOutcome::Midpoint(lo, hi);
    }
    let mut candidate = mean_of_keys(data);
    let mut ctl = Controller::new(maxdiff, factor, decrease, len, candidate);
    let mut result = MedianOutcome::Unconverged;
    let mut rounds: u64 = 0;
    let ghost goal = spec_solve(data@, maxdiff, factor, decrease);
    loop
        invariant_except_break
            result == MedianOutcome::Unconverged,
            spec_search(
                data@,
                maxdiff,
                decrease,
                (SearchState {
                    candidate,
                    factor: ctl.factor,
                    prev: ctl.prev,
                    delta: ctl.delta,
                    prevpartition: ctl.prevpartition,
                }),
                (MAX_ITERATIONS - rounds) as nat,
            ) == goal,
        invariant
            len == data@.len(),
            3 <= len,
            in_range_all(data@),
            1 <= chunks <= len,
            key_in_range(candidate),
            ctl.wf(),
            ctl.decrease == decrease,
            forall|d: int| #[trigger] ctl.exceeds(d) <==> diff_exceeds(d, maxdiff, len as int),
            rounds <= MAX_ITERATIONS,
            goal == spec_solve(data@, maxdiff, factor, decrease),
        ensures
            outcome_ok(data@, result),
            result == goal,
        decreases MAX_ITERATIONS - rounds,
    {
        let ghost fuel0 = (MAX_ITERATIONS - rounds) as nat;
        let ghost st0 = (SearchState {
            candidate,
            factor: ctl.factor,
            prev: ctl.prev,
            delta: ctl.delta,
            prevpartition: ctl.prevpartition,
        });
        let ghost pre_ctl = ctl;
        if rounds >= MAX_ITERATIONS {
            break;
        }
        rounds = rounds + 1;
        let (nlow, nhigh, below, above) = if chunks > 1 {
            calccounts_chunks(data, candidate, chunks)
        } else {
            calccounts(data, candidate)
        };
        proof {
            lemma_counts_bounded(data@, candidate);
            lemma_max_below_counts(data@, candidate);
            lemma_min_above_counts(data@, candidate);
            assert(fuel0 >= 1);
        }
        let nsame = nlow - (len - nhigh);
        if nlow == nhigh {
            if nsame == 0 {
                proof {
                    lemma_terminal_balanced_straddle(data@, candidate);
                }
                result = MedianOutcome::Midpoint(below, above);
            } else {
                proof {
                    lemma_terminal_tied_balanced(data@, candidate);
                }
                result = MedianOutcome::Value(candidate);
            }
            proof {
                assert(result == spec_search(data@, maxdiff, decrease, st0, fuel0));
            }
            break;
        } else if nlow > nhigh {
            let excess = nlow - nhigh;
            if excess <= nsame {
                proof {
                    lemma_terminal_low_heavy(data@, candidate);
                }
                result = if len % 2 == 0 && nsame == 1 {
                    MedianOutcome::Midpoint(below, candidate)
                } else {
                    MedianOutcome::Value(candidate)
                };
                proof {
                    assert(result == spec_search(data@, maxdiff, decrease, st0, fuel0));
                }
                break;
            }
            let diff = excess - nsame;
            candidate = ctl.advance(candidate, diff, false, below, above);
            proof {
                lemma_loop_step(
                    data@,
                    maxdiff,
                    decrease,
                    len as int,
                    st0,
                    fuel0,
                    pre_ctl,
                    ctl,
                    candidate,
                    diff as u64,
                    false,
                    below,
                    above,
                );
            }
        } else {
            let excess = nhigh - nlow;
            if excess <= nsame {
                proof {
                    lemma_terminal_high_heavy(data@, candidate);
                }
                result = if len % 2 == 0 && nsame == 1 {
                    MedianOutcome::Midpoint(candidate, above)
                } else {
                    MedianOutcome::Value(candidate)
                };
                proof {
                    assert(result == spec_search(data@, maxdiff, decrease, st0, fuel0));
                }
                break;
            }
            let diff = excess - nsame;
            candidate = ctl.advance(candidate, diff, true, below, above);
            proof {
                lemma_loop_step(
                    data@,
                    maxdiff,
                    decrease,
                    len as int,
                    st0,
                    fuel0,
                    pre_ctl,
                    ctl,
                    candidate,
                    diff as u64,
                    true,
                    below,
                    above,
                );
            }
        }
    }
    result
}

/// One refinement round agrees with the specification-level search: the
/// state [`Controller::advance`] leaves behind is [`advance_state`], so
/// spending one round of fuel keeps the search's outcome.
proof fn lemma_loop_step(
    s: Seq<u64>,
    maxdiff: Tolerance,
    decrease: Ratio,
    len: int,
    st0: SearchState,
    fuel0: nat,
    pre: Controller,
    post: Controller,
    candidate: u64,
    diff: u64,
    up: bool,
    below: u64,
    above: u64,
)
    requires
        len == s.len(),
        fuel0 >= 1,
        pre.decrease == decrease,
        forall|d: int| #[trigger] pre.exceeds(d) <==> diff_exceeds(d, maxdiff, len),
        post.decrease == pre.decrease,
        post.mdiff_num == pre.mdiff_num,
        post.mdiff_den == pre.mdiff_den,
        st0.factor == pre.factor,
        st0.prev == pre.prev,
        st0.delta == pre.delta,
        st0.prevpartition == pre.prevpartition,
        below <= st0.candidate <= above,
        diff >= 1,
        count_le(s, st0.candidate) != count_ge(s, st0.candidate),
        count_le(s, st0.candidate) > count_ge(s, st0.candidate) <==> !up,
        !up ==> diff == count_le(s, st0.candidate) - count_ge(s, st0.candidate) - count_eq(
            s,
            st0.candidate,
        ),
        up ==> diff == count_ge(s, st0.candidate) - count_le(s, st0.candidate) - count_eq(
            s,
            st0.candidate,
        ),
        below == max_below(s, st0.candidate),
        above == min_above(s, st0.candidate),
        !pre.exceeds(diff as int) ==> candidate == (if up {
            above
        } else {
            below
        }) && post.factor == pre.factor && post.prev == pre.prev && post.delta == pre.delta
            && post.prevpartition == pre.prevpartition,
        pre.exceeds(diff as int) && overshoots(pre.prev, diff as int) ==> post.factor
            == shrunk_factor(pre.factor, prev_mag(pre.prev), diff, pre.decrease) && post.prev
            == pre.prev && post.delta == pre.delta && post.prevpartition == pre.prevpartition
            && candidate == step_target(
            pre.prevpartition,
            prev_mag(pre.prev),
            prev_up(pre.prev),
            post.factor,
            pre.delta,
        ),
        pre.exceeds(diff as int) && !overshoots(pre.prev, diff as int) ==> post.factor
            == pre.factor && post.prev == (PrevStep::Accepted { mag: diff, up })
            && post.delta == above - below && post.prevpartition == st0.candidate && candidate
            == step_target(st0.candidate, diff, up, pre.factor, (above - below) as u64),
    ensures
        forall|d: int| #[trigger] post.exceeds(d) <==> diff_exceeds(d, maxdiff, len),
        (SearchState {
            candidate,
            factor: post.factor,
            prev: post.prev,
            delta: post.delta,
            prevpartition: post.prevpartition,
        }) == advance_state(maxdiff, decrease, len, st0, diff, up, below, above),
        spec_search(
            s,
            maxdiff,
            decrease,
            (SearchState {
                candidate,
                factor: post.factor,
                prev: post.prev,
                delta: post.delta,
                prevpartition: post.prevpartition,
            }),
            (fuel0 - 1) as nat,
        ) == spec_search(s, maxdiff, decrease, st0, fuel0),
{
    assert forall|d: int| #[trigger] post.exceeds(d) <==> diff_exceeds(d, maxdiff, len) by {
        assert(pre.exceeds(d) <==> diff_exceeds(d, maxdiff, len));
    }
    assert(pre.exceeds(diff as int) <==> diff_exceeds(diff as int, maxdiff, len));
    if pre.exceeds(diff as int) && overshoots(pre.prev, diff as int) {
        assert(post.factor == shrunk_factor(pre.factor, prev_mag(pre.prev), diff, decrease) as u64);
    }
}

/// Solve with the default tuning: an absolute movement threshold of five
/// elements, an initial step multiplier of one fifth, a minimum shrink
/// ratio of one half, and a single counting segment.
pub fn calc(data: &[u64]) -> (r: MedianOutcome)
    requires
        in_range_all(data@),
    ensures
        r == spec_solve(
            data@,
            Tolerance::Count((Ratio { num: 5, den: 1 })),
            (Ratio { num: 1, den: 5 }),
            (Ratio { num: 1, den: 2 }),
        ),
        outcome_ok(data@, r),
        (data@.len() == 0) <==> (r == MedianOutcome::Undefined),
        data@.len() == 1 ==> r == MedianOutcome::Value(data@[0]),
        data@.len() == 2 ==> r == (if data@[0] <= data@[1] {
            MedianOutcome::Midpoint(data@[0], data@[1])
        } else {
            MedianOutcome::Midpoint(data@[1], data@[0])
        }),
{
    calcgen(
        data,
        Tolerance::Count(Ratio { num: 5, den: 1 }),
        Ratio { num: 1, den: 5 },
        Ratio { num: 1, den: 2 },
        1,
    )
}

/// For a dataset of odd length, any converged outcome is the middle
/// element: the `(n + 1) / 2`-th smallest, which is unique.
pub proof fn lemma_converged_odd_is_middle_element(s: Seq<u64>, r: MedianOutcome)
    requires
        outcome_ok(s, r),
        s.len() % 2 == 1,
        r != MedianOutcome::Unconverged,
    ensures
        r matches MedianOutcome::Value(v) && is_kth_smallest(s, (s.len() as int + 1) / 2, v),
{
}

/// For a dataset of even length without repeated elements, any converged
/// outcome names the two middle order statistics, lower one first: the
/// tie-resolution rule can keep a single element only where that element
/// is tied.
pub proof fn lemma_converged_even_distinct_is_middle_pair(s: Seq<u64>, r: MedianOutcome)
    requires
        outcome_ok(s, r),
        s.len() >= 2,
        s.len() % 2 == 0,
        r != MedianOutcome::Unconverged,
        forall|v: u64| #[trigger] count_eq(s, v) <= 1,
    ensures
        r matches MedianOutcome::Midpoint(a, b) && a <= b && is_kth_smallest(
            s,
            s.len() as int / 2,
            a,
        ) && is_kth_smallest(s, s.len() as int / 2 + 1, b),
{
}

/// The search reads the movement threshold only through its exceed
/// predicate: two tolerances that agree on every imbalance steer the
/// search identically.
proof fn lemma_search_threshold_equiv(
    s: Seq<u64>,
    t1: Tolerance,
    t2: Tolerance,
    decrease: Ratio,
    st: SearchState,
    fuel: nat,
)
    requires
        forall|d: int| diff_exceeds(d, t1, s.len() as int) <==> diff_exceeds(
            d,
            t2,
            s.len() as int,
        ),
    ensures
        spec_search(s, t1, decrease, st, fuel) == spec_search(s, t2, decrease, st, fuel),
    decreases fuel,
{
    if fuel > 0 {
        let n = s.len() as int;
        let c = st.candidate;
        let nle = count_le(s, c);
        let nge = count_ge(s, c);
        let neq = count_eq(s, c);
        let below = max_below(s, c);
        let above = min_above(s, c);
        if nle > nge && nle - nge > neq {
            let diff = (nle - nge - neq) as u64;
            assert(diff_exceeds(diff as int, t1, n) <==> diff_exceeds(diff as int, t2, n));
            lemma_search_threshold_equiv(
                s,
                t1,
                t2,
                decrease,
                advance_state(t1, decrease, n, st, diff, false, below, above),
                (fuel - 1) as nat,
            );
            assert(advance_state(t1, decrease, n, st, diff, false, below, above) == advance_state(
                t2,
                decrease,
                n,
                st,
                diff,
                false,
                below,
                above,
            ));
        } else if nge > nle && nge - nle > neq {
            let diff = (nge - nle - neq) as u64;
            assert(diff_exceeds(diff as int, t1, n) <==> diff_exceeds(diff as int, t2, n));
            lemma_search_threshold_equiv(
                s,
                t1,
                t2,
                decrease,
                advance_state(t1, decrease, n, st, diff, true, below, above),
                (fuel - 1) as nat,
            );
            assert(advance_state(t1, decrease, n, st, diff, true, below, above) == advance_state(
                t2,
                decrease,
                n,
                st,
                diff,
                true,
                below,
                above,
            ));
        }
    }
}

/// Normalization of a fractional movement threshold: a tolerance given as
/// a share of the dataset length solves exactly like the absolute
/// element-count tolerance it resolves to.
pub proof fn lemma_fractional_tolerance_resolves(
    s: Seq<u64>,
    share: Ratio,
    factor: Ratio,
    decrease: Ratio,
)
    requires
        share.num * s.len() <= u64::MAX,
    ensures
        spec_solve(s, Tolerance::Fraction(share), factor, decrease) == spec_solve(
            s,
            Tolerance::Count((Ratio { num: (share.num * s.len()) as u64, den: share.den })),
            factor,
            decrease,
        ),
{
    let n = s.len() as int;
    let t1 = Tolerance::Fraction(share);
    let t2 = Tolerance::Count((Ratio { num: (share.num * s.len()) as u64, den: share.den }));
    if n >= 3 {
        assert forall|d: int| diff_exceeds(d, t1, n) <==> diff_exceeds(d, t2, n) by {
            assert(share.num * s.len() >= 0) by (nonlinear_arith);
        }
        let m = (key_sum(s) / n) as u64;
        lemma_search_threshold_equiv(
            s,
            t1,
            t2,
            decrease,
            SearchState {
                candidate: m,
                factor: init_factor(factor),
                prev: PrevStep::Unbounded,
                delta: 0,
                prevpartition: m,
            },
            MAX_ITERATIONS as nat,
        );
    }
}

/// Summing a concatenation sums the parts.
proof fn lemma_key_sum_concat(a: Seq<u64>, b: Seq<u64>)
    ensures
        key_sum(a + b) == key_sum(a) + key_sum(b),
    decreases b.len(),
{
    if b.len() == 0 {
        assert(a + b =~= a);
    } else {
        lemma_key_sum_concat(a, b.drop_last());
        assert((a + b).drop_last() =~= a + b.drop_last());
        assert((a + b).last() == b.last());
    }
}

/// The key sum depends only on which elements the dataset holds.
proof fn lemma_key_sum_permutation(s1: Seq<u64>, s2: Seq<u64>)
    requires
        s1.to_multiset() == s2.to_multiset(),
    ensures
        key_sum(s1) == key_sum(s2),
    decreases s1.len(),
{
    broadcast use vstd::seq_lib::group_to_multiset_ensures;

    vstd::seq_lib::to_multiset_len(s1);
    vstd::seq_lib::to_multiset_len(s2);
    if s1.len() > 0 {
        let a = s1.last();
        assert(s1[s1.len() - 1] == a);
        assert(s1.contains(a));
        vstd::seq_lib::to_multiset_contains(s1, a);
        vstd::seq_lib::to_multiset_contains(s2, a);
        assert(s2.contains(a));
        let j = choose|j: int| 0 <= j < s2.len() && s2[j] == a;
        let left = s2.subrange(0, j);
        let right = s2.subrange(j + 1, s2.len() as int);
        let t = left + right;
        assert(s2.remove(j) =~= t);
        assert(s1.drop_last() =~= s1.remove(s1.len() - 1));
        vstd::seq_lib::to_multiset_remove(s1, s1.len() - 1);
        vstd::seq_lib::to_multiset_remove(s2, j);
        lemma_key_sum_permutation(s1.drop_last(), t);
        let one = seq![a];
        assert(one.drop_last() =~= Seq::<u64>::empty());
        assert(one.last() == a);
        assert(key_sum(Seq::<u64>::empty()) == 0);
        assert(key_sum(one) == a);
        lemma_key_sum_concat(left, one);
        lemma_key_sum_concat(left + one, right);
        lemma_key_sum_concat(left, right);
        assert(s2 =~= (left + one) + right);
    }
}

/// The search reads the dataset only through its counts, neighbours and
/// key sum, all of which the multiset determines: from equal states, two
/// reorderings of one dataset search identically.
proof fn lemma_search_permutation(
    s1: Seq<u64>,
    s2: Seq<u64>,
    maxdiff: Tolerance,
    decrease: Ratio,
    st: SearchState,
    fuel: nat,
)
    requires
        in_range_all(s1),
        in_range_all(s2),
        s1.to_multiset() == s2.to_multiset(),
    ensures
        spec_search(s1, maxdiff, decrease, st, fuel) == spec_search(s2, maxdiff, decrease, st, fuel),
    decreases fuel,
{
    if fuel > 0 {
        vstd::seq_lib::to_multiset_len(s1);
        vstd::seq_lib::to_multiset_len(s2);
        let n = s1.len() as int;
        let c = st.candidate;
        lemma_counts_permutation(s1, s2, c);
        lemma_neighbours_permutation(s1, s2, c);
        let nle = count_le(s1, c);
        let nge = count_ge(s1, c);
        let neq = count_eq(s1, c);
        let below = max_below(s1, c);
        let above = min_above(s1, c);
        if nle > nge && nle - nge > neq {
            lemma_search_permutation(
                s1,
                s2,
                maxdiff,
                decrease,
                advance_state(maxdiff, decrease, n, st, (nle - nge - neq) as u64, false, below, above),
                (fuel - 1) as nat,
            );
        } else if nge > nle && nge - nle > neq {
            lemma_search_permutation(
                s1,
                s2,
                maxdiff,
                decrease,
                advance_state(maxdiff, decrease, n, st, (nge - nle - neq) as u64, true, below, above),
                (fuel - 1) as nat,
            );
        }
    }
}

/// In a two-element dataset the smaller element holds the first rank and
/// the larger the second.
proof fn lemma_two_sorted(s: Seq<u64>, lo: u64, hi: u64)
    requires
        s.len() == 2,
        lo == (if s[0] <= s[1] {
            s[0]
        } else {
            s[1]
        }),
        hi == (if s[0] <= s[1] {
            s[1]
        } else {
            s[0]
        }),
    ensures
        is_kth_smallest(s, 1, lo),
        is_kth_smallest(s, 2, hi),
{
    let first = s.drop_last();
    assert(first.drop_last() =~= Seq::<u64>::empty());
    assert(first.last() == s[0]);
    assert(s.last() == s[1]);
    assert(count_le(Seq::<u64>::empty(), hi) == 0);
    assert(count_lt(Seq::<u64>::empty(), hi) == 0);
    assert(count_le(Seq::<u64>::empty(), lo) == 0);
    assert(count_lt(Seq::<u64>::empty(), lo) == 0);
    assert(count_le(first, hi) == 1);
    assert(count_lt(first, hi) <= 1);
    assert(count_lt(first, lo) == 0);
    assert(count_le(first, lo) == if s[0] <= lo {
        1int
    } else {
        0int
    });
    assert(count_le(s, hi) == 2);
    assert(count_lt(s, hi) <= 1);
    assert(count_le(s, lo) >= 1);
    assert(count_lt(s, lo) == 0);
}

/// Permutation invariance of the whole solve: two datasets holding the
/// same elements, in any order, solve to the same outcome under the same
/// tuning — converged or not.
pub proof fn lemma_solve_permutation(
    s1: Seq<u64>,
    s2: Seq<u64>,
    maxdiff: Tolerance,
    factor: Ratio,
    decrease: Ratio,
)
    requires
        in_range_all(s1),
        s1.to_multiset() == s2.to_multiset(),
    ensures
        spec_solve(s1, maxdiff, factor, decrease) == spec_solve(s2, maxdiff, factor, decrease),
{
    broadcast use vstd::seq_lib::group_to_multiset_ensures;

    vstd::seq_lib::to_multiset_len(s1);
    vstd::seq_lib::to_multiset_len(s2);
    let n = s1.len() as int;
    assert forall|i: int| 0 <= i < s2.len() implies KEY_NEG_INF <= #[trigger] s2[i]
        <= KEY_POS_INF by {
        assert(s2.contains(s2[i]));
        vstd::seq_lib::to_multiset_contains(s2, s2[i]);
        vstd::seq_lib::to_multiset_contains(s1, s2[i]);
        let k = choose|k: int| 0 <= k < s1.len() && s1[k] == s2[i];
        assert(KEY_NEG_INF <= s1[k] <= KEY_POS_INF);
    }
    if n == 1 {
        assert(s2.contains(s2[0]));
        vstd::seq_lib::to_multiset_contains(s2, s2[0]);
        vstd::seq_lib::to_multiset_contains(s1, s2[0]);
        let k = choose|k: int| 0 <= k < s1.len() && s1[k] == s2[0];
        assert(k == 0);
    } else if n == 2 {
        let lo1 = if s1[0] <= s1[1] {
            s1[0]
        } else {
            s1[1]
        };
        let hi1 = if s1[0] <= s1[1] {
            s1[1]
        } else {
            s1[0]
        };
        let lo2 = if s2[0] <= s2[1] {
            s2[0]
        } else {
            s2[1]
        };
        let hi2 = if s2[0] <= s2[1] {
            s2[1]
        } else {
            s2[0]
        };
        lemma_two_sorted(s1, lo1, hi1);
        lemma_two_sorted(s2, lo2, hi2);
        lemma_counts_permutation(s1, s2, lo2);
        lemma_counts_permutation(s1, s2, hi2);
        lemma_kth_smallest_unique(s1, 1, lo1, lo2);
        lemma_kth_smallest_unique(s1, 2, hi1, hi2);
    } else if n >= 3 {
        lemma_key_sum_permutation(s1, s2);
        let m = (key_sum(s1) / n) as u64;
        lemma_search_permutation(
            s1,
            s2,
            maxdiff,
            decrease,
            SearchState {
                candidate: m,
                factor: init_factor(factor),
                prev: PrevStep::Unbounded,
                delta: 0,
                prevpartition: m,
            },
            MAX_ITERATIONS as nat,
        );
    }
}

/// At most one element holds any given rank.
pub proof fn lemma_kth_smallest_unique(s: Seq<u64>, k: int, v1: u64, v2: u64)
    requires
        is_kth_smallest(s, k, v1),
        is_kth_smallest(s, k, v2),
    ensures
        v1 == v2,
{
    if v1 < v2 {
        lemma_count_mono(s, v1, v2);
    } else if v2 < v1 {
        lemma_count_mono(s, v2, v1);
    }
}

/// Permutation invariance at the outcome level, across any two solves
/// whose outcomes satisfy [`outcome_ok`] — even under different tuning:
/// for odd length the outcome is the unique middle element; for even
/// length two midpoint outcomes name the same pair of middle statistics.
/// (An even tied dataset may also be answered as a single tied element,
/// and such an answer agrees with a midpoint answer only after the
/// caller's final averaging, which the keys cannot express.  For two
/// solves under one and the same tuning, [`lemma_solve_permutation`]
/// gives equality outright, with no shape condition.)
pub proof fn lemma_outcome_permutation(
    s1: Seq<u64>,
    s2: Seq<u64>,
    r1: MedianOutcome,
    r2: MedianOutcome,
)
    requires
        s1.to_multiset() == s2.to_multiset(),
        outcome_ok(s1, r1),
        outcome_ok(s2, r2),
    ensures
        s1.len() % 2 == 1 && r1 != MedianOutcome::Unconverged && r2 != MedianOutcome::Unconverged
            ==> r1 == r2,
        (r1 matches MedianOutcome::Midpoint(_, _)) && (r2 matches MedianOutcome::Midpoint(_, _))
            ==> r1 == r2,
{
    vstd::seq_lib::to_multiset_len(s1);
    vstd::seq_lib::to_multiset_len(s2);
    let n = s1.len() as int;
    match (r1, r2) {
        (MedianOutcome::Value(v1), MedianOutcome::Value(v2)) => {
            if n % 2 == 1 {
                lemma_counts_permutation(s1, s2, v2);
                assert(is_kth_smallest(s1, (n + 1) / 2, v2));
                lemma_kth_smallest_unique(s1, (n + 1) / 2, v1, v2);
                assert(r1 == r2);
            }
        },
        (MedianOutcome::Midpoint(a1, b1), MedianOutcome::Midpoint(a2, b2)) => {
            lemma_counts_permutation(s1, s2, a2);
            lemma_counts_permutation(s1, s2, b2);
            assert(is_kth_smallest(s1, n / 2, a2));
            assert(is_kth_smallest(s1, n / 2 + 1, b2));
            lemma_kth_smallest_unique(s1, n / 2, a1, a2);
            lemma_kth_smallest_unique(s1, n / 2 + 1, b1, b2);
            assert(r1 == r2);
        },
        _ => {},
    }
}

} // verus!
