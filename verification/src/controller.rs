//! The adaptive step-size controller.
//!
//! Given an imbalance between the low and high tallies and a direction, the
//! controller either declares the search converged in that direction and
//! snaps the candidate to the adjacent observed neighbour, or moves the
//! candidate by a step proportional to the imbalance, the current step
//! multiplier and the neighbour gap observed at the last accepted
//! candidate.  When a step overshoots — the imbalance grew past the last
//! accepted one — the candidate is retracted from the last accepted point
//! and the step multiplier shrinks, by the configured minimum ratio or
//! more, so step sizes cannot grow without bound.
//!
//! All tuning parameters are exact rationals and the step multiplier is a
//! binary fixed-point fraction, so every update here is plain integer
//! arithmetic with an exact contract.

use vstd::prelude::*;

use crate::keys::key_in_range;
use crate::keys::KEY_NEG_INF;
use crate::keys::KEY_POS_INF;

verus! {

/// A non-negative rational tuning parameter.
#[derive(Clone, Copy, Debug, PartialEq, Eq, Structural)]
pub struct Ratio {
    pub num: u64,
    pub den: u64,
}

/// A ratio denotes a value only when its denominator is positive.
pub open spec fn ratio_wf(r: Ratio) -> bool {
    r.den > 0
}

/// The movement threshold below which an imbalance no longer justifies a
/// step: either an absolute element count, or a fraction of the dataset
/// length.
#[derive(Clone, Copy, Debug, PartialEq, Eq, Structural)]
pub enum Tolerance {
    /// An absolute element-count tolerance.
    Count(Ratio),
    /// A tolerance read as a fraction of the dataset length.
    Fraction(Ratio),
}

pub open spec fn tolerance_wf(t: Tolerance) -> bool {
    match t {
        Tolerance::Count(r) => ratio_wf(r),
        Tolerance::Fraction(r) => ratio_wf(r),
    }
}

/// Whether an imbalance of `diff` elements exceeds the effective movement
/// threshold of `t` for a dataset of `len` elements.
pub open spec fn diff_exceeds(diff: int, t: Tolerance, len: int) -> bool {
    match t {
        Tolerance::Count(r) => diff * r.den > r.num,
        Tolerance::Fraction(r) => diff * r.den > r.num * len,
    }
}

/// The fixed-point scale of the step multiplier: this value stands for one.
pub const FACTOR_ONE: u64 = 0x1_0000_0000;

/// The last accepted imbalance: its magnitude and the direction it moved
/// the candidate, or unbounded before any step has been accepted, so that
/// the first step is never taken for an overshoot.
#[derive(Clone, Copy, Debug, PartialEq, Eq, Structural)]
pub enum PrevStep {
    Unbounded,
    Accepted { mag: u64, up: bool },
}

/// The magnitude retained in `prev`, where one is retained.
pub open spec fn prev_mag(prev: PrevStep) -> u64 {
    match prev {
        PrevStep::Unbounded => 0,
        PrevStep::Accepted { mag, up } => mag,
    }
}

/// The direction retained in `prev`, where one is retained.
pub open spec fn prev_up(prev: PrevStep) -> bool {
    match prev {
        PrevStep::Unbounded => true,
        PrevStep::Accepted { mag, up } => up,
    }
}

/// Whether an imbalance of `diff` means the last step overshot.
pub open spec fn overshoots(prev: PrevStep, diff: int) -> bool {
    match prev {
        PrevStep::Unbounded => false,
        PrevStep::Accepted { mag, up } => diff > mag,
    }
}

/// The initial step multiplier: the ratio `r`, brought to fixed point and
/// saturated at the largest representable multiplier.
pub open spec fn init_factor(r: Ratio) -> u64 {
    let f = r.num * FACTOR_ONE / (r.den as int);
    if f > u64::MAX {
        u64::MAX
    } else {
        f as u64
    }
}

/// The step multiplier after a shrink for an overshoot: scaled by the
/// overshoot ratio `mag / diff` when that undercuts the configured
/// minimum shrink ratio `dec`, else by `dec`.
pub open spec fn shrunk_factor(factor: u64, mag: u64, diff: u64, dec: Ratio) -> int {
    if mag * dec.den < dec.num * diff {
        factor * mag / (diff as int)
    } else {
        factor * dec.num / (dec.den as int)
    }
}

/// The candidate reached by stepping from `from` by
/// `mag * factor * delta`, in the given direction, saturating at the
/// admissible key band.
pub open spec fn step_target(from: u64, mag: u64, up: bool, factor: u64, delta: u64) -> u64 {
    let scaled = factor * delta / (FACTOR_ONE as int);
    let scaled64 = if scaled > u64::MAX {
        u64::MAX as int
    } else {
        scaled
    };
    let step = mag * scaled64;
    if up {
        let t = from + step;
        if t > KEY_POS_INF {
            KEY_POS_INF
        } else {
            t as u64
        }
    } else {
        let t = from - step;
        if t < KEY_NEG_INF {
            KEY_NEG_INF
        } else {
            t as u64
        }
    }
}

/// The controller's state: the current step multiplier, the configured
/// shrink ratio, the resolved movement threshold, the last accepted
/// imbalance, the neighbour gap and the candidate observed when it was
/// accepted.
#[derive(Clone, Copy, Debug)]
pub struct Controller {
    /// Current step multiplier, a fixed-point fraction of [`FACTOR_ONE`].
    pub factor: u64,
    /// Minimum shrink ratio applied to `factor` on an overshoot.
    pub decrease: Ratio,
    /// Movement threshold numerator, already scaled by the dataset length
    /// where the tolerance was fractional.
    pub mdiff_num: u128,
    /// Movement threshold denominator.
    pub mdiff_den: u64,
    /// The last accepted imbalance.
    pub prev: PrevStep,
    /// The neighbour gap `above - below` at the last accepted candidate.
    pub delta: u64,
    /// The candidate at which the last imbalance was accepted.
    pub prevpartition: u64,
}

impl Controller {
    /// The controller's own invariant.
    pub open spec fn wf(self) -> bool {
        &&& self.mdiff_den > 0
        &&& ratio_wf(self.decrease)
        &&& self.decrease.num < self.decrease.den
        &&& key_in_range(self.prevpartition)
    }

    /// Whether an imbalance of `diff` exceeds the resolved threshold.
    pub open spec fn exceeds(self, diff: int) -> bool {
        diff * self.mdiff_den > self.mdiff_num
    }

    /// Set up the controller for one solve: resolve the movement threshold
    /// against the dataset length, bring the step multiplier to fixed
    /// point, and record the starting candidate as the reference point.
    pub fn new(maxdiff: Tolerance, factor: Ratio, decrease: Ratio, len: usize, start: u64) -> (c:
        Controller)
        requires
            tolerance_wf(maxdiff),
            ratio_wf(factor),
            ratio_wf(decrease),
            decrease.num < decrease.den,
            key_in_range(start),
        ensures
            c.wf(),
            c.factor == init_factor(factor),
            c.decrease == decrease,
            c.prev == PrevStep::Unbounded,
            c.delta == 0,
            c.prevpartition == start,
            forall|d: int| #[trigger] c.exceeds(d) <==> diff_exceeds(d, maxdiff, len as int),
    {
        proof {
            match maxdiff {
                Tolerance::Count(r) => {},
                Tolerance::Fraction(r) => { lemma_mul_fits_u128(r.num, len as u64); },
            }
            lemma_mul_fits_u128(factor.num, FACTOR_ONE);
        }
        let (mnum, mden): (u128, u64) = match maxdiff {
            Tolerance::Count(r) => (r.num as u128, r.den),
            Tolerance::Fraction(r) => ((r.num as u128) * (len as u128), r.den),
        };
        let wide = (factor.num as u128) * (FACTOR_ONE as u128) / (factor.den as u128);
        let f = if wide > u64::MAX as u128 {
            u64::MAX
        } else {
            wide as u64
        };
        Controller {
            factor: f,
            decrease,
            mdiff_num: mnum,
            mdiff_den: mden,
            prev: PrevStep::Unbounded,
            delta: 0,
            prevpartition: start,
        }
    }

    /// Step from `from` by `mag * factor * delta` in the given direction.
    fn step_from(&self, from: u64, mag: u64, up: bool) -> (next: u64)
        requires
            key_in_range(from),
        ensures
            next == step_target(from, mag, up, self.factor, self.delta),
            key_in_range(next),
    {
        proof {
            lemma_mul_fits_u128(self.factor, self.delta);
        }
        let scaled128 = (self.factor as u128) * (self.delta as u128) / (FACTOR_ONE as u128);
        let scaled = if scaled128 > u64::MAX as u128 {
            u64::MAX
        } else {
            scaled128 as u64
        };
        proof {
            lemma_mul_fits_u128(mag, scaled);
        }
        let step = (mag as u128) * (scaled as u128);
        if up {
            if step > KEY_POS_INF as u128 {
                KEY_POS_INF
            } else {
                let t = (from as u128) + step;
                if t > KEY_POS_INF as u128 {
                    KEY_POS_INF
                } else {
                    t as u64
                }
            }
        } else {
            if step >= (from as u128) {
                KEY_NEG_INF
            } else {
                let t = from - (step as u64);
                if t < KEY_NEG_INF {
                    KEY_NEG_INF
                } else {
                    t
                }
            }
        }
    }

    /// One controller decision, as one operation taking the direction as an
    /// explicit argument.
    ///
    /// Given the current candidate, the imbalance magnitude `diff` (already
    /// net of the tie count), the direction (`up` meaning the candidate
    /// must move up) and the observed neighbours, the controller returns
    /// the next candidate:
    /// - an imbalance at or under the threshold snaps to the adjacent
    ///   neighbour, leaving the state untouched;
    /// - an imbalance past the last accepted one retracts from the last
    ///   accepted candidate with a strictly smaller step multiplier;
    /// - otherwise the imbalance is accepted as the new reference point and
    ///   the candidate moves by `diff * factor * delta`.
    pub fn advance(&mut self, candidate: u64, diff: usize, up: bool, below: u64, above: u64) -> (next:
        u64)
        requires
            old(self).wf(),
            key_in_range(candidate),
            key_in_range(below),
            key_in_range(above),
            below <= candidate <= above,
        ensures
            final(self).wf(),
            key_in_range(next),
            final(self).decrease == old(self).decrease,
            final(self).mdiff_num == old(self).mdiff_num,
            final(self).mdiff_den == old(self).mdiff_den,
            !old(self).exceeds(diff as int) ==> {
                &&& next == if up {
                    above
                } else {
                    below
                }
                &&& *final(self) == *old(self)
            },
            old(self).exceeds(diff as int) && overshoots(old(self).prev, diff as int) ==> {
                &&& final(self).factor == shrunk_factor(
                    old(self).factor,
                    prev_mag(old(self).prev),
                    diff as u64,
                    old(self).decrease,
                )
                &&& final(self).factor <= old(self).factor
                &&& old(self).factor > 0 ==> final(self).factor < old(self).factor
                &&& final(self).prev == old(self).prev
                &&& final(self).delta == old(self).delta
                &&& final(self).prevpartition == old(self).prevpartition
                &&& next == step_target(
                    old(self).prevpartition,
                    prev_mag(old(self).prev),
                    prev_up(old(self).prev),
                    final(self).factor,
                    old(self).delta,
                )
            },
            old(self).exceeds(diff as int) && !overshoots(old(self).prev, diff as int) ==> {
                &&& final(self).factor == old(self).factor
                &&& final(self).prev == (PrevStep::Accepted { mag: diff as u64, up })
                &&& final(self).delta == above - below
                &&& final(self).prevpartition == candidate
                &&& next == step_target(
                    candidate,
                    diff as u64,
                    up,
                    old(self).factor,
                    (above - below) as u64,
                )
            },
    {
        proof {
            lemma_mul_fits_u128(diff as u64, self.mdiff_den);
        }
        let exceeds = (diff as u128) * (self.mdiff_den as u128) > self.mdiff_num;
        if !exceeds {
            if up {
                above
            } else {
                below
            }
        } else {
            let over = match self.prev {
                PrevStep::Unbounded => false,
                PrevStep::Accepted { mag, up: _ } => (diff as u64) > mag,
            };
            if over {
                let (mag, pup) = match self.prev {
                    PrevStep::Unbounded => (0u64, true),
                    PrevStep::Accepted { mag, up: pu } => (mag, pu),
                };
                let d64 = diff as u64;
                proof {
                    lemma_mul_fits_u128(mag, self.decrease.den);
                    lemma_mul_fits_u128(self.decrease.num, d64);
                    lemma_mul_fits_u128(self.factor, mag);
                    lemma_mul_fits_u128(self.factor, self.decrease.num);
                }
                let wide = if (mag as u128) * (self.decrease.den as u128) < (self.decrease.num
                    as u128) * (d64 as u128) {
                    (self.factor as u128) * (mag as u128) / (d64 as u128)
                } else {
                    (self.factor as u128) * (self.decrease.num as u128) / (self.decrease.den
                        as u128)
                };
                proof {
                    lemma_scale_down(old(self).factor as int, mag as int, d64 as int);
                    lemma_scale_down(
                        old(self).factor as int,
                        old(self).decrease.num as int,
                        old(self).decrease.den as int,
                    );
                }
                self.factor = wide as u64;
                self.step_from(self.prevpartition, mag, pup)
            } else {
                self.prev = PrevStep::Accepted { mag: diff as u64, up };
                self.delta = above - below;
                self.prevpartition = candidate;
                self.step_from(candidate, diff as u64, up)
            }
        }
    }
}

/// The product of two values bounded by the largest `u64` fits in a `u128`.
proof fn lemma_mul_fits_u128(a: u64, b: u64)
    ensures
        (a as int) * (b as int) <= u64::MAX * u64::MAX,
        (a as int) * (b as int) < u128::MAX,
{
    vstd::arithmetic::mul::lemma_mul_upper_bound(a as int, u64::MAX as int, b as int, u64::MAX as int);
}

/// Scaling a non-negative quantity by a proper fraction shrinks it: the
/// floor of `f * a / b` stays at or under `f`, and strictly under it when
/// `f` is positive and `a` undercuts `b`.
proof fn lemma_scale_down(f: int, a: int, b: int)
    requires
        f >= 0,
        0 <= a < b,
    ensures
        0 <= f * a / b <= f,
        f >= 1 ==> f * a / b < f,
{
    assert(f * a >= 0) by (nonlinear_arith)
        requires
            f >= 0,
            a >= 0,
    ;
    vstd::arithmetic::div_mod::lemma_div_pos_is_pos(f * a, b);
    if f >= 1 {
        assert(f * a <= (f - 1) * b + (b - 1)) by (nonlinear_arith)
            requires
                f >= 1,
                0 <= a <= b - 1,
        ;
        vstd::arithmetic::div_mod::lemma_fundamental_div_mod_converse(
            (f - 1) * b + (b - 1),
            b,
            f - 1,
            b - 1,
        );
        vstd::arithmetic::div_mod::lemma_div_is_ordered(f * a, (f - 1) * b + (b - 1), b);
    } else {
        assert(f * a == 0) by (nonlinear_arith)
            requires
                f == 0,
        ;
        vstd::arithmetic::div_mod::lemma_basic_div(0, b);
    }
}

} // verus!
