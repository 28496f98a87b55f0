use lowmemmedian::controller::Controller;
use lowmemmedian::controller::Ratio;
use lowmemmedian::controller::Tolerance;
use lowmemmedian::counting::calccounts;
use lowmemmedian::counting::calccounts_chunks;
use lowmemmedian::keys::bits_of_key;
use lowmemmedian::keys::key_of_bits;
use lowmemmedian::keys::KEY_NEG_INF;
use lowmemmedian::keys::KEY_POS_INF;
use lowmemmedian::solver::MedianOutcome;

fn key(x: f64) -> u64 {
    key_of_bits(x.to_bits())
}

fn unkey(k: u64) -> f64 {
    f64::from_bits(bits_of_key(k))
}

fn keys_of(xs: &[f64]) -> Vec<u64> {
    xs.iter().map(|&x| key(x)).collect()
}

fn resolve(o: MedianOutcome) -> f64 {
    match o {
        MedianOutcome::Undefined => f64::NAN,
        MedianOutcome::Value(k) => unkey(k),
        MedianOutcome::Midpoint(a, b) => (unkey(a) + unkey(b)) / 2.0,
        MedianOutcome::Unconverged => panic!("solver did not converge"),
    }
}

fn med(xs: &[f64]) -> f64 {
    resolve(lowmemmedian::solver::calc(&keys_of(xs)))
}

#[test]
fn key_codec_round_trip() {
    let samples = [
        0.0,
        -0.0,
        1.0,
        -1.0,
        1.5,
        -273.15,
        f64::MAX,
        f64::MIN,
        f64::MIN_POSITIVE,
        f64::INFINITY,
        f64::NEG_INFINITY,
    ];
    for &x in samples.iter() {
        let b = x.to_bits();
        assert_eq!(bits_of_key(key_of_bits(b)), b);
        assert_eq!(unkey(key(x)).to_bits(), b);
    }
    assert_eq!(key(f64::NEG_INFINITY), KEY_NEG_INF);
    assert_eq!(key(f64::INFINITY), KEY_POS_INF);
}

#[test]
fn key_codec_preserves_order() {
    let sorted = [
        f64::NEG_INFINITY,
        f64::MIN,
        -2.5,
        -1.0,
        -f64::MIN_POSITIVE,
        0.0,
        f64::MIN_POSITIVE,
        0.5,
        1.0,
        3.25,
        f64::MAX,
        f64::INFINITY,
    ];
    for w in sorted.windows(2) {
        assert!(w[0] < w[1]);
        assert!(key(w[0]) < key(w[1]));
    }
}

#[test]
fn counting_tallies_and_neighbours() {
    let data = keys_of(&[1.0, 5.0, 9.0, 5.0]);
    let (nlow, nhigh, below, above) = calccounts(&data, key(5.0));
    assert_eq!(nlow, 3);
    assert_eq!(nhigh, 3);
    assert_eq!(below, key(1.0));
    assert_eq!(above, key(9.0));

    let empty: Vec<u64> = vec![];
    let (nlow, nhigh, below, above) = calccounts(&empty, key(7.0));
    assert_eq!(nlow, 0);
    assert_eq!(nhigh, 0);
    assert_eq!(below, KEY_NEG_INF);
    assert_eq!(above, KEY_POS_INF);

    let data = keys_of(&[4.0, 4.0, 4.0]);
    let (nlow, nhigh, below, above) = calccounts(&data, key(4.0));
    assert_eq!(nlow, 3);
    assert_eq!(nhigh, 3);
    assert_eq!(below, KEY_NEG_INF);
    assert_eq!(above, KEY_POS_INF);
}

#[test]
fn chunked_counting_matches_direct() {
    let data = keys_of(&[13.0, 2.0, 8.0, 8.0, 40.0, 1.0, 8.0, 21.0, 3.0, 5.0, 34.0]);
    for p in [0.5f64, 3.0, 8.0, 20.0, 100.0] {
        let direct = calccounts(&data, key(p));
        for chunks in 1..=data.len() {
            assert_eq!(calccounts_chunks(&data, key(p), chunks), direct);
        }
    }
}

#[test]
fn chunked_solve_matches_plain() {
    let xs = [9.0, 1.0, 4.0, 7.0, 2.0, 8.0, 3.0, 6.0, 5.0];
    let data = keys_of(&xs);
    let plain = lowmemmedian::solver::calc(&data);
    for chunks in 1..=data.len() {
        let chunked = lowmemmedian::solver::calcgen(
            &data,
            Tolerance::Count(Ratio { num: 5, den: 1 }),
            Ratio { num: 1, den: 5 },
            Ratio { num: 1, den: 2 },
            chunks,
        );
        assert_eq!(chunked, plain);
    }
    assert_eq!(resolve(plain), 5.0);
}

#[test]
fn controller_snaps_to_neighbour_under_threshold() {
    let start = key(5.0);
    let below = key(4.0);
    let above = key(6.0);
    let mut ctl = Controller::new(
        Tolerance::Count(Ratio { num: 5, den: 1 }),
        Ratio { num: 1, den: 5 },
        Ratio { num: 1, den: 2 },
        10,
        start,
    );
    let factor_before = ctl.factor;
    let next = ctl.advance(start, 3, false, below, above);
    assert_eq!(next, below);
    assert_eq!(ctl.factor, factor_before);
    let next = ctl.advance(start, 3, true, below, above);
    assert_eq!(next, above);
}

#[test]
fn controller_steps_by_imbalance_and_gap() {
    let start = key(5.0);
    let below = key(4.0);
    let above = key(6.0);
    let mut ctl = Controller::new(
        Tolerance::Count(Ratio { num: 0, den: 1 }),
        Ratio { num: 1, den: 1 },
        Ratio { num: 1, den: 2 },
        10,
        start,
    );
    let delta = above - below;
    let next = ctl.advance(start, 2, true, below, above);
    assert_eq!(next, start + 2 * delta);
    assert_eq!(ctl.delta, delta);
    assert_eq!(ctl.prevpartition, start);
}

#[test]
fn controller_shrinks_factor_on_overshoot() {
    let start = key(5.0);
    let below = key(4.0);
    let above = key(6.0);
    let mut ctl = Controller::new(
        Tolerance::Count(Ratio { num: 0, den: 1 }),
        Ratio { num: 1, den: 1 },
        Ratio { num: 1, den: 2 },
        10,
        start,
    );
    let first = ctl.advance(start, 2, true, below, above);
    assert!(first > start);
    // The imbalance grew from two to five: the step overshot.  The
    // overshoot ratio two fifths undercuts the minimum shrink ratio one
    // half, so the factor scales by exactly two fifths, and the candidate
    // retracts to a shorter step from the last accepted point, in the
    // direction of the accepted step.
    let factor_before = ctl.factor;
    let retried = ctl.advance(first, 5, false, below, above);
    assert_eq!(ctl.factor, ((factor_before as u128) * 2 / 5) as u64);
    assert!(start < retried && retried < first);
}

#[test]
fn fractional_tolerance_counts_a_share_of_the_length() {
    // A tolerance of one tenth of ten elements moves only for imbalances
    // above one.
    let start = key(5.0);
    let below = key(4.0);
    let above = key(6.0);
    let mut ctl = Controller::new(
        Tolerance::Fraction(Ratio { num: 1, den: 10 }),
        Ratio { num: 1, den: 1 },
        Ratio { num: 1, den: 2 },
        10,
        start,
    );
    let next = ctl.advance(start, 1, false, below, above);
    assert_eq!(next, below);
    let next = ctl.advance(start, 2, true, below, above);
    assert!(next > start);
}

#[test]
fn fractional_threshold_solves_like_its_resolved_count() {
    let xs = [9.0, 1.0, 4.0, 7.0, 2.0, 8.0, 3.0, 6.0, 5.0];
    let data = keys_of(&xs);
    let factor = Ratio { num: 1, den: 5 };
    let decrease = Ratio { num: 1, den: 2 };
    // Half the length of nine elements resolves to nine halves.
    let fractional = lowmemmedian::solver::calcgen(
        &data,
        Tolerance::Fraction(Ratio { num: 1, den: 2 }),
        factor,
        decrease,
        1,
    );
    let resolved = lowmemmedian::solver::calcgen(
        &data,
        Tolerance::Count(Ratio { num: 9, den: 2 }),
        factor,
        decrease,
        1,
    );
    assert_eq!(fractional, resolved);
    assert_eq!(resolve(fractional), 5.0);
}

#[test]
fn unconverged_when_steps_cannot_move() {
    // A zero step multiplier freezes the candidate between two value
    // groups; with a zero movement threshold the solver can neither step
    // nor snap, and reports that it did not converge.
    let xs = [1.0, 1.0, 1.0, 1.0, 1.0, 1.0, 1.0, 1.0, 1e300];
    let data = keys_of(&xs);
    let r = lowmemmedian::solver::calcgen(
        &data,
        Tolerance::Count(Ratio { num: 0, den: 1 }),
        Ratio { num: 0, den: 1 },
        Ratio { num: 1, den: 2 },
        1,
    );
    assert_eq!(r, MedianOutcome::Unconverged);
}

#[test]
fn two_elements_average_exactly() {
    assert_eq!(med(&[1.0, 2.0]), 1.5);
    assert_eq!(med(&[7.0, 3.0]), 5.0);
    assert_eq!(med(&[-0.0, 0.0]), 0.0);
    assert_eq!(med(&[f64::MAX, f64::MAX]), f64::INFINITY);
    assert_eq!(med(&[f64::NEG_INFINITY, 4.0]), f64::NEG_INFINITY);
}

#[test]
fn geometric_run_median() {
    let xs = [1.0, 2.0, 4.0, 8.0, 16.0, 32.0, 64.0, 128.0, 256.0];
    assert_eq!(med(&xs), 16.0);
}

#[test]
fn negative_values_median() {
    assert_eq!(med(&[-1.0, -2.0, -3.0]), -2.0);
    assert_eq!(med(&[-1.5, 0.0, 2.5]), 0.0);
    assert_eq!(med(&[-10.0, -20.0, 5.0, 15.0]), -2.5);
}

#[test]
fn solve_two_with_infinity() {
    assert_eq!(med(&[5.0, f64::INFINITY]), f64::INFINITY);
    assert_eq!(med(&[f64::INFINITY, 6.0, f64::INFINITY]), f64::INFINITY);
}
