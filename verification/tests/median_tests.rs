use lowmemmedian::keys::bits_of_key;
use lowmemmedian::keys::key_of_bits;
use lowmemmedian::solver::MedianOutcome;

const EPS: f64 = 2.0 * f64::EPSILON;

fn key(x: f64) -> u64 {
    key_of_bits(x.to_bits())
}

fn unkey(k: u64) -> f64 {
    f64::from_bits(bits_of_key(k))
}

fn keys_of(xs: &[f64]) -> Vec<u64> {
    xs.iter().map(|&x| key(x)).collect()
}

fn resolve(o: MedianOutcome) -> f64 {
    match o {
        MedianOutcome::Undefined => f64::NAN,
        MedianOutcome::Value(k) => unkey(k),
        MedianOutcome::Midpoint(a, b) => (unkey(a) + unkey(b)) / 2.0,
        MedianOutcome::Unconverged => panic!("solver did not converge"),
    }
}

fn med(xs: &[f64]) -> f64 {
    resolve(lowmemmedian::solver::calc(&keys_of(xs)))
}

#[test]
fn median0() {
    let data: Vec<f64> = vec![];
    let m = resolve(lowmemmedian::solver::calc(&keys_of(&data)));
    assert!(m.is_nan());
}

#[test]
fn median1() {
    let data: Vec<f64> = vec![5.0];
    assert!((med(&data) - 5.0).abs() <= EPS);

    let data = vec![f64::INFINITY];
    let m = med(&data);
    assert_eq!(m, f64::INFINITY);
}

#[test]
fn median2() {
    let data: Vec<f64> = vec![5.0, 6.0];
    assert!((med(&data) - 5.5).abs() <= EPS);

    let data: Vec<f64> = vec![5.0, 5.0];
    assert!((med(&data) - 5.0).abs() <= EPS);

    let data: Vec<f64> = vec![5.0, f64::INFINITY];
    let m = med(&data);
    assert_eq!(m, f64::INFINITY);
}

#[test]
fn median3() {
    let data: Vec<f64> = vec![5.0, 6.0, 7.0];
    assert!((med(&data) - 6.0).abs() <= EPS);

    let data: Vec<f64> = vec![7.0, 6.0, 5.0];
    assert!((med(&data) - 6.0).abs() <= EPS);

    let data: Vec<f64> = vec![5.0, 7.0, 6.0];
    assert!((med(&data) - 6.0).abs() <= EPS);

    let data: Vec<f64> = vec![6.0, 7.0, 5.0];
    assert!((med(&data) - 6.0).abs() <= EPS);

    let data: Vec<f64> = vec![6.0, 5.0, 7.0];
    assert!((med(&data) - 6.0).abs() <= EPS);

    let data: Vec<f64> = vec![7.0, 5.0, 6.0];
    assert!((med(&data) - 6.0).abs() <= EPS);

    let data: Vec<f64> = vec![5.0, 5.0, 7.0];
    assert!((med(&data) - 5.0).abs() <= EPS);

    let data: Vec<f64> = vec![5.0, 5.0, 5.0];
    assert!((med(&data) - 5.0).abs() <= EPS);

    let data: Vec<f64> = vec![5.0, 6.0, f64::INFINITY];
    assert!((med(&data) - 6.0).abs() <= EPS);

    let data: Vec<f64> = vec![f64::INFINITY, 6.0, f64::INFINITY];
    assert_eq!(med(&data), f64::INFINITY);
}

#[test]
fn median() {
    let data: Vec<f64> = vec![1.0, 2.0, 3.0, 4.0, 5.0, 6.0, 7.0];
    assert!((med(&data) - 4.0).abs() <= EPS);
    let data: Vec<f64> = vec![1.0, 1.0, 1.0, 4.0, 5.0, 6.0, 1.0];
    assert!((med(&data) - 1.0).abs() <= EPS);
    let data: Vec<f64> = vec![1.0, 1.0, 2.0, 4.0, 5.0, 6.0, 1.0];
    assert!((med(&data) - 2.0).abs() <= EPS);
    let data: Vec<f64> = vec![4.0, 2.0, 1.0, 7.0, 3.0, 6.0, 5.0];
    assert!((med(&data) - 4.0).abs() <= EPS);
    let data: Vec<f64> = vec![7.0, 7.0, 1.0, 1.0, 5.0, 4.0, 3.0];
    assert!((med(&data) - 4.0).abs() <= EPS);
    let data: Vec<f64> = vec![5.0, 3.0, 4.0, 7.0, 1.0, 6.0, 2.0];
    assert!((med(&data) - 4.0).abs() <= EPS);
    let data: Vec<f64> = vec![1.0, 2.0, 3.0, 4.0, 5.0, 6.0, 7.0, 8.0];
    assert!((med(&data) - 4.5).abs() <= EPS);
    let data: Vec<f64> = vec![3.0, 5.0, 4.0, 8.0, 1.0, 7.0, 2.0, 6.0];
    assert!((med(&data) - 4.5).abs() <= EPS);
    let data: Vec<f64> = vec![4.0, 6.0, 3.0, 8.0, 1.0, 7.0, 2.0, 5.0];
    assert!((med(&data) - 4.5).abs() <= EPS);
    let data: Vec<f64> = vec![5.0, 6.0, 3.0, 8.0, 1.0, 7.0, 2.0, 4.0];
    assert!((med(&data) - 4.5).abs() <= EPS);
    let data: Vec<f64> = vec![1.0, 2.0, 2.0, 3.0, 3.0, 3.0, 3.0, 4.0];
    assert!((med(&data) - 3.0).abs() <= EPS);
    let data: Vec<f64> = vec![1.0, 2.0, 2.0, 2.0, 3.0, 3.0, 3.0, 3.0, 4.0];
    assert!((med(&data) - 3.0).abs() <= EPS);
}

#[test]
fn moremedian() {
    let data: Vec<f64> = vec![1.0, 2.0, 3.0, 4.0, 5.0, 6.0, 7.0, 8.0];
    assert!((med(&data) - 4.5).abs() <= EPS);
    let data: Vec<f64> = vec![1.0, 2.0, 2.0, 3.0, 3.0, 3.0, 3.0, 4.0];
    assert!((med(&data) - 3.0).abs() <= EPS);

    let data: Vec<f64> = vec![1.0, 2.0, 3.0, 4.0, 5.0, 6.0, 7.0, 8.0];
    assert!((med(&data) - 4.5).abs() <= EPS);
    let data: Vec<f64> = vec![3.0, 5.0, 4.0, 8.0, 1.0, 7.0, 2.0, 6.0];
    assert!((med(&data) - 4.5).abs() <= EPS);
    let data: Vec<f64> = vec![1.0, 2.0, 2.0, 3.0, 3.0, 3.0, 3.0, 4.0];
    assert!((med(&data) - 3.0).abs() <= EPS);

    let data: Vec<f64> = vec![1.0, 2.0, 3.0, 4.0, 5.0, 6.0, 7.0];
    assert!((med(&data) - 4.0).abs() <= EPS);
    let data: Vec<f64> = vec![1.0, 1.0, 1.0, 4.0, 5.0, 6.0, 1.0];
    assert!((med(&data) - 1.0).abs() <= EPS);
    let data: Vec<f64> = vec![1.0, 1.0, 2.0, 4.0, 5.0, 6.0, 1.0];
    assert!((med(&data) - 2.0).abs() <= EPS);
    let data: Vec<f64> = vec![4.0, 2.0, 1.0, 7.0, 3.0, 6.0, 5.0];
    assert!((med(&data) - 4.0).abs() <= EPS);
    let data: Vec<f64> = vec![7.0, 7.0, 1.0, 1.0, 5.0, 4.0, 3.0];
    assert!((med(&data) - 4.0).abs() <= EPS);
    let data: Vec<f64> = vec![5.0, 3.0, 4.0, 7.0, 1.0, 6.0, 2.0];
    assert!((med(&data) - 4.0).abs() <= EPS);

    let data: Vec<f64> = vec![1.0, 2.0, 3.0, 4.0, 5.0, 6.0, 7.0];
    assert!((med(&data) - 4.0).abs() <= EPS);
    let data: Vec<f64> = vec![1.0, 1.0, 1.0, 4.0, 5.0, 6.0, 1.0];
    assert!((med(&data) - 1.0).abs() <= EPS);
    let data: Vec<f64> = vec![1.0, 1.0, 2.0, 4.0, 5.0, 6.0, 1.0];
    assert!((med(&data) - 2.0).abs() <= EPS);
    let data: Vec<f64> = vec![4.0, 2.0, 1.0, 7.0, 3.0, 6.0, 5.0];
    assert!((med(&data) - 4.0).abs() <= EPS);
    let data: Vec<f64> = vec![7.0, 7.0, 1.0, 1.0, 5.0, 4.0, 3.0];
    assert!((med(&data) - 4.0).abs() <= EPS);
    let data: Vec<f64> = vec![5.0, 3.0, 4.0, 7.0, 1.0, 6.0, 2.0];
    assert!((med(&data) - 4.0).abs() <= EPS);

    let data: Vec<f64> = vec![1.0, 2.0, 3.0, 4.0, 4.0, 5.0, 6.0, 7.0];
    assert!((med(&data) - 4.0).abs() <= EPS);

    let data: Vec<f64> = vec![1.0, 2.0, 3.0, 4.0, 5.0, 6.0, 6.0, 20.0];
    assert!((med(&data) - 4.5).abs() <= EPS);
    let data: Vec<f64> = vec![1.0, 2.0, 3.0, 4.0, 5.0, 5.0, 6.0, 6.0];
    assert!((med(&data) - 4.5).abs() <= EPS);

    let data: Vec<f64> = vec![1.0, 2.0, 3.0, 5.0];
    assert!((med(&data) - 2.5).abs() <= EPS);
}
