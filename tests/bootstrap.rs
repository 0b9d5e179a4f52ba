use criterion_stats::batch::map_points;
use criterion_stats::bootstrap::{
    bootstrap, bootstrap_range, bootstrap_rows, bootstrap_single, bootstrap_single_with_workers,
    bootstrap_with_workers, resample_grid_side,
    Distribution,
};
use criterion_stats::chunks::{chunk_bounds, granularity};
use criterion_stats::resamples::Resamples;
use quickcheck::{QuickCheck, TestResult};

fn mean(s: &[f64]) -> f64 {
    s.iter().sum::<f64>() / s.len() as f64
}

fn diff_of_means(a: &[f64], b: &[f64]) -> f64 {
    mean(a) - mean(b)
}

fn unit_sample(size: usize) -> Vec<f64> {
    (0..size).map(|i| ((i * 37 + 11) % 101) as f64 / 100.0).collect()
}

#[test]
fn exact_sizing_single_sample() {
    let sample = unit_sample(20);
    for &n in &[1usize, 2, 19, 20, 21, 100, 1000] {
        for &workers in &[1usize, 2, 3, 8] {
            let d = bootstrap_single_with_workers(&sample, mean, n, workers, 7);
            assert_eq!(d.len(), n);
            let v = d.into_vec();
            assert_eq!(v.len(), n);
            assert_eq!(v.capacity(), v.len());
        }
    }
}

fn prop_sizing_and_range(size: u8, nresamples: u16) -> TestResult {
    if size == 0 || nresamples == 0 {
        return TestResult::discard();
    }
    let sample = unit_sample(size as usize);
    let n = nresamples as usize;
    let d = bootstrap_single_with_workers(&sample, mean, n, 4, size as u64).into_vec();
    TestResult::from_bool(
        d.capacity() == d.len() && d.len() == n && d.iter().all(|&x| x >= 0. && x <= 1.),
    )
}

#[test]
fn exact_sizing_property() {
    QuickCheck::new()
        .tests(50)
        .quickcheck(prop_sizing_and_range as fn(u8, u16) -> TestResult);
}

#[test]
fn two_sample_rounding() {
    assert_eq!(resample_grid_side(10), 4);
    assert_eq!(resample_grid_side(1), 1);
    assert_eq!(resample_grid_side(16), 4);
    assert_eq!(resample_grid_side(17), 5);
    assert_eq!(resample_grid_side(usize::MAX), 1usize << 32);
    let first = unit_sample(5);
    let second = unit_sample(7);
    let d = bootstrap_with_workers(&first, &second, diff_of_means, 10, 1, 3);
    assert_eq!(d.len(), 16);
    for &(n, expected) in &[(1usize, 1usize), (2, 4), (9, 9), (10, 16), (99, 100), (101, 121)] {
        for &workers in &[1usize, 4] {
            let v = bootstrap_with_workers(&first, &second, diff_of_means, n, workers, 9).into_vec();
            assert_eq!(v.len(), expected);
            assert_eq!(v.capacity(), v.len());
        }
    }
}

#[test]
fn range_preservation() {
    let sample = unit_sample(13);
    let d = bootstrap_single_with_workers(&sample, mean, 500, 4, 42);
    assert!(d.as_slice().iter().all(|&x| (0.0..=1.0).contains(&x)));
    let d = bootstrap_single_with_workers(&sample, mean, 500, 1, 42);
    assert!(d.as_slice().iter().all(|&x| (0.0..=1.0).contains(&x)));
}

#[test]
fn serial_parallel_equivalence() {
    let sample = unit_sample(10);
    let serial = bootstrap_single_with_workers(&sample, mean, 257, 1, 5).into_vec();
    for &workers in &[2usize, 3, 4, 16] {
        let chunked = bootstrap_single_with_workers(&sample, mean, 257, workers, 5).into_vec();
        assert_eq!(serial, chunked);
    }
    let first = unit_sample(3);
    let second = unit_sample(4);
    let serial = bootstrap_with_workers(&first, &second, diff_of_means, 50, 1, 5).into_vec();
    for &workers in &[2usize, 3, 8] {
        let chunked = bootstrap_with_workers(&first, &second, diff_of_means, 50, workers, 5).into_vec();
        assert_eq!(serial, chunked);
    }
}

#[test]
fn mean_scenario() {
    let sample = [1.0, 2.0, 3.0, 4.0, 5.0];
    let d = bootstrap_single_with_workers(&sample, mean, 1000, 4, 2024);
    assert_eq!(d.len(), 1000);
    assert!(d.as_slice().iter().all(|&x| (1.0..=5.0).contains(&x)));
    let m = mean(d.as_slice());
    assert!((m - 3.0).abs() < 0.2, "mean of the distribution is {}", m);
}

#[test]
fn resamples_draw_from_the_sample() {
    let sample = [10u32, 20, 30, 40];
    let mut a = Resamples::new(&sample, 99);
    let mut b = Resamples::new(&sample, 99);
    let mut seen = Vec::new();
    for _ in 0..50 {
        let r = a.next();
        assert_eq!(r.len(), sample.len());
        assert!(r.iter().all(|x| sample.contains(x)));
        assert_eq!(r, b.next());
        seen.extend(r);
    }
    for x in &sample {
        assert!(seen.contains(x));
    }
}

#[test]
fn resamples_skip_matches_drawing() {
    let sample = [1u8, 2, 3, 4, 5, 6];
    let mut drawn = Resamples::new(&sample, 0);
    for _ in 0..5 {
        drawn.next();
    }
    let mut skipped = Resamples::new(&sample, 0);
    skipped.skip(5);
    assert_eq!(drawn.next(), skipped.next());
}

#[test]
fn resamples_of_empty_sample() {
    let sample: [u8; 0] = [];
    let mut r = Resamples::new(&sample, 3);
    assert!(r.next().is_empty());
}

#[test]
fn chunk_plan() {
    assert_eq!(granularity(10, 3), 4);
    assert_eq!(granularity(2, 4), 1);
    assert_eq!(chunk_bounds(10, 4), vec![(0, 4), (4, 8), (8, 10)]);
    assert_eq!(chunk_bounds(8, 4), vec![(0, 4), (4, 8)]);
    assert_eq!(chunk_bounds(0, 4), vec![]);
}

#[test]
fn range_fill_matches_whole() {
    let sample = unit_sample(6);
    let whole = bootstrap_single_with_workers(&sample, mean, 30, 1, 11).into_vec();
    let part = bootstrap_range(&sample, &mean, 11, 12, 20);
    assert_eq!(&whole[12..20], &part[..]);
    let first = unit_sample(3);
    let second = unit_sample(5);
    let grid = bootstrap_with_workers(&first, &second, diff_of_means, 25, 1, 11).into_vec();
    let rows = bootstrap_rows(&first, &second, &diff_of_means, 11, 5, 2, 4);
    assert_eq!(&grid[10..20], &rows[..]);
}

#[test]
fn batch_map_keeps_order() {
    let xs: Vec<i64> = (0..103).collect();
    for &workers in &[1usize, 2, 4, 200] {
        let ys = map_points(&xs, |x: i64| x * x - 1, workers);
        let expected: Vec<i64> = xs.iter().map(|x| x * x - 1).collect();
        assert_eq!(ys, expected);
    }
    let empty: Vec<i64> = Vec::new();
    assert!(map_points(&empty, |x: i64| x, 4).is_empty());
}

#[test]
fn distribution_from_vec() {
    let d = Distribution::from_vec(vec![3, 1, 2]);
    assert_eq!(d.len(), 3);
    assert_eq!(d.as_slice(), &[3, 1, 2]);
}

#[test]
fn machine_worker_count_gives_the_same_distribution() {
    let sample = unit_sample(9);
    let d = bootstrap_single(&sample, mean, 120, 17).into_vec();
    let serial = bootstrap_single_with_workers(&sample, mean, 120, 1, 17).into_vec();
    assert_eq!(d, serial);
    assert_eq!(d.capacity(), d.len());
    let first = unit_sample(4);
    let second = unit_sample(6);
    let d = bootstrap(&first, &second, diff_of_means, 30, 17).into_vec();
    let serial = bootstrap_with_workers(&first, &second, diff_of_means, 30, 1, 17).into_vec();
    assert_eq!(d.len(), 36);
    assert_eq!(d, serial);
}
