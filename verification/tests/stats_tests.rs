use depthbook::stats::percentile;

#[test]
fn percentile_of_no_samples_is_zero() {
    let v: Vec<i64> = Vec::new();
    assert_eq!(percentile(&v, 50), 0);
}

#[test]
fn percentile_picks_the_nearest_rank() {
    let v: Vec<i64> = vec![10, 20, 30, 40];
    assert_eq!(percentile(&v, 0), 10);
    assert_eq!(percentile(&v, 50), 30);
    assert_eq!(percentile(&v, 100), 40);
}

#[test]
fn percentile_rounds_half_up() {
    let v: Vec<i64> = vec![1, 2, 3, 4, 5, 6, 7, 8, 9, 10];
    assert_eq!(percentile(&v, 10), 2);
    assert_eq!(percentile(&v, 50), 6);
    assert_eq!(percentile(&v, 90), 9);
    assert_eq!(percentile(&v, 99), 10);
}

#[test]
fn percentile_of_one_sample_is_that_sample() {
    let v: Vec<i64> = vec![42];
    assert_eq!(percentile(&v, 0), 42);
    assert_eq!(percentile(&v, 99), 42);
}
