use loupe::range::Range;

fn numbers(n: u32) -> Vec<u32> {
    (0..n).collect()
}

#[test]
fn new_keeps_its_arguments() {
    let range = Range::new(Some("main".to_string()), 120, 30);
    assert_eq!(range.from, Some("main".to_string()));
    assert_eq!(range.count, 120);
    assert_eq!(range.samples, 30);
}

#[test]
fn pages_for_batch_of_default_window() {
    let range = Range::new(None, 50, 50);
    assert_eq!(range.pages_for_batch(50), 2);
}

#[test]
fn pages_for_batch_is_quotient_plus_one() {
    assert_eq!(Range::new(None, 100, 50).pages_for_batch(50), 1);
    assert_eq!(Range::new(None, 25, 5).pages_for_batch(50), 3);
    assert_eq!(Range::new(None, 1, 1).pages_for_batch(50), 51);
    assert_eq!(Range::new(None, 7, 1).pages_for_batch(50), 8);
    assert_eq!(Range::new(None, 51, 1).pages_for_batch(50), 1);
}

#[test]
fn sample_of_default_window_keeps_everything() {
    let range = Range::new(None, 50, 50);
    assert_eq!(range.sample(numbers(50)), numbers(50));
}

#[test]
fn sample_picks_every_stride() {
    let range = Range::new(None, 100, 50);
    let picked = range.sample(numbers(100));
    let expected: Vec<u32> = (0..50).map(|i| 2 * i).collect();
    assert_eq!(picked, expected);
}

#[test]
fn sample_stops_at_the_wanted_number() {
    // stride = max(1, 10 / 4) = 2: positions 0, 2, 4, 6 and then no more
    let range = Range::new(None, 10, 4);
    assert_eq!(range.sample(numbers(10)), vec![0, 2, 4, 6]);
}

#[test]
fn sample_of_short_input_is_exhausted() {
    // stride 3, seven candidates: positions 0, 3, 6
    let range = Range::new(None, 30, 10);
    assert_eq!(range.sample(numbers(7)), vec![0, 3, 6]);
}

#[test]
fn sample_length_is_min_of_samples_and_ceiling() {
    for (count, samples) in [(50u32, 50u32), (100, 50), (10, 4), (7, 3), (5, 10), (1, 1), (9, 2)] {
        let range = Range::new(None, count, samples);
        let stride = std::cmp::max(1, count / samples);
        let ceiling = (count + stride - 1) / stride;
        let picked = range.sample(numbers(count));
        assert_eq!(picked.len() as u32, std::cmp::min(samples, ceiling));
        assert_eq!(picked[0], 0);
        for (j, value) in picked.iter().enumerate() {
            assert_eq!(*value, j as u32 * stride);
        }
    }
}

#[test]
fn sample_with_more_samples_than_commits_uses_stride_one() {
    let range = Range::new(None, 5, 10);
    assert_eq!(range.sample(numbers(5)), numbers(5));
    assert_eq!(range.sample(numbers(20)), numbers(10));
}

#[test]
fn sample_of_nothing_is_nothing() {
    let range = Range::new(None, 50, 50);
    assert_eq!(range.sample(Vec::<u32>::new()), Vec::<u32>::new());
}

#[test]
fn zoom_in_on_default_window_is_clamped() {
    let mut range = Range::new(None, 50, 50);
    range.zoom((50 as f64 * 0.5).round() as u32);
    assert_eq!(range.count, 50);
    assert_eq!(range.samples, 50);
}

#[test]
fn zoom_out_doubles_the_window() {
    let mut range = Range::new(Some("dev".to_string()), 50, 50);
    range.zoom((50 as f64 * 2.0).round() as u32);
    assert_eq!(range.count, 100);
    assert_eq!(range.from, Some("dev".to_string()));
}

#[test]
fn zoom_in_halves_a_wide_window() {
    let mut range = Range::new(None, 400, 50);
    range.zoom(200);
    assert_eq!(range.count, 200);
    range.zoom(100);
    range.zoom(50);
    range.zoom(25);
    assert_eq!(range.count, 50);
}

#[test]
fn range_clone_is_equal() {
    let range = Range::new(Some("main".to_string()), 120, 30);
    assert_eq!(range.clone(), range);
    assert_eq!(Range::new(None, 1, 1).clone(), Range::new(None, 1, 1));
}

#[test]
fn zoom_takes_the_rounded_product() {
    let mut range = Range::new(None, 7, 1);
    range.zoom((7 as f64 * 0.4).round() as u32);
    assert_eq!(range.count, 3);
    range.zoom((3 as f64 * 0.5).round() as u32);
    assert_eq!(range.count, 2);
    range.zoom((2 as f64 * 0.1).round() as u32);
    assert_eq!(range.count, 1);
}
