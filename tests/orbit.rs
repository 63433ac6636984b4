use bifur::{first_escape, HistogramR1, Orbit, Ratio};

#[test]
fn test_trace_linear_function() {
    let result = Orbit::trace(|x: i32| x + 1, 0, 5);
    let expected_orbit = vec![0, 1, 2, 3, 4, 5];
    assert_eq!(result.data(), &expected_orbit);
}

#[test]
fn test_trace_quadratic_function() {
    let result = Orbit::trace(|x: i32| x * x, 2, 3);
    let expected_orbit = vec![2, 4, 16, 256];
    assert_eq!(result.data(), &expected_orbit);
}

#[test]
fn test_trace_no_iterations() {
    let result = Orbit::trace(|x: i32| x, 42, 0);
    let expected_orbit = vec![42];
    assert_eq!(result.data(), &expected_orbit);
}

#[test]
fn test_range() {
    let result = Orbit::trace(|x: i32| -x * x * x, 2, 3);
    assert_eq!(result.range(), (-134217728, 512));
}

#[test]
fn test_range_no_iterations() {
    let result = Orbit::trace(|x: i32| x * x, 2, 0);
    assert_eq!(result.range(), (2, 2));
}

#[test]
fn range_of_untraced_orbit_is_its_start() {
    let result = Orbit::trace(|x: i64| 3 * x - 7, -5, 0);
    assert_eq!(result.range(), (-5, -5));
}

#[test]
fn range_picks_extremes_in_the_middle() {
    let result = Orbit::trace(|x: i64| (x * 7 + 3) % 11, 1, 6);
    assert_eq!(result.data(), &vec![1, 10, 7, 8, 4, 9, 0]);
    assert_eq!(result.range(), (0, 10));
}

#[test]
fn trace_of_floats_follows_the_map() {
    let result = Orbit::trace(|x: f64| 0.5 * x, 8.0, 3);
    assert_eq!(result.data(), &vec![8.0, 4.0, 2.0, 1.0]);
}

#[test]
fn update_histogram_counts_every_value() {
    let orbit = Orbit::trace(|x: i64| x + 1, 0, 5);
    let mut hist = HistogramR1::new(3);
    orbit.update_histogram(&mut hist, |x: i64| if x < 3 { Some(x as usize) } else { None });
    assert_eq!(hist.bucket_counts(), &vec![1, 1, 1]);
    assert_eq!(hist.max_count_value(), 1);
}

#[test]
fn early_exit_runs_full_length_without_convergence() {
    let mut hist = HistogramR1::new(4);
    let orbit = Orbit::trace_with_early_exit(
        &mut hist,
        |x: u64| (x + 1) % 4,
        |x: u64| Some(x as usize),
        0,
        10,
        |_d: Ratio| false,
        3,
    );
    assert_eq!(orbit.data(), &vec![0, 1, 2, 3, 0, 1, 2, 3, 0, 1]);
    assert_eq!(hist.bucket_counts(), &vec![3, 3, 2, 2]);
    assert_eq!(hist.max_count_value(), 3);
}

#[test]
fn early_exit_stops_at_first_batch_when_stable() {
    let mut hist = HistogramR1::new(2);
    hist.add_sample(Some(0));
    let orbit = Orbit::trace_with_early_exit(
        &mut hist,
        |x: u64| x,
        |x: u64| Some(x as usize),
        0,
        100,
        |d: Ratio| d.num == 0,
        5,
    );
    // A fixed point never changes the normalised histogram.
    assert_eq!(orbit.data().len(), 5);
    assert_eq!(hist.bucket_counts(), &vec![6, 0]);
}

#[test]
fn early_exit_from_empty_histogram_needs_a_second_batch() {
    let mut hist = HistogramR1::new(2);
    let orbit = Orbit::trace_with_early_exit(
        &mut hist,
        |x: u64| x,
        |x: u64| Some(x as usize),
        1,
        100,
        |d: Ratio| d.num == 0,
        4,
    );
    assert_eq!(orbit.data().len(), 8);
    assert_eq!(hist.bucket_counts(), &vec![0, 8]);
}

#[test]
fn early_exit_with_zero_limit_traces_nothing() {
    let mut hist = HistogramR1::new(2);
    let orbit = Orbit::trace_with_early_exit(
        &mut hist,
        |x: u64| x + 1,
        |x: u64| Some(x as usize),
        0,
        0,
        |_d: Ratio| true,
        1,
    );
    assert!(orbit.data().is_empty());
    assert_eq!(hist.bucket_counts(), &vec![0, 0]);
}

fn mandelbrot_escape(re_c: f64, im_c: f64, n: usize) -> Option<usize> {
    first_escape(
        (0.0f64, 0.0f64),
        |z: (f64, f64)| (z.0 * z.0 - z.1 * z.1 + re_c, 2.0 * z.0 * z.1 + im_c),
        |z: (f64, f64)| z.0 * z.0 + z.1 * z.1 > 4.0,
        n,
    )
}

#[test]
fn origin_never_escapes() {
    for n in [0usize, 1, 10, 1000] {
        assert_eq!(mandelbrot_escape(0.0, 0.0, n), None);
    }
}

#[test]
fn point_two_escapes_at_second_step() {
    // z_0 = 0 is inside the disc, z_1 = 2 is on its edge, z_2 = 6 is outside.
    assert_eq!(mandelbrot_escape(2.0, 0.0, 10), Some(2));
    assert_eq!(mandelbrot_escape(2.0, 0.0, 2), None);
}

#[test]
fn first_escape_reports_first_index_only() {
    let r = first_escape(1u64, |z: u64| z * 2, |z: u64| z > 5, 10);
    assert_eq!(r, Some(3));
    let r = first_escape(1u64, |z: u64| z * 2, |z: u64| z > 5, 3);
    assert_eq!(r, None);
    let r = first_escape(9u64, |z: u64| z, |z: u64| z > 5, 1);
    assert_eq!(r, Some(0));
}
