use bifur::{column_pixels, HistFormat, HistValue, HistogramR1, MetricSpace, Ratio, Rgb};

fn sum(h: &HistogramR1) -> usize {
    h.bucket_counts().iter().sum()
}

#[test]
fn new_histogram_is_empty() {
    let h = HistogramR1::new(5);
    assert_eq!(h.sub_divisions(), 5);
    assert_eq!(h.bucket_counts(), &vec![0; 5]);
    assert_eq!(h.max_count_value(), 0);
}

#[test]
fn add_sample_increments_one_bucket_or_nothing() {
    let mut h = HistogramR1::new(3);
    let samples = [Some(0), Some(2), None, Some(3), Some(2), Some(usize::MAX), Some(1), Some(2)];
    let mut in_range = 0;
    for s in samples {
        let before = h.bucket_counts().clone();
        h.add_sample(s);
        let after = h.bucket_counts().clone();
        let changed: Vec<usize> = (0..3).filter(|&i| before[i] != after[i]).collect();
        match s {
            Some(i) if i < 3 => {
                in_range += 1;
                assert_eq!(changed, vec![i]);
                assert_eq!(after[i], before[i] + 1);
            }
            _ => assert!(changed.is_empty()),
        }
    }
    assert_eq!(sum(&h), in_range);
    assert_eq!(in_range, 5);
    assert_eq!(h.bucket_counts(), &vec![1, 1, 3]);
}

#[test]
fn max_count_tracks_true_maximum() {
    let mut h = HistogramR1::new(4);
    h.increment(1);
    h.increment(1);
    h.increment(3);
    assert_eq!(h.max_count_value(), 2);
    h.set(3, 7);
    assert_eq!(h.max_count_value(), 7);
    h.set(3, 1);
    assert_eq!(h.max_count_value(), 2);
    h.set(1, 0);
    assert_eq!(h.max_count_value(), 1);
    h.set(9, 100);
    assert_eq!(h.max_count_value(), 1);
    assert_eq!(h.bucket_counts(), &vec![0, 0, 0, 1]);
    let m = *h.bucket_counts().iter().max().unwrap();
    assert_eq!(h.max_count_value(), m);
}

#[test]
fn increment_out_of_range_is_ignored() {
    let mut h = HistogramR1::new(2);
    h.increment(2);
    assert_eq!(h.bucket_counts(), &vec![0, 0]);
    assert_eq!(h.max_count_value(), 0);
}

#[test]
fn get_reports_counts_and_normalised_values() {
    let mut h = HistogramR1::new(3);
    assert_eq!(h.get(0, HistFormat::Count), Some(HistValue::Count(0)));
    assert_eq!(h.get(0, HistFormat::DivideByMax), None);
    h.set(0, 2);
    h.set(2, 4);
    assert_eq!(h.get(0, HistFormat::Count), Some(HistValue::Count(2)));
    assert_eq!(
        h.get(0, HistFormat::DivideByMax),
        Some(HistValue::NormalizedValue(Ratio { num: 2, den: 4 }))
    );
    assert_eq!(h.get(3, HistFormat::Count), None);
    assert_eq!(h.get(3, HistFormat::DivideByMax), None);
}

#[test]
fn distance_to_copy_is_zero() {
    let mut h = HistogramR1::new(3);
    h.set(0, 5);
    h.set(1, 2);
    let copy = h.snapshot();
    assert_eq!(h.distance(&copy).num, 0);
    let cloned = h.clone();
    assert_eq!(h.distance(&cloned).num, 0);
    let empty = HistogramR1::new(3);
    assert_eq!(empty.distance(&empty).num, 0);
}

#[test]
fn distance_is_symmetric_and_exact() {
    let mut a = HistogramR1::new(3);
    a.set(0, 4);
    a.set(1, 2);
    let mut b = HistogramR1::new(3);
    b.set(0, 1);
    b.set(2, 3);
    // a = [1, 1/2, 0], b = [1/3, 0, 1]: the largest gap is 1, in bucket 2.
    let d = a.distance(&b);
    assert_eq!(d, Ratio { num: 12, den: 12 });
    assert_eq!(b.distance(&a), d);
}

#[test]
fn distance_is_scale_invariant() {
    let mut a = HistogramR1::new(2);
    a.set(0, 1);
    a.set(1, 2);
    let mut b = HistogramR1::new(2);
    b.set(0, 10);
    b.set(1, 20);
    assert_eq!(a.distance(&b).num, 0);
    let mut c = HistogramR1::new(2);
    c.set(0, 3);
    c.set(1, 4);
    // a = [1/2, 1], c = [3/4, 1]: gap 1/4, scaled by 2 * 4.
    assert_eq!(a.distance(&c), Ratio { num: 2, den: 8 });
}

#[test]
fn distance_against_empty_counts_it_as_zeros() {
    let mut a = HistogramR1::new(2);
    a.set(1, 3);
    let e = HistogramR1::new(2);
    assert_eq!(a.distance(&e), Ratio { num: 3, den: 3 });
}

#[test]
fn shade_rounds_inverse_density() {
    let mut h = HistogramR1::new(4);
    h.set(0, 3);
    h.set(1, 1);
    h.set(2, 2);
    assert_eq!(h.shade(0), Some(0));
    // 255 * 2/3 = 170
    assert_eq!(h.shade(1), Some(170));
    // 255 * 1/3 = 85
    assert_eq!(h.shade(2), Some(85));
    assert_eq!(h.shade(3), Some(255));
    assert_eq!(h.shade(4), None);
    let mut g = HistogramR1::new(2);
    g.set(0, 2);
    g.set(1, 1);
    // 255 / 2 = 127.5 rounds up
    assert_eq!(g.shade(1), Some(128));
    assert_eq!(HistogramR1::new(2).shade(0), None);
}

#[test]
fn column_pixels_put_last_bucket_on_top() {
    let mut h = HistogramR1::new(3);
    h.set(0, 4);
    h.set(2, 1);
    let col = column_pixels(&h);
    assert_eq!(col, vec![Rgb::gray(191), Rgb::gray(255), Rgb::gray(0)]);
    let empty = column_pixels(&HistogramR1::new(2));
    assert_eq!(empty, vec![Rgb::black(), Rgb::black()]);
}
