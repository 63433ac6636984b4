//! A one-dimensional histogram over a fixed number of equal buckets.
use vstd::prelude::*;

verus! {

/// An exact non-negative fraction `num / den`.
#[derive(Clone, Copy, Debug, PartialEq, Eq, Structural)]
pub struct Ratio {
    pub num: u128,
    pub den: u128,
}

/// How `HistogramR1::get` reports a bucket.
pub enum HistFormat {
    /// The raw number of samples in the bucket.
    Count,
    /// The bucket's count divided by the largest bucket count.
    DivideByMax,
}

/// A bucket value, as asked for by a `HistFormat`.
#[derive(Clone, Copy, Debug, PartialEq, Eq, Structural)]
pub enum HistValue {
    Count(usize),
    NormalizedValue(Ratio),
}

/// `m` is the largest element of `s` (0 for an empty sequence).
pub open spec fn is_max_of(m: usize, s: Seq<usize>) -> bool {
    &&& forall|i: int| 0 <= i < s.len() ==> s[i] <= m
    &&& (s.len() == 0 ==> m == 0)
    &&& (s.len() > 0 ==> exists|i: int| 0 <= i < s.len() && s[i] == m)
}

/// The sum of all elements of `s`.
pub open spec fn seq_sum(s: Seq<usize>) -> int
    decreases s.len(),
{
    if s.len() == 0 {
        0
    } else {
        seq_sum(s.drop_last()) + s.last()
    }
}

/// Counts after one sample falls into `bucket`: one more in that bucket when it
/// exists, no change otherwise.
pub open spec fn add_to(counts: Seq<usize>, bucket: Option<usize>) -> Seq<usize> {
    match bucket {
        Some(i) => if i < counts.len() {
            counts.update(i as int, (counts[i as int] + 1) as usize)
        } else {
            counts
        },
        None => counts,
    }
}

/// Counts after a sequence of samples fall, in order, into `buckets`.
pub open spec fn tally(counts: Seq<usize>, buckets: Seq<Option<usize>>) -> Seq<usize>
    decreases buckets.len(),
{
    if buckets.len() == 0 {
        counts
    } else {
        add_to(tally(counts, buckets.drop_last()), buckets.last())
    }
}

/// Number of samples among `buckets` that land in one of `n` buckets.
pub open spec fn in_range_count(buckets: Seq<Option<usize>>, n: nat) -> int
    decreases buckets.len(),
{
    if buckets.len() == 0 {
        0
    } else {
        in_range_count(buckets.drop_last(), n) + match buckets.last() {
            Some(i) => if i < n { 1int } else { 0int },
            None => 0int,
        }
    }
}

/// The absolute value of an integer.
pub open spec fn abs(x: int) -> int {
    if x < 0 { -x } else { x }
}

/// Samples never change the number of buckets.
pub proof fn lemma_tally_len(counts: Seq<usize>, buckets: Seq<Option<usize>>)
    ensures
        tally(counts, buckets).len() == counts.len(),
    decreases buckets.len(),
{
    if buckets.len() > 0 {
        lemma_tally_len(counts, buckets.drop_last());
    }
}

/// Changing one element changes the sum by the difference.
pub proof fn lemma_sum_update(s: Seq<usize>, i: int, v: usize)
    requires
        0 <= i < s.len(),
    ensures
        seq_sum(s.update(i, v)) == seq_sum(s) - s[i] + v,
    decreases s.len(),
{
    let t = s.update(i, v);
    if i == s.len() - 1 {
        assert(t.drop_last() =~= s.drop_last());
    } else {
        lemma_sum_update(s.drop_last(), i, v);
        assert(t.drop_last() =~= s.drop_last().update(i, v));
    }
}

/// Gap between the normalised values of bucket `i` of `a` and of `b`, scaled by
/// the product of their normalising denominators.
pub open spec fn gap(a: HistogramR1, b: HistogramR1, i: int) -> int {
    abs(a.counts()[i] * b.norm_den() - b.counts()[i] * a.norm_den())
}

/// The largest `gap` over the first `n` buckets (0 when `n` is 0).
pub open spec fn sup_gap(a: HistogramR1, b: HistogramR1, n: nat) -> int
    decreases n,
{
    if n == 0 {
        0
    } else {
        let m = sup_gap(a, b, (n - 1) as nat);
        let g = gap(a, b, n - 1);
        if g > m { g } else { m }
    }
}

/// Grayscale level for a bucket holding `count` of at most `max` samples:
/// `255 * (1 - count / max)`, rounded half up (denser is darker).
pub open spec fn shade_of(count: int, max: int) -> int {
    (510 * (max - count) + max) / (2 * max)
}

/// One sample changes at most one bucket, by exactly one, and adds one to the
/// total exactly when it falls inside the histogram.
pub proof fn lemma_add_sample_effect(counts: Seq<usize>, bucket: Option<usize>)
    requires
        forall|i: int| 0 <= i < counts.len() ==> counts[i] < usize::MAX,
    ensures
        add_to(counts, bucket).len() == counts.len(),
        add_to(counts, bucket) == counts || exists|j: int|
            0 <= j < counts.len() && add_to(counts, bucket) == counts.update(j, (counts[j] + 1) as usize),
        seq_sum(add_to(counts, bucket)) == seq_sum(counts) + in_range_count(seq![bucket], counts.len()),
{
    let one = seq![bucket];
    assert(one.drop_last() =~= Seq::<Option<usize>>::empty());
    assert(one.last() == bucket);
    assert(in_range_count(one.drop_last(), counts.len()) == 0);
    match bucket {
        Some(i) => {
            if i < counts.len() {
                lemma_sum_update(counts, i as int, (counts[i as int] + 1) as usize);
            }
        },
        None => {},
    }
}

/// After samples fall into `buckets`, the total of the counts has grown by the
/// number of samples that fell inside the histogram.
pub proof fn lemma_tally_sum(counts: Seq<usize>, buckets: Seq<Option<usize>>)
    requires
        forall|i: int| 0 <= i < counts.len() ==> counts[i] + buckets.len() <= usize::MAX,
    ensures
        tally(counts, buckets).len() == counts.len(),
        forall|i: int|
            0 <= i < counts.len() ==> #[trigger] tally(counts, buckets)[i] <= counts[i] + buckets.len(),
        seq_sum(tally(counts, buckets)) == seq_sum(counts) + in_range_count(buckets, counts.len()),
    decreases buckets.len(),
{
    if buckets.len() > 0 {
        let prev = buckets.drop_last();
        lemma_tally_sum(counts, prev);
        let t = tally(counts, prev);
        lemma_add_sample_effect(t, buckets.last());
        let one = seq![buckets.last()];
        assert(one.drop_last() =~= Seq::<Option<usize>>::empty());
        assert(one.last() == buckets.last());
        assert(in_range_count(one.drop_last(), counts.len()) == 0);
        assert(in_range_count(buckets, counts.len()) == in_range_count(prev, counts.len())
            + in_range_count(one, counts.len()));
        assert forall|i: int| 0 <= i < counts.len() implies #[trigger] tally(counts, buckets)[i]
            <= counts[i] + buckets.len() by {
            assert(t[i] <= counts[i] + prev.len());
        }
    }
}

/// Over buckets of identical histograms every gap is zero.
proof fn lemma_sup_gap_copy(a: HistogramR1, b: HistogramR1, n: nat)
    requires
        a.counts() == b.counts(),
        a.max_count() == b.max_count(),
        n <= a.counts().len(),
    ensures
        sup_gap(a, b, n) == 0,
    decreases n,
{
    if n > 0 {
        lemma_sup_gap_copy(a, b, (n - 1) as nat);
    }
}

/// The largest gap does not depend on the order of the histograms.
proof fn lemma_sup_gap_symmetric(a: HistogramR1, b: HistogramR1, n: nat)
    ensures
        sup_gap(a, b, n) == sup_gap(b, a, n),
        a.norm_den() * b.norm_den() == b.norm_den() * a.norm_den(),
    decreases n,
{
    if n > 0 {
        lemma_sup_gap_symmetric(a, b, (n - 1) as nat);
    }
    assert(a.norm_den() * b.norm_den() == b.norm_den() * a.norm_den()) by (nonlinear_arith);
}

/// A histogram compared with an identical copy of itself is at distance zero.
pub proof fn lemma_distance_to_copy(a: HistogramR1, b: HistogramR1)
    requires
        a.wf(),
        a.counts() == b.counts(),
        a.max_count() == b.max_count(),
    ensures
        a.comparable(&b),
        a.distance_spec(&b).num == 0,
{
    lemma_sup_gap_copy(a, b, a.counts().len());
}

/// The distance between two histograms does not depend on their order.
pub proof fn lemma_distance_symmetric(a: HistogramR1, b: HistogramR1)
    requires
        a.comparable(&b),
    ensures
        b.comparable(&a),
        a.distance_spec(&b) == b.distance_spec(&a),
{
    lemma_sup_gap_symmetric(a, b, a.counts().len());
}

/// A histogram of `counts.len()` buckets that tracks its largest count.
///
/// Which bucket a sample belongs to is decided by the caller's binning of the
/// sample space; the histogram keeps the counts exactly.
#[derive(Clone, Debug)]
pub struct HistogramR1 {
    counts: Vec<usize>,
    max_value: usize,
}

impl HistogramR1 {
    pub closed spec fn counts(&self) -> Seq<usize> {
        self.counts@
    }

    pub closed spec fn max_count(&self) -> usize {
        self.max_value
    }

    /// Well-formed: at least one bucket, and the running maximum is the true maximum.
    pub open spec fn wf(&self) -> bool {
        &&& self.counts().len() > 0
        &&& is_max_of(self.max_count(), self.counts())
    }

    /// The denominator used to normalise: the largest count, or 1 for an empty
    /// histogram (whose normalised values are then all 0).
    pub open spec fn norm_den(&self) -> int {
        if self.max_count() == 0 { 1 } else { self.max_count() as int }
    }

    /// An empty histogram of `sub_divisions` buckets.
    pub fn new(sub_divisions: usize) -> (r: Self)
        requires
            sub_divisions > 0,
        ensures
            r.wf(),
            r.counts() == Seq::new(sub_divisions as nat, |i: int| 0usize),
            r.max_count() == 0,
    {
        let counts = vec![0usize; sub_divisions];
        let r = HistogramR1 { counts, max_value: 0 };
        assert(r.counts() =~= Seq::new(sub_divisions as nat, |i: int| 0usize));
        assert(r.counts()[0] == 0);
        r
    }

    /// An independent copy with the same counts.
    pub fn snapshot(&self) -> (r: Self)
        ensures
            r.counts() == self.counts(),
            r.max_count() == self.max_count(),
    {
        HistogramR1 { counts: self.counts.clone(), max_value: self.max_value }
    }

    /// The counts, bucket by bucket.
    pub fn bucket_counts(&self) -> (r: &Vec<usize>)
        ensures
            r@ == self.counts(),
    {
        &self.counts
    }

    /// Number of buckets.
    pub fn sub_divisions(&self) -> (r: usize)
        ensures
            r == self.counts().len(),
    {
        self.counts.len()
    }

    /// The largest bucket count.
    pub fn max_count_value(&self) -> (r: usize)
        ensures
            r == self.max_count(),
    {
        self.max_value
    }

    /// One more sample in bucket `idx`; nothing happens when there is no such bucket.
    pub fn increment(&mut self, idx: usize)
        requires
            old(self).wf(),
            old(self).max_count() < usize::MAX,
        ensures
            final(self).wf(),
            final(self).counts() == add_to(old(self).counts(), Some(idx)),
            final(self).max_count() <= old(self).max_count() + 1,
    {
        if idx < self.counts.len() {
            let c = self.counts[idx];
            let ghost old_counts = self.counts@;
            if c == self.max_value {
                self.max_value = self.max_value + 1;
            }
            self.counts.set(idx, c + 1);
            proof {
                let m = self.max_value;
                let s = self.counts@;
                assert(s[idx as int] == m || s[idx as int] < m);
                if c < old(self).max_value {
                    let j = choose|j: int| 0 <= j < old_counts.len() && old_counts[j] == m;
                    assert(j != idx);
                    assert(s[j] == m);
                } else {
                    assert(s[idx as int] == m);
                }
            }
        }
    }

    /// Records one sample whose bucket is `bucket` (`None`: outside the
    /// histogram's interval, dropped).
    pub fn add_sample(&mut self, bucket: Option<usize>)
        requires
            old(self).wf(),
            old(self).max_count() < usize::MAX,
        ensures
            final(self).wf(),
            final(self).counts() == add_to(old(self).counts(), bucket),
            final(self).max_count() <= old(self).max_count() + 1,
    {
        if let Some(idx) = bucket {
            self.increment(idx);
        }
    }

    /// The largest element of the counts, found by a scan.
    fn scan_max(&self) -> (r: usize)
        requires
            self.counts().len() > 0,
        ensures
            is_max_of(r, self.counts()),
    {
        let mut m: usize = self.counts[0];
        let mut k: usize = 0;
        let mut i: usize = 1;
        while i < self.counts.len()
            invariant
                1 <= i <= self.counts().len(),
                k < i,
                self.counts()[k as int] == m,
                forall|j: int| 0 <= j < i ==> self.counts()[j] <= m,
            decreases self.counts().len() - i,
        {
            if self.counts[i] > m {
                m = self.counts[i];
                k = i;
            }
            i = i + 1;
        }
        m
    }

    /// Sets bucket `idx` to `count`; nothing happens when there is no such bucket.
    pub fn set(&mut self, idx: usize, count: usize)
        requires
            old(self).wf(),
        ensures
            final(self).wf(),
            final(self).counts() == (if idx < old(self).counts().len() {
                old(self).counts().update(idx as int, count)
            } else {
                old(self).counts()
            }),
    {
        if idx < self.counts.len() {
            let ghost old_counts = self.counts@;
            let was_max = self.counts[idx] == self.max_value;
            self.counts.set(idx, count);
            if count >= self.max_value {
                self.max_value = count;
                assert(self.counts@[idx as int] == count);
            } else if was_max {
                self.max_value = self.scan_max();
            } else {
                proof {
                    let m = self.max_value;
                    let j = choose|j: int| 0 <= j < old_counts.len() && old_counts[j] == m;
                    assert(j != idx);
                    assert(self.counts@[j] == m);
                }
            }
        }
    }

    /// Bucket `idx` in the given format; `None` when there is no such bucket, or
    /// when a normalised value is asked of a histogram without samples.
    pub fn get(&self, idx: usize, format: HistFormat) -> (r: Option<HistValue>)
        ensures
            idx >= self.counts().len() ==> r is None,
            idx < self.counts().len() ==> match format {
                HistFormat::Count => r == Some(HistValue::Count(self.counts()[idx as int])),
                HistFormat::DivideByMax => if self.max_count() == 0 {
                    r is None
                } else {
                    r == Some(
                        HistValue::NormalizedValue(
                            Ratio {
                                num: self.counts()[idx as int] as u128,
                                den: self.max_count() as u128,
                            },
                        ),
                    )
                },
            },
    {
        if idx >= self.counts.len() {
            return None;
        }
        match format {
            HistFormat::Count => Some(HistValue::Count(self.counts[idx])),
            HistFormat::DivideByMax => {
                if self.max_value == 0 {
                    None
                } else {
                    Some(
                        HistValue::NormalizedValue(
                            Ratio { num: self.counts[idx] as u128, den: self.max_value as u128 },
                        ),
                    )
                }
            },
        }
    }

    /// Gray level of bucket `idx`: `round(255 * (1 - count / max))`; `None` when
    /// there is no such bucket or the histogram holds no sample.
    pub fn shade(&self, idx: usize) -> (r: Option<u8>)
        requires
            self.wf(),
        ensures
            (idx >= self.counts().len() || self.max_count() == 0) ==> r is None,
            (idx < self.counts().len() && self.max_count() > 0) ==> r == Some(
                shade_of(self.counts()[idx as int] as int, self.max_count() as int) as u8,
            ),
    {
        if idx >= self.counts.len() || self.max_value == 0 {
            return None;
        }
        let c = self.counts[idx] as u128;
        let m = self.max_value as u128;
        assert(c <= m);
        assert(m <= u64::MAX);
        let num = 510 * (m - c) + m;
        let r = num / (2 * m);
        assert(r <= 255) by (nonlinear_arith)
            requires
                r == (510 * (m - c) + m) / (2 * m),
                c <= m,
                m > 0,
        ;
        Some(r as u8)
    }
}

/// A distance between two values of one kind.
pub trait MetricSpace: Sized {
    /// The pairs of values between which the distance is defined.
    spec fn comparable(&self, other: &Self) -> bool;

    /// The distance between `self` and `other`.
    spec fn distance_spec(&self, other: &Self) -> Ratio;

    fn distance(&self, other: &Self) -> (r: Ratio)
        requires
            self.comparable(other),
        ensures
            r == self.distance_spec(other),
    ;
}

impl MetricSpace for HistogramR1 {
    /// Two well-formed histograms with the same number of buckets.
    open spec fn comparable(&self, other: &Self) -> bool {
        &&& self.wf()
        &&& other.wf()
        &&& self.counts().len() == other.counts().len()
    }

    /// The largest `|a[i] / max_a - b[i] / max_b|`, an empty histogram counting
    /// as all zeros: `sup_gap` over the product of the normalising denominators.
    open spec fn distance_spec(&self, other: &Self) -> Ratio {
        Ratio {
            num: sup_gap(*self, *other, self.counts().len()) as u128,
            den: (self.norm_den() * other.norm_den()) as u128,
        }
    }

    /// Sup-norm distance between the normalised values of two histograms with the
    /// same number of buckets.
    fn distance(&self, other: &Self) -> (r: Ratio) {
        let sd: u128 = if self.max_value == 0 { 1 } else { self.max_value as u128 };
        let od: u128 = if other.max_value == 0 { 1 } else { other.max_value as u128 };
        assert(sd <= u64::MAX && od <= u64::MAX);
        let mut sup: u128 = 0;
        let mut i: usize = 0;
        while i < self.counts.len()
            invariant
                i <= self.counts().len(),
                self.counts().len() == other.counts().len(),
                sd == self.norm_den(),
                od == other.norm_den(),
                sd <= u64::MAX,
                od <= u64::MAX,
                sup == sup_gap(*self, *other, i as nat),
            decreases self.counts().len() - i,
        {
            let a = self.counts[i] as u128;
            let b = other.counts[i] as u128;
            assert(a <= u64::MAX && b <= u64::MAX);
            assert(a * od <= u64::MAX * u64::MAX) by (nonlinear_arith)
                requires
                    a <= u64::MAX,
                    od <= u64::MAX,
            ;
            assert(b * sd <= u64::MAX * u64::MAX) by (nonlinear_arith)
                requires
                    b <= u64::MAX,
                    sd <= u64::MAX,
            ;
            let x = a * od;
            let y = b * sd;
            let g = if x >= y { x - y } else { y - x };
            assert(g == gap(*self, *other, i as int));
            if g > sup {
                sup = g;
            }
            i = i + 1;
        }
        assert(sd * od <= u64::MAX * u64::MAX) by (nonlinear_arith)
            requires
                sd <= u64::MAX,
                od <= u64::MAX,
        ;
        Ratio { num: sup, den: sd * od }
    }
}

} // verus!
