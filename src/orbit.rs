//! Orbits of a map iterated from an initial point.
use vstd::prelude::*;

use crate::histograms::{lemma_tally_len, tally, HistogramR1, MetricSpace, Ratio};
use vstd::arithmetic::div_mod::{lemma_mod_add_multiples_vanish, lemma_small_mod};
use core::cmp::Ordering;
use vstd::std_specs::cmp::PartialOrdSpec;

verus! {

/// `s` is an orbit of `f` from `x0`: it starts at `x0` and each element is an
/// output of `f` on the one before it.
pub open spec fn is_orbit<X, F: Fn(X) -> X>(s: Seq<X>, f: F, x0: X) -> bool {
    &&& s.len() > 0 ==> s[0] == x0
    &&& forall|i: int| 0 <= i < s.len() - 1 ==> f.ensures((s[i],), #[trigger] s[i + 1])
}

/// `bs` lists, element for element, the buckets that `bucket_of` gave for `s`.
pub open spec fn binned<X, B: Fn(X) -> Option<usize>>(s: Seq<X>, bucket_of: B, bs: Seq<Option<usize>>) -> bool {
    &&& bs.len() == s.len()
    &&& forall|i: int| 0 <= i < s.len() ==> bucket_of.ensures((s[i],), #[trigger] bs[i])
}

/// The order of `X` behaves: every value compares equal to itself, and
/// `a < b < c` gives `a < c`, and likewise for `>`.
pub open spec fn order_laws<X: PartialOrd>() -> bool {
    &&& forall|a: X| #[trigger] a.partial_cmp_spec(&a) == Some(Ordering::Equal)
    &&& forall|a: X, b: X, c: X|
        #[trigger] a.partial_cmp_spec(&b) == Some(Ordering::Less) && #[trigger] b.partial_cmp_spec(&c)
            == Some(Ordering::Less) ==> a.partial_cmp_spec(&c) == Some(Ordering::Less)
    &&& forall|a: X, b: X, c: X|
        #[trigger] a.partial_cmp_spec(&b) == Some(Ordering::Greater) && #[trigger] b.partial_cmp_spec(&c)
            == Some(Ordering::Greater) ==> a.partial_cmp_spec(&c) == Some(Ordering::Greater)
}

/// Where `trace_with_early_exit` stopped early, after the samples of `bs` went
/// into a histogram that held `start` and now is `h`: their number is a positive
/// multiple of `batch`, and `converged` accepted the distance between `h` and
/// the histogram as it stood `batch` samples earlier.
pub open spec fn converged_at<C: Fn(Ratio) -> bool>(
    h: HistogramR1,
    start: Seq<usize>,
    bs: Seq<Option<usize>>,
    converged: C,
    batch: nat,
) -> bool {
    &&& batch > 0
    &&& bs.len() >= batch
    &&& bs.len() % batch == 0
    &&& exists|p: HistogramR1|
        {
            &&& p.wf()
            &&& p.counts() == tally(start, bs.take(bs.len() - batch))
            &&& p.counts().len() == h.counts().len()
            &&& #[trigger] converged.ensures((h.distance_spec(&p),), true)
        }
}

/// `r` is `(smallest, largest)` of `s`: both are elements of `s`, and where the
/// order of `X` behaves no element is below the first or above the second.
pub open spec fn is_range_of<X: PartialOrd>(s: Seq<X>, r: (X, X)) -> bool {
    &&& exists|i: int| 0 <= i < s.len() && s[i] == r.0
    &&& exists|i: int| 0 <= i < s.len() && s[i] == r.1
    &&& X::obeys_partial_cmp_spec() && order_laws::<X>() ==> forall|i: int|
        0 <= i < s.len() ==> {
            &&& s[i].partial_cmp_spec(&r.0) != Some(Ordering::Less)
            &&& s[i].partial_cmp_spec(&r.1) != Some(Ordering::Greater)
        }
}

/// An orbit traced for no iteration ranges from its initial point to itself:
/// `s` is what `trace(f, x0, 0)` gives and `r` what `range` gives on it.
pub proof fn lemma_range_without_iterations<X: PartialOrd, F: Fn(X) -> X>(
    s: Seq<X>,
    f: F,
    x0: X,
    r: (X, X),
)
    requires
        s.len() == 1,
        s[0] == x0,
        is_orbit(s, f, x0),
        is_range_of(s, r),
    ensures
        r == (x0, x0),
{
}

/// The successive values `x_0, x_1, ...` of an iterated map.
pub struct Orbit<X> {
    data: Vec<X>,
}

impl<X> View for Orbit<X> {
    type V = Seq<X>;

    closed spec fn view(&self) -> Seq<X> {
        self.data@
    }
}

impl<X: Copy> Orbit<X> {
    /// The values of the orbit, in order.
    pub fn data(&self) -> (r: &Vec<X>)
        ensures
            r@ == self@,
    {
        &self.data
    }

    /// The orbit of `func` from `initial_point`: `iteration_limit + 1` values,
    /// `x_0 = initial_point` and `x_{k+1} = func(x_k)`.
    pub fn trace<F: Fn(X) -> X>(func: F, initial_point: X, iteration_limit: usize) -> (r: Orbit<X>)
        requires
            forall|x: X| func.requires((x,)),
        ensures
            r@.len() == iteration_limit + 1,
            r@[0] == initial_point,
            is_orbit(r@, func, initial_point),
    {
        let mut xn = initial_point;
        let mut data: Vec<X> = Vec::new();
        data.push(initial_point);
        let mut k: usize = 0;
        while k < iteration_limit
            invariant
                forall|x: X| func.requires((x,)),
                k <= iteration_limit,
                data@.len() == k + 1,
                data@[k as int] == xn,
                is_orbit(data@, func, initial_point),
            decreases iteration_limit - k,
        {
            xn = func(xn);
            data.push(xn);
            k = k + 1;
            assert(data@[k - 1] == data@[(k - 1) + 1 - 1]);
        }
        Orbit { data }
    }

    /// Streams the orbit of `func` from `initial_point` into `hist`, each value
    /// landing in the bucket that `bucket_of` gives it, for at most
    /// `iteration_limit` values.
    ///
    /// After every `early_exit_batch` samples the histogram is compared with its
    /// own state `early_exit_batch` samples earlier; when `converged` accepts
    /// that distance the tracing stops. The values traced are returned.
    pub fn trace_with_early_exit<F, B, C>(
        hist: &mut HistogramR1,
        func: F,
        bucket_of: B,
        initial_point: X,
        iteration_limit: usize,
        converged: C,
        early_exit_batch: usize,
    ) -> (r: Orbit<X>) where
        F: Fn(X) -> X,
        B: Fn(X) -> Option<usize>,
        C: Fn(Ratio) -> bool,

        requires
            old(hist).wf(),
            old(hist).max_count() + iteration_limit <= usize::MAX,
            early_exit_batch > 0,
            forall|x: X| func.requires((x,)),
            forall|x: X| bucket_of.requires((x,)),
            forall|d: Ratio| converged.requires((d,)),
        ensures
            final(hist).wf(),
            r@.len() <= iteration_limit,
            is_orbit(r@, func, initial_point),
            exists|bs: Seq<Option<usize>>|
                {
                    &&& binned(r@, bucket_of, bs)
                    &&& final(hist).counts() == tally(old(hist).counts(), bs)
                    &&& r@.len() < iteration_limit ==> converged_at(
                        *final(hist),
                        old(hist).counts(),
                        bs,
                        converged,
                        early_exit_batch as nat,
                    )
                },
    {
        let mut xn = initial_point;
        let mut data: Vec<X> = Vec::new();
        let mut prev = hist.snapshot();
        let ghost mut bs: Seq<Option<usize>> = Seq::empty();
        let mut since: usize = 0;
        let mut i: usize = 0;
        proof {
            lemma_small_mod(0, early_exit_batch as nat);
            assert(bs.take(0) =~= Seq::<Option<usize>>::empty());
        }
        while i < iteration_limit
            invariant
                forall|x: X| func.requires((x,)),
                forall|x: X| bucket_of.requires((x,)),
                forall|d: Ratio| converged.requires((d,)),
                early_exit_batch > 0,
                i <= iteration_limit,
                data@.len() == i,
                i > 0 ==> func.ensures((data@[i - 1],), xn),
                i == 0 ==> xn == initial_point,
                is_orbit(data@, func, initial_point),
                hist.wf(),
                hist.counts().len() == old(hist).counts().len(),
                hist.max_count() <= old(hist).max_count() + i,
                old(hist).max_count() + iteration_limit <= usize::MAX,
                binned(data@, bucket_of, bs),
                hist.counts() == tally(old(hist).counts(), bs),
                since < early_exit_batch,
                since <= i,
                (i - since) % (early_exit_batch as int) == 0,
                prev.wf(),
                prev.counts() == tally(old(hist).counts(), bs.take(i - since)),
            decreases iteration_limit - i,
        {
            let b = bucket_of(xn);
            data.push(xn);
            hist.add_sample(b);
            let ghost old_bs = bs;
            proof {
                bs = bs.push(b);
                assert(bs.drop_last() =~= old_bs);
                assert(bs.take(i - since) =~= old_bs.take(i - since));
                if i > 0 {
                    assert(data@[(i - 1) + 1] == xn);
                }
                lemma_tally_len(old(hist).counts(), bs.take(i - since));
            }
            i = i + 1;
            since = since + 1;
            if since == early_exit_batch {
                let d = hist.distance(&prev);
                if converged(d) {
                    proof {
                        lemma_mod_add_multiples_vanish(
                            (i - early_exit_batch) as int,
                            early_exit_batch as int,
                        );
                        assert(converged.ensures((d,), true));
                        assert(i - since == bs.len() - early_exit_batch);
                        assert(converged_at(
                            *hist,
                            old(hist).counts(),
                            bs,
                            converged,
                            early_exit_batch as nat,
                        ));
                    }
                    assert(binned(data@, bucket_of, bs));
                    assert(hist.counts() == tally(old(hist).counts(), bs));
                    return Orbit { data };
                }
                prev = hist.snapshot();
                proof {
                    lemma_mod_add_multiples_vanish(
                        (i - early_exit_batch) as int,
                        early_exit_batch as int,
                    );
                    assert(bs.take(i as int) =~= bs);
                }
                since = 0;
            }
            xn = func(xn);
        }
        Orbit { data }
    }

    /// Adds every value of the orbit to `hist`, each in the bucket that
    /// `bucket_of` gives it.
    pub fn update_histogram<B: Fn(X) -> Option<usize>>(&self, hist: &mut HistogramR1, bucket_of: B)
        requires
            old(hist).wf(),
            old(hist).max_count() + self@.len() <= usize::MAX,
            forall|x: X| bucket_of.requires((x,)),
        ensures
            final(hist).wf(),
            exists|bs: Seq<Option<usize>>|
                binned(self@, bucket_of, bs) && final(hist).counts() == tally(old(hist).counts(), bs),
    {
        let ghost mut bs: Seq<Option<usize>> = Seq::empty();
        let mut i: usize = 0;
        while i < self.data.len()
            invariant
                forall|x: X| bucket_of.requires((x,)),
                i <= self@.len(),
                hist.wf(),
                hist.max_count() <= old(hist).max_count() + i,
                old(hist).max_count() + self@.len() <= usize::MAX,
                bs.len() == i,
                forall|k: int| 0 <= k < i ==> bucket_of.ensures((self@[k],), #[trigger] bs[k]),
                hist.counts() == tally(old(hist).counts(), bs),
            decreases self@.len() - i,
        {
            let b = bucket_of(self.data[i]);
            hist.add_sample(b);
            proof {
                let old_bs = bs;
                bs = bs.push(b);
                assert(bs.drop_last() =~= old_bs);
            }
            i = i + 1;
        }
    }
}

impl<X: Copy + PartialOrd> Orbit<X> {
    /// The smallest and the largest value of a non-empty orbit, by `X`'s order.
    pub fn range(&self) -> (r: (X, X))
        requires
            self@.len() > 0,
        ensures
            is_range_of(self@, r),
    {
        let mut lower_bound = self.data[0];
        let mut upper_bound = self.data[0];
        let ghost mut lo_at: int = 0;
        let ghost mut hi_at: int = 0;
        let mut i: usize = 1;
        while i < self.data.len()
            invariant
                1 <= i <= self@.len(),
                0 <= lo_at < i,
                0 <= hi_at < i,
                self@[lo_at] == lower_bound,
                self@[hi_at] == upper_bound,
                X::obeys_partial_cmp_spec() && order_laws::<X>() ==> forall|k: int|
                    0 <= k < i ==> {
                        &&& self@[k].partial_cmp_spec(&lower_bound) != Some(Ordering::Less)
                        &&& self@[k].partial_cmp_spec(&upper_bound) != Some(Ordering::Greater)
                    },
            decreases self@.len() - i,
        {
            let entry = self.data[i];
            if entry < lower_bound {
                lower_bound = entry;
                proof {
                    lo_at = i as int;
                }
            }
            if entry > upper_bound {
                upper_bound = entry;
                proof {
                    hi_at = i as int;
                }
            }
            i = i + 1;
        }
        (lower_bound, upper_bound)
    }
}

/// What `first_escape` found along the orbit `zs` of `step` from `z0`: `Some(k)`
/// when `z_k` is the first value that `escaped` accepts, `None` when it accepts
/// none of the first `max_iterations` values.
pub open spec fn escape_record<Z, S: Fn(Z) -> Z, E: Fn(Z) -> bool>(
    zs: Seq<Z>,
    step: S,
    escaped: E,
    z0: Z,
    max_iterations: usize,
    r: Option<usize>,
) -> bool {
    &&& is_orbit(zs, step, z0)
    &&& match r {
        Some(k) => {
            &&& k < max_iterations
            &&& zs.len() == k + 1
            &&& escaped.ensures((zs[k as int],), true)
            &&& forall|j: int| 0 <= j < k ==> escaped.ensures((#[trigger] zs[j],), false)
        },
        None => {
            &&& zs.len() == max_iterations
            &&& forall|j: int| 0 <= j < max_iterations ==> escaped.ensures((#[trigger] zs[j],), false)
        },
    }
}

/// Iterates `step` from `z0` and reports the first index `k < max_iterations`
/// at which `escaped` accepts `z_k`, or `None` when no such index exists.
pub fn first_escape<Z: Copy, S: Fn(Z) -> Z, E: Fn(Z) -> bool>(
    z0: Z,
    step: S,
    escaped: E,
    max_iterations: usize,
) -> (r: Option<usize>)
    requires
        forall|z: Z| step.requires((z,)),
        forall|z: Z| escaped.requires((z,)),
    ensures
        exists|zs: Seq<Z>| escape_record(zs, step, escaped, z0, max_iterations, r),
{
    let mut z = z0;
    let ghost mut zs: Seq<Z> = Seq::empty();
    let mut i: usize = 0;
    while i < max_iterations
        invariant
            forall|z: Z| step.requires((z,)),
            forall|z: Z| escaped.requires((z,)),
            i <= max_iterations,
            zs.len() == i,
            is_orbit(zs, step, z0),
            i == 0 ==> z == z0,
            i > 0 ==> step.ensures((zs[i - 1],), z),
            forall|j: int| 0 <= j < i ==> escaped.ensures((#[trigger] zs[j],), false),
        decreases max_iterations - i,
    {
        let out = escaped(z);
        proof {
            let old_zs = zs;
            zs = zs.push(z);
            if i > 0 {
                assert(zs[(i - 1) + 1] == z);
            }
            assert(forall|j: int| 0 <= j < i ==> zs[j] == old_zs[j]);
        }
        if out {
            assert(escape_record(zs, step, escaped, z0, max_iterations, Some(i)));
            return Some(i);
        }
        z = step(z);
        i = i + 1;
    }
    assert(escape_record(zs, step, escaped, z0, max_iterations, None));
    None
}

} // verus!
