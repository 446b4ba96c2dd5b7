//! Digestion of throughput samples into duration-weighted quantile, mean and
//! deviation summaries.
//!
//! A sample is a byte count and a duration in nanoseconds, so rates, weighted
//! quantile walks and deviation sums are exact integer arithmetic. The
//! square-root that turns the deviation fraction into a standard deviation is
//! the caller's, outside this crate's scope.

use vstd::prelude::*;

use crate::exposition::{
    add_line_model, begin_model, labeled_lines_model, line_text, ExpositionBuilder, GroupModel,
    MetricType,
};
use crate::go_floats::{dec_seq, go_f64_seq, F64Bits, SerializeGoFloat};
use crate::quantile::Quantile;
use crate::strings::{lemma_stack_push_pop, PName};

verus! {

/// The most samples one digestion accepts.
pub const MAX_RATE_SAMPLES: usize = 0x100000;

/// The longest duration one sample may carry: about eighteen minutes.
pub const MAX_SAMPLE_NANOS: u64 = 0x10000000000;

/// The longest duration all samples together may span: about five hours.
pub const MAX_TOTAL_NANOS: u64 = 0x100000000000;

/// The highest representable rate: about a terabit per second.
pub const MAX_BPS: u64 = 0x10000000000;

/// One throughput sample: bytes moved over a duration.
#[derive(Clone, Copy, Debug, PartialEq, Eq, Structural)]
pub struct SpeedtestSample {
    pub bytes: u64,
    pub nanos: u64,
}

/// The bits per second a sample stands for: the whole bytes per second,
/// times eight. A zero duration rates as zero.
pub open spec fn bps_spec(s: SpeedtestSample) -> int {
    if s.nanos == 0 {
        0
    } else {
        8 * ((s.bytes * 1000000000) / s.nanos as int)
    }
}

impl SpeedtestSample {
    /// Bits per second.
    pub fn bps(&self) -> (r: u64)
        requires
            bps_spec(*self) <= u64::MAX,
        ensures
            r == bps_spec(*self),
    {
        if self.nanos == 0 {
            0
        } else {
            let whole: u128 = ((self.bytes as u128) * 1000000000) / (self.nanos as u128);
            proof {
                assert((self.bytes as u128) * 1000000000 == (self.bytes * 1000000000) as u128)
                    by (nonlinear_arith);
            }
            (8 * whole) as u64
        }
    }
}

/// The samples of one measurement and their total: the bytes of all samples
/// and the wall-clock span they covered.
pub struct SpeedtestData {
    pub samples: Vec<SpeedtestSample>,
    pub total: SpeedtestSample,
}

/// A sample reduced to its rate and weight: bits per second and nanoseconds.
pub open spec fn rate_view(s: SpeedtestSample) -> (u64, u64) {
    ((bps_spec(s)) as u64, s.nanos)
}

/// The rates of a sample list.
pub open spec fn rate_views(s: Seq<SpeedtestSample>) -> Seq<(u64, u64)> {
    s.map_values(|x: SpeedtestSample| rate_view(x))
}

/// The order rates are sorted in: by rate, ties by weight.
pub open spec fn rate_le() -> spec_fn((u64, u64), (u64, u64)) -> bool {
    |a: (u64, u64), b: (u64, u64)| a.0 < b.0 || (a.0 == b.0 && a.1 <= b.1)
}

/// Sorts rates ascending.
pub fn sort_rates(v: Vec<(u64, u64)>) -> (r: Vec<(u64, u64)>)
    ensures
        r@ == v@.sort_by(rate_le()),
        r@.len() == v@.len(),
        forall|i: int| 0 <= i < r@.len() ==> v@.contains(#[trigger] r@[i]),
{
    let ghost orig = v@;
    let mut src = v;
    let mut out: Vec<(u64, u64)> = Vec::new();
    proof {
        broadcast use vstd::seq_lib::group_to_multiset_ensures;

    }
    while src.len() > 0
        invariant
            out@.to_multiset().add(src@.to_multiset()) =~= orig.to_multiset(),
            vstd::relations::sorted_by(out@, rate_le()),
            forall|i: int, j: int|
                0 <= i < out@.len() && 0 <= j < src@.len() ==> rate_le()(
                    #[trigger] out@[i],
                    #[trigger] src@[j],
                ),
        decreases src.len(),
    {
        proof {
            broadcast use vstd::seq_lib::group_to_multiset_ensures;

        }
        let mut m: usize = 0;
        let mut k: usize = 1;
        while k < src.len()
            invariant
                0 <= m < src@.len(),
                m < k <= src@.len() || (k == 1 && m == 0),
                k <= src@.len() || k == 1,
                forall|j: int|
                    0 <= j < k && j < src@.len() ==> rate_le()(
                        src@[m as int],
                        #[trigger] src@[j],
                    ),
            decreases src.len() - k,
        {
            let cand = src[k];
            let best = src[m];
            if cand.0 < best.0 || (cand.0 == best.0 && cand.1 < best.1) {
                m = k;
            }
            k += 1;
        }
        let ghost out0 = out@;
        let ghost src0 = src@;
        let x = src.remove(m);
        out.push(x);
        proof {
            assert(out@ =~= out0.push(x));
            assert(src@ =~= src0.remove(m as int));
            assert(out@.to_multiset() =~= out0.to_multiset().insert(x));
            assert(src@.to_multiset() =~= src0.to_multiset().remove(x));
            assert(src0.to_multiset().count(x) >= 1) by {
                assert(src0.contains(x));
            }
            assert(out@.to_multiset().add(src@.to_multiset()) =~= orig.to_multiset());
            assert(vstd::relations::sorted_by(out@, rate_le())) by {
                assert forall|i: int, j: int| 0 <= i < j < out@.len() implies rate_le()(
                    out@[i],
                    out@[j],
                ) by {
                    if j < out0.len() {
                    } else {
                        assert(out@[j] == x);
                        if i < out0.len() {
                            assert(rate_le()(out0[i], src0[m as int]));
                        }
                    }
                }
            }
            assert forall|i: int, j: int|
                0 <= i < out@.len() && 0 <= j < src@.len() implies rate_le()(
                #[trigger] out@[i],
                #[trigger] src@[j],
            ) by {
                assert(src0.contains(src@[j])) by {
                    if j < m {
                        assert(src@[j] == src0[j]);
                    } else {
                        assert(src@[j] == src0[j + 1]);
                    }
                }
                let jj = choose|jj: int| 0 <= jj < src0.len() && src0[jj] == src@[j];
                if i < out0.len() {
                    assert(rate_le()(out0[i], src0[jj]));
                } else {
                    assert(out@[i] == x);
                    assert(rate_le()(src0[m as int], src0[jj]));
                }
            }
        }
    }
    proof {
        broadcast use vstd::seq_lib::group_to_multiset_ensures;

        orig.lemma_sort_by_ensures(rate_le());
        assert(src@.to_multiset() =~= Seq::<(u64, u64)>::empty().to_multiset());
        assert(out@.to_multiset() =~= orig.to_multiset());
        assert(out@.to_multiset() =~= orig.sort_by(rate_le()).to_multiset());
        vstd::seq_lib::lemma_sorted_unique(out@, orig.sort_by(rate_le()), rate_le());
        assert(out@.len() == out@.to_multiset().len());
        assert(orig.len() == orig.to_multiset().len());
        assert forall|i: int| 0 <= i < out@.len() implies orig.contains(#[trigger] out@[i]) by {
            assert(out@.contains(out@[i]));
            assert(out@.to_multiset().count(out@[i]) > 0);
        }
    }
    out
}

/// Walks the sorted rates with the coverage so far and yields the rate of
/// the first sample whose weighted midpoint, at coverage parameter one half,
/// reaches the quantile: the first sample where
/// `(2·covered + weight) / (2·total) ≥ q`.
pub open spec fn walk_from(
    rates: Seq<(u64, u64)>,
    covered: int,
    q: Quantile,
    total: int,
) -> Option<u64>
    decreases rates.len(),
{
    if rates.len() == 0 {
        Option::None
    } else if (2 * covered + rates[0].1) * q.den >= 2 * q.num * total {
        Option::Some(rates[0].0)
    } else {
        walk_from(rates.skip(1), covered + rates[0].1, q, total)
    }
}

/// The rate reported for one quantile: the first weighted midpoint that
/// reaches it; a quantile at or above one that no midpoint reaches takes the
/// highest rate; any other unreached quantile is dropped.
pub open spec fn quantile_value(rates: Seq<(u64, u64)>, q: Quantile, total: int) -> Option<u64> {
    match walk_from(rates, 0, q, total) {
        Option::Some(v) => Option::Some(v),
        Option::None => if q.at_least_one() && rates.len() > 0 {
            Option::Some(rates.last().0)
        } else {
            Option::None
        },
    }
}

/// The reported quantile pairs, in the order requested.
pub open spec fn walk_all(rates: Seq<(u64, u64)>, qs: Seq<Quantile>, total: int) -> Seq<
    (Quantile, u64),
>
    decreases qs.len(),
{
    if qs.len() == 0 {
        Seq::<(Quantile, u64)>::empty()
    } else {
        (match quantile_value(rates, qs[0], total) {
            Option::Some(v) => seq![(qs[0], v)],
            Option::None => Seq::<(Quantile, u64)>::empty(),
        }) + walk_all(rates, qs.skip(1), total)
    }
}

/// The sum of all rates.
pub open spec fn sum_bps(rates: Seq<(u64, u64)>) -> int
    decreases rates.len(),
{
    if rates.len() == 0 {
        0
    } else {
        rates[0].0 + sum_bps(rates.skip(1))
    }
}

/// The sum of all weights.
pub open spec fn sum_weights(rates: Seq<(u64, u64)>) -> int
    decreases rates.len(),
{
    if rates.len() == 0 {
        0
    } else {
        rates[0].1 + sum_weights(rates.skip(1))
    }
}

/// The duration-weighted sum of squared deviations from the mean rate.
pub open spec fn weighted_dev_sum(rates: Seq<(u64, u64)>, mean: int) -> int
    decreases rates.len(),
{
    if rates.len() == 0 {
        0
    } else {
        rates[0].1 * ((mean - rates[0].0) * (mean - rates[0].0)) + weighted_dev_sum(
            rates.skip(1),
            mean,
        )
    }
}

/// Rate sums distribute over concatenation.
pub proof fn lemma_rate_sums_app(a: Seq<(u64, u64)>, b: Seq<(u64, u64)>, mean: int)
    ensures
        sum_bps(a + b) == sum_bps(a) + sum_bps(b),
        sum_weights(a + b) == sum_weights(a) + sum_weights(b),
        weighted_dev_sum(a + b, mean) == weighted_dev_sum(a, mean) + weighted_dev_sum(b, mean),
    decreases a.len(),
{
    if a.len() == 0 {
        assert(a + b =~= b);
    } else {
        assert((a + b).skip(1) =~= a.skip(1) + b);
        lemma_rate_sums_app(a.skip(1), b, mean);
    }
}

/// Weighted sums of non-negative terms are non-negative.
pub proof fn lemma_rate_sums_nonneg(rates: Seq<(u64, u64)>, mean: int)
    ensures
        sum_bps(rates) >= 0,
        sum_weights(rates) >= 0,
        weighted_dev_sum(rates, mean) >= 0,
    decreases rates.len(),
{
    if rates.len() > 0 {
        lemma_rate_sums_nonneg(rates.skip(1), mean);
        let d = mean - rates[0].0;
        assert(rates[0].1 * (d * d) >= 0) by (nonlinear_arith);
    }
}

/// Reporting distributes over concatenation of quantile lists.
pub proof fn lemma_walk_all_app(rates: Seq<(u64, u64)>, a: Seq<Quantile>, b: Seq<Quantile>, total: int)
    ensures
        walk_all(rates, a + b, total) == walk_all(rates, a, total) + walk_all(rates, b, total),
    decreases a.len(),
{
    if a.len() == 0 {
        assert(a + b =~= b);
        assert(walk_all(rates, a, total) + walk_all(rates, b, total) =~= walk_all(rates, b, total));
    } else {
        assert((a + b).skip(1) =~= a.skip(1) + b);
        lemma_walk_all_app(rates, a.skip(1), b, total);
        match quantile_value(rates, a[0], total) {
            Option::Some(v) => {
                assert(walk_all(rates, a + b, total) =~= seq![(a[0], v)] + (walk_all(
                    rates,
                    a.skip(1),
                    total,
                ) + walk_all(rates, b, total)));
                assert(walk_all(rates, a, total) + walk_all(rates, b, total) =~= seq![(a[0], v)]
                    + (walk_all(rates, a.skip(1), total) + walk_all(rates, b, total)));
            },
            Option::None => {},
        }
    }
}

/// A prefix of the weights never outweighs the whole.
pub proof fn lemma_sum_weights_prefix(rates: Seq<(u64, u64)>, i: int)
    requires
        0 <= i <= rates.len(),
    ensures
        0 <= sum_weights(rates.take(i)) <= sum_weights(rates),
{
    assert(rates =~= rates.take(i) + rates.skip(i));
    lemma_rate_sums_app(rates.take(i), rates.skip(i), 0);
    lemma_rate_sums_nonneg(rates.take(i), 0);
    lemma_rate_sums_nonneg(rates.skip(i), 0);
}

/// Reads the rate reported for one quantile over sorted rates.
fn walk_one(rates: &Vec<(u64, u64)>, q: &Quantile, total: u64) -> (r: Option<u64>)
    requires
        q.wf(),
        total <= MAX_TOTAL_NANOS,
        sum_weights(rates@) <= MAX_TOTAL_NANOS,
        forall|i: int| 0 <= i < rates@.len() ==> (#[trigger] rates@[i]).1 <= MAX_SAMPLE_NANOS,
    ensures
        r == quantile_value(rates@, *q, total as int),
{
    let n = rates.len();
    let mut covered: u64 = 0;
    let mut i: usize = 0;
    proof {
        assert(rates@.skip(0) =~= rates@);
        assert(rates@.take(0) =~= Seq::<(u64, u64)>::empty());
        assert(sum_weights(Seq::<(u64, u64)>::empty()) == 0);
    }
    while i < n
        invariant
            n == rates@.len(),
            0 <= i <= n,
            q.wf(),
            total <= MAX_TOTAL_NANOS,
            sum_weights(rates@) <= MAX_TOTAL_NANOS,
            forall|k: int| 0 <= k < rates@.len() ==> (#[trigger] rates@[k]).1 <= MAX_SAMPLE_NANOS,
            covered == sum_weights(rates@.take(i as int)),
            covered <= MAX_TOTAL_NANOS,
            walk_from(rates@, 0, *q, total as int) == walk_from(
                rates@.skip(i as int),
                covered as int,
                *q,
                total as int,
            ),
        decreases n - i,
    {
        let b = rates[i].0;
        let w = rates[i].1;
        proof {
            assert(rates@.skip(i as int)[0] == rates@[i as int]);
        }
        proof {
            assert((2 * (covered as int) + w) * q.den <= (2 * 0x100000000000
                + 0x10000000000) * 0xFFFFFFFFFFFFFFFF) by (nonlinear_arith)
                requires
                    0 <= covered <= 0x100000000000,
                    0 <= w <= 0x10000000000,
                    0 <= q.den <= 0xFFFFFFFFFFFFFFFF,
            ;
            assert((2 * (q.num as int)) * total <= (2 * 0xFFFFFFFFFFFFFFFF) * 0x100000000000)
                by (nonlinear_arith)
                requires
                    0 <= q.num <= 0xFFFFFFFFFFFFFFFF,
                    0 <= total <= 0x100000000000,
            ;
        }
        let lhs: u128 = ((2 * (covered as u128)) + (w as u128)) * (q.den as u128);
        let rhs: u128 = (2 * (q.num as u128)) * (total as u128);
        if lhs >= rhs {
            proof {
                assert(walk_from(rates@.skip(i as int), covered as int, *q, total as int)
                    == Option::Some(b));
            }
            return Some(b);
        }
        proof {
            assert(rates@.skip(i as int).skip(1) =~= rates@.skip(i + 1));
            assert(rates@.take(i + 1) =~= rates@.take(i as int) + seq![rates@[i as int]]);
            lemma_rate_sums_app(rates@.take(i as int), seq![rates@[i as int]], 0);
            assert(seq![rates@[i as int]].skip(1) =~= Seq::<(u64, u64)>::empty());
            assert(sum_weights(Seq::<(u64, u64)>::empty()) == 0);
            assert(sum_weights(seq![rates@[i as int]]) == w);
            lemma_sum_weights_prefix(rates@, i + 1);
        }
        covered = covered + w;
        i += 1;
    }
    proof {
        assert(rates@.skip(n as int) =~= Seq::<(u64, u64)>::empty());
        assert(walk_from(Seq::<(u64, u64)>::empty(), covered as int, *q, total as int)
            is None);
    }
    if q.num >= q.den && n > 0 {
        proof {
            assert(rates@.last() == rates@[n - 1]);
        }
        Some(rates[n - 1].0)
    } else {
        None
    }
}

/// The exact digest of one direction's throughput measurement.
pub struct SpeedtestDigest {
    /// Each reported quantile with its rate in bits per second.
    pub quantiles: Vec<(Quantile, u64)>,
    /// The rate of the totals: total bytes over the wall-clock span; zero
    /// when nothing was sampled or no time passed.
    pub mean: u64,
    /// The sum of all sample rates.
    pub sum: u64,
    /// How many samples were taken.
    pub count: usize,
    /// The duration-weighted sum of squared deviations from the mean; the
    /// variance is this over `dev_den`, and the standard deviation its root.
    pub dev_num: u128,
    /// The wall-clock span in nanoseconds.
    pub dev_den: u64,
}

impl SpeedtestDigest {
    /// Digests one direction's samples. Quantiles are duration-weighted with
    /// midpoint positioning over the rates sorted ascending; the mean comes
    /// from the totals; the deviation sum is weighted about that mean. With
    /// no samples or no elapsed time everything is zero or empty.
    pub fn digest_data(data: SpeedtestData, quantiles: &Vec<Quantile>) -> (r: SpeedtestDigest)
        requires
            data.samples@.len() <= MAX_RATE_SAMPLES,
            forall|i: int|
                0 <= i < data.samples@.len() ==> {
                    &&& (#[trigger] data.samples@[i]).nanos > 0
                    &&& data.samples@[i].nanos <= MAX_SAMPLE_NANOS
                    &&& bps_spec(data.samples@[i]) <= MAX_BPS
                },
            sum_weights(rate_views(data.samples@)) <= MAX_TOTAL_NANOS,
            data.total.nanos <= MAX_TOTAL_NANOS,
            bps_spec(data.total) <= MAX_BPS,
            forall|i: int| 0 <= i < quantiles@.len() ==> (#[trigger] quantiles@[i]).wf(),
        ensures
            r.count == data.samples@.len(),
            r.sum == sum_bps(rate_views(data.samples@)),
            r.dev_den == data.total.nanos,
            r.mean == if data.samples@.len() == 0 || data.total.nanos == 0 {
                0int
            } else {
                bps_spec(data.total)
            },
            r.dev_num == if data.samples@.len() == 0 || data.total.nanos == 0 {
                0int
            } else {
                weighted_dev_sum(rate_views(data.samples@), r.mean as int)
            },
            (data.samples@.len() == 0 || data.total.nanos == 0) ==> r.quantiles@.len() == 0,
            (data.samples@.len() > 0 && data.total.nanos > 0) ==> r.quantiles@ == walk_all(
                rate_views(data.samples@).sort_by(rate_le()),
                quantiles@,
                data.total.nanos as int,
            ),
    {
        let n = data.samples.len();
        let mut rates: Vec<(u64, u64)> = Vec::new();
        let mut i: usize = 0;
        while i < n
            invariant
                n == data.samples@.len() <= MAX_RATE_SAMPLES,
                0 <= i <= n,
                forall|k: int|
                    0 <= k < data.samples@.len() ==> {
                        &&& (#[trigger] data.samples@[k]).nanos > 0
                        &&& data.samples@[k].nanos <= MAX_SAMPLE_NANOS
                        &&& bps_spec(data.samples@[k]) <= MAX_BPS
                    },
                rates@ == rate_views(data.samples@.take(i as int)),
            decreases n - i,
        {
            let s = data.samples[i];
            let b = s.bps();
            rates.push((b, s.nanos));
            proof {
                assert(data.samples@.take(i + 1) =~= data.samples@.take(i as int).push(
                    data.samples@[i as int],
                ));
                assert(rate_views(data.samples@.take(i + 1)) =~= rate_views(
                    data.samples@.take(i as int),
                ).push(rate_view(data.samples@[i as int])));
            }
            i += 1;
        }
        proof {
            assert(data.samples@.take(n as int) =~= data.samples@);
        }
        let ghost rv = rate_views(data.samples@);
        proof {
            assert forall|k: int| 0 <= k < rv.len() implies (#[trigger] rv[k]).0 <= MAX_BPS
                && rv[k].1 <= MAX_SAMPLE_NANOS by {
                assert(rv[k] == rate_view(data.samples@[k]));
            }
        }

        let mut sum: u64 = 0;
        let mut j: usize = 0;
        while j < n
            invariant
                n == rates@.len() <= MAX_RATE_SAMPLES,
                rates@ == rv,
                forall|k: int|
                    0 <= k < rv.len() ==> (#[trigger] rv[k]).0 <= MAX_BPS && rv[k].1
                        <= MAX_SAMPLE_NANOS,
                0 <= j <= n,
                sum == sum_bps(rv.take(j as int)),
                sum <= j * 0x10000000000,
            decreases n - j,
        {
            let b = rates[j].0;
            proof {
                assert(rv.take(j + 1) =~= rv.take(j as int) + seq![rv[j as int]]);
                lemma_rate_sums_app(rv.take(j as int), seq![rv[j as int]], 0);
                assert(seq![rv[j as int]].skip(1) =~= Seq::<(u64, u64)>::empty());
                assert(sum_bps(Seq::<(u64, u64)>::empty()) == 0);
                assert(sum_bps(seq![rv[j as int]]) == rv[j as int].0);
            }
            sum = sum + b;
            j += 1;
        }
        proof {
            assert(rv.take(n as int) =~= rv);
        }

        let total_nanos = data.total.nanos;
        let mean: u64 = if n == 0 || total_nanos == 0 {
            0
        } else {
            data.total.bps()
        };

        let mut dev: u128 = 0;
        if n != 0 && total_nanos != 0 {
            let mut j: usize = 0;
            while j < n
                invariant
                    n == rates@.len() <= MAX_RATE_SAMPLES,
                    rates@ == rv,
                    forall|k: int|
                        0 <= k < rv.len() ==> (#[trigger] rv[k]).0 <= MAX_BPS && rv[k].1
                            <= MAX_SAMPLE_NANOS,
                    sum_weights(rv) <= MAX_TOTAL_NANOS,
                    mean <= MAX_BPS,
                    0 <= j <= n,
                    dev == weighted_dev_sum(rv.take(j as int), mean as int),
                    dev <= sum_weights(rv.take(j as int)) * 0x100000000000000000000,
                decreases n - j,
            {
                let b = rates[j].0;
                let w = rates[j].1;
                let d: u64 = if mean >= b {
                    mean - b
                } else {
                    b - mean
                };
                proof {
                    assert(d <= 0x10000000000);
                    assert((d as int) * (d as int) <= 0x100000000000000000000) by (nonlinear_arith)
                        requires
                            0 <= d <= 0x10000000000,
                    ;
                    assert(w * ((d as int) * (d as int)) <= 0x10000000000 * 0x100000000000000000000)
                        by (nonlinear_arith)
                        requires
                            0 <= w <= 0x10000000000,
                            0 <= (d as int) * (d as int) <= 0x100000000000000000000,
                    ;
                }
                let dsq: u128 = (d as u128) * (d as u128);
                let term: u128 = (w as u128) * dsq;
                proof {
                    assert(rv.take(j + 1) =~= rv.take(j as int) + seq![rv[j as int]]);
                    lemma_rate_sums_app(rv.take(j as int), seq![rv[j as int]], mean as int);
                    assert(seq![rv[j as int]].skip(1) =~= Seq::<(u64, u64)>::empty());
                    assert(weighted_dev_sum(Seq::<(u64, u64)>::empty(), mean as int) == 0);
                    assert(sum_weights(Seq::<(u64, u64)>::empty()) == 0);
                    assert(weighted_dev_sum(seq![rv[j as int]], mean as int) == w * ((mean
                        - b) * (mean - b)));
                    assert(sum_weights(seq![rv[j as int]]) == w);
                    assert((mean - b) * (mean - b) == (d as int) * (d as int)) by (nonlinear_arith)
                        requires
                            d == if mean >= b {
                                mean - b
                            } else {
                                b - mean
                            },
                    ;
                    assert((d as int) * (d as int) <= 0x100000000000000000000) by (nonlinear_arith)
                        requires
                            0 <= d <= 0x10000000000,
                    ;
                    assert(w * ((d as int) * (d as int)) <= w * 0x100000000000000000000)
                        by (nonlinear_arith)
                        requires
                            0 <= w,
                            (d as int) * (d as int) <= 0x100000000000000000000,
                    ;
                    lemma_sum_weights_prefix(rv, j + 1);
                    lemma_sum_weights_prefix(rv, j as int);
                }
                dev = dev + term;
                j += 1;
            }
            proof {
                assert(rv.take(n as int) =~= rv);
            }
        }

        let mut qticks: Vec<(Quantile, u64)> = Vec::new();
        if n != 0 && total_nanos != 0 {
            let sorted = sort_rates(rates);
            proof {
                rv.lemma_sort_by_ensures(rate_le());
                broadcast use vstd::seq_lib::group_to_multiset_ensures;

                assert(sum_weights(sorted@) <= MAX_TOTAL_NANOS) by {
                    lemma_sum_weights_permuted(rv, sorted@);
                }
                assert forall|k: int| 0 <= k < sorted@.len() implies (#[trigger] sorted@[k]).1
                    <= MAX_SAMPLE_NANOS by {
                    assert(rv.contains(sorted@[k]));
                    let w = choose|w: int| 0 <= w < rv.len() && rv[w] == sorted@[k];
                }
                assert(walk_all(sorted@, quantiles@.take(0), total_nanos as int) =~= Seq::<
                    (Quantile, u64),
                >::empty());
            }
            let qn = quantiles.len();
            let mut k: usize = 0;
            while k < qn
                invariant
                    qn == quantiles@.len(),
                    0 <= k <= qn,
                    total_nanos <= MAX_TOTAL_NANOS,
                    sum_weights(sorted@) <= MAX_TOTAL_NANOS,
                    forall|t: int|
                        0 <= t < sorted@.len() ==> (#[trigger] sorted@[t]).1 <= MAX_SAMPLE_NANOS,
                    forall|t: int| 0 <= t < quantiles@.len() ==> (#[trigger] quantiles@[t]).wf(),
                    qticks@ == walk_all(sorted@, quantiles@.take(k as int), total_nanos as int),
                decreases qn - k,
            {
                let q = quantiles[k];
                let val = walk_one(&sorted, &q, total_nanos);
                proof {
                    assert(quantiles@.take(k + 1) =~= quantiles@.take(k as int) + seq![q]);
                    lemma_walk_all_app(
                        sorted@,
                        quantiles@.take(k as int),
                        seq![q],
                        total_nanos as int,
                    );
                    assert(seq![q].skip(1) =~= Seq::<Quantile>::empty());
                    assert(walk_all(sorted@, Seq::<Quantile>::empty(), total_nanos as int)
                        =~= Seq::<(Quantile, u64)>::empty());
                }
                match val {
                    Some(v) => {
                        qticks.push((q, v));
                        proof {
                            assert(walk_all(sorted@, seq![q], total_nanos as int) =~= seq![
                                (q, v),
                            ]);
                            assert(qticks@ =~= walk_all(
                                sorted@,
                                quantiles@.take(k + 1),
                                total_nanos as int,
                            ));
                        }
                    },
                    None => {
                        proof {
                            assert(walk_all(sorted@, seq![q], total_nanos as int) =~= Seq::<
                                (Quantile, u64),
                            >::empty());
                            assert(qticks@ =~= walk_all(
                                sorted@,
                                quantiles@.take(k + 1),
                                total_nanos as int,
                            ));
                        }
                    },
                }
                k += 1;
            }
            proof {
                assert(quantiles@.take(qn as int) =~= quantiles@);
            }
        }

        SpeedtestDigest {
            quantiles: qticks,
            mean,
            sum,
            count: n,
            dev_num: dev,
            dev_den: total_nanos,
        }
    }
}

/// One direction's summary, ready for rendering: quantile labels as decimal
/// text, rates in bits per second, the deviation as an IEEE double bit
/// pattern.
pub struct SpeedtestSummary {
    /// Each reported quantile's decimal label with its rate.
    pub quantiles: Vec<(String, u64)>,
    /// The rate of the totals.
    pub mean: u64,
    /// The duration-weighted standard deviation of the rate.
    pub stddev: F64Bits,
    /// The sum of all sample rates.
    pub sum: u64,
    /// How many samples were taken.
    pub count: usize,
}

/// The quantile label/value texts of a summary.
pub open spec fn speed_quantile_pairs(s: SpeedtestSummary) -> Seq<(Seq<char>, Seq<char>)> {
    s.quantiles@.map_values(|p: (String, u64)| (p.0@, dec_seq(p.1 as int)))
}

/// What rendering one summary adds to the groups: the `network_speed_bps`
/// summary with its quantile lines, `_sum` and `_count`, and the mean and
/// deviation gauges, under the caller's name prefix and label stack.
pub open spec fn speedtest_summary_models(
    ms: Seq<GroupModel>,
    prefix: Seq<char>,
    labels: Seq<char>,
    s: SpeedtestSummary,
) -> Seq<GroupModel> {
    let full1 = prefix + "network_speed_bps"@;
    let m1 = begin_model(ms, full1, MetricType::Summary, "network speed in bits per second"@);
    let m2 = labeled_lines_model(m1, full1, labels, "quantile"@, speed_quantile_pairs(s));
    let m3 = add_line_model(
        m2,
        full1,
        line_text("_sum"@, labels, dec_seq(s.sum as int), Option::None),
    );
    let m4 = add_line_model(
        m3,
        full1,
        line_text("_count"@, labels, dec_seq(s.count as int), Option::None),
    );
    let full2 = prefix + "network_speed_mean_bps"@;
    let m5 = begin_model(m4, full2, MetricType::Gauge, "mean network speed in bits per second"@);
    let m6 = add_line_model(
        m5,
        full2,
        line_text(Seq::<char>::empty(), labels, dec_seq(s.mean as int), Option::None),
    );
    let full3 = prefix + "network_speed_stddev"@;
    let m7 = begin_model(m6, full3, MetricType::Gauge, "network speed standard deviation"@);
    add_line_model(
        m7,
        full3,
        line_text(Seq::<char>::empty(), labels, go_f64_seq(s.stddev.bits), Option::None),
    )
}

impl SpeedtestSummary {
    /// Writes the summary's three metrics into the builder. The name and
    /// label stacks are exactly as before the call.
    pub fn write_prometheus(&self, builder: &mut ExpositionBuilder)
        requires
            old(builder).wf(),
            !old(builder).in_metric(),
        ensures
            final(builder).wf(),
            !final(builder).in_metric(),
            final(builder).models() == speedtest_summary_models(
                old(builder).models(),
                old(builder).name_text(),
                old(builder).labels_text(),
                *self,
            ),
            crate::exposition::unchanged_stacks(old(builder), final(builder)),
    {
        let ghost prefix = builder.name_text();
        let ghost marks0 = builder.name_marks();
        proof {
            reveal_strlit("network_speed_bps");
            reveal_strlit("quantile");
            reveal_strlit("_sum");
            reveal_strlit("_count");
            reveal_strlit("network_speed_mean_bps");
            reveal_strlit("network_speed_stddev");
        }
        let bps_name = PName::new_unchecked("network_speed_bps");
        let quantile = PName::new_unchecked("quantile");
        let sum_suffix = PName::new_unchecked("_sum");
        let count_suffix = PName::new_unchecked("_count");

        builder.begin_metric(&bps_name, MetricType::Summary, "network speed in bits per second");
        builder.add_labeled_lines(&quantile, &self.quantiles);
        proof {
            assert(speed_quantile_pairs(*self) =~= self.quantiles@.map_values(
                |p: (String, u64)| (p.0@, p.1.go_view()),
            ));
        }
        builder.push_name(&sum_suffix);
        builder.add_line(&self.sum, None);
        builder.pop_name();
        builder.push_name(&count_suffix);
        builder.add_line(&self.count, None);
        builder.pop_name();
        builder.end_metric();
        proof {
            lemma_stack_push_pop(prefix, marks0, "network_speed_bps"@);
        }

        let mean_name = PName::new_unchecked("network_speed_mean_bps");
        builder.begin_metric(&mean_name, MetricType::Gauge, "mean network speed in bits per second");
        builder.add_line(&self.mean, None);
        builder.end_metric();
        proof {
            lemma_stack_push_pop(prefix, marks0, "network_speed_mean_bps"@);
        }

        let stddev_name = PName::new_unchecked("network_speed_stddev");
        builder.begin_metric(&stddev_name, MetricType::Gauge, "network speed standard deviation");
        builder.add_line(&self.stddev, None);
        builder.end_metric();
        proof {
            lemma_stack_push_pop(prefix, marks0, "network_speed_stddev"@);
            crate::exposition::lemma_outside_metric_saved(old(builder));
            crate::exposition::lemma_outside_metric_saved(builder);
        }
    }
}

/// One quantile is at most another, as fractions.
pub open spec fn q_le(a: Quantile, b: Quantile) -> bool {
    a.num * b.den <= b.num * a.den
}

/// A rate the walk reports is one of the rates walked.
proof fn lemma_walk_from_elem(rates: Seq<(u64, u64)>, c: int, q: Quantile, total: int)
    requires
        walk_from(rates, c, q, total) is Some,
    ensures
        exists|i: int| 0 <= i < rates.len() && rates[i].0 == walk_from(rates, c, q, total)->0,
    decreases rates.len(),
{
    if (2 * c + rates[0].1) * q.den >= 2 * q.num * total {
        assert(rates[0].0 == walk_from(rates, c, q, total)->0);
    } else {
        lemma_walk_from_elem(rates.skip(1), c + rates[0].1, q, total);
        let i = choose|i: int|
            0 <= i < rates.skip(1).len() && rates.skip(1)[i].0 == walk_from(
                rates,
                c,
                q,
                total,
            )->0;
        assert(rates[i + 1].0 == walk_from(rates, c, q, total)->0);
    }
}

/// A midpoint that reaches the higher quantile reaches the lower one too.
proof fn lemma_cross_mono(mid: int, q: Quantile, r: Quantile, total: int)
    requires
        q.wf(),
        r.wf(),
        q_le(q, r),
        total >= 0,
        mid >= 0,
        mid * r.den >= 2 * r.num * total,
    ensures
        mid * q.den >= 2 * q.num * total,
{
    assert(mid * q.den * r.den >= 2 * r.num * total * q.den) by (nonlinear_arith)
        requires
            mid * r.den >= 2 * r.num * total,
            q.den > 0,
    ;
    assert(2 * r.num * total * q.den >= 2 * q.num * total * r.den) by (nonlinear_arith)
        requires
            q.num * r.den <= r.num * q.den,
            total >= 0,
    ;
    assert(mid * q.den >= 2 * q.num * total) by (nonlinear_arith)
        requires
            mid * q.den * r.den >= 2 * q.num * total * r.den,
            r.den > 0,
    ;
}

/// Of two quantiles in order, the walk reports the lower one no later, and
/// never with a higher rate.
proof fn lemma_walk_from_mono(rates: Seq<(u64, u64)>, c: int, q: Quantile, r: Quantile, total: int)
    requires
        vstd::relations::sorted_by(rates, rate_le()),
        q.wf(),
        r.wf(),
        q_le(q, r),
        total >= 0,
        c >= 0,
        walk_from(rates, c, r, total) is Some,
    ensures
        walk_from(rates, c, q, total) is Some,
        walk_from(rates, c, q, total)->0 <= walk_from(rates, c, r, total)->0,
    decreases rates.len(),
{
    let mid = 2 * c + rates[0].1;
    if mid * r.den >= 2 * r.num * total {
        lemma_cross_mono(mid, q, r, total);
    } else if mid * q.den >= 2 * q.num * total {
        assert(vstd::relations::sorted_by(rates.skip(1), rate_le())) by {
            lemma_sorted_skip(rates, 1);
        }
        lemma_walk_from_elem(rates.skip(1), c + rates[0].1, r, total);
        let i = choose|i: int|
            0 <= i < rates.skip(1).len() && rates.skip(1)[i].0 == walk_from(
                rates,
                c,
                r,
                total,
            )->0;
        assert(rate_le()(rates[0], rates[i + 1]));
    } else {
        assert(vstd::relations::sorted_by(rates.skip(1), rate_le())) by {
            lemma_sorted_skip(rates, 1);
        }
        lemma_walk_from_mono(rates.skip(1), c + rates[0].1, q, r, total);
    }
}

/// A suffix of a sorted sequence is sorted.
proof fn lemma_sorted_skip(rates: Seq<(u64, u64)>, k: int)
    requires
        vstd::relations::sorted_by(rates, rate_le()),
        0 <= k <= rates.len(),
    ensures
        vstd::relations::sorted_by(rates.skip(k), rate_le()),
{
    assert forall|i: int, j: int| 0 <= i < j < rates.skip(k).len() implies rate_le()(
        rates.skip(k)[i],
        rates.skip(k)[j],
    ) by {
        assert(rates.skip(k)[i] == rates[i + k]);
        assert(rates.skip(k)[j] == rates[j + k]);
    }
}

/// Every rate of a sorted sequence is at most the last.
proof fn lemma_sorted_last(rates: Seq<(u64, u64)>, i: int)
    requires
        vstd::relations::sorted_by(rates, rate_le()),
        0 <= i < rates.len(),
    ensures
        rates[i].0 <= rates.last().0,
{
    if i < rates.len() - 1 {
        assert(rate_le()(rates[i], rates[rates.len() - 1]));
    }
}

/// Of two quantiles in order, any rates reported for them are in order too.
proof fn lemma_quantile_value_mono(rates: Seq<(u64, u64)>, q: Quantile, r: Quantile, total: int)
    requires
        vstd::relations::sorted_by(rates, rate_le()),
        q.wf(),
        r.wf(),
        q_le(q, r),
        total >= 0,
        quantile_value(rates, q, total) is Some,
        quantile_value(rates, r, total) is Some,
    ensures
        quantile_value(rates, q, total)->0 <= quantile_value(rates, r, total)->0,
{
    match walk_from(rates, 0, r, total) {
        Option::Some(_) => {
            lemma_walk_from_mono(rates, 0, q, r, total);
        },
        Option::None => {
            assert(r.at_least_one() && rates.len() > 0);
            assert(quantile_value(rates, r, total)->0 == rates.last().0);
            match walk_from(rates, 0, q, total) {
                Option::Some(_) => {
                    lemma_walk_from_elem(rates, 0, q, total);
                    let i = choose|i: int|
                        0 <= i < rates.len() && rates[i].0 == walk_from(rates, 0, q, total)->0;
                    lemma_sorted_last(rates, i);
                },
                Option::None => {},
            }
        },
    }
}

/// For sorted rates and ascending quantiles, the reported rates are
/// non-decreasing in the quantile: a summary never shows a higher rate for a
/// lower quantile.
pub proof fn lemma_quantiles_nondecreasing(rates: Seq<(u64, u64)>, qs: Seq<Quantile>, total: int)
    requires
        vstd::relations::sorted_by(rates, rate_le()),
        forall|i: int| 0 <= i < qs.len() ==> (#[trigger] qs[i]).wf(),
        forall|i: int, j: int| 0 <= i <= j < qs.len() ==> q_le(#[trigger] qs[i], #[trigger] qs[j]),
        total >= 0,
    ensures
        forall|i: int, j: int|
            0 <= i <= j < walk_all(rates, qs, total).len() ==> (#[trigger] walk_all(
                rates,
                qs,
                total,
            )[i]).1 <= (#[trigger] walk_all(rates, qs, total)[j]).1,
    decreases qs.len(),
{
    if qs.len() == 0 {
    } else {
        let rest = walk_all(rates, qs.skip(1), total);
        assert(forall|i: int| 0 <= i < qs.skip(1).len() ==> (#[trigger] qs.skip(1)[i]).wf());
        assert forall|i: int, j: int| 0 <= i <= j < qs.skip(1).len() implies q_le(
            #[trigger] qs.skip(1)[i],
            #[trigger] qs.skip(1)[j],
        ) by {
            assert(qs.skip(1)[i] == qs[i + 1]);
            assert(qs.skip(1)[j] == qs[j + 1]);
        }
        lemma_quantiles_nondecreasing(rates, qs.skip(1), total);
        lemma_walk_all_members(rates, qs.skip(1), total);
        match quantile_value(rates, qs[0], total) {
            Option::Some(v) => {
                let out = walk_all(rates, qs, total);
                assert(out =~= seq![(qs[0], v)] + rest);
                assert forall|i: int, j: int| 0 <= i <= j < out.len() implies (#[trigger] out[i]).1
                    <= (#[trigger] out[j]).1 by {
                    if i == 0 && j > 0 {
                        let (qj, vj) = rest[j - 1];
                        let w = choose|w: int|
                            0 <= w < qs.skip(1).len() && qs.skip(1)[w] == qj && quantile_value(
                                rates,
                                qj,
                                total,
                            ) == Option::Some(vj);
                        assert(qs.skip(1)[w] == qs[w + 1]);
                        assert(q_le(qs[0], qs[w + 1]));
                        lemma_quantile_value_mono(rates, qs[0], qj, total);
                    } else if i > 0 {
                        assert(rest[i - 1].1 <= rest[j - 1].1);
                    }
                }
            },
            Option::None => {
                assert(walk_all(rates, qs, total) =~= rest);
            },
        }
    }
}

/// Every reported pair pairs one of the requested quantiles with the rate
/// reported for it.
proof fn lemma_walk_all_members(rates: Seq<(u64, u64)>, qs: Seq<Quantile>, total: int)
    ensures
        forall|t: int|
            0 <= t < walk_all(rates, qs, total).len() ==> exists|w: int|
                0 <= w < qs.len() && qs[w] == (#[trigger] walk_all(rates, qs, total)[t]).0
                    && quantile_value(rates, qs[w], total) == Option::Some(
                    walk_all(rates, qs, total)[t].1,
                ),
    decreases qs.len(),
{
    if qs.len() == 0 {
    } else {
        lemma_walk_all_members(rates, qs.skip(1), total);
        let out = walk_all(rates, qs, total);
        let rest = walk_all(rates, qs.skip(1), total);
        assert forall|t: int| 0 <= t < out.len() implies exists|w: int|
            0 <= w < qs.len() && qs[w] == (#[trigger] out[t]).0 && quantile_value(
                rates,
                qs[w],
                total,
            ) == Option::Some(out[t].1) by {
            match quantile_value(rates, qs[0], total) {
                Option::Some(v) => {
                    if t == 0 {
                        assert(out[0] == (qs[0], v));
                        assert(qs[0] == out[0].0 && quantile_value(rates, qs[0], total)
                            == Option::Some(out[0].1));
                    } else {
                        assert(out[t] == rest[t - 1]);
                        let w = choose|w: int|
                            0 <= w < qs.skip(1).len() && qs.skip(1)[w] == rest[t - 1].0
                                && quantile_value(rates, qs.skip(1)[w], total) == Option::Some(
                                rest[t - 1].1,
                            );
                        assert(qs.skip(1)[w] == qs[w + 1]);
                    }
                },
                Option::None => {
                    assert(out =~= rest);
                    let w = choose|w: int|
                        0 <= w < qs.skip(1).len() && qs.skip(1)[w] == rest[t].0 && quantile_value(
                            rates,
                            qs.skip(1)[w],
                            total,
                        ) == Option::Some(rest[t].1);
                    assert(qs.skip(1)[w] == qs[w + 1]);
                },
            }
        }
    }
}

/// Weight sums are invariant under permutation.
proof fn lemma_sum_weights_permuted(a: Seq<(u64, u64)>, b: Seq<(u64, u64)>)
    requires
        a.to_multiset() == b.to_multiset(),
    ensures
        sum_weights(a) == sum_weights(b),
    decreases a.len(),
{
    broadcast use vstd::seq_lib::group_to_multiset_ensures;

    if a.len() == 0 {
        assert(b.to_multiset().len() == 0);
        assert(b.len() == 0);
    } else {
        let x = a[0];
        assert(a.to_multiset().count(x) > 0) by {
            assert(a.contains(x));
        }
        assert(b.to_multiset().count(x) > 0);
        assert(b.contains(x));
        let w = choose|w: int| 0 <= w < b.len() && b[w] == x;
        let b2 = b.remove(w);
        assert(b2.to_multiset() =~= b.to_multiset().remove(x));
        assert(a.skip(1).to_multiset() =~= a.to_multiset().remove(x)) by {
            assert(a.remove(0) =~= a.skip(1));
        }
        lemma_sum_weights_permuted(a.skip(1), b2);
        assert(sum_weights(b) == x.1 + sum_weights(b2)) by {
            lemma_sum_weights_remove(b, w);
        }
    }
}

/// Removing one element takes exactly its weight out of the sum.
proof fn lemma_sum_weights_remove(s: Seq<(u64, u64)>, i: int)
    requires
        0 <= i < s.len(),
    ensures
        sum_weights(s) == s[i].1 + sum_weights(s.remove(i)),
    decreases s.len(),
{
    if i == 0 {
        assert(s.remove(0) =~= s.skip(1));
    } else {
        assert(s.remove(i).skip(1) =~= s.skip(1).remove(i - 1));
        lemma_sum_weights_remove(s.skip(1), i - 1);
    }
}

} // verus!
