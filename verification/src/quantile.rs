//! Exact rational quantiles and the verified sorting and summing they rest
//! on. A requested quantile is carried as an exact fraction, so rank
//! selection and weighted-coverage comparisons are integer arithmetic.

use vstd::prelude::*;

verus! {

/// A requested quantile `num/den`. Fractions above one are legal; selection
/// clamps them to the highest sample.
#[derive(Clone, Copy, Debug, PartialEq, Eq, Structural)]
pub struct Quantile {
    pub num: u64,
    pub den: u64,
}

impl Quantile {
    /// The denominator is positive and the numerator small enough that rank
    /// arithmetic stays exact.
    pub open spec fn wf(&self) -> bool {
        &&& self.den > 0
        &&& self.num <= 0x8000000000000000
    }

    /// Whether the fraction is at least one.
    pub open spec fn at_least_one(&self) -> bool {
        self.num >= self.den
    }
}

/// The ordering ticks are sorted by.
pub open spec fn u64_le() -> spec_fn(u64, u64) -> bool {
    |a: u64, b: u64| a <= b
}

/// Sorts tick values ascending.
pub fn sort_ticks(v: Vec<u64>) -> (r: Vec<u64>)
    ensures
        r@ == v@.sort_by(u64_le()),
        r@.len() == v@.len(),
        forall|i: int| 0 <= i < r@.len() ==> v@.contains(#[trigger] r@[i]),
{
    let ghost orig = v@;
    let mut src = v;
    let mut out: Vec<u64> = Vec::new();
    proof {
        broadcast use vstd::seq_lib::group_to_multiset_ensures;

    }
    while src.len() > 0
        invariant
            out@.to_multiset().add(src@.to_multiset()) =~= orig.to_multiset(),
            vstd::relations::sorted_by(out@, u64_le()),
            forall|i: int, j: int|
                0 <= i < out@.len() && 0 <= j < src@.len() ==> #[trigger] out@[i] <= #[trigger] src@[j],
        decreases src.len(),
    {
        proof {
            broadcast use vstd::seq_lib::group_to_multiset_ensures;

        }
        let mut m: usize = 0;
        let mut k: usize = 1;
        while k < src.len()
            invariant
                0 <= m < src@.len(),
                m < k <= src@.len() || (k == 1 && m == 0),
                k <= src@.len() || k == 1,
                forall|j: int| 0 <= j < k && j < src@.len() ==> src@[m as int] <= #[trigger] src@[j],
            decreases src.len() - k,
        {
            if src[k] < src[m] {
                m = k;
            }
            k += 1;
        }
        let ghost out0 = out@;
        let ghost src0 = src@;
        let x = src.remove(m);
        out.push(x);
        proof {
            assert(out@ =~= out0.push(x));
            assert(src@ =~= src0.remove(m as int));
            assert(out@.to_multiset() =~= out0.to_multiset().insert(x));
            assert(src@.to_multiset() =~= src0.to_multiset().remove(x));
            assert(src0.to_multiset().count(x) >= 1) by {
                assert(src0.contains(x));
            }
            assert(out@.to_multiset().add(src@.to_multiset()) =~= orig.to_multiset());
            assert(vstd::relations::sorted_by(out@, u64_le())) by {
                assert forall|i: int, j: int| 0 <= i < j < out@.len() implies u64_le()(
                    out@[i],
                    out@[j],
                ) by {
                    if j < out0.len() {
                    } else {
                        assert(out@[j] == x);
                        if i < out0.len() {
                            assert(out0[i] <= src0[m as int]);
                        }
                    }
                }
            }
            assert forall|i: int, j: int|
                0 <= i < out@.len() && 0 <= j < src@.len() implies #[trigger] out@[i]
                <= #[trigger] src@[j] by {
                assert(src0.contains(src@[j])) by {
                    if j < m {
                        assert(src@[j] == src0[j]);
                    } else {
                        assert(src@[j] == src0[j + 1]);
                    }
                }
                let jj = choose|jj: int| 0 <= jj < src0.len() && src0[jj] == src@[j];
                if i < out0.len() {
                    assert(out0[i] <= src0[jj]);
                } else {
                    assert(out@[i] == x);
                    assert(x == src0[m as int] <= src0[jj]);
                }
            }
        }
    }
    proof {
        broadcast use vstd::seq_lib::group_to_multiset_ensures;

        orig.lemma_sort_by_ensures(u64_le());
        assert(src@.to_multiset() =~= Seq::<u64>::empty().to_multiset());
        assert(out@.to_multiset() =~= orig.to_multiset());
        assert(out@.to_multiset() =~= orig.sort_by(u64_le()).to_multiset());
        vstd::seq_lib::lemma_sorted_unique(out@, orig.sort_by(u64_le()), u64_le());
        assert(out@.len() == out@.to_multiset().len());
        assert(orig.len() == orig.to_multiset().len());
        assert(out@.len() == orig.len());
        assert forall|i: int| 0 <= i < out@.len() implies orig.contains(#[trigger] out@[i]) by {
            assert(out@.contains(out@[i]));
            assert(out@.to_multiset().count(out@[i]) > 0);
        }
    }
    out
}

/// The tick at rank `ceil(q·n)` of a sorted, non-empty sequence, clamped to
/// its ends: quantile zero reads the minimum, quantiles at or above one read
/// the maximum.
pub open spec fn tick_at_quantile(sorted: Seq<u64>, q: Quantile) -> u64 {
    let n = sorted.len() as int;
    let pos = (q.num * n + q.den - 1) / q.den as int;
    let idx = if pos < 1 {
        0
    } else if pos > n {
        n - 1
    } else {
        pos - 1
    };
    sorted[idx]
}

/// Reads the tick at the given quantile of a sorted, non-empty vector.
pub fn select_quantile(sorted: &Vec<u64>, q: &Quantile) -> (r: u64)
    requires
        sorted@.len() > 0,
        sorted@.len() <= 0x100000,
        q.wf(),
    ensures
        r == tick_at_quantile(sorted@, *q),
{
    let n = sorted.len();
    proof {
        assert(q.num * n <= 0x8000000000000000 * 0x100000) by (nonlinear_arith)
            requires
                q.num <= 0x8000000000000000,
                0 <= n <= 0x100000,
        ;
    }
    let pos: u128 = ((q.num as u128) * (n as u128) + (q.den as u128) - 1) / (q.den as u128);
    let idx: usize = if pos < 1 {
        0
    } else if pos > n as u128 {
        n - 1
    } else {
        (pos - 1) as usize
    };
    sorted[idx]
}

/// The sum of a sequence of ticks.
pub open spec fn seq_sum(s: Seq<u64>) -> int
    decreases s.len(),
{
    if s.len() == 0 {
        0
    } else {
        s[0] + seq_sum(s.skip(1))
    }
}

/// The sum of squares of a sequence of ticks.
pub open spec fn seq_sum_sq(s: Seq<u64>) -> int
    decreases s.len(),
{
    if s.len() == 0 {
        0
    } else {
        s[0] * s[0] + seq_sum_sq(s.skip(1))
    }
}

/// Sums distribute over concatenation.
pub proof fn lemma_seq_sum_app(a: Seq<u64>, b: Seq<u64>)
    ensures
        seq_sum(a + b) == seq_sum(a) + seq_sum(b),
        seq_sum_sq(a + b) == seq_sum_sq(a) + seq_sum_sq(b),
    decreases a.len(),
{
    if a.len() == 0 {
        assert(a + b =~= b);
    } else {
        assert((a + b).skip(1) =~= a.skip(1) + b);
        lemma_seq_sum_app(a.skip(1), b);
    }
}

} // verus!
