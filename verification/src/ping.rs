//! Digestion of ICMP round-trip samples into quantile, loss and error
//! summaries, and their Prometheus rendering.
//!
//! Round-trip times are carried as integer ticks of one sixteenth of a
//! millisecond, the granularity the latency histogram stores, so the whole
//! digestion is exact integer arithmetic. A lost probe is a `None` sample.

use vstd::prelude::*;

use crate::exposition::{
    add_line_model, begin_model, label_fragment, labeled_lines_model, line_text,
    ExpositionBuilder, GroupModel, MetricType,
};
use crate::go_floats::{dec_seq, go_f32_seq, F32Bits, SerializeGoFloat};
use crate::quantile::{
    lemma_seq_sum_app, seq_sum, seq_sum_sq, select_quantile, sort_ticks, tick_at_quantile, u64_le,
    Quantile,
};
use crate::strings::{lemma_stack_push_pop, PName};

verus! {

/// The largest representable round-trip tick: about three days.
pub const MAX_TICK: u64 = 0xFFFFFFFF;

/// The most samples one digestion accepts.
pub const MAX_SAMPLES: usize = 0x100000;

/// A failure observed while probing one target.
pub enum PingErrorKind {
    IncorrectBufferSize,
    MalformedPacket,
    IOError { kind: String },
    Timeout,
    EchoRequestPacket,
    NetworkError,
    IdenticalRequests,
}

/// The mathematical identity of an error kind: a tag and, for I/O errors,
/// the kind text.
pub open spec fn kind_view(k: PingErrorKind) -> (int, Seq<char>) {
    match k {
        PingErrorKind::IncorrectBufferSize => (0, Seq::<char>::empty()),
        PingErrorKind::MalformedPacket => (1, Seq::<char>::empty()),
        PingErrorKind::IOError { kind } => (2, kind@),
        PingErrorKind::Timeout => (3, Seq::<char>::empty()),
        PingErrorKind::EchoRequestPacket => (4, Seq::<char>::empty()),
        PingErrorKind::NetworkError => (5, Seq::<char>::empty()),
        PingErrorKind::IdenticalRequests => (6, Seq::<char>::empty()),
    }
}

impl PingErrorKind {
    /// The text this kind shows as a Prometheus label value and error key.
    pub open spec fn label_view(&self) -> Seq<char> {
        match *self {
            PingErrorKind::IncorrectBufferSize => "buffer size was too small"@,
            PingErrorKind::MalformedPacket => "malformed packet"@,
            PingErrorKind::IOError { .. } => "io error: "@ + kind_view(*self).1,
            PingErrorKind::Timeout => "timeout"@,
            PingErrorKind::EchoRequestPacket => "Echo Request packet."@,
            PingErrorKind::NetworkError => "Network error."@,
            PingErrorKind::IdenticalRequests => "Multiple identical request"@,
        }
    }

    /// Renders the label text.
    pub fn label(&self) -> (r: String)
        ensures
            r@ == self.label_view(),
    {
        match self {
            PingErrorKind::IncorrectBufferSize => "buffer size was too small".to_owned(),
            PingErrorKind::MalformedPacket => "malformed packet".to_owned(),
            PingErrorKind::IOError { kind } => {
                let mut out: Vec<char> = Vec::new();
                crate::strings::append_str(&mut out, "io error: ");
                crate::strings::append_str(&mut out, kind.as_str());
                crate::strings::chars_to_string(&out)
            },
            PingErrorKind::Timeout => "timeout".to_owned(),
            PingErrorKind::EchoRequestPacket => "Echo Request packet.".to_owned(),
            PingErrorKind::NetworkError => "Network error.".to_owned(),
            PingErrorKind::IdenticalRequests => "Multiple identical request".to_owned(),
        }
    }

    /// Whether two kinds are the same failure.
    pub fn same_kind(&self, other: &PingErrorKind) -> (r: bool)
        ensures
            r == (kind_view(*self) == kind_view(*other)),
    {
        match (self, other) {
            (PingErrorKind::IncorrectBufferSize, PingErrorKind::IncorrectBufferSize) => true,
            (PingErrorKind::MalformedPacket, PingErrorKind::MalformedPacket) => true,
            (PingErrorKind::IOError { kind: a }, PingErrorKind::IOError { kind: b }) => a.eq(b),
            (PingErrorKind::Timeout, PingErrorKind::Timeout) => true,
            (PingErrorKind::EchoRequestPacket, PingErrorKind::EchoRequestPacket) => true,
            (PingErrorKind::NetworkError, PingErrorKind::NetworkError) => true,
            (PingErrorKind::IdenticalRequests, PingErrorKind::IdenticalRequests) => true,
            _ => false,
        }
    }

    /// A copy with the same identity.
    pub fn duplicate(&self) -> (r: PingErrorKind)
        ensures
            kind_view(r) == kind_view(*self),
    {
        match self {
            PingErrorKind::IncorrectBufferSize => PingErrorKind::IncorrectBufferSize,
            PingErrorKind::MalformedPacket => PingErrorKind::MalformedPacket,
            PingErrorKind::IOError { kind } => PingErrorKind::IOError { kind: kind.clone() },
            PingErrorKind::Timeout => PingErrorKind::Timeout,
            PingErrorKind::EchoRequestPacket => PingErrorKind::EchoRequestPacket,
            PingErrorKind::NetworkError => PingErrorKind::NetworkError,
            PingErrorKind::IdenticalRequests => PingErrorKind::IdenticalRequests,
        }
    }
}

/// How many entries of `s` have this identity.
pub open spec fn count_kind(s: Seq<(int, Seq<char>)>, k: (int, Seq<char>)) -> int
    decreases s.len(),
{
    if s.len() == 0 {
        0
    } else {
        (if s[0] == k {
            1int
        } else {
            0int
        }) + count_kind(s.skip(1), k)
    }
}

/// Counting distributes over concatenation.
pub proof fn lemma_count_kind_app(a: Seq<(int, Seq<char>)>, b: Seq<(int, Seq<char>)>, k: (int, Seq<char>))
    ensures
        count_kind(a + b, k) == count_kind(a, k) + count_kind(b, k),
    decreases a.len(),
{
    if a.len() == 0 {
        assert(a + b =~= b);
    } else {
        assert((a + b).skip(1) =~= a.skip(1) + b);
        lemma_count_kind_app(a.skip(1), b, k);
    }
}

/// The identities of a sequence of error kinds.
pub open spec fn kind_views(s: Seq<PingErrorKind>) -> Seq<(int, Seq<char>)> {
    s.map_values(|k: PingErrorKind| kind_view(k))
}

/// The identities of the keys of a bucket list.
pub open spec fn bucket_views(s: Seq<(PingErrorKind, u32)>) -> Seq<((int, Seq<char>), u32)> {
    s.map_values(|b: (PingErrorKind, u32)| (kind_view(b.0), b.1))
}

/// Whether some bucket carries this identity.
pub open spec fn has_bucket(bs: Seq<((int, Seq<char>), u32)>, k: (int, Seq<char>)) -> bool {
    exists|i: int| 0 <= i < bs.len() && bs[i].0 == k
}

/// The total of all bucket counts.
pub open spec fn sum_counts(bs: Seq<((int, Seq<char>), u32)>) -> int
    decreases bs.len(),
{
    if bs.len() == 0 {
        0
    } else {
        bs[0].1 + sum_counts(bs.skip(1))
    }
}

/// Bucket totals distribute over concatenation.
pub proof fn lemma_sum_counts_app(a: Seq<((int, Seq<char>), u32)>, b: Seq<((int, Seq<char>), u32)>)
    ensures
        sum_counts(a + b) == sum_counts(a) + sum_counts(b),
    decreases a.len(),
{
    if a.len() == 0 {
        assert(a + b =~= b);
    } else {
        assert((a + b).skip(1) =~= a.skip(1) + b);
        lemma_sum_counts_app(a.skip(1), b);
    }
}

/// Raising one bucket's count by one raises the total by one.
pub proof fn lemma_sum_counts_update(bs: Seq<((int, Seq<char>), u32)>, i: int, b: ((int, Seq<char>), u32))
    requires
        0 <= i < bs.len(),
        b.1 == bs[i].1 + 1,
    ensures
        sum_counts(bs.update(i, b)) == sum_counts(bs) + 1,
    decreases bs.len(),
{
    if i == 0 {
        assert(bs.update(0, b).skip(1) =~= bs.skip(1));
    } else {
        assert(bs.update(i, b).skip(1) =~= bs.skip(1).update(i - 1, b));
        lemma_sum_counts_update(bs.skip(1), i - 1, b);
    }
}

/// Buckets are keyed by distinct identities.
pub open spec fn distinct_buckets(bs: Seq<((int, Seq<char>), u32)>) -> bool {
    forall|i: int, j: int| 0 <= i < j < bs.len() ==> (#[trigger] bs[i].0) != (#[trigger] bs[j].0)
}

/// Counts the errors of each kind. Buckets appear in first-occurrence order;
/// each bucket's count is exactly the number of its occurrences, every
/// bucket counts a kind that did occur at least once, and the counts total
/// the number of errors given. No errors means no buckets.
pub fn digest_errors(errors: &Vec<PingErrorKind>) -> (r: Vec<(PingErrorKind, u32)>)
    requires
        errors@.len() <= 0xFFFFFFFF,
    ensures
        distinct_buckets(bucket_views(r@)),
        forall|i: int|
            0 <= i < r@.len() ==> (#[trigger] bucket_views(r@)[i]).1 == count_kind(
                kind_views(errors@),
                bucket_views(r@)[i].0,
            ),
        forall|i: int| 0 <= i < r@.len() ==> (#[trigger] bucket_views(r@)[i]).1 >= 1,
        forall|j: int|
            0 <= j < errors@.len() ==> has_bucket(
                bucket_views(r@),
                #[trigger] kind_views(errors@)[j],
            ),
        sum_counts(bucket_views(r@)) == errors@.len(),
        r@.len() <= errors@.len(),
    {
    let n = errors.len();
    let mut buckets: Vec<(PingErrorKind, u32)> = Vec::new();
    let mut i: usize = 0;
    while i < n
        invariant
            n == errors@.len() <= 0xFFFFFFFF,
            0 <= i <= n,
            distinct_buckets(bucket_views(buckets@)),
            forall|p: int|
                0 <= p < buckets@.len() ==> (#[trigger] bucket_views(buckets@)[p]).1 == count_kind(
                    kind_views(errors@).take(i as int),
                    bucket_views(buckets@)[p].0,
                ),
            forall|p: int|
                0 <= p < buckets@.len() ==> (#[trigger] bucket_views(buckets@)[p]).1 >= 1,
            forall|j: int|
                0 <= j < i ==> has_bucket(
                    bucket_views(buckets@),
                    #[trigger] kind_views(errors@)[j],
                ),
            sum_counts(bucket_views(buckets@)) == i,
            buckets@.len() <= i,
        decreases n - i,
    {
        let ghost pre = kind_views(errors@).take(i as int);
        let ghost kv = kind_views(errors@)[i as int];
        proof {
            assert(kind_views(errors@).take(i + 1) =~= pre + seq![kv]);
            lemma_count_kind_app(pre, seq![kv], kv);
            assert(seq![kv].skip(1) =~= Seq::<(int, Seq<char>)>::empty());
            assert(count_kind(pre + seq![kv], kv) == count_kind(pre, kv) + 1) by {
                assert(seq![kv][0] == kv);
                assert(count_kind(Seq::<(int, Seq<char>)>::empty(), kv) == 0);
            }
            assert forall|k: (int, Seq<char>)| k != kv implies count_kind(pre + seq![kv], k)
                == count_kind(pre, k) by {
                lemma_count_kind_app(pre, seq![kv], k);
                assert(seq![kv].skip(1) =~= Seq::<(int, Seq<char>)>::empty());
                assert(seq![kv][0] == kv);
                assert(count_kind(Seq::<(int, Seq<char>)>::empty(), k) == 0);
                assert(count_kind(seq![kv], k) == 0);
            }
        }
        let err = &errors[i];
        let hit = find_bucket(&buckets, err);
        if let Some(p) = hit {
            let ghost bs0 = bucket_views(buckets@);
            let old_count = buckets[p].1;
            proof {
                assert(kv == kind_view(errors@[i as int]));
                assert(bs0[p as int].0 == kv);
                assert(bs0[p as int].1 == count_kind(pre, kv));
                assert(count_kind(pre, kv) <= pre.len()) by {
                    lemma_count_kind_le(pre, kv);
                }
            }
            let key = buckets[p].0.duplicate();
            let updated = (key, old_count + 1);
            let _ = buckets.remove(p);
            buckets.insert(p, updated);
            proof {
                let bs1 = bucket_views(buckets@);
                assert(bs1 =~= bs0.update(p as int, (kv, (old_count + 1) as u32)));
                lemma_sum_counts_update(bs0, p as int, (kv, (old_count + 1) as u32));
                assert forall|t: int| 0 <= t < bs1.len() implies (#[trigger] bs1[t]).1
                    == count_kind(kind_views(errors@).take(i + 1), bs1[t].0) by {
                    if t == p {
                        assert(count_kind(pre + seq![kv], kv) == count_kind(pre, kv) + 1);
                    } else {
                        assert(bs1[t] == bs0[t]);
                        assert(bs0[t].0 != kv);
                    }
                }
                assert forall|j: int| 0 <= j < i + 1 implies has_bucket(
                    bs1,
                    #[trigger] kind_views(errors@)[j],
                ) by {
                    if j < i {
                        let w = choose|w: int|
                            0 <= w < bs0.len() && bs0[w].0 == kind_views(errors@)[j];
                        assert(bs1[w].0 == bs0[w].0);
                    } else {
                        assert(bs1[p as int].0 == kv);
                    }
                }
            }
        } else {
            let ghost bs0 = bucket_views(buckets@);
            proof {
                assert(kv == kind_view(errors@[i as int]));
                assert(forall|t: int| 0 <= t < bs0.len() ==> (#[trigger] bs0[t]).0 != kv);
            }
            let key = err.duplicate();
            buckets.push((key, 1));
            proof {
                let bs1 = bucket_views(buckets@);
                assert(bs1 =~= bs0.push((kv, 1u32)));
                assert(bs1.skip(0) =~= bs1);
                lemma_sum_counts_app(bs0, seq![(kv, 1u32)]);
                assert(bs0 + seq![(kv, 1u32)] =~= bs1);
                assert(seq![(kv, 1u32)].skip(1) =~= Seq::<((int, Seq<char>), u32)>::empty());
                assert(sum_counts(Seq::<((int, Seq<char>), u32)>::empty()) == 0);
                assert(sum_counts(seq![(kv, 1u32)]) == 1);
                assert forall|t: int| 0 <= t < bs1.len() implies (#[trigger] bs1[t]).1
                    == count_kind(kind_views(errors@).take(i + 1), bs1[t].0) by {
                    if t < bs0.len() {
                        assert(bs1[t] == bs0[t]);
                        assert(bs0[t].0 != kv);
                    } else {
                        assert(bs1[t] == (kv, 1u32));
                        assert(count_kind(pre, kv) == 0) by {
                            lemma_count_kind_none(pre, kv, bs0);
                        }
                    }
                }
                assert forall|j: int| 0 <= j < i + 1 implies has_bucket(
                    bs1,
                    #[trigger] kind_views(errors@)[j],
                ) by {
                    if j < i {
                        let w = choose|w: int|
                            0 <= w < bs0.len() && bs0[w].0 == kind_views(errors@)[j];
                        assert(bs1[w].0 == bs0[w].0);
                    } else {
                        assert(bs1[bs0.len() as int].0 == kv);
                    }
                }
            }
        }
        i += 1;
    }
    proof {
        assert(kind_views(errors@).take(n as int) =~= kind_views(errors@));
    }
    buckets
}

/// The index of the bucket with this error's identity, if any.
fn find_bucket(buckets: &Vec<(PingErrorKind, u32)>, err: &PingErrorKind) -> (r: Option<usize>)
    ensures
        match r {
            Option::Some(p) => (p as int) < buckets@.len() && bucket_views(buckets@)[p as int].0
                == kind_view(*err),
            Option::None => forall|t: int|
                0 <= t < buckets@.len() ==> (#[trigger] bucket_views(buckets@)[t]).0 != kind_view(
                    *err,
                ),
        },
{
    let m = buckets.len();
    let mut p: usize = 0;
    while p < m
        invariant
            m == buckets@.len(),
            0 <= p <= m,
            forall|t: int|
                0 <= t < p ==> (#[trigger] bucket_views(buckets@)[t]).0 != kind_view(*err),
        decreases m - p,
    {
        proof {
            assert(bucket_views(buckets@)[p as int].0 == kind_view(buckets@[p as int].0));
        }
        if buckets[p].0.same_kind(err) {
            return Some(p);
        }
        p += 1;
    }
    None
}

/// A kind's count never exceeds the sequence length.
proof fn lemma_count_kind_le(s: Seq<(int, Seq<char>)>, k: (int, Seq<char>))
    ensures
        0 <= count_kind(s, k) <= s.len(),
    decreases s.len(),
{
    if s.len() > 0 {
        lemma_count_kind_le(s.skip(1), k);
    }
}

/// The round-trip ticks of the probes that were answered, in order.
pub open spec fn valid_ticks(s: Seq<Option<u64>>) -> Seq<u64>
    decreases s.len(),
{
    if s.len() == 0 {
        Seq::<u64>::empty()
    } else {
        match s[0] {
            Option::Some(t) => seq![t] + valid_ticks(s.skip(1)),
            Option::None => valid_ticks(s.skip(1)),
        }
    }
}

/// How many probes were lost.
pub open spec fn lost_count(s: Seq<Option<u64>>) -> int
    decreases s.len(),
{
    if s.len() == 0 {
        0
    } else {
        (match s[0] {
            Option::Some(_) => 0int,
            Option::None => 1int,
        }) + lost_count(s.skip(1))
    }
}

/// Partitioning distributes over concatenation.
pub proof fn lemma_partition_app(a: Seq<Option<u64>>, b: Seq<Option<u64>>)
    ensures
        valid_ticks(a + b) == valid_ticks(a) + valid_ticks(b),
        lost_count(a + b) == lost_count(a) + lost_count(b),
    decreases a.len(),
{
    if a.len() == 0 {
        assert(a + b =~= b);
        assert(valid_ticks(a) + valid_ticks(b) =~= valid_ticks(b));
    } else {
        assert((a + b).skip(1) =~= a.skip(1) + b);
        lemma_partition_app(a.skip(1), b);
        match a[0] {
            Option::Some(t) => {
                assert(valid_ticks(a + b) =~= seq![t] + (valid_ticks(a.skip(1)) + valid_ticks(b)));
                assert(valid_ticks(a) + valid_ticks(b) =~= seq![t] + (valid_ticks(a.skip(1))
                    + valid_ticks(b)));
            },
            Option::None => {},
        }
    }
}

/// Every answered probe's count and loss together cover the samples.
pub proof fn lemma_partition_len(s: Seq<Option<u64>>)
    ensures
        valid_ticks(s).len() + lost_count(s) == s.len(),
        0 <= lost_count(s),
    decreases s.len(),
{
    if s.len() > 0 {
        lemma_partition_len(s.skip(1));
    }
}

/// The exact digest of one target's probes: rank-selected quantile ticks,
/// sample counts, exact sums for mean and deviation, the loss fraction, and
/// the error buckets. One tick is a sixteenth of a millisecond.
pub struct PingDigest {
    /// Each requested quantile with the tick selected for it; empty when no
    /// probe was answered.
    pub quantiles: Vec<(Quantile, u64)>,
    /// How many probes were answered.
    pub count: usize,
    /// How many probes were lost.
    pub lost: usize,
    /// How many probes were sent.
    pub total: usize,
    /// The exact loss fraction `loss_num/loss_den`: all when nothing was
    /// answered, else lost over total.
    pub loss_num: usize,
    /// The loss fraction's denominator.
    pub loss_den: usize,
    /// The exact sum of answered ticks; the mean in ticks is this over
    /// `count`.
    pub sum_ticks: u64,
    /// The exact sum of squared answered ticks, for the population deviation.
    pub sum_sq_ticks: u128,
    /// How often each error kind was observed.
    pub errors: Vec<(PingErrorKind, u32)>,
}

impl PingDigest {
    /// Digests one target's probe outcomes: `None` is a lost probe, `Some`
    /// an answered one with its round trip in ticks. Quantiles are selected
    /// by rank over the sorted answered ticks; with nothing answered the
    /// quantile list is empty and the loss fraction is one. The loss
    /// fraction never exceeds one, answered and lost probes add up to the
    /// probes given, and the error counts add up to the errors given, every
    /// bucket counting a kind that occurred at least once.
    pub fn digest_data(
        samples: &Vec<Option<u64>>,
        errors: &Vec<PingErrorKind>,
        quantiles: &Vec<Quantile>,
    ) -> (r: PingDigest)
        requires
            samples@.len() <= MAX_SAMPLES,
            forall|i: int|
                0 <= i < samples@.len() ==> (#[trigger] samples@[i]) is Some ==> samples@[i]->0
                    <= MAX_TICK,
            forall|i: int| 0 <= i < quantiles@.len() ==> (#[trigger] quantiles@[i]).wf(),
            errors@.len() <= 0xFFFFFFFF,
        ensures
            r.total == samples@.len(),
            r.count == valid_ticks(samples@).len(),
            r.lost == lost_count(samples@),
            r.count + r.lost == r.total,
            r.loss_den > 0,
            r.loss_num <= r.loss_den,
            (r.loss_num, r.loss_den) == if r.count == 0 {
                (1usize, 1usize)
            } else {
                (r.lost, r.total)
            },
            r.sum_ticks == seq_sum(valid_ticks(samples@)),
            r.sum_sq_ticks == seq_sum_sq(valid_ticks(samples@)),
            r.count == 0 ==> r.quantiles@.len() == 0,
            r.count != 0 ==> r.quantiles@.len() == quantiles@.len(),
            r.count != 0 ==> forall|i: int|
                0 <= i < quantiles@.len() ==> #[trigger] r.quantiles@[i] == (
                    quantiles@[i],
                    tick_at_quantile(valid_ticks(samples@).sort_by(u64_le()), quantiles@[i]),
                ),
            distinct_buckets(bucket_views(r.errors@)),
            forall|i: int|
                0 <= i < r.errors@.len() ==> (#[trigger] bucket_views(r.errors@)[i]).1
                    == count_kind(kind_views(errors@), bucket_views(r.errors@)[i].0),
            forall|i: int|
                0 <= i < r.errors@.len() ==> (#[trigger] bucket_views(r.errors@)[i]).1 >= 1,
            forall|j: int|
                0 <= j < errors@.len() ==> has_bucket(
                    bucket_views(r.errors@),
                    #[trigger] kind_views(errors@)[j],
                ),
            sum_counts(bucket_views(r.errors@)) == errors@.len(),
            r.errors@.len() <= errors@.len(),
    {
        let n = samples.len();
        let mut valid: Vec<u64> = Vec::new();
        let mut lost: usize = 0;
        let mut i: usize = 0;
        while i < n
            invariant
                n == samples@.len() <= MAX_SAMPLES,
                0 <= i <= n,
                forall|k: int|
                    0 <= k < samples@.len() ==> (#[trigger] samples@[k]) is Some ==> samples@[k]->0
                        <= MAX_TICK,
                valid@ == valid_ticks(samples@.take(i as int)),
                lost == lost_count(samples@.take(i as int)),
                lost <= i,
                forall|k: int| 0 <= k < valid@.len() ==> #[trigger] valid@[k] <= MAX_TICK,
            decreases n - i,
        {
            let ghost pre = samples@.take(i as int);
            proof {
                assert(samples@.take(i + 1) =~= pre + seq![samples@[i as int]]);
                lemma_partition_app(pre, seq![samples@[i as int]]);
                assert(seq![samples@[i as int]].skip(1) =~= Seq::<Option<u64>>::empty());
                assert(valid_ticks(Seq::<Option<u64>>::empty()) =~= Seq::<u64>::empty());
                assert(lost_count(Seq::<Option<u64>>::empty()) == 0);
                match samples@[i as int] {
                    Option::Some(t) => {
                        assert(seq![t] + Seq::<u64>::empty() =~= seq![t]);
                        assert(valid_ticks(seq![samples@[i as int]]) =~= seq![t]);
                        assert(valid_ticks(pre) + seq![t] =~= valid_ticks(pre).push(t));
                    },
                    Option::None => {
                        assert(valid_ticks(seq![samples@[i as int]]) =~= Seq::<u64>::empty());
                        assert(valid_ticks(pre) + Seq::<u64>::empty() =~= valid_ticks(pre));
                    },
                }
            }
            match samples[i] {
                Some(t) => {
                    valid.push(t);
                },
                None => {
                    lost += 1;
                },
            }
            i += 1;
        }
        proof {
            assert(samples@.take(n as int) =~= samples@);
            lemma_partition_len(samples@);
        }
        let count = valid.len();
        let total = n;

        let mut sum: u64 = 0;
        let mut sum_sq: u128 = 0;
        let m = valid.len();
        let mut j: usize = 0;
        while j < m
            invariant
                m == valid@.len() <= MAX_SAMPLES,
                0 <= j <= m,
                forall|k: int| 0 <= k < valid@.len() ==> #[trigger] valid@[k] <= MAX_TICK,
                sum == seq_sum(valid@.take(j as int)),
                sum_sq == seq_sum_sq(valid@.take(j as int)),
                sum <= j * 0xFFFFFFFF,
                sum_sq <= j * 0xFFFFFFFE00000001,
            decreases m - j,
        {
            let t = valid[j];
            proof {
                assert(valid@.take(j + 1) =~= valid@.take(j as int) + seq![t]);
                lemma_seq_sum_app(valid@.take(j as int), seq![t]);
                assert(seq![t].skip(1) =~= Seq::<u64>::empty());
                assert(seq_sum(Seq::<u64>::empty()) == 0);
                assert(seq_sum_sq(Seq::<u64>::empty()) == 0);
                assert(seq_sum(seq![t]) == t);
                assert(seq_sum_sq(seq![t]) == t * t);
                assert(t * t <= 0xFFFFFFFE00000001) by (nonlinear_arith)
                    requires
                        0 <= t <= 0xFFFFFFFFu64,
                ;
            }
            sum = sum + t;
            sum_sq = sum_sq + (t as u128) * (t as u128);
            j += 1;
        }
        proof {
            assert(valid@.take(m as int) =~= valid@);
        }

        let sorted = crate::quantile::sort_ticks(valid);
        let mut qticks: Vec<(Quantile, u64)> = Vec::new();
        if count != 0 {
            let qn = quantiles.len();
            let mut k: usize = 0;
            while k < qn
                invariant
                    qn == quantiles@.len(),
                    0 <= k <= qn,
                    count != 0,
                    sorted@.len() == count <= MAX_SAMPLES,
                    forall|t: int| 0 <= t < quantiles@.len() ==> (#[trigger] quantiles@[t]).wf(),
                    qticks@.len() == k,
                    forall|t: int|
                        0 <= t < k ==> #[trigger] qticks@[t] == (
                            quantiles@[t],
                            tick_at_quantile(sorted@, quantiles@[t]),
                        ),
                decreases qn - k,
            {
                let q = quantiles[k];
                let tick = select_quantile(&sorted, &q);
                qticks.push((q, tick));
                k += 1;
            }
        }

        let buckets = digest_errors(errors);
        let (loss_num, loss_den) = if count == 0 {
            (1, 1)
        } else {
            (lost, total)
        };
        PingDigest {
            quantiles: qticks,
            count,
            lost,
            total,
            loss_num,
            loss_den,
            sum_ticks: sum,
            sum_sq_ticks: sum_sq,
            errors: buckets,
        }
    }
}

/// The sample vector after the answered probes are placed: each outcome puts
/// its round trip into its own sequence number's slot; lost slots stay
/// `None`.
pub open spec fn place_outcomes(slots: Seq<Option<u64>>, outcomes: Seq<(usize, u64)>) -> Seq<
    Option<u64>,
>
    decreases outcomes.len(),
{
    if outcomes.len() == 0 {
        slots
    } else {
        place_outcomes(
            slots.update(outcomes[0].0 as int, Option::Some(outcomes[0].1)),
            outcomes.skip(1),
        )
    }
}

/// Placing distributes over concatenation of the outcome list.
pub proof fn lemma_place_outcomes_app(
    slots: Seq<Option<u64>>,
    a: Seq<(usize, u64)>,
    b: Seq<(usize, u64)>,
)
    ensures
        place_outcomes(slots, a + b) == place_outcomes(place_outcomes(slots, a), b),
    decreases a.len(),
{
    if a.len() == 0 {
        assert(a + b =~= b);
    } else {
        assert((a + b).skip(1) =~= a.skip(1) + b);
        assert((a + b)[0] == a[0]);
        lemma_place_outcomes_app(
            slots.update(a[0].0 as int, Option::Some(a[0].1)),
            a.skip(1),
            b,
        );
    }
}

/// Builds the sample vector of one target from the answered probes: one slot
/// per sequence number sent, `None` where nothing came back, the probe's own
/// round trip where it did. Each answer lands in its own slot, whatever
/// order the answers arrived in.
pub fn assemble_samples(total: usize, outcomes: &Vec<(usize, u64)>) -> (r: Vec<Option<u64>>)
    requires
        forall|i: int| 0 <= i < outcomes@.len() ==> (#[trigger] outcomes@[i]).0 < total,
    ensures
        r@.len() == total,
        r@ == place_outcomes(Seq::new(total as nat, |i: int| Option::<u64>::None), outcomes@),
    {
    let ghost empty_slots = Seq::new(total as nat, |i: int| Option::<u64>::None);
    let mut slots: Vec<Option<u64>> = Vec::new();
    let mut i: usize = 0;
    while i < total
        invariant
            0 <= i <= total,
            slots@.len() == i,
            forall|j: int| 0 <= j < i ==> slots@[j] is None,
        decreases total - i,
    {
        slots.push(None);
        i += 1;
    }
    proof {
        assert(slots@ =~= empty_slots);
        assert(place_outcomes(empty_slots, outcomes@.take(0)) =~= empty_slots);
    }
    let n = outcomes.len();
    let mut k: usize = 0;
    while k < n
        invariant
            n == outcomes@.len(),
            0 <= k <= n,
            forall|t: int| 0 <= t < outcomes@.len() ==> (#[trigger] outcomes@[t]).0 < total,
            slots@.len() == total,
            slots@ == place_outcomes(empty_slots, outcomes@.take(k as int)),
        decreases n - k,
    {
        let (seq_no, tick) = outcomes[k];
        let ghost pre = slots@;
        slots.set(seq_no, Some(tick));
        proof {
            assert(outcomes@.take(k + 1) =~= outcomes@.take(k as int) + seq![outcomes@[k as int]]);
            lemma_place_outcomes_app(empty_slots, outcomes@.take(k as int), seq![
                outcomes@[k as int],
            ]);
            assert(seq![outcomes@[k as int]].skip(1) =~= Seq::<(usize, u64)>::empty());
            assert(place_outcomes(pre.update(seq_no as int, Option::Some(tick)), Seq::<(usize,
                u64)>::empty()) == pre.update(seq_no as int, Option::Some(tick)));
        }
        k += 1;
    }
    proof {
        assert(outcomes@.take(n as int) =~= outcomes@);
    }
    slots
}

/// One target's summary, ready for rendering: quantile labels as decimal
/// text, timing fields as IEEE single bit patterns.
pub struct PingSummary {
    /// Each requested quantile's decimal label with the timing selected for
    /// it, in milliseconds.
    pub quantiles: Vec<(String, F32Bits)>,
    /// The mean round trip in milliseconds.
    pub mean_ms: F32Bits,
    /// The population standard deviation in milliseconds.
    pub stddev: F32Bits,
    /// How many probes were answered.
    pub count: usize,
    /// The fraction of probes lost, zero to one.
    pub loss_percent: F32Bits,
    /// How often each error kind was observed.
    pub errors: Vec<(PingErrorKind, u32)>,
}

/// The quantile label/value texts of a summary.
pub open spec fn quantile_pairs(s: PingSummary) -> Seq<(Seq<char>, Seq<char>)> {
    s.quantiles@.map_values(|p: (String, F32Bits)| (p.0@, go_f32_seq(p.1.bits)))
}

/// The error label/count texts of a summary.
pub open spec fn error_pairs(s: PingSummary) -> Seq<(Seq<char>, Seq<char>)> {
    s.errors@.map_values(|b: (PingErrorKind, u32)| (b.0.label_view(), dec_seq(b.1 as int)))
}

/// What rendering one summary adds to the groups: the `ping_ms` summary with
/// its quantile lines and `_count`, the mean, deviation and loss gauges, and
/// the error counters, under the caller's name prefix and label stack.
pub open spec fn ping_summary_models(
    ms: Seq<GroupModel>,
    prefix: Seq<char>,
    labels: Seq<char>,
    s: PingSummary,
) -> Seq<GroupModel> {
    let full1 = prefix + "ping_ms"@;
    let m1 = begin_model(ms, full1, MetricType::Summary, "ping to target"@);
    let m2 = labeled_lines_model(m1, full1, labels, "quantile"@, quantile_pairs(s));
    let m3 = add_line_model(
        m2,
        full1,
        line_text("_count"@, labels, dec_seq(s.count as int), Option::None),
    );
    let full2 = prefix + "ping_mean_ms"@;
    let m4 = begin_model(m3, full2, MetricType::Gauge, "mean ping to target"@);
    let m5 = add_line_model(
        m4,
        full2,
        line_text(Seq::<char>::empty(), labels, go_f32_seq(s.mean_ms.bits), Option::None),
    );
    let full3 = prefix + "ping_stddev"@;
    let m6 = begin_model(m5, full3, MetricType::Gauge, "ping standard deviation"@);
    let m7 = add_line_model(
        m6,
        full3,
        line_text(Seq::<char>::empty(), labels, go_f32_seq(s.stddev.bits), Option::None),
    );
    let full4 = prefix + "packet_loss"@;
    let m8 = begin_model(m7, full4, MetricType::Gauge, "packet loss (0 to 1)"@);
    let m9 = add_line_model(
        m8,
        full4,
        line_text(Seq::<char>::empty(), labels, go_f32_seq(s.loss_percent.bits), Option::None),
    );
    let full5 = prefix + "ping_errors"@;
    let m10 = begin_model(m9, full5, MetricType::Counter, "number of ping errors"@);
    labeled_lines_model(m10, full5, labels, "error"@, error_pairs(s))
}

impl PingSummary {
    /// Writes the summary's five metrics into the builder. The name and
    /// label stacks are exactly as before the call.
    pub fn write_prometheus(&self, builder: &mut ExpositionBuilder)
        requires
            old(builder).wf(),
            !old(builder).in_metric(),
        ensures
            final(builder).wf(),
            !final(builder).in_metric(),
            final(builder).models() == ping_summary_models(
                old(builder).models(),
                old(builder).name_text(),
                old(builder).labels_text(),
                *self,
            ),
            crate::exposition::unchanged_stacks(old(builder), final(builder)),
    {
        let ghost prefix = builder.name_text();
        let ghost marks0 = builder.name_marks();
        let ghost labels = builder.labels_text();

        proof {
            reveal_strlit("ping_ms");
            reveal_strlit("quantile");
            reveal_strlit("_count");
            reveal_strlit("ping_mean_ms");
            reveal_strlit("ping_stddev");
            reveal_strlit("packet_loss");
            reveal_strlit("ping_errors");
            reveal_strlit("error");
        }
        let ping_ms = PName::new_unchecked("ping_ms");
        let quantile = PName::new_unchecked("quantile");
        let count_suffix = PName::new_unchecked("_count");

        builder.begin_metric(&ping_ms, MetricType::Summary, "ping to target");
        builder.add_labeled_lines(&quantile, &self.quantiles);
        proof {
            assert(quantile_pairs(*self) =~= self.quantiles@.map_values(
                |p: (String, F32Bits)| (p.0@, p.1.go_view()),
            ));
        }
        builder.push_name(&count_suffix);
        builder.add_line(&self.count, None);
        builder.pop_name();
        builder.end_metric();
        proof {
            lemma_stack_push_pop(prefix, marks0, "ping_ms"@);
        }

        let mean_name = PName::new_unchecked("ping_mean_ms");
        builder.begin_metric(&mean_name, MetricType::Gauge, "mean ping to target");
        builder.add_line(&self.mean_ms, None);
        builder.end_metric();
        proof {
            lemma_stack_push_pop(prefix, marks0, "ping_mean_ms"@);
        }

        let stddev_name = PName::new_unchecked("ping_stddev");
        builder.begin_metric(&stddev_name, MetricType::Gauge, "ping standard deviation");
        builder.add_line(&self.stddev, None);
        builder.end_metric();
        proof {
            lemma_stack_push_pop(prefix, marks0, "ping_stddev"@);
        }

        let loss_name = PName::new_unchecked("packet_loss");
        builder.begin_metric(&loss_name, MetricType::Gauge, "packet loss (0 to 1)");
        builder.add_line(&self.loss_percent, None);
        builder.end_metric();
        proof {
            lemma_stack_push_pop(prefix, marks0, "packet_loss"@);
        }

        let errors_name = PName::new_unchecked("ping_errors");
        let error_label = PName::new_unchecked("error");
        builder.begin_metric(&errors_name, MetricType::Counter, "number of ping errors");
        let mut error_values: Vec<(String, u32)> = Vec::new();
        let en = self.errors.len();
        let mut i: usize = 0;
        proof {
            assert(error_values@.map_values(|p: (String, u32)| (p.0@, p.1.go_view())) =~= error_pairs(
                *self,
            ).take(0));
        }
        while i < en
            invariant
                en == self.errors@.len(),
                0 <= i <= en,
                error_values@.len() == i,
                error_values@.map_values(|p: (String, u32)| (p.0@, p.1.go_view()))
                    == error_pairs(*self).take(i as int),
            decreases en - i,
        {
            let ghost pre_ev = error_values@;
            let ghost lhs0 = error_values@.map_values(|p: (String, u32)| (p.0@, p.1.go_view()));
            let label = self.errors[i].0.label();
            let ghost lv = label@;
            let cnt = self.errors[i].1;
            error_values.push((label, cnt));
            proof {
                let lhs = error_values@.map_values(|p: (String, u32)| (p.0@, p.1.go_view()));
                let rhs = error_pairs(*self).take(i + 1);
                assert(error_pairs(*self).len() == self.errors@.len());
                assert(lhs.len() == i + 1);
                assert(rhs.len() == i + 1);
                assert forall|t: int| 0 <= t < i + 1 implies lhs[t] == rhs[t] by {
                    if t < i {
                        assert(error_values@[t] == pre_ev[t]);
                        assert(lhs[t] == (pre_ev[t].0@, pre_ev[t].1.go_view()));
                        assert(lhs0[t] == (pre_ev[t].0@, pre_ev[t].1.go_view()));
                        assert(lhs0[t] == error_pairs(*self)[t]);
                        assert(rhs[t] == error_pairs(*self)[t]);
                    } else {
                        assert(error_values@[t].0@ == lv);
                        assert(error_values@[t].1 == cnt);
                        assert(lhs[t] == (lv, cnt.go_view()));
                        assert(lv == self.errors@[i as int].0.label_view());
                        assert(rhs[t] == (self.errors@[i as int].0.label_view(), dec_seq(
                            self.errors@[i as int].1 as int,
                        )));
                    }
                }
                assert(lhs =~= rhs);
            }
            i += 1;
        }
        proof {
            assert(error_pairs(*self).take(en as int) =~= error_pairs(*self));
        }
        builder.add_labeled_lines(&error_label, &error_values);
        builder.end_metric();
        proof {
            lemma_stack_push_pop(prefix, marks0, "ping_errors"@);
            crate::exposition::lemma_outside_metric_saved(old(builder));
            crate::exposition::lemma_outside_metric_saved(builder);
        }
    }
}

/// One target's outcome: its display text, and a summary or an error
/// message.
pub struct PingResult {
    /// The target as text: an address or a domain.
    pub target: String,
    /// The digested summary, when probing ran.
    pub summary: Option<PingSummary>,
    /// The failure message, when the target could not be probed.
    pub error: Option<String>,
}

/// What rendering one result adds to the groups: everything under a
/// `target` label; the summary's metrics when there is one, and a
/// `ping_error` counter when the target failed early.
pub open spec fn ping_result_models(
    ms: Seq<GroupModel>,
    prefix: Seq<char>,
    labels0: Seq<char>,
    r: PingResult,
) -> Seq<GroupModel> {
    let labels = labels0 + label_fragment(labels0.len() == 0, "target"@, r.target@);
    let m1 = match r.summary {
        Option::Some(s) => ping_summary_models(ms, prefix, labels, s),
        Option::None => ms,
    };
    match r.error {
        Option::Some(e) => {
            let full = prefix + "ping_error"@;
            let m2 = begin_model(m1, full, MetricType::Counter, "ping error"@);
            labeled_lines_model(m2, full, labels, "error"@, seq![(e@, dec_seq(1))])
        },
        Option::None => m1,
    }
}

impl PingResult {
    /// Writes the result into the builder under a `target` label. The name
    /// and label stacks are exactly as before the call.
    pub fn write_prometheus(&self, builder: &mut ExpositionBuilder)
        requires
            old(builder).wf(),
            !old(builder).in_metric(),
        ensures
            final(builder).wf(),
            !final(builder).in_metric(),
            final(builder).models() == ping_result_models(
                old(builder).models(),
                old(builder).name_text(),
                old(builder).labels_text(),
                *self,
            ),
            crate::exposition::unchanged_stacks(old(builder), final(builder)),
    {
        let ghost labels0 = builder.labels_text();
        let ghost lmarks0 = builder.labels_marks();
        let ghost prefix = builder.name_text();
        let ghost marks0 = builder.name_marks();
        proof {
            reveal_strlit("target");
            reveal_strlit("ping_error");
            reveal_strlit("error");
        }
        let target_label = PName::new_unchecked("target");
        builder.push_label(&target_label, self.target.as_str());
        if let Some(summary) = &self.summary {
            summary.write_prometheus(builder);
        }
        if let Some(error) = &self.error {
            let error_name = PName::new_unchecked("ping_error");
            let error_label = PName::new_unchecked("error");
            builder.begin_metric(&error_name, MetricType::Counter, "ping error");
            let one: u64 = 1;
            builder.add_line_labeled(&error_label, error.as_str(), &one, None);
            builder.end_metric();
            proof {
                lemma_stack_push_pop(prefix, marks0, "ping_error"@);
                let e = self.error->0;
                let labels = labels0 + label_fragment(labels0.len() == 0, "target"@, self.target@);
                let full = prefix + "ping_error"@;
                let m1 = if self.summary is Some {
                    ping_summary_models(old(builder).models(), prefix, labels, self.summary->0)
                } else {
                    old(builder).models()
                };
                let m2 = begin_model(m1, full, MetricType::Counter, "ping error"@);
                let single = seq![(e@, dec_seq(1))];
                assert(single.skip(1) =~= Seq::<(Seq<char>, Seq<char>)>::empty());
                assert(labeled_lines_model(m2, full, labels, "error"@, single)
                    == labeled_lines_model(
                    add_line_model(
                        m2,
                        full,
                        line_text(
                            Seq::<char>::empty(),
                            labels + label_fragment(labels.len() == 0, "error"@, e@),
                            dec_seq(1),
                            Option::None,
                        ),
                    ),
                    full,
                    labels,
                    "error"@,
                    single.skip(1),
                ));
            }
        }
        builder.pop_label();
        proof {
            lemma_stack_push_pop(
                labels0,
                lmarks0,
                label_fragment(labels0.len() == 0, "target"@, self.target@),
            );
            crate::exposition::lemma_outside_metric_saved(old(builder));
            crate::exposition::lemma_outside_metric_saved(builder);
        }
    }
}

/// A kind with a zero count in every bucket, where buckets count a prefix
/// completely, does not occur in the prefix.
proof fn lemma_count_kind_none(
    s: Seq<(int, Seq<char>)>,
    k: (int, Seq<char>),
    bs: Seq<((int, Seq<char>), u32)>,
)
    requires
        forall|j: int| 0 <= j < s.len() ==> has_bucket(bs, #[trigger] s[j]),
        forall|t: int| 0 <= t < bs.len() ==> (#[trigger] bs[t]).0 != k,
    ensures
        count_kind(s, k) == 0,
    decreases s.len(),
{
    if s.len() > 0 {
        assert(s[0] != k) by {
            if s[0] == k {
                assert(has_bucket(bs, s[0]));
                let w = choose|w: int| 0 <= w < bs.len() && bs[w].0 == s[0];
                assert(bs[w].0 != k);
            }
        }
        assert(forall|j: int| 0 <= j < s.skip(1).len() ==> has_bucket(bs, #[trigger] s.skip(1)[j]));
        lemma_count_kind_none(s.skip(1), k, bs);
    }
}

} // verus!
