use vstd::prelude::*;

use crate::text::str_equal;
use crate::duration::{
    duration_of, lemma_duration_of, lemma_duration_range, lemma_duration_view_eq,
    max_duration_nanos, saturating_sum, Duration,
};

verus! {

broadcast use {lemma_duration_of, lemma_duration_range};

/// An interaction whose latency is tracked.
#[derive(Debug, Clone, Copy, PartialEq, Eq, PartialOrd, Ord, Hash, Structural)]
pub enum LatencyMetric {
    Navigation,
    Selection,
    Rename,
    SearchKeystroke,
    ResultStreaming,
    ThumbnailDisplay,
    PreviewOpen,
    CopyStart,
    Cancel,
    WindowRender,
}

/// Number of latency metrics.
pub const LATENCY_METRIC_COUNT: usize = 10;

/// The position of a metric in `LatencyMetric::ALL`.
pub open spec fn latency_metric_index(metric: LatencyMetric) -> int {
    match metric {
        LatencyMetric::Navigation => 0,
        LatencyMetric::Selection => 1,
        LatencyMetric::Rename => 2,
        LatencyMetric::SearchKeystroke => 3,
        LatencyMetric::ResultStreaming => 4,
        LatencyMetric::ThumbnailDisplay => 5,
        LatencyMetric::PreviewOpen => 6,
        LatencyMetric::CopyStart => 7,
        LatencyMetric::Cancel => 8,
        LatencyMetric::WindowRender => 9,
    }
}

/// The metrics in their canonical order.
pub open spec fn all_latency_metrics() -> Seq<LatencyMetric> {
    seq![
        LatencyMetric::Navigation,
        LatencyMetric::Selection,
        LatencyMetric::Rename,
        LatencyMetric::SearchKeystroke,
        LatencyMetric::ResultStreaming,
        LatencyMetric::ThumbnailDisplay,
        LatencyMetric::PreviewOpen,
        LatencyMetric::CopyStart,
        LatencyMetric::Cancel,
        LatencyMetric::WindowRender,
    ]
}

impl LatencyMetric {
    pub const ALL: [LatencyMetric; 10] = [
        LatencyMetric::Navigation,
        LatencyMetric::Selection,
        LatencyMetric::Rename,
        LatencyMetric::SearchKeystroke,
        LatencyMetric::ResultStreaming,
        LatencyMetric::ThumbnailDisplay,
        LatencyMetric::PreviewOpen,
        LatencyMetric::CopyStart,
        LatencyMetric::Cancel,
        LatencyMetric::WindowRender,
    ];

    /// The metric's stable name.
    pub fn as_str(self) -> (s: &'static str)
        ensures
            s@ == latency_metric_name(self),
    {
        match self {
            LatencyMetric::Navigation => "navigation",
            LatencyMetric::Selection => "selection",
            LatencyMetric::Rename => "rename",
            LatencyMetric::SearchKeystroke => "search_keystroke",
            LatencyMetric::ResultStreaming => "result_streaming",
            LatencyMetric::ThumbnailDisplay => "thumbnail_display",
            LatencyMetric::PreviewOpen => "preview_open",
            LatencyMetric::CopyStart => "copy_start",
            LatencyMetric::Cancel => "cancel",
            LatencyMetric::WindowRender => "window_render",
        }
    }

    /// The metric's position in `ALL`.
    pub fn index(self) -> (i: usize)
        ensures
            i == latency_metric_index(self),
            all_latency_metrics()[i as int] == self,
    {
        match self {
            LatencyMetric::Navigation => 0,
            LatencyMetric::Selection => 1,
            LatencyMetric::Rename => 2,
            LatencyMetric::SearchKeystroke => 3,
            LatencyMetric::ResultStreaming => 4,
            LatencyMetric::ThumbnailDisplay => 5,
            LatencyMetric::PreviewOpen => 6,
            LatencyMetric::CopyStart => 7,
            LatencyMetric::Cancel => 8,
            LatencyMetric::WindowRender => 9,
        }
    }
}

/// The stable name of a metric.
pub open spec fn latency_metric_name(metric: LatencyMetric) -> Seq<char> {
    match metric {
        LatencyMetric::Navigation => "navigation"@,
        LatencyMetric::Selection => "selection"@,
        LatencyMetric::Rename => "rename"@,
        LatencyMetric::SearchKeystroke => "search_keystroke"@,
        LatencyMetric::ResultStreaming => "result_streaming"@,
        LatencyMetric::ThumbnailDisplay => "thumbnail_display"@,
        LatencyMetric::PreviewOpen => "preview_open"@,
        LatencyMetric::CopyStart => "copy_start"@,
        LatencyMetric::Cancel => "cancel"@,
        LatencyMetric::WindowRender => "window_render"@,
    }
}


/// One histogram bucket: observations no longer than `upper_bound` and longer
/// than the previous bucket's bound.
#[derive(Debug, Clone, Copy, PartialEq, Eq)]
pub struct Bucket {
    pub upper_bound: Duration,
    pub count: u64,
}

/// A latency histogram over fixed bucket bounds. It keeps counts, never the
/// raw samples.
#[derive(Debug, Clone, PartialEq, Eq)]
pub struct Histogram {
    buckets: Vec<Bucket>,
    overflow: u64,
    count: u64,
    sum: Duration,
    min: Option<Duration>,
    max: Option<Duration>,
}

/// The abstract state of a histogram.
pub ghost struct HistogramView {
    /// Bucket upper bounds, in increasing order.
    pub bounds: Seq<Duration>,
    /// Number of observations per bucket.
    pub counts: Seq<int>,
    /// Observations longer than every bound.
    pub overflow: int,
    /// Number of observations.
    pub count: int,
    /// Sum of the observations, saturating at the longest duration.
    pub sum: Duration,
    pub min: Option<Duration>,
    pub max: Option<Duration>,
}

/// Point-in-time statistics of a histogram.
#[derive(Debug, Clone, Copy, PartialEq, Eq)]
pub struct HistogramSummary {
    pub count: u64,
    pub min: Option<Duration>,
    pub max: Option<Duration>,
    pub mean: Option<Duration>,
    pub p50: Option<Duration>,
    pub p95: Option<Duration>,
    pub p99: Option<Duration>,
    pub overflow: u64,
}

/// The sum of a sequence of integers.
pub open spec fn seq_sum(s: Seq<int>) -> int
    decreases s.len(),
{
    if s.len() == 0 {
        0
    } else {
        seq_sum(s.drop_last()) + s.last()
    }
}

/// Bounds are strictly increasing.
pub open spec fn increasing_bounds(bounds: Seq<Duration>) -> bool {
    forall|i: int, j: int| 0 <= i < j < bounds.len() ==> bounds[i]@ < bounds[j]@
}

/// The index of the first bound that `value` does not exceed, or the number
/// of bounds where it exceeds all of them.
pub open spec fn bucket_index(bounds: Seq<Duration>, value: int) -> int
    decreases bounds.len(),
{
    if bounds.len() == 0 {
        0
    } else if value <= bounds[0]@ {
        0
    } else {
        1 + bucket_index(bounds.drop_first(), value)
    }
}

/// The first index `i` at which the running total of `counts[0..=i]` reaches
/// `target`, or `counts.len()` when it never does.
pub open spec fn reach_index(counts: Seq<int>, target: int) -> int
    decreases counts.len(),
{
    if counts.len() == 0 {
        0
    } else if counts[0] >= target {
        0
    } else {
        1 + reach_index(counts.drop_first(), target - counts[0])
    }
}

/// The smaller of two durations (the first one where they are equal).
pub open spec fn min_duration(a: Duration, b: Duration) -> Duration {
    if a@ <= b@ {
        a
    } else {
        b
    }
}

/// The larger of two durations (the second one where they are equal).
pub open spec fn max_duration(a: Duration, b: Duration) -> Duration {
    if b@ >= a@ {
        b
    } else {
        a
    }
}

/// The histogram after observing `value`.
pub open spec fn observe_view(h: HistogramView, value: Duration) -> HistogramView {
    let i = bucket_index(h.bounds, value@);
    HistogramView {
        bounds: h.bounds,
        counts: if i < h.counts.len() {
            h.counts.update(i, h.counts[i] + 1)
        } else {
            h.counts
        },
        overflow: if i < h.counts.len() {
            h.overflow
        } else {
            h.overflow + 1
        },
        count: h.count + 1,
        sum: saturating_sum(h.sum, value),
        min: Some(
            match h.min {
                Some(m) => min_duration(m, value),
                None => value,
            },
        ),
        max: Some(
            match h.max {
                Some(m) => max_duration(m, value),
                None => value,
            },
        ),
    }
}

/// The rank that the `percentile`-th percentile must reach: the ceiling of
/// `count * percentile / 100` (the addition saturating at `u64::MAX`), and at
/// least 1.
pub open spec fn percentile_target(count: int, percentile: int) -> int {
    let pc = if percentile > 100 {
        100
    } else {
        percentile
    };
    let raised = if count * pc + 99 > u64::MAX {
        u64::MAX as int
    } else {
        count * pc + 99
    };
    let t = raised / 100;
    if t < 1 {
        1
    } else {
        t
    }
}

/// The upper bound of the first bucket whose running count reaches the
/// percentile's rank, or the maximum where no bucket does.
pub open spec fn percentile_of(h: HistogramView, percentile: int) -> Option<Duration> {
    if h.count == 0 {
        None
    } else {
        let i = reach_index(h.counts, percentile_target(h.count, percentile));
        if i < h.counts.len() {
            Some(h.bounds[i])
        } else {
            h.max
        }
    }
}

proof fn lemma_seq_sum_front(s: Seq<int>)
    requires
        s.len() > 0,
    ensures
        seq_sum(s) == s[0] + seq_sum(s.drop_first()),
    decreases s.len(),
{
    let d = s.drop_first();
    if s.len() > 1 {
        let l = s.drop_last();
        lemma_seq_sum_front(l);
        assert(l.drop_first() =~= d.drop_last());
        assert(l[0] == s[0]);
        assert(d.last() == s.last());
        assert(seq_sum(d) == seq_sum(d.drop_last()) + d.last());
        assert(seq_sum(s) == seq_sum(l) + s.last());
    } else {
        assert(d.len() == 0);
        assert(seq_sum(d) == 0);
        assert(s.drop_last().len() == 0);
        assert(seq_sum(s.drop_last()) == 0);
        assert(seq_sum(s) == seq_sum(s.drop_last()) + s.last());
    }
}

proof fn lemma_reach_bounds(counts: Seq<int>, a: int, b: int)
    requires
        forall|i: int| 0 <= i < counts.len() ==> #[trigger] counts[i] >= 0,
        a <= b,
    ensures
        0 <= reach_index(counts, a) <= reach_index(counts, b),
        reach_index(counts, b) <= counts.len(),
    decreases counts.len(),
{
    if counts.len() > 0 {
        let r = counts.drop_first();
        assert forall|i: int| 0 <= i < r.len() implies #[trigger] r[i] >= 0 by {
            assert(r[i] == counts[i + 1]);
        }
        lemma_reach_bounds(r, a - counts[0], b - counts[0]);
    }
}

proof fn lemma_reach_end(counts: Seq<int>, t: int)
    requires
        forall|i: int| 0 <= i < counts.len() ==> #[trigger] counts[i] >= 0,
        t >= 1,
        reach_index(counts, t) >= counts.len(),
    ensures
        seq_sum(counts) < t,
    decreases counts.len(),
{
    if counts.len() > 0 {
        let r = counts.drop_first();
        assert forall|i: int| 0 <= i < r.len() implies #[trigger] r[i] >= 0 by {
            assert(r[i] == counts[i + 1]);
        }
        lemma_seq_sum_front(counts);
        lemma_reach_end(r, t - counts[0]);
    }
}

proof fn lemma_target_bounds(count: int, p: int, q: int)
    requires
        1 <= count <= u64::MAX,
        0 <= p <= q,
    ensures
        1 <= percentile_target(count, p) <= percentile_target(count, q) <= count,
{
    let pp = if p > 100 { 100 } else { p };
    let qq = if q > 100 { 100 } else { q };
    assert(count * pp <= count * qq) by (nonlinear_arith)
        requires
            0 <= pp <= qq,
            count >= 1,
    ;
    assert(count * qq <= count * 100) by (nonlinear_arith)
        requires
            qq <= 100,
            count >= 1,
    ;
    assert((count * qq + 99) / 100 <= count) by (nonlinear_arith)
        requires
            count * qq <= count * 100,
            count >= 1,
    ;
    assert((count * pp + 99) / 100 <= (count * qq + 99) / 100) by (nonlinear_arith)
        requires
            count * pp <= count * qq,
    ;
    if count * qq + 99 > u64::MAX {
        assert((u64::MAX as int) / 100 <= count) by (nonlinear_arith)
            requires
                count * 100 >= count * qq,
                count * qq + 99 > u64::MAX,
        ;
    }
}

/// Percentiles do not go down: for `p <= q`, the `p`-th percentile of a
/// histogram is at most its `q`-th (both none for an empty histogram).
pub proof fn lemma_percentile_monotonic(h: HistogramView, p: int, q: int)
    requires
        histogram_view_wf(h),
        0 <= p <= q,
    ensures
        h.count == 0 ==> percentile_of(h, p) is None && percentile_of(h, q) is None,
        h.count > 0 ==> (percentile_of(h, p) matches Some(a) && percentile_of(h, q) matches Some(b) && a@ <= b@),
{
    if h.count > 0 {
        let tp = percentile_target(h.count, p);
        let tq = percentile_target(h.count, q);
        lemma_target_bounds(h.count, p, q);
        lemma_reach_bounds(h.counts, tp, tq);
        lemma_reach_bounds(h.counts, tp, tp);
        let ip = reach_index(h.counts, tp);
        let iq = reach_index(h.counts, tq);
        if iq >= h.counts.len() {
            lemma_reach_end(h.counts, tq);
            assert(h.overflow > 0);
            if ip < h.counts.len() {
                assert(h.bounds[ip]@ <= h.bounds.last()@);
            }
        } else if ip < iq {
            assert(h.bounds[ip]@ < h.bounds[iq]@);
        }
    }
}

/// `sum / divisor` in whole nanoseconds, capped at `u64::MAX` nanoseconds.
pub open spec fn mean_duration(sum: Duration, divisor: int) -> Duration {
    if divisor == 0 {
        duration_of(0)
    } else {
        let q = sum@ / divisor;
        duration_of(
            if q <= u64::MAX {
                q
            } else {
                u64::MAX as int
            },
        )
    }
}

/// The summary that a histogram reports.
pub open spec fn summary_of(h: HistogramView) -> HistogramSummary {
    HistogramSummary {
        count: h.count as u64,
        min: h.min,
        max: h.max,
        mean: if h.count != 0 {
            Some(mean_duration(h.sum, h.count))
        } else {
            None
        },
        p50: percentile_of(h, 50),
        p95: percentile_of(h, 95),
        p99: percentile_of(h, 99),
        overflow: h.overflow as u64,
    }
}

/// A histogram with the given bounds and no observations.
pub open spec fn empty_histogram(bounds: Seq<Duration>) -> HistogramView {
    HistogramView {
        bounds,
        counts: Seq::new(bounds.len(), |i: int| 0int),
        overflow: 0,
        count: 0,
        sum: duration_of(0),
        min: None,
        max: None,
    }
}

/// The bucket bounds of a latency histogram, in nanoseconds.
pub open spec fn latency_bound_nanos() -> Seq<int> {
    seq![
        100_000, 250_000, 500_000, 1_000_000, 2_000_000, 4_000_000, 8_000_000,
        12_000_000, 16_000_000, 25_000_000, 33_000_000, 50_000_000, 75_000_000,
        100_000_000, 150_000_000, 250_000_000, 500_000_000, 1_000_000_000,
        2_000_000_000, 4_000_000_000, 8_000_000_000, 16_000_000_000, 32_000_000_000,
    ]
}

/// `bounds` are the latency bucket bounds.
pub open spec fn is_latency_bounds(bounds: Seq<Duration>) -> bool {
    &&& bounds.len() == latency_bound_nanos().len()
    &&& forall|i: int| 0 <= i < bounds.len() ==> #[trigger] bounds[i]@ == latency_bound_nanos()[i]
}

/// The bucket bounds of the latency histograms, from 100µs to 32s.
pub fn latency_buckets() -> (bounds: Vec<Duration>)
    ensures
        is_latency_bounds(bounds@),
        increasing_bounds(bounds@),
{
    let mut b: Vec<Duration> = Vec::new();
    b.push(Duration::from_micros(100));
    b.push(Duration::from_micros(250));
    b.push(Duration::from_micros(500));
    b.push(Duration::from_millis(1));
    b.push(Duration::from_millis(2));
    b.push(Duration::from_millis(4));
    b.push(Duration::from_millis(8));
    b.push(Duration::from_millis(12));
    b.push(Duration::from_millis(16));
    b.push(Duration::from_millis(25));
    b.push(Duration::from_millis(33));
    b.push(Duration::from_millis(50));
    b.push(Duration::from_millis(75));
    b.push(Duration::from_millis(100));
    b.push(Duration::from_millis(150));
    b.push(Duration::from_millis(250));
    b.push(Duration::from_millis(500));
    b.push(Duration::from_secs(1));
    b.push(Duration::from_secs(2));
    b.push(Duration::from_secs(4));
    b.push(Duration::from_secs(8));
    b.push(Duration::from_secs(16));
    b.push(Duration::from_secs(32));
    assert(is_latency_bounds(b@));
    b
}

proof fn lemma_bucket_index_skip(bounds: Seq<Duration>, value: int, i: int)
    requires
        0 <= i <= bounds.len(),
        forall|j: int| 0 <= j < i ==> value > #[trigger] bounds[j]@,
    ensures
        bucket_index(bounds, value) == i + bucket_index(bounds.skip(i), value),
    decreases i,
{
    if i > 0 {
        assert(bounds.skip(1) =~= bounds.drop_first());
        lemma_bucket_index_skip(bounds.drop_first(), value, i - 1);
        assert(bounds.drop_first().skip(i - 1) =~= bounds.skip(i));
    } else {
        assert(bounds.skip(0) =~= bounds);
    }
}

proof fn lemma_reach_index_skip(counts: Seq<int>, target: int, i: int)
    requires
        0 <= i <= counts.len(),
        forall|j: int| 1 <= j <= i ==> seq_sum(#[trigger] counts.take(j)) < target,
    ensures
        reach_index(counts, target) == i + reach_index(
            counts.skip(i),
            target - seq_sum(counts.take(i)),
        ),
    decreases i,
{
    if i > 0 {
        let rest = counts.drop_first();
        assert(counts.take(1) =~= seq![counts[0]]);
        lemma_seq_sum_single(counts[0]);
        assert forall|j: int| 1 <= j <= i - 1 implies seq_sum(#[trigger] rest.take(j)) < target
            - counts[0] by {
            assert(counts.take(j + 1) =~= seq![counts[0]] + rest.take(j));
            lemma_seq_sum_prepend(counts[0], rest.take(j));
            assert(seq_sum(counts.take(j + 1)) < target);
        }
        lemma_reach_index_skip(rest, target - counts[0], i - 1);
        assert(rest.skip(i - 1) =~= counts.skip(i));
        assert(counts.take(i) =~= seq![counts[0]] + rest.take(i - 1));
        lemma_seq_sum_prepend(counts[0], rest.take(i - 1));
    } else {
        assert(counts.skip(0) =~= counts);
        assert(counts.take(0) =~= Seq::<int>::empty());
    }
}

proof fn lemma_seq_sum_single(x: int)
    ensures
        seq_sum(seq![x]) == x,
{
    let e = seq![x].drop_last();
    assert(e.len() == 0);
    assert(seq_sum(e) == 0);
    assert(seq![x].last() == x);
}

proof fn lemma_seq_sum_prepend(x: int, s: Seq<int>)
    ensures
        seq_sum(seq![x] + s) == x + seq_sum(s),
    decreases s.len(),
{
    if s.len() == 0 {
        assert(seq![x] + s =~= seq![x]);
        lemma_seq_sum_single(x);
    } else {
        lemma_seq_sum_prepend(x, s.drop_last());
        assert((seq![x] + s).drop_last() =~= seq![x] + s.drop_last());
        assert((seq![x] + s).last() == s.last());
    }
}

proof fn lemma_seq_sum_update(s: Seq<int>, i: int, v: int)
    requires
        0 <= i < s.len(),
    ensures
        seq_sum(s.update(i, v)) == seq_sum(s) - s[i] + v,
    decreases s.len(),
{
    if i < s.len() - 1 {
        lemma_seq_sum_update(s.drop_last(), i, v);
        assert(s.update(i, v).drop_last() =~= s.drop_last().update(i, v));
    } else {
        assert(s.update(i, v).drop_last() =~= s.drop_last());
    }
}

proof fn lemma_seq_sum_take_push(s: Seq<int>, i: int)
    requires
        0 <= i < s.len(),
    ensures
        seq_sum(s.take(i + 1)) == seq_sum(s.take(i)) + s[i],
{
    assert(s.take(i + 1).drop_last() =~= s.take(i));
}

proof fn lemma_seq_sum_nonneg_bound(s: Seq<int>, i: int)
    requires
        0 <= i <= s.len(),
        forall|j: int| 0 <= j < s.len() ==> #[trigger] s[j] >= 0,
    ensures
        0 <= seq_sum(s.take(i)) <= seq_sum(s),
    decreases s.len() - i,
{
    if i < s.len() {
        lemma_seq_sum_nonneg_bound(s, i + 1);
        lemma_seq_sum_take_push(s, i);
        lemma_seq_sum_nonneg(s.take(i));
    } else {
        assert(s.take(i) =~= s);
        lemma_seq_sum_nonneg(s);
    }
}

proof fn lemma_seq_sum_nonneg(s: Seq<int>)
    requires
        forall|j: int| 0 <= j < s.len() ==> #[trigger] s[j] >= 0,
    ensures
        seq_sum(s) >= 0,
    decreases s.len(),
{
    if s.len() > 0 {
        lemma_seq_sum_nonneg(s.drop_last());
    }
}

proof fn lemma_seq_sum_zeros(n: nat)
    ensures
        seq_sum(Seq::new(n, |i: int| 0int)) == 0,
    decreases n,
{
    if n > 0 {
        lemma_seq_sum_zeros((n - 1) as nat);
        assert(Seq::new(n, |i: int| 0int).drop_last() =~= Seq::new((n - 1) as nat, |i: int| 0int));
    }
}

impl View for Histogram {
    type V = HistogramView;

    closed spec fn view(&self) -> HistogramView {
        HistogramView {
            bounds: self.buckets@.map_values(|b: Bucket| b.upper_bound),
            counts: self.buckets@.map_values(|b: Bucket| b.count as int),
            overflow: self.overflow as int,
            count: self.count as int,
            sum: self.sum,
            min: self.min,
            max: self.max,
        }
    }
}

/// The invariant of a histogram's abstract state.
pub open spec fn histogram_view_wf(h: HistogramView) -> bool {
    &&& increasing_bounds(h.bounds)
    &&& h.counts.len() == h.bounds.len()
    &&& forall|i: int| 0 <= i < h.counts.len() ==> #[trigger] h.counts[i] >= 0
    &&& h.overflow >= 0
    &&& h.count <= u64::MAX
    &&& h.count == seq_sum(h.counts) + h.overflow
    &&& (h.count == 0 <==> h.min is None)
    &&& (h.count == 0 <==> h.max is None)
    &&& (h.overflow > 0 && h.bounds.len() > 0 ==> (h.max matches Some(m) && m@ > h.bounds.last()@))
}

impl Histogram {
    /// The histogram's invariant.
    pub open spec fn wf(&self) -> bool {
        histogram_view_wf(self@)
    }

    proof fn lemma_view_facts(&self)
        ensures
            self@.counts.len() == self.buckets@.len(),
            self@.bounds.len() == self.buckets@.len(),
            forall|i: int|
                0 <= i < self.buckets@.len() ==> #[trigger] self@.counts[i]
                    == self.buckets@[i].count && self@.bounds[i] == self.buckets@[i].upper_bound,
            self@.count == self.count,
            self@.overflow == self.overflow,
            self@.sum == self.sum,
            self@.min == self.min,
            self@.max == self.max,
    {
    }

    /// A histogram over the latency bucket bounds.
    pub fn latency() -> (h: Histogram)
        ensures
            h.wf(),
            h@ == empty_histogram(h@.bounds),
            is_latency_bounds(h@.bounds),
    {
        let bounds = latency_buckets();
        Histogram::new(bounds.as_slice())
    }

    /// A histogram over `bounds`, which must be strictly increasing.
    pub fn new(bounds: &[Duration]) -> (h: Histogram)
        requires
            increasing_bounds(bounds@),
        ensures
            h.wf(),
            h@ == empty_histogram(bounds@),
    {
        let mut buckets: Vec<Bucket> = Vec::new();
        let mut i: usize = 0;
        while i < bounds.len()
            invariant
                i <= bounds@.len(),
                buckets@.len() == i,
                forall|j: int|
                    0 <= j < i ==> #[trigger] buckets@[j] == (Bucket {
                        upper_bound: bounds@[j],
                        count: 0,
                    }),
            decreases bounds@.len() - i,
        {
            buckets.push(Bucket { upper_bound: bounds[i], count: 0 });
            i = i + 1;
        }
        let h = Histogram {
            buckets,
            overflow: 0,
            count: 0,
            sum: Duration::zero(),
            min: None,
            max: None,
        };
        proof {
            lemma_duration_view_eq(h.sum, duration_of(0));
            assert(h@.bounds =~= bounds@);
            assert(h@.counts =~= Seq::new(bounds@.len(), |i: int| 0int));
            lemma_seq_sum_zeros(bounds@.len());
        }
        h
    }

    /// Records one observation.
    pub fn observe(&mut self, value: Duration)
        requires
            old(self).wf(),
            old(self)@.count < u64::MAX,
        ensures
            final(self).wf(),
            final(self)@ == observe_view(old(self)@, value),
    {
        proof {
            self.lemma_view_facts();
            lemma_seq_sum_nonneg(self@.counts);
        }
        let ghost old_view = self@;
        self.count = self.count + 1;
        self.sum = self.sum.saturating_add(value);
        let new_min = match self.min {
            Some(m) => if m.le(&value) {
                m
            } else {
                value
            },
            None => value,
        };
        self.min = Some(new_min);
        let new_max = match self.max {
            Some(m) => if m.le(&value) {
                value
            } else {
                m
            },
            None => value,
        };
        self.max = Some(new_max);

        let n = self.buckets.len();
        let mut i: usize = 0;
        while i < n
            invariant
                n == self.buckets@.len(),
                i <= n,
                self.buckets@ == old(self).buckets@,
                forall|j: int| 0 <= j < i ==> value@ > #[trigger] self.buckets@[j].upper_bound@,
            ensures
                i <= n,
                self.buckets@ == old(self).buckets@,
                forall|j: int| 0 <= j < i ==> value@ > #[trigger] self.buckets@[j].upper_bound@,
                i < n ==> value@ <= self.buckets@[i as int].upper_bound@,
            decreases n - i,
        {
            if value.le(&self.buckets[i].upper_bound) {
                break;
            }
            i = i + 1;
        }
        proof {
            let bounds = old_view.bounds;
            assert(forall|j: int| 0 <= j < i ==> value@ > #[trigger] bounds[j]@);
            lemma_bucket_index_skip(bounds, value@, i as int);
            if (i as int) < bounds.len() {
                assert(value@ <= bounds[i as int]@);
                assert(bounds.skip(i as int)[0] == bounds[i as int]);
            } else {
                assert(bounds.skip(i as int).len() == 0);
            }
        }
        proof {
            lemma_seq_sum_nonneg(old_view.counts);
            if (i as int) < old_view.counts.len() {
                lemma_seq_sum_nonneg_bound(old_view.counts, i as int + 1);
                lemma_seq_sum_take_push(old_view.counts, i as int);
                lemma_seq_sum_nonneg(old_view.counts.take(i as int));
            }
        }
        if i < n {
            proof {
                lemma_seq_sum_update(old_view.counts, i as int, old_view.counts[i as int] + 1);
            }
            let b = self.buckets[i];
            self.buckets.set(i, Bucket { upper_bound: b.upper_bound, count: b.count + 1 });
            proof {
                assert(self@.counts =~= old_view.counts.update(i as int, old_view.counts[i as int] + 1));
                assert(self@.bounds =~= old_view.bounds);
            }
        } else {
            self.overflow = self.overflow + 1;
            proof {
                assert(self@.counts =~= old_view.counts);
                assert(self@.bounds =~= old_view.bounds);
            }
        }
    }

    /// The number of observations.
    pub fn count(&self) -> (c: u64)
        ensures
            c == self@.count,
    {
        self.count
    }

    /// The upper bound of the bucket holding the `percentile`-th percentile,
    /// or the largest observation where it lies beyond every bucket; `None`
    /// for an empty histogram.
    pub fn percentile(&self, percentile: u8) -> (p: Option<Duration>)
        requires
            self.wf(),
            self@.count * 100 <= u64::MAX,
        ensures
            p == percentile_of(self@, percentile as int),
    {
        proof {
            self.lemma_view_facts();
        }
        if self.count == 0 {
            return None;
        }
        let pc: u64 = if percentile > 100 {
            100
        } else {
            percentile as u64
        };
        proof {
            assert(self.count * pc <= self.count * 100) by (nonlinear_arith)
                requires
                    pc <= 100,
            ;
        }
        let t = (self.count * pc).saturating_add(99) / 100;
        let target: u64 = if t < 1 {
            1
        } else {
            t
        };
        let ghost counts = self@.counts;
        proof {
            assert(target == percentile_target(self@.count, percentile as int));
            lemma_seq_sum_nonneg(counts);
        }
        let mut seen: u64 = 0;
        let n = self.buckets.len();
        let mut i: usize = 0;
        while i < n
            invariant
                self.wf(),
                n == self.buckets@.len(),
                counts == self@.counts,
                counts.len() == n,
                self@.count != 0,
                target == percentile_target(self@.count, percentile as int),
                i <= n,
                seen == seq_sum(counts.take(i as int)),
                forall|j: int| 1 <= j <= i ==> seq_sum(#[trigger] counts.take(j)) < target,
            decreases n - i,
        {
            proof {
                self.lemma_view_facts();
                lemma_seq_sum_take_push(counts, i as int);
                lemma_seq_sum_nonneg_bound(counts, (i + 1) as int);
            }
            let ghost before = seen;
            seen = seen + self.buckets[i].count;
            if seen >= target {
                proof {
                    lemma_reach_index_skip(counts, target as int, i as int);
                    let rest = counts.skip(i as int);
                    assert(rest[0] == counts[i as int]);
                    assert(rest[0] >= target - before);
                    assert(reach_index(rest, target - before) == 0);
                    assert(reach_index(counts, target as int) == i);
                }
                return Some(self.buckets[i].upper_bound);
            }
            i = i + 1;
        }
        proof {
            lemma_reach_index_skip(counts, target as int, i as int);
            assert(counts.skip(i as int).len() == 0);
        }
        self.max
    }

    /// Count, extremes, mean and percentiles of the observations.
    pub fn summary(&self) -> (s: HistogramSummary)
        requires
            self.wf(),
            self@.count * 100 <= u64::MAX,
        ensures
            s == summary_of(self@),
    {
        proof {
            self.lemma_view_facts();
        }
        let mean = if self.count != 0 {
            Some(duration_div(self.sum, self.count))
        } else {
            None
        };
        HistogramSummary {
            count: self.count,
            min: self.min,
            max: self.max,
            mean,
            p50: self.percentile(50),
            p95: self.percentile(95),
            p99: self.percentile(99),
            overflow: self.overflow,
        }
    }
}

/// `duration / divisor` in whole nanoseconds, capped at `u64::MAX` nanoseconds;
/// zero for a zero divisor.
fn duration_div(duration: Duration, divisor: u64) -> (d: Duration)
    ensures
        d == mean_duration(duration, divisor as int),
{
    if divisor == 0 {
        let z = Duration::zero();
        proof {
            lemma_duration_view_eq(z, duration_of(0));
        }
        return z;
    }
    let nanos = duration.as_nanos() / (divisor as u128);
    let bounded: u64 = if nanos <= 18_446_744_073_709_551_615u128 {
        nanos as u64
    } else {
        u64::MAX
    };
    let d = Duration::from_nanos(bounded);
    proof {
        let q = duration@ / (divisor as int);
        lemma_duration_view_eq(d, duration_of(if q <= u64::MAX { q } else { u64::MAX as int }));
    }
    d
}


/// A stalled frame: one that took longer than the stall threshold.
#[derive(Debug, Clone, Copy, PartialEq, Eq)]
pub struct FrameStall {
    /// The frame's position, counting from 1.
    pub frame_index: u64,
    pub duration: Duration,
    pub threshold: Duration,
}

/// Statistics of frame durations and stalls.
#[derive(Debug, Clone, Copy, PartialEq, Eq)]
pub struct FrameTimingSummary {
    pub histogram: HistogramSummary,
    pub stall_threshold: Duration,
    pub stall_count: u64,
    pub worst_stall: Option<Duration>,
}

/// Frame durations with the stalls among them.
#[derive(Debug, Clone, PartialEq, Eq)]
pub struct FrameTiming {
    histogram: Histogram,
    stall_threshold: Duration,
    stalls: Vec<FrameStall>,
}

/// The abstract state of frame timing.
pub ghost struct FrameTimingView {
    pub histogram: HistogramView,
    pub stall_threshold: Duration,
    pub stalls: Seq<FrameStall>,
}

/// The longest of the stalls' durations (the last of equally long ones).
pub open spec fn worst_stall_of(stalls: Seq<FrameStall>) -> Option<Duration>
    decreases stalls.len(),
{
    if stalls.len() == 0 {
        None
    } else {
        match worst_stall_of(stalls.drop_last()) {
            Some(w) => Some(max_duration(w, stalls.last().duration)),
            None => Some(stalls.last().duration),
        }
    }
}

/// The frame timing after a frame of `duration`, and the stall it reports.
pub open spec fn observe_frame_view(f: FrameTimingView, duration: Duration) -> (
    FrameTimingView,
    Option<FrameStall>,
) {
    let h = observe_view(f.histogram, duration);
    if duration@ <= f.stall_threshold@ {
        (FrameTimingView { histogram: h, ..f }, None)
    } else {
        let stall = FrameStall {
            frame_index: h.count as u64,
            duration,
            threshold: f.stall_threshold,
        };
        (FrameTimingView { histogram: h, stalls: f.stalls.push(stall), ..f }, Some(stall))
    }
}

/// The summary that frame timing reports.
pub open spec fn frame_summary_of(f: FrameTimingView) -> FrameTimingSummary {
    FrameTimingSummary {
        histogram: summary_of(f.histogram),
        stall_threshold: f.stall_threshold,
        stall_count: f.stalls.len() as u64,
        worst_stall: worst_stall_of(f.stalls),
    }
}

/// The invariant of frame timing.
pub open spec fn frame_view_wf(f: FrameTimingView) -> bool {
    &&& histogram_view_wf(f.histogram)
    &&& f.stalls.len() <= f.histogram.count
}

impl View for FrameTiming {
    type V = FrameTimingView;

    closed spec fn view(&self) -> FrameTimingView {
        FrameTimingView {
            histogram: self.histogram@,
            stall_threshold: self.stall_threshold,
            stalls: self.stalls@,
        }
    }
}

impl Default for FrameTiming {
    /// Latency buckets and a 50ms stall threshold.
    fn default() -> (f: FrameTiming)
        ensures
            f.wf(),
            f@.histogram == empty_histogram(f@.histogram.bounds),
            is_latency_bounds(f@.histogram.bounds),
            f@.stall_threshold@ == 50_000_000,
            f@.stalls.len() == 0,
    {
        FrameTiming::with_stall_threshold(Duration::from_millis(50))
    }
}

impl FrameTiming {
    pub open spec fn wf(&self) -> bool {
        frame_view_wf(self@)
    }

    /// Latency buckets and the given stall threshold.
    pub fn with_stall_threshold(stall_threshold: Duration) -> (f: FrameTiming)
        ensures
            f.wf(),
            f@.histogram == empty_histogram(f@.histogram.bounds),
            is_latency_bounds(f@.histogram.bounds),
            f@.stall_threshold == stall_threshold,
            f@.stalls.len() == 0,
    {
        FrameTiming { histogram: Histogram::latency(), stall_threshold, stalls: Vec::new() }
    }

    /// Records a frame; returns the stall when it took longer than the
    /// threshold.
    pub fn observe(&mut self, duration: Duration) -> (stall: Option<FrameStall>)
        requires
            old(self).wf(),
            old(self)@.histogram.count < u64::MAX,
        ensures
            final(self).wf(),
            (final(self)@, stall) == observe_frame_view(old(self)@, duration),
    {
        self.histogram.observe(duration);
        if duration.le(&self.stall_threshold) {
            return None;
        }
        let stall = FrameStall {
            frame_index: self.histogram.count(),
            duration,
            threshold: self.stall_threshold,
        };
        self.stalls.push(stall);
        Some(stall)
    }

    /// Histogram statistics, threshold, number of stalls and the worst one.
    pub fn summary(&self) -> (s: FrameTimingSummary)
        requires
            self.wf(),
            self@.histogram.count * 100 <= u64::MAX,
        ensures
            s == frame_summary_of(self@),
    {
        let mut worst: Option<Duration> = None;
        let n = self.stalls.len();
        let mut i: usize = 0;
        while i < n
            invariant
                n == self.stalls@.len(),
                i <= n,
                worst == worst_stall_of(self.stalls@.take(i as int)),
            decreases n - i,
        {
            let d = self.stalls[i].duration;
            proof {
                assert(self.stalls@.take(i + 1).drop_last() =~= self.stalls@.take(i as int));
            }
            worst = match worst {
                Some(w) => if d.le(&w) && !w.le(&d) {
                    Some(w)
                } else {
                    Some(d)
                },
                None => Some(d),
            };
            proof {
                if let Some(w) = worst_stall_of(self.stalls@.take(i as int)) {
                    if w@ == d@ {
                        lemma_duration_view_eq(w, d);
                    }
                }
            }
            i = i + 1;
        }
        proof {
            assert(self.stalls@.take(n as int) =~= self.stalls@);
        }
        FrameTimingSummary {
            histogram: self.histogram.summary(),
            stall_threshold: self.stall_threshold,
            stall_count: n as u64,
            worst_stall: worst,
        }
    }
}

/// The value of the named counter among `(name, value)` entries: the first
/// entry with that name, or 0.
pub open spec fn counter_lookup(entries: Seq<(&'static str, u64)>, name: Seq<char>) -> u64
    decreases entries.len(),
{
    if entries.len() == 0 {
        0
    } else if entries[0].0@ == name {
        entries[0].1
    } else {
        counter_lookup(entries.drop_first(), name)
    }
}

/// Latency histograms per metric, frame timing and named counters.
#[derive(Debug, Clone, PartialEq, Eq)]
pub struct Telemetry {
    latencies: Vec<Histogram>,
    frames: FrameTiming,
    counters: Vec<(&'static str, u64)>,
}

impl Telemetry {
    /// The histogram of a metric.
    pub closed spec fn latency_view(&self, metric: LatencyMetric) -> HistogramView {
        self.latencies@[latency_metric_index(metric)]@
    }

    /// The frame timing.
    pub closed spec fn frames_view(&self) -> FrameTimingView {
        self.frames@
    }

    /// The value of a named counter.
    pub closed spec fn counter_value(&self, name: Seq<char>) -> u64 {
        counter_lookup(self.counters@, name)
    }

    /// The invariant: one well-formed histogram per metric.
    pub closed spec fn wf(&self) -> bool {
        &&& self.latencies@.len() == LATENCY_METRIC_COUNT
        &&& forall|i: int| 0 <= i < LATENCY_METRIC_COUNT ==> #[trigger] self.latencies@[i].wf()
        &&& self.frames.wf()
    }

    pub proof fn lemma_wf(&self, metric: LatencyMetric)
        requires
            self.wf(),
        ensures
            histogram_view_wf(self.latency_view(metric)),
            frame_view_wf(self.frames_view()),
    {
        let k = latency_metric_index(metric);
        assert(0 <= k < 10);
        assert(self.latencies@[k].wf());
    }

    /// Counts one more occurrence of the named counter.
    pub fn increment(&mut self, name: &'static str)
        requires
            old(self).wf(),
            old(self).counter_value(name@) < u64::MAX,
        ensures
            final(self).wf(),
            forall|m: LatencyMetric| #[trigger] final(self).latency_view(m) == old(self).latency_view(m),
            final(self).frames_view() == old(self).frames_view(),
            forall|n: Seq<char>|
                #[trigger] final(self).counter_value(n) == if n == name@ {
                    (old(self).counter_value(n) + 1) as u64
                } else {
                    old(self).counter_value(n)
                },
    {
        let ghost old_entries = self.counters@;
        let n = self.counters.len();
        let mut i: usize = 0;
        while i < n
            invariant
                n == self.counters@.len(),
                self.counters@ == old_entries,
                *self == *old(self),
                old(self).wf(),
                old(self).counter_value(name@) < u64::MAX,
                i <= n,
                forall|j: int| 0 <= j < i ==> #[trigger] old_entries[j].0@ != name@,
            decreases n - i,
        {
            if str_equal(self.counters[i].0, name) {
                proof {
                    lemma_counter_lookup_skip(old_entries, name@, i as int);
                    assert(old_entries.skip(i as int)[0] == old_entries[i as int]);
                    assert(old_entries[i as int].1 == counter_lookup(old_entries, name@));
                }
                let entry = self.counters[i];
                assert(entry == old_entries[i as int]);
                assert(entry.1 == old(self).counter_value(name@));
                self.counters.set(i, (entry.0, entry.1 + 1));
                assert(self.latencies == old(self).latencies);
                assert(self.frames == old(self).frames);
                proof {
                    assert forall|m: Seq<char>|
                        #[trigger] counter_lookup(self.counters@, m) == if m == name@ {
                            (counter_lookup(old_entries, m) + 1) as u64
                        } else {
                            counter_lookup(old_entries, m)
                        } by {
                        lemma_counter_lookup_update(old_entries, m, name@, i as int);
                    }
                }
                return;
            }
            i = i + 1;
        }
        self.counters.push((name, 1));
        proof {
            assert forall|m: Seq<char>|
                #[trigger] counter_lookup(self.counters@, m) == if m == name@ {
                    (counter_lookup(old_entries, m) + 1) as u64
                } else {
                    counter_lookup(old_entries, m)
                } by {
                lemma_counter_lookup_push(old_entries, m, name, 1);
                if (forall|j: int| 0 <= j < old_entries.len() ==> #[trigger] old_entries[j].0@ != m) {
                    lemma_counter_lookup_absent(old_entries, m);
                }
            }
        }
    }

    /// The value of the named counter (0 when it was never incremented).
    pub fn counter(&self, name: &'static str) -> (v: u64)
        ensures
            v == self.counter_value(name@),
    {
        let n = self.counters.len();
        let mut i: usize = 0;
        while i < n
            invariant
                n == self.counters@.len(),
                i <= n,
                forall|j: int| 0 <= j < i ==> #[trigger] self.counters@[j].0@ != name@,
            decreases n - i,
        {
            if str_equal(self.counters[i].0, name) {
                proof {
                    lemma_counter_lookup_skip(self.counters@, name@, i as int);
                }
                return self.counters[i].1;
            }
            i = i + 1;
        }
        proof {
            lemma_counter_lookup_absent(self.counters@, name@);
        }
        0
    }

    /// Records a latency observation for `metric`.
    pub fn observe_latency(&mut self, metric: LatencyMetric, duration: Duration)
        requires
            old(self).wf(),
            old(self).latency_view(metric).count < u64::MAX,
        ensures
            final(self).wf(),
            forall|m: LatencyMetric|
                #[trigger] final(self).latency_view(m) == if m == metric {
                    observe_view(old(self).latency_view(m), duration)
                } else {
                    old(self).latency_view(m)
                },
            final(self).frames_view() == old(self).frames_view(),
            forall|n: Seq<char>| #[trigger] final(self).counter_value(n) == old(self).counter_value(n),
    {
        let i = metric.index();
        self.latencies[i].observe(duration);
        proof {
            assert forall|m: LatencyMetric|
                #[trigger] self.latency_view(m) == if m == metric {
                    observe_view(old(self).latency_view(m), duration)
                } else {
                    old(self).latency_view(m)
                } by {
                if m != metric {
                    assert(latency_metric_index(m) != latency_metric_index(metric));
                }
            }
        }
    }

    /// Runs `f`, records how long it took for `metric`, and returns its value.
    pub fn time_latency<T>(&mut self, metric: LatencyMetric, f: impl FnOnce() -> T) -> (value: T)
        requires
            old(self).wf(),
            old(self).latency_view(metric).count < u64::MAX,
            f.requires(()),
        ensures
            f.ensures((), value),
            final(self).wf(),
            exists|d: Duration|
                #[trigger] observe_view(old(self).latency_view(metric), d) == final(self).latency_view(metric),
            forall|m: LatencyMetric|
                m != metric ==> #[trigger] final(self).latency_view(m) == old(self).latency_view(m),
            final(self).frames_view() == old(self).frames_view(),
            forall|n: Seq<char>| #[trigger] final(self).counter_value(n) == old(self).counter_value(n),
    {
        let timer = Timer::start();
        let value = f();
        let elapsed = timer.elapsed();
        self.observe_latency(metric, elapsed);
        proof {
            assert(observe_view(old(self).latency_view(metric), elapsed) == self.latency_view(metric));
        }
        value
    }

    /// The number of observations of `metric`.
    pub fn latency_count(&self, metric: LatencyMetric) -> (c: u64)
        requires
            self.wf(),
        ensures
            c == self.latency_view(metric).count,
    {
        let i = metric.index();
        assert(self.latencies@[i as int].wf());
        self.latencies[i].count()
    }

    /// The number of frames observed.
    pub fn frame_count(&self) -> (c: u64)
        requires
            self.wf(),
        ensures
            c == self.frames_view().histogram.count,
    {
        self.frames.histogram.count()
    }

    /// The summary of `metric`'s histogram.
    pub fn latency(&self, metric: LatencyMetric) -> (s: HistogramSummary)
        requires
            self.wf(),
            self.latency_view(metric).count * 100 <= u64::MAX,
        ensures
            s == summary_of(self.latency_view(metric)),
    {
        let i = metric.index();
        self.latencies[i].summary()
    }

    /// Records a frame duration; returns the stall when it was one.
    pub fn observe_frame(&mut self, duration: Duration) -> (stall: Option<FrameStall>)
        requires
            old(self).wf(),
            old(self).frames_view().histogram.count < u64::MAX,
        ensures
            final(self).wf(),
            (final(self).frames_view(), stall) == observe_frame_view(old(self).frames_view(), duration),
            forall|m: LatencyMetric| #[trigger] final(self).latency_view(m) == old(self).latency_view(m),
            forall|n: Seq<char>| #[trigger] final(self).counter_value(n) == old(self).counter_value(n),
    {
        self.frames.observe(duration)
    }

    /// The frame timing summary.
    pub fn frame_timing(&self) -> (s: FrameTimingSummary)
        requires
            self.wf(),
            self.frames_view().histogram.count * 100 <= u64::MAX,
        ensures
            s == frame_summary_of(self.frames_view()),
    {
        self.frames.summary()
    }
}

impl Default for Telemetry {
    /// An empty latency histogram for every metric, default frame timing and
    /// no counters.
    fn default() -> (t: Telemetry)
        ensures
            t.wf(),
            forall|m: LatencyMetric|
                #[trigger] t.latency_view(m) == empty_histogram(t.latency_view(m).bounds)
                    && is_latency_bounds(t.latency_view(m).bounds),
            t.frames_view().histogram == empty_histogram(t.frames_view().histogram.bounds),
            t.frames_view().stall_threshold@ == 50_000_000,
            t.frames_view().stalls.len() == 0,
            forall|n: Seq<char>| #[trigger] t.counter_value(n) == 0,
    {
        let mut latencies: Vec<Histogram> = Vec::new();
        let mut i: usize = 0;
        while i < LATENCY_METRIC_COUNT
            invariant
                i <= LATENCY_METRIC_COUNT,
                latencies@.len() == i,
                forall|j: int|
                    0 <= j < i ==> #[trigger] latencies@[j].wf() && latencies@[j]@ == empty_histogram(
                        latencies@[j]@.bounds,
                    ) && is_latency_bounds(latencies@[j]@.bounds),
            decreases LATENCY_METRIC_COUNT - i,
        {
            latencies.push(Histogram::latency());
            i = i + 1;
        }
        let t = Telemetry { latencies, frames: FrameTiming::default(), counters: Vec::new() };
        proof {
            assert forall|m: LatencyMetric|
                #[trigger] t.latency_view(m) == empty_histogram(t.latency_view(m).bounds)
                    && is_latency_bounds(t.latency_view(m).bounds) by {
                let k = latency_metric_index(m);
                assert(0 <= k < 10);
                let h = t.latencies@[k];
                assert(h.wf());
            }
        }
        t
    }
}

proof fn lemma_counter_lookup_skip(entries: Seq<(&'static str, u64)>, name: Seq<char>, i: int)
    requires
        0 <= i <= entries.len(),
        forall|j: int| 0 <= j < i ==> #[trigger] entries[j].0@ != name,
    ensures
        counter_lookup(entries, name) == counter_lookup(entries.skip(i), name),
    decreases i,
{
    if i > 0 {
        lemma_counter_lookup_skip(entries.drop_first(), name, i - 1);
        assert(entries.drop_first().skip(i - 1) =~= entries.skip(i));
    } else {
        assert(entries.skip(0) =~= entries);
    }
}

proof fn lemma_counter_lookup_absent(entries: Seq<(&'static str, u64)>, name: Seq<char>)
    requires
        forall|j: int| 0 <= j < entries.len() ==> #[trigger] entries[j].0@ != name,
    ensures
        counter_lookup(entries, name) == 0,
    decreases entries.len(),
{
    if entries.len() > 0 {
        assert forall|j: int| 0 <= j < entries.drop_first().len() implies #[trigger] entries.drop_first()[j].0@
            != name by {
            assert(entries.drop_first()[j] == entries[j + 1]);
        }
        lemma_counter_lookup_absent(entries.drop_first(), name);
    }
}

proof fn lemma_counter_lookup_push(
    entries: Seq<(&'static str, u64)>,
    m: Seq<char>,
    name: &'static str,
    v: u64,
)
    ensures
        counter_lookup(entries.push((name, v)), m) == if (forall|j: int|
            0 <= j < entries.len() ==> #[trigger] entries[j].0@ != m) {
            if name@ == m {
                v
            } else {
                0
            }
        } else {
            counter_lookup(entries, m)
        },
    decreases entries.len(),
{
    let pushed = entries.push((name, v));
    if entries.len() == 0 {
        assert(pushed.drop_first().len() == 0);
        assert(pushed[0] == (name, v));
        assert(counter_lookup(pushed.drop_first(), m) == 0);
    } else {
        let rest = entries.drop_first();
        assert(entries.push((name, v)).drop_first() =~= rest.push((name, v)));
        assert(entries.push((name, v))[0] == entries[0]);
        lemma_counter_lookup_push(rest, m, name, v);
        if (forall|j: int| 0 <= j < entries.len() ==> #[trigger] entries[j].0@ != m) {
            assert forall|j: int| 0 <= j < rest.len() implies #[trigger] rest[j].0@ != m by {
                assert(rest[j] == entries[j + 1]);
            }
            assert(entries[0].0@ != m);
            assert(counter_lookup(pushed, m) == counter_lookup(rest.push((name, v)), m));
        } else if entries[0].0@ != m {
            let j0 = choose|j: int| 0 <= j < entries.len() && entries[j].0@ == m;
            assert(rest[j0 - 1] == entries[j0]);
            assert(!(forall|j: int| 0 <= j < rest.len() ==> #[trigger] rest[j].0@ != m));
            assert(counter_lookup(pushed, m) == counter_lookup(rest.push((name, v)), m));
        } else {
            assert(counter_lookup(pushed, m) == entries[0].1);
        }
    }
}

proof fn lemma_counter_lookup_update(
    entries: Seq<(&'static str, u64)>,
    m: Seq<char>,
    name: Seq<char>,
    i: int,
)
    requires
        0 <= i < entries.len(),
        entries[i].0@ == name,
        entries[i].1 < u64::MAX,
        forall|j: int| 0 <= j < i ==> #[trigger] entries[j].0@ != name,
    ensures
        counter_lookup(entries.update(i, (entries[i].0, (entries[i].1 + 1) as u64)), m) == if m
            == name {
            (counter_lookup(entries, m) + 1) as u64
        } else {
            counter_lookup(entries, m)
        },
    decreases i,
{
    let e2 = entries.update(i, (entries[i].0, (entries[i].1 + 1) as u64));
    if i == 0 {
        assert(e2.drop_first() =~= entries.drop_first());
    } else {
        assert(e2.drop_first() =~= entries.drop_first().update(
            i - 1,
            (entries[i].0, (entries[i].1 + 1) as u64),
        ));
        lemma_counter_lookup_update(entries.drop_first(), m, name, i - 1);
    }
}

/// Measures elapsed wall-clock time from its start.
#[derive(Debug, Clone, Copy)]
pub struct Timer {
    started_at: std::time::Instant,
}

#[verifier::external_type_specification]
#[verifier::external_body]
pub struct ExInstant(std::time::Instant);

/// `std::time::Instant::now`: the current instant of the monotonic clock. No
/// property of the reading is stated.
#[verifier::external_body]
fn instant_now() -> std::time::Instant {
    std::time::Instant::now()
}

/// `std::time::Instant::elapsed`: the time since `instant`, converted to a
/// `Duration` of the same number of nanoseconds. Only that it is a valid
/// duration is stated; its value depends on the clock.
#[verifier::external_body]
fn instant_elapsed(instant: &std::time::Instant) -> (d: Duration)
    ensures
        d@ <= max_duration_nanos(),
{
    Duration::from_total_nanos(instant.elapsed().as_nanos())
}

impl Timer {
    pub fn start() -> Timer {
        Timer { started_at: instant_now() }
    }

    /// The time since the timer started.
    pub fn elapsed(self) -> (d: Duration)
        ensures
            d@ <= max_duration_nanos(),
    {
        instant_elapsed(&self.started_at)
    }
}

/// Telemetry under its older name.
pub type Metrics = Telemetry;

/// Counts `name`, runs `f`, and records its duration as result-streaming
/// latency.
pub fn time<T>(metrics: &mut Metrics, name: &'static str, f: impl FnOnce() -> T) -> (value: T)
    requires
        old(metrics).wf(),
        old(metrics).counter_value(name@) < u64::MAX,
        old(metrics).latency_view(LatencyMetric::ResultStreaming).count < u64::MAX,
        f.requires(()),
    ensures
        f.ensures((), value),
        final(metrics).wf(),
        final(metrics).counter_value(name@) == old(metrics).counter_value(name@) + 1,
        exists|d: Duration|
            #[trigger] observe_view(old(metrics).latency_view(LatencyMetric::ResultStreaming), d)
                == final(metrics).latency_view(LatencyMetric::ResultStreaming),
{
    metrics.increment(name);
    let timer = Timer::start();
    let value = f();
    let elapsed = timer.elapsed();
    metrics.observe_latency(LatencyMetric::ResultStreaming, elapsed);
    proof {
        assert(observe_view(old(metrics).latency_view(LatencyMetric::ResultStreaming), elapsed)
            == metrics.latency_view(LatencyMetric::ResultStreaming));
    }
    value
}

} // verus!
