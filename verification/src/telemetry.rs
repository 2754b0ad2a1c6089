use vstd::prelude::*;
use vstd::std_specs::cmp::PartialEqSpecImpl;

verus! {

/// Telemetry metric types for system monitoring.
#[derive(Debug, Clone)]
pub enum MetricKind {
    ResponseTime,
    ErrorRate,
    CpuUsage,
    MemoryUsage,
    RequestCount,
    Custom(String),
}

/// Direction of the level of a metric over the observed window.
#[derive(Debug, Clone, Copy, PartialEq, Eq, Structural)]
pub enum TrendDirection {
    Up,
    Down,
    Flat,
}

/// Two metric kinds are the same when they are the same variant and, for
/// custom metrics, carry the same name.
pub open spec fn same_metric(a: MetricKind, b: MetricKind) -> bool {
    match (a, b) {
        (MetricKind::ResponseTime, MetricKind::ResponseTime) => true,
        (MetricKind::ErrorRate, MetricKind::ErrorRate) => true,
        (MetricKind::CpuUsage, MetricKind::CpuUsage) => true,
        (MetricKind::MemoryUsage, MetricKind::MemoryUsage) => true,
        (MetricKind::RequestCount, MetricKind::RequestCount) => true,
        (MetricKind::Custom(x), MetricKind::Custom(y)) => x@ == y@,
        _ => false,
    }
}

impl PartialEq for MetricKind {
    fn eq(&self, other: &MetricKind) -> (res: bool) {
        match (self, other) {
            (MetricKind::ResponseTime, MetricKind::ResponseTime) => true,
            (MetricKind::ErrorRate, MetricKind::ErrorRate) => true,
            (MetricKind::CpuUsage, MetricKind::CpuUsage) => true,
            (MetricKind::MemoryUsage, MetricKind::MemoryUsage) => true,
            (MetricKind::RequestCount, MetricKind::RequestCount) => true,
            (MetricKind::Custom(x), MetricKind::Custom(y)) => x.eq(y),
            _ => false,
        }
    }
}

impl PartialEqSpecImpl for MetricKind {
    open spec fn obeys_eq_spec() -> bool {
        true
    }

    open spec fn eq_spec(&self, other: &MetricKind) -> bool {
        same_metric(*self, *other)
    }
}

/// Which variant a metric kind is, numbered in declaration order.
pub open spec fn variant_of(m: MetricKind) -> int {
    match m {
        MetricKind::ResponseTime => 0,
        MetricKind::ErrorRate => 1,
        MetricKind::CpuUsage => 2,
        MetricKind::MemoryUsage => 3,
        MetricKind::RequestCount => 4,
        MetricKind::Custom(_) => 5,
    }
}

/// Metric kinds compare equal only within one variant: kinds of different
/// variants are never the same metric, unit variants are the same metric
/// exactly when they are the same value, and custom metrics are the same
/// exactly when their names are.
pub proof fn lemma_same_metric_same_variant(a: MetricKind, b: MetricKind)
    ensures
        same_metric(a, b) ==> variant_of(a) == variant_of(b),
        variant_of(a) != variant_of(b) ==> !same_metric(a, b),
        !(a is Custom) ==> (same_metric(a, b) <==> a == b),
        (a is Custom && b is Custom) ==> (same_metric(a, b) <==> a->Custom_0@ == b->Custom_0@),
{
}

/// The positions, in increasing order, of the observations in `metrics`
/// that are of kind `kind`.
pub open spec fn matching_positions(metrics: Seq<MetricKind>, kind: MetricKind) -> Seq<usize>
    decreases metrics.len(),
{
    if metrics.len() == 0 {
        Seq::empty()
    } else {
        let rest = matching_positions(metrics.drop_last(), kind);
        if same_metric(metrics.last(), kind) {
            rest.push((metrics.len() - 1) as usize)
        } else {
            rest
        }
    }
}

/// The positions of the events of one metric kind, in their order: the
/// selection by which a stream of telemetry events becomes one series.
pub fn matching_indices(metrics: &Vec<MetricKind>, kind: &MetricKind) -> (res: Vec<usize>)
    ensures
        res@ == matching_positions(metrics@, *kind),
        forall|k: int|
            0 <= k < res.len() ==> (#[trigger] res[k]) < metrics.len() && variant_of(
                metrics[res[k] as int],
            ) == variant_of(*kind),
        forall|i: int|
            0 <= i < metrics.len() && variant_of(#[trigger] metrics[i]) != variant_of(*kind)
                ==> !res@.contains(i as usize),
{
    let len = metrics.len();
    proof {
        assert(metrics@.len() == len);
        lemma_matching_positions_exact(metrics@, *kind);
        assert forall|k: int| 0 <= k < matching_positions(metrics@, *kind).len() implies variant_of(
            metrics@[matching_positions(metrics@, *kind)[k] as int],
        ) == variant_of(*kind) by {
            lemma_same_metric_same_variant(
                metrics@[matching_positions(metrics@, *kind)[k] as int],
                *kind,
            );
        }
    }
    let n = metrics.len();
    let mut res: Vec<usize> = Vec::new();
    let mut i: usize = 0;
    while i < n
        invariant
            n == metrics.len(),
            i <= n,
            res@ == matching_positions(metrics@.take(i as int), *kind),
        decreases n - i,
    {
        assert(metrics@.take(i + 1).drop_last() =~= metrics@.take(i as int));
        if metrics[i] == *kind {
            res.push(i);
        }
        i = i + 1;
    }
    assert(metrics@.take(n as int) =~= metrics@);
    res
}

/// Equality of metric kinds is an equivalence: reflexive, symmetric and
/// transitive.
pub proof fn lemma_same_metric_equivalence(a: MetricKind, b: MetricKind, c: MetricKind)
    ensures
        same_metric(a, a),
        same_metric(a, b) ==> same_metric(b, a),
        same_metric(a, b) && same_metric(b, c) ==> same_metric(a, c),
{
}

/// The selected positions are exactly those of the events of the requested
/// kind: each one is in range and matches, every matching position is
/// selected, and they come in strictly increasing order.
pub proof fn lemma_matching_positions_exact(metrics: Seq<MetricKind>, kind: MetricKind)
    requires
        metrics.len() <= usize::MAX,
    ensures
        forall|k: int|
            0 <= k < matching_positions(metrics, kind).len() ==> {
                &&& (#[trigger] matching_positions(metrics, kind)[k]) < metrics.len()
                &&& same_metric(metrics[matching_positions(metrics, kind)[k] as int], kind)
            },
        forall|i: int|
            0 <= i < metrics.len() && same_metric(#[trigger] metrics[i], kind) ==> matching_positions(
                metrics,
                kind,
            ).contains(i as usize),
        forall|j: int, k: int|
            0 <= j < k < matching_positions(metrics, kind).len() ==> (#[trigger] matching_positions(
                metrics,
                kind,
            )[j]) < (#[trigger] matching_positions(metrics, kind)[k]),
    decreases metrics.len(),
{
    if metrics.len() > 0 {
        let d = metrics.drop_last();
        lemma_matching_positions_exact(d, kind);
        let r = matching_positions(d, kind);
        let s = matching_positions(metrics, kind);
        assert forall|k: int| 0 <= k < s.len() implies {
            &&& (#[trigger] s[k]) < metrics.len()
            &&& same_metric(metrics[s[k] as int], kind)
        } by {
            if k < r.len() {
                assert(s[k] == r[k]);
                assert(metrics[s[k] as int] == d[s[k] as int]);
            }
        }
        assert forall|i: int|
            0 <= i < metrics.len() && same_metric(#[trigger] metrics[i], kind) implies s.contains(
            i as usize) by {
            if i < metrics.len() - 1 {
                assert(d[i] == metrics[i]);
                let w = choose|w: int| 0 <= w < r.len() && r[w] == i as usize;
                assert(s[w] == r[w]);
            } else {
                assert(s[s.len() - 1] == i as usize);
            }
        }
        assert forall|j: int, k: int| 0 <= j < k < s.len() implies (#[trigger] s[j]) < (
        #[trigger] s[k]) by {
            assert(s[j] == r[j]);
            if k < r.len() {
                assert(s[k] == r[k]);
            }
        }
    }
}

} // verus!
