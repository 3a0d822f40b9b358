//! The collector's rhythm: what goes to the dashboards at every tick, what is
//! stored and when, and what is old enough to be deleted.

use vstd::prelude::*;
use vstd::string::StringExecFns;

use crate::collectors::{
    extend_metrics, lemma_metrics_push, metrics_view, Metric, MetricView,
};
use crate::dns_metrics::{
    drain, empty_window, latest, metrics_of, series_are_marked, series_names_are_fixed, AggView,
    DnsState,
};
use crate::routes::{moment_before, reaches_back};
use crate::text::{chars_of, starts_with};

verus! {

/// Seconds between two looks at the alert rules.
pub const ALERT_SECS: u64 = 60;

/// Seconds between two clean-ups.
pub const CLEANUP_SECS: u64 = 3600;

/// Seconds between two ticks of the collector: at least one, at most five, and
/// no more than between two stored samples where that lies in between.
pub open spec fn live_secs_of(interval: u64) -> u64 {
    if interval < 1 {
        1
    } else if interval < 5 {
        interval
    } else {
        5
    }
}

/// Seconds between two ticks of the collector.
pub fn live_secs(interval: u64) -> (secs: u64)
    ensures
        secs == live_secs_of(interval),
{
    let capped: u64 = if interval < 5 {
        interval
    } else {
        5
    };
    if capped < 1 {
        1
    } else {
        capped
    }
}

/// When the collector last stored samples, and how often it is to.
pub struct Collector {
    pub interval: u64,
    pub last_persist: i64,
}

/// Whether samples are to be stored at `now`.
pub open spec fn due(interval: u64, last_persist: i64, now: i64) -> bool {
    now - last_persist >= interval
}

/// The metrics that do not come from the DNS window.
pub open spec fn without_dns(metrics: Seq<MetricView>) -> Seq<MetricView> {
    metrics.filter(|m: MetricView| !"dns."@.is_prefix_of(m.name))
}

/// What a tick of the collector leads to.
pub struct Tick {
    /// What the dashboards are shown.
    pub live: Vec<Metric>,
    /// What is stored, if anything.
    pub persist: Option<Vec<Metric>>,
}

fn drop_dns(metrics: &[Metric]) -> (out: Vec<Metric>)
    ensures
        metrics_view(out@) == without_dns(metrics_view(metrics@)),
{
    let ghost all = metrics_view(metrics@);
    let ghost keep = |m: MetricView| !"dns."@.is_prefix_of(m.name);
    let mut out: Vec<Metric> = Vec::new();
    let mut i: usize = 0;
    reveal(Seq::filter);
    assert(metrics_view(out@) =~= all.take(0).filter(keep));
    while i < metrics.len()
        invariant
            i <= metrics.len(),
            all == metrics_view(metrics@),
            keep == (|m: MetricView| !"dns."@.is_prefix_of(m.name)),
            metrics_view(out@) == all.take(i as int).filter(keep),
        decreases metrics.len() - i,
    {
        reveal(Seq::filter);
        assert(all.take(i + 1).drop_last() =~= all.take(i as int));
        assert(all.take(i + 1).last() == metrics@[i as int]@);
        let name = chars_of(metrics[i].name.as_str());
        if !starts_with(name.as_slice(), "dns.") {
            let copy = metrics[i].copied();
            proof {
                lemma_metrics_push(out@, copy);
            }
            out.push(copy);
        }
        i += 1;
    }
    assert(all.take(metrics@.len() as int) =~= all);
    out
}

impl Collector {
    /// A collector that has not stored anything yet.
    pub fn new(interval: u64) -> (collector: Collector)
        ensures
            collector.interval == interval,
            collector.last_persist == 0,
    {
        Collector { interval, last_persist: 0 }
    }

    /// Takes in the metrics of the host at `now`. The dashboards are shown them
    /// with the last DNS window. Where samples are due, the running DNS window is
    /// closed and stored with them.
    pub fn tick(&mut self, dns: &mut DnsState, host: Vec<Metric>, now: i64) -> (tick: Tick)
        requires
            old(dns).well_formed(),
        ensures
            final(dns).well_formed(),
            final(self).interval == old(self).interval,
            metrics_view(tick.live@) == metrics_view(host@) + metrics_view(old(dns).last@),
            if due(old(self).interval, old(self).last_persist, now) {
                &&& final(self).last_persist == now
                &&& final(dns).agg@ == empty_window()
                &&& tick.persist matches Some(stored)
                &&& metrics_view(stored@) == without_dns(
                    metrics_view(host@) + metrics_view(old(dns).last@),
                ) + metrics_of(old(dns).agg@, old(self).interval)
                &&& metrics_view(final(dns).last@) == metrics_of(
                    old(dns).agg@,
                    old(self).interval,
                )
            } else {
                &&& final(self).last_persist == old(self).last_persist
                &&& *final(dns) == *old(dns)
                &&& tick.persist is None
            },
    {
        let mut live = host;
        extend_metrics(&mut live, latest(dns));
        if (now as i128) - (self.last_persist as i128) < self.interval as i128 {
            return Tick { live, persist: None };
        }
        self.last_persist = now;
        let window = drain(dns, self.interval);
        let mut stored = drop_dns(live.as_slice());
        extend_metrics(&mut stored, window);
        Tick { live, persist: Some(stored) }
    }
}

/// Which rows are old enough to be deleted: metrics and log lines from before these moments.
pub struct Cutoffs {
    pub metrics: i64,
    pub logs: i64,
}

/// From before when rows are deleted at `now`, where that fits in 64 bits.
pub fn retention_cutoffs(now: i64, retention_days: i64, log_retention_days: i64) -> (cutoffs:
    Option<Cutoffs>)
    ensures
        match cutoffs {
            Some(c) => {
                &&& reaches_back(now as int, retention_days * 86400)
                &&& reaches_back(now as int, log_retention_days * 86400)
                &&& c.metrics == now - retention_days * 86400
                &&& c.logs == now - log_retention_days * 86400
            },
            None => !reaches_back(now as int, retention_days * 86400) || !reaches_back(
                now as int,
                log_retention_days * 86400,
            ),
        },
{
    match (moment_before(now, retention_days, 86400), moment_before(
        now,
        log_retention_days,
        86400,
    )) {
        (Some(metrics), Some(logs)) => Some(Cutoffs { metrics, logs }),
        _ => None,
    }
}

/// The page that is served where no other file fits.
pub fn index_path(static_dir: &str) -> (path: String)
    ensures
        path@ == static_dir@ + "/index.html"@,
{
    let mut path: String = static_dir.to_string();
    path.append("/index.html");
    path
}

/// After samples were stored, none are before the interval has passed, and they
/// are at the first tick from then on.
pub proof fn stored_once_per_interval(interval: u64, stored_at: i64, now: i64)
    ensures
        now < stored_at + interval ==> !due(interval, stored_at, now),
        now >= stored_at + interval ==> due(interval, stored_at, now),
{
}

/// The dashboards get a new picture at least every five seconds, and never more
/// often than once a second.
pub proof fn live_rhythm_is_bounded(interval: u64)
    ensures
        1 <= live_secs_of(interval) <= 5,
        1 <= interval ==> live_secs_of(interval) <= interval,
{
}

/// What is stored holds every metric of the host that is not of the DNS window.
pub proof fn host_metrics_are_stored(
    host: Seq<MetricView>,
    last: Seq<MetricView>,
    i: int,
)
    requires
        0 <= i < host.len(),
        !"dns."@.is_prefix_of(host[i].name),
    ensures
        without_dns(host + last).contains(host[i]),
{
    let keep = |m: MetricView| !"dns."@.is_prefix_of(m.name);
    assert((host + last)[i] == host[i]);
    assert(keep((host + last)[i]));
    (host + last).lemma_filter_contains(keep, i);
}

proof fn lemma_filter_keeps(metrics: Seq<MetricView>, keep: spec_fn(MetricView) -> bool)
    requires
        forall|i: int| 0 <= i < metrics.len() ==> keep(#[trigger] metrics[i]),
    ensures
        metrics.filter(keep) == metrics,
    decreases metrics.len(),
{
    reveal(Seq::filter);
    if metrics.len() > 0 {
        let before = metrics.drop_last();
        assert forall|i: int| 0 <= i < before.len() implies keep(#[trigger] before[i]) by {
            assert(before[i] == metrics[i]);
        }
        lemma_filter_keeps(before, keep);
        assert(keep(metrics[metrics.len() - 1]));
        assert(before.push(metrics.last()) =~= metrics);
    } else {
        assert(metrics.filter(keep) =~= metrics);
    }
}

proof fn lemma_filter_drops(metrics: Seq<MetricView>, keep: spec_fn(MetricView) -> bool)
    requires
        forall|i: int| 0 <= i < metrics.len() ==> !keep(#[trigger] metrics[i]),
    ensures
        metrics.filter(keep) == Seq::<MetricView>::empty(),
    decreases metrics.len(),
{
    reveal(Seq::filter);
    if metrics.len() > 0 {
        let before = metrics.drop_last();
        assert forall|i: int| 0 <= i < before.len() implies !keep(#[trigger] before[i]) by {
            assert(before[i] == metrics[i]);
        }
        lemma_filter_drops(before, keep);
        assert(!keep(metrics[metrics.len() - 1]));
    }
}

/// What is stored of the DNS series is the window that was just closed, once.
pub proof fn stored_dns_is_the_window(live: Seq<MetricView>, window: AggView, interval: u64)
    ensures
        (without_dns(live) + metrics_of(window, interval)).filter(
            |m: MetricView| "dns."@.is_prefix_of(m.name),
        ) == metrics_of(window, interval),
{
    let marked = |m: MetricView| "dns."@.is_prefix_of(m.name);
    let keep = |m: MetricView| !"dns."@.is_prefix_of(m.name);
    let host = live.filter(keep);
    let series = metrics_of(window, interval);
    assert forall|i: int| 0 <= i < host.len() implies !marked(#[trigger] host[i]) by {
        live.lemma_filter_pred(keep, i);
    }
    lemma_filter_drops(host, marked);
    series_names_are_fixed(window, window, interval, interval);
    assert forall|i: int| 0 <= i < series.len() implies marked(#[trigger] series[i]) by {
        series_are_marked(window, interval, i);
    }
    lemma_filter_keeps(series, marked);
    Seq::filter_distributes_over_add(host, series, marked);
    assert(Seq::<MetricView>::empty() + series =~= series);
}

/// Between one and five seconds the live rhythm is the interval itself.
pub proof fn live_rhythm_is_the_interval(interval: u64)
    ensures
        1 <= interval <= 5 ==> live_secs_of(interval) == interval,
        interval > 5 ==> live_secs_of(interval) == 5,
        interval == 0 ==> live_secs_of(interval) == 1,
{
}

/// Metrics are kept one by one, in order, by their names.
pub proof fn names_decide_what_is_kept(metrics: Seq<MetricView>, m: MetricView, rest: Seq<char>)
    ensures
        m.name == "dns."@ + rest ==> without_dns(metrics.push(m)) == without_dns(metrics),
        !"dns."@.is_prefix_of(m.name) ==> without_dns(metrics.push(m)) == without_dns(metrics).push(
            m,
        ),
        without_dns(Seq::empty()) == Seq::<MetricView>::empty(),
{
    reveal(Seq::filter);
    let keep = |x: MetricView| !"dns."@.is_prefix_of(x.name);
    assert(metrics.push(m).drop_last() =~= metrics);
    assert(("dns."@ + rest).take("dns."@.len() as int) =~= "dns."@);
    assert("dns."@.is_prefix_of("dns."@ + rest));
    assert(Seq::<MetricView>::empty().filter(keep) =~= Seq::empty());
}

/// The alert rules are looked at once a minute, and rows are cleaned up once an hour.
pub proof fn other_rhythms_are_fixed(minutes: nat)
    ensures
        minutes * ALERT_SECS == minutes * 60,
        minutes * CLEANUP_SECS == minutes * 60 * 60,
{
    assert(minutes * CLEANUP_SECS == minutes * 60 * 60) by (nonlinear_arith)
        requires
            CLEANUP_SECS == 3600,
    ;
}

} // verus!
