//! DNS metrics derived from the query log of the name server.
//!
//! The server logs one structured line per query (`… UDP query … qtype=1
//! rcode=0 size=… elapsed_us=…`). [`observe`] counts such lines into a window,
//! and [`drain`], called once per persist interval, turns the window into named
//! series.

use std::collections::HashMap;

use vstd::prelude::*;
use vstd::slice::slice_subrange;
use vstd::std_specs::hash::group_hash_axioms;

use crate::collectors::{copy_metrics, metric, metrics_view, Metric, MetricView, Value, ValueView};
use crate::text::{
    chars_of, contains, contains_text, decimal_of, digits_of, digits_stand_for_their_number,
    find_from, found_where_it_stands, is_digit, is_number, is_space, occurs_at, parse_digits,
    string_of, white_space,
};

verus! {

broadcast use group_hash_axioms;

/// The most latency samples that one window keeps.
pub const LAT_CAP: usize = 50_000;

/// How many of the samples are at most `v`.
pub open spec fn count_at_most(s: Seq<u32>, v: int) -> nat
    decreases s.len(),
{
    if s.len() == 0 {
        0
    } else {
        count_at_most(s.drop_last(), v) + if s.last() <= v {
            1nat
        } else {
            0nat
        }
    }
}

/// Whether `v` is the sample of rank `k`, counted from the smallest, which has rank 1.
pub open spec fn has_rank(s: Seq<u32>, k: int, v: u32) -> bool {
    count_at_most(s, v - 1) < k <= count_at_most(s, v as int)
}

/// The sample of rank `k`.
pub open spec fn ranked(s: Seq<u32>, k: int) -> u32 {
    choose|v: u32| has_rank(s, k, v)
}

/// The samples added up.
pub open spec fn sum_of(s: Seq<u32>) -> nat
    decreases s.len(),
{
    if s.len() == 0 {
        0
    } else {
        sum_of(s.drop_last()) + s.last() as nat
    }
}

/// `sum` divided by `n`, to the nearest integer; a half goes up.
pub open spec fn nearest_mean(sum: nat, n: nat) -> nat {
    (2 * sum + n) / (2 * n)
}

/// The nearest rank of the 95th percentile of `n` samples: 95 % of `n`, rounded up.
pub open spec fn p95_rank(n: nat) -> nat {
    (19 * n + 19) / 20
}

proof fn lemma_count_push(s: Seq<u32>, x: u32, v: int)
    ensures
        count_at_most(s.push(x), v) == count_at_most(s, v) + if x <= v {
            1nat
        } else {
            0nat
        },
{
    assert(s.push(x).drop_last() =~= s);
}

proof fn lemma_count_concat(a: Seq<u32>, b: Seq<u32>, v: int)
    ensures
        count_at_most(a + b, v) == count_at_most(a, v) + count_at_most(b, v),
    decreases b.len(),
{
    if b.len() == 0 {
        assert(a + b =~= a);
    } else {
        lemma_count_concat(a, b.drop_last(), v);
        assert((a + b).drop_last() =~= a + b.drop_last());
    }
}

proof fn lemma_count_grows(s: Seq<u32>, v: int, w: int)
    requires
        v <= w,
    ensures
        count_at_most(s, v) <= count_at_most(s, w) <= s.len(),
    decreases s.len(),
{
    if s.len() > 0 {
        lemma_count_grows(s.drop_last(), v, w);
    }
}

/// There is at most one sample of a given rank.
pub proof fn rank_is_unique(s: Seq<u32>, k: int, v: u32, w: u32)
    requires
        has_rank(s, k, v),
        has_rank(s, k, w),
    ensures
        v == w,
{
    if v < w {
        lemma_count_grows(s, v as int, w - 1);
    } else if w < v {
        lemma_count_grows(s, w as int, v - 1);
    }
}

/// Whether no sample is smaller than one before it.
pub open spec fn is_sorted(s: Seq<u32>) -> bool {
    forall|i: int, j: int| 0 <= i <= j < s.len() ==> s[i] <= s[j]
}

/// Whether two runs hold the same samples, whatever their order.
pub open spec fn same_samples(a: Seq<u32>, b: Seq<u32>) -> bool {
    a.len() == b.len() && forall|v: int|
        #[trigger] count_at_most(a, v) == count_at_most(b, v)
}

fn merge(a: &[u32], b: &[u32]) -> (out: Vec<u32>)
    requires
        is_sorted(a@),
        is_sorted(b@),
        a@.len() + b@.len() <= usize::MAX,
    ensures
        is_sorted(out@),
        same_samples(out@, a@ + b@),
{
    let mut out: Vec<u32> = Vec::new();
    let mut i: usize = 0;
    let mut j: usize = 0;
    while i < a.len() || j < b.len()
        invariant
            i <= a.len(),
            j <= b.len(),
            is_sorted(a@),
            is_sorted(b@),
            is_sorted(out@),
            out@.len() == i + j,
            forall|p: int, k: int| 0 <= p < out@.len() && i <= k < a@.len() ==> out@[p] <= a@[k],
            forall|p: int, k: int| 0 <= p < out@.len() && j <= k < b@.len() ==> out@[p] <= b@[k],
            forall|v: int| #[trigger]
                count_at_most(out@, v) == count_at_most(a@.take(i as int), v) + count_at_most(
                    b@.take(j as int),
                    v,
                ),
        decreases a.len() - i + b.len() - j,
    {
        let ghost before = out@;
        if j == b.len() || (i < a.len() && a[i] <= b[j]) {
            out.push(a[i]);
            assert forall|v: int| #[trigger]
                count_at_most(out@, v) == count_at_most(a@.take(i + 1), v) + count_at_most(
                    b@.take(j as int),
                    v,
                ) by {
                lemma_count_push(before, a@[i as int], v);
                lemma_count_push(a@.take(i as int), a@[i as int], v);
                assert(a@.take(i + 1) =~= a@.take(i as int).push(a@[i as int]));
            }
            i += 1;
        } else {
            out.push(b[j]);
            assert forall|v: int| #[trigger]
                count_at_most(out@, v) == count_at_most(a@.take(i as int), v) + count_at_most(
                    b@.take(j + 1),
                    v,
                ) by {
                lemma_count_push(before, b@[j as int], v);
                lemma_count_push(b@.take(j as int), b@[j as int], v);
                assert(b@.take(j + 1) =~= b@.take(j as int).push(b@[j as int]));
            }
            j += 1;
        }
    }
    assert(a@.take(a@.len() as int) =~= a@);
    assert(b@.take(b@.len() as int) =~= b@);
    assert forall|v: int| #[trigger] count_at_most(out@, v) == count_at_most(a@ + b@, v) by {
        lemma_count_concat(a@, b@, v);
    }
    out
}

/// The samples in ascending order.
fn sorted(samples: &[u32]) -> (out: Vec<u32>)
    ensures
        is_sorted(out@),
        same_samples(out@, samples@),
    decreases samples@.len(),
{
    let n: usize = samples.len();
    if n < 2 {
        let mut out: Vec<u32> = Vec::new();
        if n == 1 {
            out.push(samples[0]);
        }
        assert(out@ =~= samples@);
        return out;
    }
    let left = slice_subrange(samples, 0, n / 2);
    let right = slice_subrange(samples, n / 2, n);
    let a = sorted(left);
    let b = sorted(right);
    let out = merge(a.as_slice(), b.as_slice());
    proof {
        assert(left@ + right@ =~= samples@);
        assert forall|v: int| #[trigger] count_at_most(out@, v) == count_at_most(samples@, v) by {
            lemma_count_concat(left@, right@, v);
            lemma_count_concat(a@, b@, v);
            assert(count_at_most(a@, v) == count_at_most(left@, v));
            assert(count_at_most(b@, v) == count_at_most(right@, v));
        }
    }
    out
}

/// In sorted samples the one at position `k - 1` has rank `k`.
proof fn lemma_sorted_rank(s: Seq<u32>, k: int)
    requires
        is_sorted(s),
        1 <= k <= s.len(),
    ensures
        has_rank(s, k, s[k - 1]),
{
    let v = s[k - 1];
    let head = s.take(k);
    let tail = s.skip(k - 1);
    assert(head + s.skip(k) =~= s);
    lemma_count_concat(head, s.skip(k), v as int);
    lemma_all_counted(head, v as int);
    assert(s.take(k - 1) + tail =~= s);
    lemma_count_concat(s.take(k - 1), tail, v - 1);
    lemma_none_counted(tail, v - 1);
    lemma_count_grows(s.take(k - 1), v - 1, v - 1);
}

proof fn lemma_all_counted(s: Seq<u32>, v: int)
    requires
        forall|i: int| 0 <= i < s.len() ==> s[i] <= v,
    ensures
        count_at_most(s, v) == s.len(),
    decreases s.len(),
{
    if s.len() > 0 {
        lemma_all_counted(s.drop_last(), v);
    }
}

proof fn lemma_none_counted(s: Seq<u32>, v: int)
    requires
        forall|i: int| 0 <= i < s.len() ==> s[i] > v,
    ensures
        count_at_most(s, v) == 0,
    decreases s.len(),
{
    if s.len() > 0 {
        lemma_none_counted(s.drop_last(), v);
    }
}

/// Mean, 95th percentile and maximum of a window's latencies; zeros where it has none.
pub open spec fn latency_of(s: Seq<u32>) -> (nat, nat, nat) {
    if s.len() == 0 {
        (0, 0, 0)
    } else {
        (
            nearest_mean(sum_of(s), s.len()),
            ranked(s, p95_rank(s.len()) as int) as nat,
            ranked(s, s.len() as int) as nat,
        )
    }
}

proof fn lemma_mean_bound(sum: nat, n: nat)
    requires
        n > 0,
        sum <= n * 0xffff_ffff,
    ensures
        nearest_mean(sum, n) <= 0xffff_ffff,
{
    assert((2 * sum + n) / (2 * n) < 0x1_0000_0000) by (nonlinear_arith)
        requires
            n > 0,
            sum <= n * 0xffff_ffff,
    ;
}

/// Mean (to the nearest integer), nearest-rank 95th percentile and maximum.
pub fn latency_stats(samples: &[u32]) -> (out: (u64, u64, u64))
    ensures
        out.0 == latency_of(samples@).0,
        out.1 == latency_of(samples@).1,
        out.2 == latency_of(samples@).2,
{
    if samples.len() == 0 {
        return (0, 0, 0);
    }
    let n: usize = samples.len();
    let mut sum: u128 = 0;
    let mut i: usize = 0;
    while i < n
        invariant
            i <= n,
            n == samples.len(),
            sum == sum_of(samples@.take(i as int)),
            sum <= i * 0xffff_ffff,
        decreases n - i,
    {
        assert(samples@.take(i + 1).drop_last() =~= samples@.take(i as int));
        sum = sum + samples[i] as u128;
        i += 1;
    }
    assert(samples@.take(n as int) =~= samples@);
    proof {
        lemma_mean_bound(sum as nat, n as nat);
    }
    let avg: u128 = (2 * sum + n as u128) / (2 * n as u128);
    let rank: u128 = (19 * n as u128 + 19) / 20;
    let s = sorted(samples);
    let at: usize = rank as usize - 1;
    let p95: u32 = s[at];
    let max: u32 = s[n - 1];
    proof {
        lemma_sorted_rank(s@, rank as int);
        lemma_sorted_rank(s@, n as int);
        assert(has_rank(samples@, rank as int, p95));
        assert(has_rank(samples@, n as int, max));
        rank_is_unique(samples@, rank as int, p95, ranked(samples@, rank as int));
        rank_is_unique(samples@, n as int, max, ranked(samples@, n as int));
    }
    (avg as u64, p95 as u64, max as u64)
}

/// How often `key` was counted.
pub open spec fn count_of(m: Map<u16, u64>, key: u16) -> u64 {
    if m.contains_key(key) {
        m[key]
    } else {
        0
    }
}

/// The counts of the keys below `n`, added up.
pub open spec fn total_below(m: Map<u16, u64>, n: nat) -> nat
    decreases n,
{
    if n == 0 {
        0
    } else {
        total_below(m, (n - 1) as nat) + count_of(m, (n - 1) as u16) as nat
    }
}

/// All counts added up.
pub open spec fn total_of(m: Map<u16, u64>) -> nat {
    total_below(m, 65536)
}

/// The counts with one more for `key`.
pub open spec fn tallied(m: Map<u16, u64>, key: u16) -> Map<u16, u64> {
    m.insert(key, (count_of(m, key) + 1) as u64)
}

proof fn lemma_total_insert(m: Map<u16, u64>, key: u16, value: u64, n: nat)
    requires
        n <= 65536,
    ensures
        total_below(m.insert(key, value), n) == total_below(m, n) + if key < n {
            value - count_of(m, key)
        } else {
            0
        },
    decreases n,
{
    if n > 0 {
        lemma_total_insert(m, key, value, (n - 1) as nat);
        let last = (n - 1) as u16;
        assert(last != key ==> count_of(m.insert(key, value), last) == count_of(m, last));
    }
}

proof fn lemma_total_empty(n: nat)
    ensures
        total_below(Map::<u16, u64>::empty(), n) == 0,
    decreases n,
{
    if n > 0 {
        lemma_total_empty((n - 1) as nat);
    }
}

/// The sum of the counts of several keys.
pub open spec fn sum_counts(m: Map<u16, u64>, keys: Seq<u16>) -> nat
    decreases keys.len(),
{
    if keys.len() == 0 {
        0
    } else {
        sum_counts(m, keys.drop_last()) + count_of(m, keys.last()) as nat
    }
}

proof fn lemma_sum_of_keys(m: Map<u16, u64>, keys: Seq<u16>)
    requires
        keys.no_duplicates(),
        forall|i: int| 0 <= i < keys.len() ==> m.contains_key(#[trigger] keys[i]),
    ensures
        sum_counts(m, keys) == total_of(m.restrict(keys.to_set())),
    decreases keys.len(),
{
    if keys.len() == 0 {
        lemma_total_empty(65536);
        assert(m.restrict(keys.to_set()) =~= Map::<u16, u64>::empty());
    } else {
        let before = keys.drop_last();
        let key = keys.last();
        lemma_sum_of_keys(m, before);
        let part = m.restrict(before.to_set());
        assert(!before.contains(key));
        assert(!part.contains_key(key));
        assert forall|k: u16| keys.contains(k) == (before.contains(k) || k == key) by {
            if keys.contains(k) {
                let i = choose|i: int| 0 <= i < keys.len() && keys[i] == k;
                if i < before.len() {
                    assert(before[i] == k);
                }
            }
            if before.contains(k) {
                let i = choose|i: int| 0 <= i < before.len() && before[i] == k;
                assert(keys[i] == k);
            }
            assert(keys[keys.len() - 1] == key);
        }
        assert(m.contains_key(key));
        assert(m.restrict(keys.to_set()) =~= part.insert(key, m[key]));
        lemma_total_insert(part, key, m[key], 65536);
    }
}

proof fn lemma_sum_counts_grows(m: Map<u16, u64>, keys: Seq<u16>, n: int)
    requires
        0 <= n <= keys.len(),
    ensures
        sum_counts(m, keys.take(n)) <= sum_counts(m, keys),
    decreases keys.len() - n,
{
    if n == keys.len() {
        assert(keys.take(n) =~= keys);
    } else {
        lemma_sum_counts_grows(m, keys, n + 1);
        assert(keys.take(n + 1).drop_last() =~= keys.take(n));
    }
}

fn total(m: &HashMap<u16, u64>) -> (sum: u64)
    requires
        total_of(m@) <= u64::MAX,
    ensures
        sum == total_of(m@),
{
    let mut sum: u64 = 0;
    let ghost keys = vstd::std_specs::iter::IteratorSpec::remaining(&m.keys()).unref();
    proof {
        assert(keys.no_duplicates());
        assert(keys.to_set() =~= m@.dom());
        assert forall|i: int| 0 <= i < keys.len() implies m@.contains_key(#[trigger] keys[i]) by {
            assert(keys.contains(keys[i]));
            assert(keys.to_set().contains(keys[i]));
        }
        lemma_sum_of_keys(m@, keys);
        assert(m@.restrict(keys.to_set()) =~= m@);
    }
    for key in it: m.keys()
        invariant
            it.seq().unref() == keys,
            total_of(m@) == sum_counts(m@, keys),
            total_of(m@) <= u64::MAX,
            sum == sum_counts(m@, keys.take(it.index() as int)),
    {
        proof {
            let i = it.index() as int;
            assert(keys.take(i + 1).drop_last() =~= keys.take(i));
            assert(keys.take(i + 1).last() == *key);
            lemma_sum_counts_grows(m@, keys, i + 1);
        }
        sum = sum + count(m, *key);
    }
    assert(keys.take(keys.len() as int) =~= keys);
    sum
}

fn count(m: &HashMap<u16, u64>, key: u16) -> (n: u64)
    ensures
        n == count_of(m@, key),
{
    match m.get(&key) {
        Some(n) => *n,
        None => 0,
    }
}

/// The counters of one window.
pub struct Agg {
    pub udp: u64,
    pub tcp: u64,
    pub rcode: HashMap<u16, u64>,
    pub qtype: HashMap<u16, u64>,
    pub lat_us: Vec<u32>,
}

/// The mathematical form of [`Agg`].
pub struct AggView {
    pub udp: nat,
    pub tcp: nat,
    pub rcode: Map<u16, u64>,
    pub qtype: Map<u16, u64>,
    pub lat_us: Seq<u32>,
}

impl View for Agg {
    type V = AggView;

    open spec fn view(&self) -> AggView {
        AggView {
            udp: self.udp as nat,
            tcp: self.tcp as nat,
            rcode: self.rcode@,
            qtype: self.qtype@,
            lat_us: self.lat_us@,
        }
    }
}

/// The window in which nothing was counted.
pub open spec fn empty_window() -> AggView {
    AggView {
        udp: 0,
        tcp: 0,
        rcode: Map::empty(),
        qtype: Map::empty(),
        lat_us: Seq::empty(),
    }
}

impl AggView {
    /// Whether the totals of the window can be told in 64 bits.
    pub open spec fn countable(self) -> bool {
        &&& self.udp + self.tcp <= u64::MAX
        &&& total_of(self.rcode) <= u64::MAX
        &&& total_of(self.qtype) <= u64::MAX
    }

    /// What every window keeps: no query has more than one response code, type
    /// or latency, and the latencies are capped.
    pub open spec fn well_formed(self) -> bool {
        &&& self.countable()
        &&& total_of(self.rcode) <= self.udp + self.tcp
        &&& total_of(self.qtype) <= self.udp + self.tcp
        &&& self.lat_us.len() <= self.udp + self.tcp
        &&& self.lat_us.len() <= LAT_CAP
    }
}

impl Default for Agg {
    /// A window in which nothing was counted.
    fn default() -> (a: Agg)
        ensures
            a@ == empty_window(),
            a@.well_formed(),
    {
        proof {
            lemma_total_empty(65536);
        }
        Agg {
            udp: 0,
            tcp: 0,
            rcode: HashMap::new(),
            qtype: HashMap::new(),
            lat_us: Vec::new(),
        }
    }
}

/// The response codes with a series of their own.
pub open spec fn named_rcodes() -> Seq<u16> {
    seq![0u16, 1u16, 2u16, 3u16, 5u16]
}

/// The query types with a series of their own.
pub open spec fn named_qtypes() -> Seq<u16> {
    seq![1u16, 28u16, 15u16, 16u16, 2u16, 6u16, 12u16, 5u16, 33u16, 257u16]
}

/// The queries whose response code has no series of its own.
pub open spec fn other_rcodes(m: Map<u16, u64>) -> int {
    total_of(m) - sum_counts(m, named_rcodes())
}

/// The queries whose type has no series of its own.
pub open spec fn other_qtypes(m: Map<u16, u64>) -> int {
    total_of(m) - sum_counts(m, named_qtypes())
}

/// The counts of different keys add up to no more than the total.
proof fn lemma_sum_counts(m: Map<u16, u64>, keys: Seq<u16>)
    requires
        keys.no_duplicates(),
    ensures
        sum_counts(m, keys) <= total_of(m),
    decreases keys.len(),
{
    if keys.len() > 0 {
        let key = keys.last();
        let before = keys.drop_last();
        let without = m.insert(key, 0);
        lemma_sum_counts(without, before);
        lemma_total_insert(m, key, 0, 65536);
        lemma_sum_unchanged(m, without, before, key);
    }
}

proof fn lemma_sum_unchanged(m: Map<u16, u64>, other: Map<u16, u64>, keys: Seq<u16>, key: u16)
    requires
        !keys.contains(key),
        other == m.insert(key, 0),
    ensures
        sum_counts(m, keys) == sum_counts(other, keys),
    decreases keys.len(),
{
    if keys.len() > 0 {
        assert(keys[keys.len() - 1] != key) by {
            assert(keys.contains(keys[keys.len() - 1]));
        }
        assert(!keys.drop_last().contains(key)) by {
            if keys.drop_last().contains(key) {
                let i = choose|i: int|
                    0 <= i < keys.drop_last().len() && keys.drop_last()[i] == key;
                assert(keys[i] == key);
            }
        }
        lemma_sum_unchanged(m, other, keys.drop_last(), key);
    }
}

proof fn lemma_sum_counts_known(m: Map<u16, u64>)
    ensures
        sum_counts(m, named_rcodes()) == count_of(m, 0) + count_of(m, 1) + count_of(m, 2)
            + count_of(m, 3) + count_of(m, 5),
        sum_counts(m, named_qtypes()) == count_of(m, 1) + count_of(m, 28) + count_of(m, 15)
            + count_of(m, 16) + count_of(m, 2) + count_of(m, 6) + count_of(m, 12) + count_of(m, 5)
            + count_of(m, 33) + count_of(m, 257),
{
    reveal_with_fuel(sum_counts, 11);
}

/// The seconds that a rate is taken over: at least one.
pub open spec fn interval_of(interval_secs: u64) -> u64 {
    if interval_secs == 0 {
        1
    } else {
        interval_secs
    }
}

/// A metric that is a plain count.
pub open spec fn counted(name: Seq<char>, n: u64) -> MetricView {
    metric(name, ValueView::Count(n))
}

/// The series of a window.
pub open spec fn metrics_of(a: AggView, interval_secs: u64) -> Seq<MetricView> {
    let queries = (a.udp + a.tcp) as u64;
    seq![
        metric("dns.qps"@, ValueView::Rate { count: queries, secs: interval_of(interval_secs) }),
        counted("dns.queries"@, queries),
        counted("dns.proto.udp"@, a.udp as u64),
        counted("dns.proto.tcp"@, a.tcp as u64),
        counted("dns.rcode.noerror"@, count_of(a.rcode, 0)),
        counted("dns.rcode.formerr"@, count_of(a.rcode, 1)),
        counted("dns.rcode.servfail"@, count_of(a.rcode, 2)),
        counted("dns.rcode.nxdomain"@, count_of(a.rcode, 3)),
        counted("dns.rcode.refused"@, count_of(a.rcode, 5)),
        counted("dns.rcode.other"@, other_rcodes(a.rcode) as u64),
        counted("dns.qtype.a"@, count_of(a.qtype, 1)),
        counted("dns.qtype.aaaa"@, count_of(a.qtype, 28)),
        counted("dns.qtype.mx"@, count_of(a.qtype, 15)),
        counted("dns.qtype.txt"@, count_of(a.qtype, 16)),
        counted("dns.qtype.ns"@, count_of(a.qtype, 2)),
        counted("dns.qtype.soa"@, count_of(a.qtype, 6)),
        counted("dns.qtype.ptr"@, count_of(a.qtype, 12)),
        counted("dns.qtype.cname"@, count_of(a.qtype, 5)),
        counted("dns.qtype.srv"@, count_of(a.qtype, 33)),
        counted("dns.qtype.caa"@, count_of(a.qtype, 257)),
        counted("dns.qtype.other"@, other_qtypes(a.qtype) as u64),
        counted("dns.latency_us.avg"@, latency_of(a.lat_us).0 as u64),
        counted("dns.latency_us.p95"@, latency_of(a.lat_us).1 as u64),
        counted("dns.latency_us.max"@, latency_of(a.lat_us).2 as u64),
    ]
}

fn m(name: &str, n: u64) -> (out: Metric)
    ensures
        out@ == counted(name@, n),
{
    Metric { name: name.to_string(), value: Value::Count(n) }
}

/// Turns a window into its series.
#[verifier::rlimit(40)]
pub fn build_metrics(a: Agg, interval_secs: u64) -> (out: Vec<Metric>)
    requires
        a@.countable(),
    ensures
        metrics_view(out@) == metrics_of(a@, interval_secs),
{
    let secs: u64 = if interval_secs == 0 {
        1
    } else {
        interval_secs
    };
    let queries: u64 = a.udp + a.tcp;
    let rc_total: u64 = total(&a.rcode);
    let qt_total: u64 = total(&a.qtype);
    proof {
        lemma_sum_counts_known(a.rcode@);
        lemma_sum_counts_known(a.qtype@);
        lemma_sum_counts(a.rcode@, named_rcodes());
        lemma_sum_counts(a.qtype@, named_qtypes());
    }
    let rc_known: u64 = count(&a.rcode, 0) + count(&a.rcode, 1) + count(&a.rcode, 2) + count(
        &a.rcode,
        3,
    ) + count(&a.rcode, 5);
    let qt_known: u64 = count(&a.qtype, 1) + count(&a.qtype, 28) + count(&a.qtype, 15) + count(
        &a.qtype,
        16,
    ) + count(&a.qtype, 2) + count(&a.qtype, 6) + count(&a.qtype, 12) + count(&a.qtype, 5) + count(
        &a.qtype,
        33,
    ) + count(&a.qtype, 257);
    let (avg, p95, max) = latency_stats(a.lat_us.as_slice());
    let mut out: Vec<Metric> = Vec::new();
    out.push(Metric { name: "dns.qps".to_string(), value: Value::Rate { count: queries, secs } });
    out.push(m("dns.queries", queries));
    out.push(m("dns.proto.udp", a.udp));
    out.push(m("dns.proto.tcp", a.tcp));
    out.push(m("dns.rcode.noerror", count(&a.rcode, 0)));
    out.push(m("dns.rcode.formerr", count(&a.rcode, 1)));
    out.push(m("dns.rcode.servfail", count(&a.rcode, 2)));
    out.push(m("dns.rcode.nxdomain", count(&a.rcode, 3)));
    out.push(m("dns.rcode.refused", count(&a.rcode, 5)));
    out.push(m("dns.rcode.other", rc_total - rc_known));
    out.push(m("dns.qtype.a", count(&a.qtype, 1)));
    out.push(m("dns.qtype.aaaa", count(&a.qtype, 28)));
    out.push(m("dns.qtype.mx", count(&a.qtype, 15)));
    out.push(m("dns.qtype.txt", count(&a.qtype, 16)));
    out.push(m("dns.qtype.ns", count(&a.qtype, 2)));
    out.push(m("dns.qtype.soa", count(&a.qtype, 6)));
    out.push(m("dns.qtype.ptr", count(&a.qtype, 12)));
    out.push(m("dns.qtype.cname", count(&a.qtype, 5)));
    out.push(m("dns.qtype.srv", count(&a.qtype, 33)));
    out.push(m("dns.qtype.caa", count(&a.qtype, 257)));
    out.push(m("dns.qtype.other", qt_total - qt_known));
    out.push(m("dns.latency_us.avg", avg));
    out.push(m("dns.latency_us.p95", p95));
    out.push(m("dns.latency_us.max", max));
    assert(metrics_view(out@) =~= metrics_of(a@, interval_secs));
    out
}

/// The full set of series with zero values.
pub fn zero_metrics(interval_secs: u64) -> (out: Vec<Metric>)
    ensures
        metrics_view(out@) == metrics_of(empty_window(), interval_secs),
{
    build_metrics(Agg::default(), interval_secs)
}

/// Whether a character is part of a word: an ASCII letter or digit, or `_`.
pub open spec fn is_word(c: char) -> bool {
    'a' <= c <= 'z' || 'A' <= c <= 'Z' || '0' <= c <= '9' || c == '_'
}

/// `s` up to its first white space.
pub open spec fn first_word(s: Seq<char>) -> Seq<char>
    decreases s.len(),
{
    if s.len() == 0 || is_space(s.first()) {
        Seq::<char>::empty()
    } else {
        seq![s.first()] + first_word(s.drop_first())
    }
}

/// What follows `pattern`, up to white space, at the first place from `at` on
/// where `pattern` stands and no word character stands before it. A place that
/// is passed over is skipped as a whole.
pub open spec fn field_from(line: Seq<char>, pattern: Seq<char>, at: int) -> Option<Seq<char>>
    decreases line.len() - at,
{
    if pattern.len() == 0 || at > line.len() - pattern.len() {
        None
    } else if !occurs_at(line, pattern, at) {
        field_from(line, pattern, at + 1)
    } else if at == 0 || !is_word(line[at - 1]) {
        Some(first_word(line.skip(at + pattern.len())))
    } else {
        field_from(line, pattern, at + pattern.len())
    }
}

/// The value of the field `key=…` of a log line.
pub open spec fn field_of(line: Seq<char>, key: Seq<char>) -> Option<Seq<char>> {
    field_from(line, key.push('='), 0)
}

/// The value of a field as a number at most `max`, where it is digits alone.
pub open spec fn number_field(line: Seq<char>, key: Seq<char>, max: nat) -> Option<nat> {
    match field_of(line, key) {
        Some(value) => if is_number(value) && decimal_of(value) <= max {
            Some(decimal_of(value))
        } else {
            None
        },
        None => None,
    }
}

proof fn lemma_field_skips(line: Seq<char>, pattern: Seq<char>, from: int, to: int)
    requires
        from <= to,
        forall|k: int| from <= k < to ==> !occurs_at(line, pattern, k),
        pattern.len() > 0,
    ensures
        field_from(line, pattern, from) == field_from(line, pattern, to),
    decreases to - from,
{
    if from < to {
        lemma_field_skips(line, pattern, from + 1, to);
        assert(!occurs_at(line, pattern, from));
    }
}

proof fn lemma_first_word(s: Seq<char>, n: int)
    requires
        0 <= n <= s.len(),
        forall|k: int| 0 <= k < n ==> !is_space(#[trigger] s[k]),
        n == s.len() || is_space(s[n]),
    ensures
        first_word(s) == s.take(n),
    decreases n,
{
    if n == 0 {
        assert(s.take(0) =~= Seq::<char>::empty());
    } else {
        let rest = s.drop_first();
        assert forall|k: int| 0 <= k < n - 1 implies !is_space(#[trigger] rest[k]) by {
            assert(!is_space(s[k + 1]));
        }
        lemma_first_word(rest, n - 1);
        assert(!is_space(s[0]));
        assert(seq![s.first()] + rest.take(n - 1) =~= s.take(n));
    }
}

/// The value of the field `key=…` of a log line. Before the key there must be
/// the start of the line or a character that is part of no word, so that
/// `size=` is not found inside another token.
pub fn field_str(line: &str, key: &str) -> (out: Option<String>)
    ensures
        match field_of(line@, key@) {
            Some(v) => out matches Some(o) && o@ == v,
            None => out is None,
        },
{
    let text = chars_of(line);
    let mut pattern = chars_of(key);
    pattern.push('=');
    let mut from: usize = 0;
    while from <= text.len()
        invariant
            text@ == line@,
            pattern@ == key@.push('='),
            field_of(line@, key@) == field_from(line@, pattern@, from as int),
        decreases text.len() + 1 - from,
    {
        match find_from(text.as_slice(), pattern.as_slice(), from) {
            None => {
                proof {
                    lemma_field_skips(line@, pattern@, from as int, line@.len() as int + 1);
                }
                return None;
            },
            Some(at) => {
                proof {
                    lemma_field_skips(line@, pattern@, from as int, at as int);
                }
                let start: usize = at + pattern.len();
                if at == 0 || !word_char(text[at - 1]) {
                    let mut end: usize = start;
                    while end < text.len() && !white_space(text[end])
                        invariant
                            start <= end <= text.len(),
                            forall|k: int| start <= k < end ==> !is_space(#[trigger] text@[k]),
                        decreases text.len() - end,
                    {
                        end += 1;
                    }
                    proof {
                        let rest = text@.skip(start as int);
                        assert forall|k: int| 0 <= k < end - start implies !is_space(
                            #[trigger] rest[k],
                        ) by {
                            assert(!is_space(text@[start + k]));
                        }
                        lemma_first_word(rest, end - start);
                        assert(rest.take(end - start) =~= text@.subrange(start as int, end as int));
                    }
                    return Some(string_of(slice_subrange(text.as_slice(), start, end)));
                }
                from = start;
            },
        }
    }
    None
}

fn word_char(c: char) -> (yes: bool)
    ensures
        yes == is_word(c),
{
    ('a' <= c && c <= 'z') || ('A' <= c && c <= 'Z') || ('0' <= c && c <= '9') || c == '_'
}

/// The value of a field as a 32-bit number.
pub fn field_u32(line: &str, key: &str) -> (out: Option<u32>)
    ensures
        match number_field(line@, key@, u32::MAX as nat) {
            Some(n) => out == Some(n as u32) && n <= u32::MAX,
            None => out is None,
        },
{
    match field_str(line, key) {
        Some(value) => match parse_digits(chars_of(value.as_str()).as_slice(), u32::MAX as u64) {
            Some(n) => Some(n as u32),
            None => None,
        },
        None => None,
    }
}

/// The value of a field as a 16-bit number.
pub fn field_u16(line: &str, key: &str) -> (out: Option<u16>)
    ensures
        match number_field(line@, key@, u16::MAX as nat) {
            Some(n) => out == Some(n as u16) && n <= u16::MAX,
            None => out is None,
        },
{
    match field_str(line, key) {
        Some(value) => match parse_digits(chars_of(value.as_str()).as_slice(), u16::MAX as u64) {
            Some(n) => Some(n as u16),
            None => None,
        },
        None => None,
    }
}

/// Whether a log line tells of a query, and if so whether it came over TCP.
pub open spec fn query_of(line: Seq<char>) -> Option<bool> {
    if contains_text(line, "UDP query"@) {
        Some(false)
    } else if contains_text(line, "TCP query"@) {
        Some(true)
    } else {
        None
    }
}

/// The counts after a query with the given field, if the line has it.
pub open spec fn tallied_field(m: Map<u16, u64>, field: Option<nat>) -> Map<u16, u64> {
    match field {
        Some(n) => tallied(m, n as u16),
        None => m,
    }
}

/// The window after one more log line.
pub open spec fn observed(a: AggView, line: Seq<char>) -> AggView {
    match query_of(line) {
        None => a,
        Some(is_tcp) => AggView {
            udp: if is_tcp {
                a.udp
            } else {
                a.udp + 1
            },
            tcp: if is_tcp {
                a.tcp + 1
            } else {
                a.tcp
            },
            rcode: tallied_field(a.rcode, number_field(line, "rcode"@, u16::MAX as nat)),
            qtype: tallied_field(a.qtype, number_field(line, "qtype"@, u16::MAX as nat)),
            lat_us: match number_field(line, "elapsed_us"@, u32::MAX as nat) {
                Some(us) if a.lat_us.len() < LAT_CAP => a.lat_us.push(us as u32),
                _ => a.lat_us,
            },
        },
    }
}

/// The window after several more log lines.
pub open spec fn observed_all(a: AggView, lines: Seq<Seq<char>>) -> AggView
    decreases lines.len(),
{
    if lines.len() == 0 {
        a
    } else {
        observed(observed_all(a, lines.drop_last()), lines.last())
    }
}

proof fn lemma_count_below_total(m: Map<u16, u64>, key: u16)
    ensures
        count_of(m, key) <= total_of(m),
{
    lemma_total_insert(m, key, 0, 65536);
}

proof fn lemma_tallied(m: Map<u16, u64>, key: u16)
    requires
        total_of(m) < u64::MAX,
    ensures
        total_of(tallied(m, key)) == total_of(m) + 1,
{
    lemma_count_below_total(m, key);
    lemma_total_insert(m, key, (count_of(m, key) + 1) as u64, 65536);
}

fn tally(m: &mut HashMap<u16, u64>, key: u16)
    requires
        total_of(old(m)@) < u64::MAX,
    ensures
        final(m)@ == tallied(old(m)@, key),
{
    proof {
        lemma_count_below_total(m@, key);
    }
    let n = m.entry(key).or_insert(0);
    *n = *n + 1;
}

/// What the monitor keeps of the name server between two reports: the running
/// window, and the series of the last finished one.
pub struct DnsState {
    pub agg: Agg,
    pub last: Vec<Metric>,
}

impl DnsState {
    /// Whether the running window is in order.
    pub open spec fn well_formed(self) -> bool {
        self.agg@.well_formed()
    }

    /// An empty window; the last series are zeros until the first report.
    pub fn new() -> (state: DnsState)
        ensures
            state.well_formed(),
            state.agg@ == empty_window(),
            metrics_view(state.last@) == metrics_of(empty_window(), 60),
    {
        DnsState { agg: Agg::default(), last: zero_metrics(60) }
    }
}

/// Feeds one log line of the name server. Lines that tell of no query are ignored.
pub fn observe(state: &mut DnsState, line: &str)
    requires
        old(state).well_formed(),
        query_of(line@) is Some ==> old(state).agg@.udp + old(state).agg@.tcp < u64::MAX,
    ensures
        final(state).well_formed(),
        final(state).agg@ == observed(old(state).agg@, line@),
        final(state).last == old(state).last,
{
    let text = chars_of(line);
    let is_tcp: bool = if contains(text.as_slice(), "UDP query") {
        false
    } else if contains(text.as_slice(), "TCP query") {
        true
    } else {
        return;
    };
    if is_tcp {
        state.agg.tcp = state.agg.tcp + 1;
    } else {
        state.agg.udp = state.agg.udp + 1;
    }
    if let Some(r) = field_u16(line, "rcode") {
        proof {
            lemma_tallied(state.agg.rcode@, r);
        }
        tally(&mut state.agg.rcode, r);
    }
    if let Some(t) = field_u16(line, "qtype") {
        proof {
            lemma_tallied(state.agg.qtype@, t);
        }
        tally(&mut state.agg.qtype, t);
    }
    if let Some(us) = field_u32(line, "elapsed_us") {
        if state.agg.lat_us.len() < LAT_CAP {
            state.agg.lat_us.push(us);
        }
    }
}

/// Ends the running window: returns its series and keeps them as the last ones.
pub fn drain(state: &mut DnsState, interval_secs: u64) -> (metrics: Vec<Metric>)
    requires
        old(state).well_formed(),
    ensures
        metrics_view(metrics@) == metrics_of(old(state).agg@, interval_secs),
        final(state).agg@ == empty_window(),
        metrics_view(final(state).last@) == metrics_view(metrics@),
        final(state).well_formed(),
{
    let mut snapshot = Agg::default();
    std::mem::swap(&mut snapshot, &mut state.agg);
    let metrics = build_metrics(snapshot, interval_secs);
    state.last = copy_metrics(metrics.as_slice());
    metrics
}

/// The series of the last finished window, zeros until there is one.
pub fn latest(state: &DnsState) -> (metrics: Vec<Metric>)
    ensures
        metrics_view(metrics@) == metrics_view(state.last@),
{
    copy_metrics(state.last.as_slice())
}

/// Every window has the same series, in the same order.
pub proof fn series_names_are_fixed(a: AggView, b: AggView, i: u64, j: u64)
    ensures
        metrics_of(a, i).len() == metrics_of(b, j).len() == 24,
        forall|k: int|
            0 <= k < 24 ==> (#[trigger] metrics_of(a, i)[k]).name == metrics_of(b, j)[k].name,
{
}

/// Every series has a name that starts with `dns.`.
pub proof fn series_are_marked(a: AggView, secs: u64, k: int)
    requires
        0 <= k < 24,
    ensures
        "dns."@.is_prefix_of(metrics_of(a, secs)[k].name),
{
    let all = metrics_of(a, secs);
    reveal_strlit("dns.");
    reveal_strlit("dns.qps");
    reveal_strlit("dns.queries");
    reveal_strlit("dns.proto.udp");
    reveal_strlit("dns.proto.tcp");
    reveal_strlit("dns.rcode.noerror");
    reveal_strlit("dns.rcode.formerr");
    reveal_strlit("dns.rcode.servfail");
    reveal_strlit("dns.rcode.nxdomain");
    reveal_strlit("dns.rcode.refused");
    reveal_strlit("dns.rcode.other");
    reveal_strlit("dns.qtype.a");
    reveal_strlit("dns.qtype.aaaa");
    reveal_strlit("dns.qtype.mx");
    reveal_strlit("dns.qtype.txt");
    reveal_strlit("dns.qtype.ns");
    reveal_strlit("dns.qtype.soa");
    reveal_strlit("dns.qtype.ptr");
    reveal_strlit("dns.qtype.cname");
    reveal_strlit("dns.qtype.srv");
    reveal_strlit("dns.qtype.caa");
    reveal_strlit("dns.qtype.other");
    reveal_strlit("dns.latency_us.avg");
    reveal_strlit("dns.latency_us.p95");
    reveal_strlit("dns.latency_us.max");
    let name = all[k].name;
    assert(name.len() >= 4 && name[0] == 'd' && name[1] == 'n' && name[2] == 's' && name[3] == '.');
    assert(name.take(4) =~= "dns."@);
}

/// A number that differs between the names of the series.
spec fn name_code(name: Seq<char>) -> int {
    name[4] as int * 65536 + name[name.len() - 1] as int * 256 + name[name.len() - 3] as int
}

/// No two series of a window have the same name.
pub proof fn series_names_differ(a: AggView, i: u64, j: int, k: int)
    requires
        0 <= j < k < 24,
    ensures
        metrics_of(a, i)[j].name != metrics_of(a, i)[k].name,
{
    let all = metrics_of(a, i);
    reveal_strlit("dns.qps");
    reveal_strlit("dns.queries");
    reveal_strlit("dns.proto.udp");
    reveal_strlit("dns.proto.tcp");
    reveal_strlit("dns.rcode.noerror");
    reveal_strlit("dns.rcode.formerr");
    reveal_strlit("dns.rcode.servfail");
    reveal_strlit("dns.rcode.nxdomain");
    reveal_strlit("dns.rcode.refused");
    reveal_strlit("dns.rcode.other");
    reveal_strlit("dns.qtype.a");
    reveal_strlit("dns.qtype.aaaa");
    reveal_strlit("dns.qtype.mx");
    reveal_strlit("dns.qtype.txt");
    reveal_strlit("dns.qtype.ns");
    reveal_strlit("dns.qtype.soa");
    reveal_strlit("dns.qtype.ptr");
    reveal_strlit("dns.qtype.cname");
    reveal_strlit("dns.qtype.srv");
    reveal_strlit("dns.qtype.caa");
    reveal_strlit("dns.qtype.other");
    reveal_strlit("dns.latency_us.avg");
    reveal_strlit("dns.latency_us.p95");
    reveal_strlit("dns.latency_us.max");
    assert(name_code(all[0].name) == 7435121);
    assert(name_code(all[1].name) == 7435113);
    assert(name_code(all[2].name) == 7368821);
    assert(name_code(all[3].name) == 7368820);
    assert(name_code(all[4].name) == 7500402);
    assert(name_code(all[5].name) == 7500389);
    assert(name_code(all[6].name) == 7498849);
    assert(name_code(all[7].name) == 7499361);
    assert(name_code(all[8].name) == 7496819);
    assert(name_code(all[9].name) == 7500392);
    assert(name_code(all[10].name) == 7430501);
    assert(name_code(all[11].name) == 7430497);
    assert(name_code(all[12].name) == 7436334);
    assert(name_code(all[13].name) == 7435380);
    assert(name_code(all[14].name) == 7435054);
    assert(name_code(all[15].name) == 7430515);
    assert(name_code(all[16].name) == 7434864);
    assert(name_code(all[17].name) == 7431521);
    assert(name_code(all[18].name) == 7435891);
    assert(name_code(all[19].name) == 7430499);
    assert(name_code(all[20].name) == 7434856);
    assert(name_code(all[21].name) == 7104353);
    assert(name_code(all[22].name) == 7091568);
    assert(name_code(all[23].name) == 7108717);
    assert(name_code(all[j].name) != name_code(all[k].name));
}

/// Every query is in exactly one response code series and in exactly one type
/// series, as far as its line tells: the series add up to the number told.
pub proof fn series_add_up(m: Map<u16, u64>)
    ensures
        other_rcodes(m) >= 0,
        sum_counts(m, named_rcodes()) + other_rcodes(m) == total_of(m),
        other_qtypes(m) >= 0,
        sum_counts(m, named_qtypes()) + other_qtypes(m) == total_of(m),
{
    lemma_sum_counts(m, named_rcodes());
    lemma_sum_counts(m, named_qtypes());
}

/// How many of the lines tell of a query.
pub open spec fn queries_in(lines: Seq<Seq<char>>) -> nat
    decreases lines.len(),
{
    if lines.len() == 0 {
        0
    } else {
        queries_in(lines.drop_last()) + if query_of(lines.last()) is Some {
            1nat
        } else {
            0nat
        }
    }
}

/// After any lines the window has grown by exactly the queries among them.
pub proof fn window_counts_every_query(a: AggView, lines: Seq<Seq<char>>)
    ensures
        observed_all(a, lines).udp + observed_all(a, lines).tcp == a.udp + a.tcp + queries_in(
            lines,
        ),
    decreases lines.len(),
{
    if lines.len() > 0 {
        window_counts_every_query(a, lines.drop_last());
    }
}

/// The lines of all windows, in order.
pub open spec fn lines_in(windows: Seq<Seq<Seq<char>>>) -> Seq<Seq<char>>
    decreases windows.len(),
{
    if windows.len() == 0 {
        Seq::empty()
    } else {
        lines_in(windows.drop_last()) + windows.last()
    }
}

/// The queries that the series of a window tell of.
pub open spec fn told_queries(series: Seq<MetricView>) -> u64 {
    match series[1].value {
        ValueView::Count(n) => n,
        _ => 0,
    }
}

/// The queries that the windows tell of when each is ended in turn, added up. A
/// window starts empty when the one before it is ended.
pub open spec fn drained_queries(windows: Seq<Seq<Seq<char>>>, interval_secs: u64) -> nat
    decreases windows.len(),
{
    if windows.len() == 0 {
        0
    } else {
        drained_queries(windows.drop_last(), interval_secs) + told_queries(
            metrics_of(observed_all(empty_window(), windows.last()), interval_secs),
        ) as nat
    }
}

proof fn lemma_queries_concat(a: Seq<Seq<char>>, b: Seq<Seq<char>>)
    ensures
        queries_in(a + b) == queries_in(a) + queries_in(b),
    decreases b.len(),
{
    if b.len() == 0 {
        assert(a + b =~= a);
    } else {
        lemma_queries_concat(a, b.drop_last());
        assert((a + b).drop_last() =~= a + b.drop_last());
    }
}

/// Over windows that are ended in turn every query is told of exactly once: the
/// `dns.queries` of all windows add up to the queries among all lines.
pub proof fn drains_count_every_query_once(
    windows: Seq<Seq<Seq<char>>>,
    interval_secs: u64,
)
    requires
        forall|i: int| 0 <= i < windows.len() ==> queries_in(#[trigger] windows[i]) <= u64::MAX,
    ensures
        drained_queries(windows, interval_secs) == queries_in(lines_in(windows)),
    decreases windows.len(),
{
    if windows.len() > 0 {
        let before = windows.drop_last();
        let last = windows.last();
        assert forall|i: int| 0 <= i < before.len() implies queries_in(#[trigger] before[i])
            <= u64::MAX by {
            assert(windows[i] == before[i]);
        }
        drains_count_every_query_once(before, interval_secs);
        lemma_queries_concat(lines_in(before), last);
        window_counts_every_query(empty_window(), last);
        assert(windows[windows.len() - 1] == last);
    }
}

/// Whether a value is zero.
pub open spec fn is_zero(value: ValueView) -> bool {
    match value {
        ValueView::Count(n) => n == 0,
        ValueView::Rate { count, .. } => count == 0,
        _ => false,
    }
}

proof fn lemma_quiet_window(a: AggView, lines: Seq<Seq<char>>)
    requires
        queries_in(lines) == 0,
    ensures
        observed_all(a, lines) == a,
    decreases lines.len(),
{
    if lines.len() > 0 {
        lemma_quiet_window(a, lines.drop_last());
    }
}

/// A window without queries gives zero for each of the 24 series.
pub proof fn quiet_window_is_zero(lines: Seq<Seq<char>>, interval_secs: u64, k: int)
    requires
        queries_in(lines) == 0,
        0 <= k < 24,
    ensures
        metrics_of(observed_all(empty_window(), lines), interval_secs).len() == 24,
        is_zero(metrics_of(observed_all(empty_window(), lines), interval_secs)[k].value),
{
    lemma_quiet_window(empty_window(), lines);
    lemma_total_empty(65536);
    lemma_sum_counts(Map::empty(), named_rcodes());
    lemma_sum_counts(Map::empty(), named_qtypes());
}

/// A line that tells of no query changes nothing.
pub proof fn other_lines_are_ignored(a: AggView, line: Seq<char>)
    requires
        !contains_text(line, "UDP query"@),
        !contains_text(line, "TCP query"@),
    ensures
        observed(a, line) == a,
{
}

/// The maximum is one of the samples and none is larger; at least 95 % of the
/// samples are no larger than the 95th percentile, which is a sample too.
pub proof fn percentiles_are_ranks(s: Seq<u32>)
    requires
        s.len() > 0,
    ensures
        s.contains(ranked(s, s.len() as int)),
        forall|i: int| 0 <= i < s.len() ==> s[i] <= ranked(s, s.len() as int),
        s.contains(ranked(s, p95_rank(s.len()) as int)),
        ranked(s, p95_rank(s.len()) as int) <= ranked(s, s.len() as int),
        20 * count_at_most(s, ranked(s, p95_rank(s.len()) as int) as int) >= 19 * s.len(),
{
    let n = s.len() as int;
    let k = p95_rank(s.len()) as int;
    lemma_rank_exists(s, n);
    lemma_rank_exists(s, k);
    let max = ranked(s, n);
    let p95 = ranked(s, k);
    lemma_count_is_member(s, max);
    lemma_count_is_member(s, p95);
    lemma_count_grows(s, max as int, max as int);
    lemma_all_at_most(s, max as int);
    let i = choose|i: int| 0 <= i < s.len() && s[i] == p95;
    assert(s[i] <= max);
}

proof fn lemma_rank_exists(s: Seq<u32>, k: int)
    requires
        1 <= k <= s.len(),
    ensures
        has_rank(s, k, ranked(s, k)),
{
    lemma_all_counted(s, 0xffff_ffff);
    lemma_none_counted(s, -1);
    lemma_rank_between(s, k, -1, 0xffff_ffff);
}

proof fn lemma_rank_between(s: Seq<u32>, k: int, low: int, high: int)
    requires
        -1 <= low < high <= 0xffff_ffff,
        count_at_most(s, low) < k <= count_at_most(s, high),
    ensures
        has_rank(s, k, ranked(s, k)),
    decreases high - low,
{
    if high == low + 1 {
        assert(has_rank(s, k, high as u32));
    } else if count_at_most(s, high - 1) < k {
        assert(has_rank(s, k, high as u32));
    } else {
        lemma_rank_between(s, k, low, high - 1);
    }
}

proof fn lemma_count_is_member(s: Seq<u32>, v: u32)
    requires
        count_at_most(s, v - 1) < count_at_most(s, v as int),
    ensures
        s.contains(v),
    decreases s.len(),
{
    if s.len() > 0 {
        if s.last() == v {
            assert(s[s.len() - 1] == v);
        } else {
            lemma_count_is_member(s.drop_last(), v);
            let i = choose|i: int| 0 <= i < s.drop_last().len() && s.drop_last()[i] == v;
            assert(s[i] == v);
        }
    }
}

proof fn lemma_all_at_most(s: Seq<u32>, v: int)
    requires
        count_at_most(s, v) >= s.len(),
    ensures
        forall|i: int| 0 <= i < s.len() ==> s[i] <= v,
    decreases s.len(),
{
    if s.len() > 0 {
        lemma_count_grows(s.drop_last(), v, v);
        lemma_all_at_most(s.drop_last(), v);
        assert forall|i: int| 0 <= i < s.len() implies s[i] <= v by {
            if i < s.len() - 1 {
                assert(s.drop_last()[i] <= v);
            }
        }
    }
}

/// The value of the first metric called `name`.
pub open spec fn value_named(series: Seq<MetricView>, name: Seq<char>) -> Option<ValueView>
    decreases series.len(),
{
    if series.len() == 0 {
        None
    } else if series.first().name == name {
        Some(series.first().value)
    } else {
        value_named(series.drop_first(), name)
    }
}

proof fn lemma_value_named(series: Seq<MetricView>, k: int)
    requires
        0 <= k < series.len(),
        forall|i: int| 0 <= i < k ==> (#[trigger] series[i]).name != series[k].name,
    ensures
        value_named(series, series[k].name) == Some(series[k].value),
    decreases series.len(),
{
    if k > 0 {
        assert(series[0].name != series[k].name);
        let rest = series.drop_first();
        assert forall|i: int| 0 <= i < k - 1 implies (#[trigger] rest[i]).name
            != rest[k - 1].name by {
            assert(series[i + 1] == rest[i]);
        }
        lemma_value_named(rest, k - 1);
    }
}

proof fn lemma_series_value(a: AggView, secs: u64, k: int)
    requires
        0 <= k < 24,
    ensures
        metrics_of(a, secs).len() == 24,
        value_named(metrics_of(a, secs), metrics_of(a, secs)[k].name) == Some(
            metrics_of(a, secs)[k].value,
        ),
{
    assert forall|i: int| 0 <= i < k implies (#[trigger] metrics_of(a, secs)[i]).name
        != metrics_of(a, secs)[k].name by {
        series_names_differ(a, secs, i, k);
    }
    lemma_value_named(metrics_of(a, secs), k);
}

/// How many of the lines have a property.
pub open spec fn count_lines(lines: Seq<Seq<char>>, p: spec_fn(Seq<char>) -> bool) -> nat
    decreases lines.len(),
{
    if lines.len() == 0 {
        0
    } else {
        count_lines(lines.drop_last(), p) + if p(lines.last()) {
            1nat
        } else {
            0nat
        }
    }
}

/// Whether a line tells of a query and gives the field `key` the value `n`.
pub open spec fn tells(line: Seq<char>, key: Seq<char>, n: nat) -> bool {
    query_of(line) is Some && number_field(line, key, 65535) == Some(n)
}

/// Whether a line tells of a query and gives the field `key` any value.
pub open spec fn tells_any(line: Seq<char>, key: Seq<char>) -> bool {
    query_of(line) is Some && number_field(line, key, 65535) is Some
}

/// What the series of a window with the given lines tell under a name.
pub open spec fn told(lines: Seq<Seq<char>>, secs: u64, name: Seq<char>) -> Option<ValueView> {
    value_named(metrics_of(observed_all(empty_window(), lines), secs), name)
}

proof fn lemma_count_bound(lines: Seq<Seq<char>>, p: spec_fn(Seq<char>) -> bool)
    ensures
        count_lines(lines, p) <= lines.len(),
    decreases lines.len(),
{
    if lines.len() > 0 {
        lemma_count_bound(lines.drop_last(), p);
    }
}

proof fn lemma_protocols(lines: Seq<Seq<char>>)
    ensures
        observed_all(empty_window(), lines).udp == count_lines(
            lines,
            |l: Seq<char>| query_of(l) == Some(false),
        ),
        observed_all(empty_window(), lines).tcp == count_lines(
            lines,
            |l: Seq<char>| query_of(l) == Some(true),
        ),
        count_lines(lines, |l: Seq<char>| query_of(l) is Some) == count_lines(
            lines,
            |l: Seq<char>| query_of(l) == Some(false),
        ) + count_lines(lines, |l: Seq<char>| query_of(l) == Some(true)),
    decreases lines.len(),
{
    if lines.len() > 0 {
        lemma_protocols(lines.drop_last());
    }
}

proof fn lemma_tallies(lines: Seq<Seq<char>>, n: u16)
    requires
        lines.len() <= u64::MAX,
    ensures
        count_of(observed_all(empty_window(), lines).rcode, n) == count_lines(
            lines,
            |l: Seq<char>| tells(l, "rcode"@, n as nat),
        ),
        count_of(observed_all(empty_window(), lines).qtype, n) == count_lines(
            lines,
            |l: Seq<char>| tells(l, "qtype"@, n as nat),
        ),
    decreases lines.len(),
{
    if lines.len() > 0 {
        let before = lines.drop_last();
        let line = lines.last();
        lemma_tallies(before, n);
        lemma_count_bound(before, |l: Seq<char>| tells(l, "rcode"@, n as nat));
        lemma_count_bound(before, |l: Seq<char>| tells(l, "qtype"@, n as nat));
    }
}

proof fn lemma_totals(lines: Seq<Seq<char>>)
    requires
        lines.len() <= u64::MAX,
    ensures
        total_of(observed_all(empty_window(), lines).rcode) == count_lines(
            lines,
            |l: Seq<char>| tells_any(l, "rcode"@),
        ),
        total_of(observed_all(empty_window(), lines).qtype) == count_lines(
            lines,
            |l: Seq<char>| tells_any(l, "qtype"@),
        ),
    decreases lines.len(),
{
    if lines.len() == 0 {
        lemma_total_empty(65536);
    } else {
        let before = lines.drop_last();
        let line = lines.last();
        let a = observed_all(empty_window(), before);
        lemma_totals(before);
        lemma_count_bound(before, |l: Seq<char>| tells_any(l, "rcode"@));
        lemma_count_bound(before, |l: Seq<char>| tells_any(l, "qtype"@));
        if let Some(n) = number_field(line, "rcode"@, 65535) {
            lemma_tallied(a.rcode, n as u16);
        }
        if let Some(n) = number_field(line, "qtype"@, 65535) {
            lemma_tallied(a.qtype, n as u16);
        }
    }
}

/// The series of a window say, each under its name, how many of its lines tell of a
/// query over each protocol, with each response code and of each type.
#[verifier::rlimit(60)]
pub proof fn series_count_the_lines(lines: Seq<Seq<char>>, secs: u64)
    requires
        lines.len() <= u64::MAX,
    ensures
        told(lines, secs, "dns.qps"@) == Some(
            ValueView::Rate {
                count: count_lines(lines, |l: Seq<char>| query_of(l) is Some) as u64,
                secs: if secs == 0 {
                    1
                } else {
                    secs
                },
            },
        ),
        told(lines, secs, "dns.queries"@) == Some(
            ValueView::Count(count_lines(lines, |l: Seq<char>| query_of(l) is Some) as u64),
        ),
        told(lines, secs, "dns.proto.udp"@) == Some(
            ValueView::Count(count_lines(lines, |l: Seq<char>| query_of(l) == Some(false)) as u64),
        ),
        told(lines, secs, "dns.proto.tcp"@) == Some(
            ValueView::Count(count_lines(lines, |l: Seq<char>| query_of(l) == Some(true)) as u64),
        ),
        told(lines, secs, "dns.rcode.noerror"@) == Some(
            ValueView::Count(count_lines(lines, |l: Seq<char>| tells(l, "rcode"@, 0)) as u64),
        ),
        told(lines, secs, "dns.rcode.formerr"@) == Some(
            ValueView::Count(count_lines(lines, |l: Seq<char>| tells(l, "rcode"@, 1)) as u64),
        ),
        told(lines, secs, "dns.rcode.servfail"@) == Some(
            ValueView::Count(count_lines(lines, |l: Seq<char>| tells(l, "rcode"@, 2)) as u64),
        ),
        told(lines, secs, "dns.rcode.nxdomain"@) == Some(
            ValueView::Count(count_lines(lines, |l: Seq<char>| tells(l, "rcode"@, 3)) as u64),
        ),
        told(lines, secs, "dns.rcode.refused"@) == Some(
            ValueView::Count(count_lines(lines, |l: Seq<char>| tells(l, "rcode"@, 5)) as u64),
        ),
        told(lines, secs, "dns.qtype.a"@) == Some(
            ValueView::Count(count_lines(lines, |l: Seq<char>| tells(l, "qtype"@, 1)) as u64),
        ),
        told(lines, secs, "dns.qtype.aaaa"@) == Some(
            ValueView::Count(count_lines(lines, |l: Seq<char>| tells(l, "qtype"@, 28)) as u64),
        ),
        told(lines, secs, "dns.qtype.mx"@) == Some(
            ValueView::Count(count_lines(lines, |l: Seq<char>| tells(l, "qtype"@, 15)) as u64),
        ),
        told(lines, secs, "dns.qtype.txt"@) == Some(
            ValueView::Count(count_lines(lines, |l: Seq<char>| tells(l, "qtype"@, 16)) as u64),
        ),
        told(lines, secs, "dns.qtype.ns"@) == Some(
            ValueView::Count(count_lines(lines, |l: Seq<char>| tells(l, "qtype"@, 2)) as u64),
        ),
        told(lines, secs, "dns.qtype.soa"@) == Some(
            ValueView::Count(count_lines(lines, |l: Seq<char>| tells(l, "qtype"@, 6)) as u64),
        ),
        told(lines, secs, "dns.qtype.ptr"@) == Some(
            ValueView::Count(count_lines(lines, |l: Seq<char>| tells(l, "qtype"@, 12)) as u64),
        ),
        told(lines, secs, "dns.qtype.cname"@) == Some(
            ValueView::Count(count_lines(lines, |l: Seq<char>| tells(l, "qtype"@, 5)) as u64),
        ),
        told(lines, secs, "dns.qtype.srv"@) == Some(
            ValueView::Count(count_lines(lines, |l: Seq<char>| tells(l, "qtype"@, 33)) as u64),
        ),
        told(lines, secs, "dns.qtype.caa"@) == Some(
            ValueView::Count(count_lines(lines, |l: Seq<char>| tells(l, "qtype"@, 257)) as u64),
        ),
{
    let a = observed_all(empty_window(), lines);
    lemma_protocols(lines);
    lemma_count_bound(lines, |l: Seq<char>| query_of(l) is Some);
    lemma_count_bound(lines, |l: Seq<char>| query_of(l) == Some(false));
    lemma_count_bound(lines, |l: Seq<char>| query_of(l) == Some(true));
    lemma_tallies(lines, 0);
    lemma_tallies(lines, 1);
    lemma_tallies(lines, 2);
    lemma_tallies(lines, 3);
    lemma_tallies(lines, 5);
    lemma_tallies(lines, 6);
    lemma_tallies(lines, 12);
    lemma_tallies(lines, 15);
    lemma_tallies(lines, 16);
    lemma_tallies(lines, 28);
    lemma_tallies(lines, 33);
    lemma_tallies(lines, 257);
    lemma_series_value(a, secs, 0);
    lemma_series_value(a, secs, 1);
    lemma_series_value(a, secs, 2);
    lemma_series_value(a, secs, 3);
    lemma_series_value(a, secs, 4);
    lemma_series_value(a, secs, 5);
    lemma_series_value(a, secs, 6);
    lemma_series_value(a, secs, 7);
    lemma_series_value(a, secs, 8);
    lemma_series_value(a, secs, 9);
    lemma_series_value(a, secs, 10);
    lemma_series_value(a, secs, 11);
    lemma_series_value(a, secs, 12);
    lemma_series_value(a, secs, 13);
    lemma_series_value(a, secs, 14);
    lemma_series_value(a, secs, 15);
    lemma_series_value(a, secs, 16);
    lemma_series_value(a, secs, 17);
    lemma_series_value(a, secs, 18);
    lemma_series_value(a, secs, 19);
    lemma_series_value(a, secs, 20);
}

/// The series of what is left over count the lines that tell a response code, or a
/// type, that no other series counts.
pub proof fn other_series_count_the_rest(lines: Seq<Seq<char>>, secs: u64)
    requires
        lines.len() <= u64::MAX,
    ensures
        told(lines, secs, "dns.rcode.other"@) == Some(
            ValueView::Count(
                count_lines(
                    lines,
                    |l: Seq<char>|
                        tells_any(l, "rcode"@) && !tells(l, "rcode"@, 0) && !tells(
                            l,
                            "rcode"@,
                            1,
                        ) && !tells(l, "rcode"@, 2) && !tells(l, "rcode"@, 3) && !tells(
                            l,
                            "rcode"@,
                            5,
                        ),
                ) as u64,
            ),
        ),
        told(lines, secs, "dns.qtype.other"@) == Some(
            ValueView::Count(
                count_lines(
                    lines,
                    |l: Seq<char>|
                        tells_any(l, "qtype"@) && !tells(l, "qtype"@, 1) && !tells(
                            l,
                            "qtype"@,
                            28,
                        ) && !tells(l, "qtype"@, 15) && !tells(l, "qtype"@, 16) && !tells(
                            l,
                            "qtype"@,
                            2,
                        ) && !tells(l, "qtype"@, 6) && !tells(l, "qtype"@, 12) && !tells(
                            l,
                            "qtype"@,
                            5,
                        ) && !tells(l, "qtype"@, 33) && !tells(l, "qtype"@, 257),
                ) as u64,
            ),
        ),
{
    let a = observed_all(empty_window(), lines);
    lemma_totals(lines);
    lemma_sum_counts_known(a.rcode);
    lemma_sum_counts_known(a.qtype);
    lemma_tallies(lines, 0);
    lemma_tallies(lines, 1);
    lemma_tallies(lines, 2);
    lemma_tallies(lines, 3);
    lemma_tallies(lines, 5);
    lemma_tallies(lines, 6);
    lemma_tallies(lines, 12);
    lemma_tallies(lines, 15);
    lemma_tallies(lines, 16);
    lemma_tallies(lines, 28);
    lemma_tallies(lines, 33);
    lemma_tallies(lines, 257);
    lemma_left_over(lines);
    lemma_series_value(a, secs, 9);
    lemma_series_value(a, secs, 20);
}

#[verifier::rlimit(40)]
proof fn lemma_left_over(lines: Seq<Seq<char>>)
    ensures
        count_lines(lines, |l: Seq<char>| tells_any(l, "rcode"@)) == count_lines(
            lines,
            |l: Seq<char>|
                tells_any(l, "rcode"@) && !tells(l, "rcode"@, 0) && !tells(l, "rcode"@, 1)
                    && !tells(l, "rcode"@, 2) && !tells(l, "rcode"@, 3) && !tells(l, "rcode"@, 5),
        ) + count_lines(lines, |l: Seq<char>| tells(l, "rcode"@, 0))
            + count_lines(lines, |l: Seq<char>| tells(l, "rcode"@, 1))
            + count_lines(lines, |l: Seq<char>| tells(l, "rcode"@, 2))
            + count_lines(lines, |l: Seq<char>| tells(l, "rcode"@, 3))
            + count_lines(lines, |l: Seq<char>| tells(l, "rcode"@, 5)),
        count_lines(lines, |l: Seq<char>| tells_any(l, "qtype"@)) == count_lines(
            lines,
            |l: Seq<char>|
                tells_any(l, "qtype"@) && !tells(l, "qtype"@, 1) && !tells(l, "qtype"@, 28)
                    && !tells(l, "qtype"@, 15) && !tells(l, "qtype"@, 16) && !tells(
                    l,
                    "qtype"@,
                    2,
                ) && !tells(l, "qtype"@, 6) && !tells(l, "qtype"@, 12) && !tells(l, "qtype"@, 5)
                    && !tells(l, "qtype"@, 33) && !tells(l, "qtype"@, 257),
        ) + count_lines(lines, |l: Seq<char>| tells(l, "qtype"@, 1))
            + count_lines(lines, |l: Seq<char>| tells(l, "qtype"@, 28))
            + count_lines(lines, |l: Seq<char>| tells(l, "qtype"@, 15))
            + count_lines(lines, |l: Seq<char>| tells(l, "qtype"@, 16))
            + count_lines(lines, |l: Seq<char>| tells(l, "qtype"@, 2))
            + count_lines(lines, |l: Seq<char>| tells(l, "qtype"@, 6))
            + count_lines(lines, |l: Seq<char>| tells(l, "qtype"@, 12))
            + count_lines(lines, |l: Seq<char>| tells(l, "qtype"@, 5))
            + count_lines(lines, |l: Seq<char>| tells(l, "qtype"@, 33))
            + count_lines(lines, |l: Seq<char>| tells(l, "qtype"@, 257)),
    decreases lines.len(),
{
    if lines.len() > 0 {
        lemma_left_over(lines.drop_last());
    }
}

/// A line tells of a query over UDP where it holds those words anywhere, of one over
/// TCP where it holds those and not the former, and else of none.
pub proof fn queries_are_told_by_their_words(a: Seq<char>, b: Seq<char>, line: Seq<char>)
    ensures
        query_of(a + "UDP query"@ + b) == Some(false),
        !contains_text(a + "TCP query"@ + b, "UDP query"@) ==> query_of(a + "TCP query"@ + b)
            == Some(true),
        query_of(line) is Some ==> exists|x: Seq<char>, y: Seq<char>|
            line == #[trigger] ((x + "UDP query"@) + y) || line == x + "TCP query"@ + y,
{
    found_where_it_stands(a, "UDP query"@, b);
    found_where_it_stands(a, "TCP query"@, b);
    if query_of(line) == Some(true) {
        let (x, y) = choose|x: Seq<char>, y: Seq<char>| line == #[trigger] ((x + "TCP query"@) + y);
        assert((x + "UDP query"@) + y == (x + "UDP query"@) + y);
    }
}

proof fn lemma_first_word_is(word: Seq<char>, rest: Seq<char>)
    requires
        forall|i: int| 0 <= i < word.len() ==> !is_space(#[trigger] word[i]),
        rest.len() == 0 || is_space(rest[0]),
    ensures
        first_word(word + rest) == word,
{
    let all = word + rest;
    assert forall|k: int| 0 <= k < word.len() implies !is_space(#[trigger] all[k]) by {
        assert(all[k] == word[k]);
    }
    if rest.len() > 0 {
        assert(all[word.len() as int] == rest[0]);
    }
    lemma_first_word(all, word.len() as int);
    assert(all.take(word.len() as int) =~= word);
}

/// The number of a field is read wherever the field stands at the start of the line
/// or behind what is no letter, digit or `_`, for every number that fits.
pub proof fn field_number_is_read(
    before: Seq<char>,
    key: Seq<char>,
    n: nat,
    max: nat,
    rest: Seq<char>,
)
    requires
        before.len() == 0 || !('a' <= before.last() <= 'z' || 'A' <= before.last() <= 'Z' || '0'
            <= before.last() <= '9' || before.last() == '_'),
        rest.len() == 0 || is_space(rest[0]),
        forall|at: int|
            0 <= at < before.len() ==> !occurs_at(
                before + (key.push('=') + (digits_of(n) + rest)),
                key.push('='),
                at,
            ),
    ensures
        field_of(before + (key.push('=') + (digits_of(n) + rest)), key) == Some(digits_of(n)),
        number_field(before + (key.push('=') + (digits_of(n) + rest)), key, max) == if n <= max {
            Some(n)
        } else {
            None
        },
{
    let pattern = key.push('=');
    let value = digits_of(n) + rest;
    let line = before + (pattern + value);
    let at = before.len() as int;
    digits_stand_for_their_number(n);
    lemma_field_skips(line, pattern, 0, at);
    assert(line.subrange(at, at + pattern.len()) =~= pattern);
    assert(line.skip(at + pattern.len()) =~= value);
    if at > 0 {
        assert(line[at - 1] == before.last());
    }
    lemma_first_word_is(digits_of(n), rest);
}

/// A field is not found inside a longer name: where a letter, a digit or `_` stands
/// before it, and it stands nowhere else, the line does not have it.
pub proof fn field_needs_its_own_name(before: Seq<char>, c: char, key: Seq<char>, rest: Seq<char>)
    requires
        'a' <= c <= 'z' || 'A' <= c <= 'Z' || '0' <= c <= '9' || c == '_',
        forall|at: int|
            at != before.len() + 1 ==> !occurs_at(
                before.push(c) + (key.push('=') + rest),
                key.push('='),
                at,
            ),
    ensures
        field_of(before.push(c) + (key.push('=') + rest), key) is None,
{
    let pattern = key.push('=');
    let line = before.push(c) + (pattern + rest);
    let at = before.len() as int + 1;
    lemma_field_skips(line, pattern, 0, at);
    assert(line[at - 1] == c);
    assert(line.subrange(at, at + pattern.len()) =~= pattern);
    lemma_field_skips(line, pattern, at + pattern.len(), line.len() as int + pattern.len());
}

/// A line that does not hold the field at all does not have it.
pub proof fn missing_field_is_not_found(line: Seq<char>, key: Seq<char>)
    requires
        !contains_text(line, key.push('=')),
    ensures
        field_of(line, key) is None,
{
    let pattern = key.push('=');
    assert forall|k: int| 0 <= k < line.len() + 1 implies !occurs_at(line, pattern, k) by {
        if occurs_at(line, pattern, k) {
            assert(contains_text(line, pattern));
        }
    }
    lemma_field_skips(line, pattern, 0, line.len() as int + 1);
}

/// The latencies of a window are those that its queries tell, in order, up to the
/// first fifty thousand.
pub proof fn latencies_are_kept_in_order(a: AggView, line: Seq<char>)
    ensures
        observed(a, line).lat_us == match number_field(line, "elapsed_us"@, 0xffff_ffff) {
            Some(us) if query_of(line) is Some && a.lat_us.len() < 50_000 => a.lat_us.push(
                us as u32,
            ),
            _ => a.lat_us,
        },
{
}

proof fn lemma_count_is_filter(s: Seq<u32>, v: int)
    ensures
        count_at_most(s, v) == s.filter(|x: u32| x <= v).len(),
    decreases s.len(),
{
    reveal(Seq::filter);
    if s.len() > 0 {
        lemma_count_is_filter(s.drop_last(), v);
    }
}

/// The latency series of a window with samples: the mean is off by no more than one
/// half, the percentile is a sample that at least 95 % of the samples do not exceed
/// while fewer than 95 % lie below it, and the maximum is the largest sample.
pub proof fn latency_series_describe_the_samples(a: AggView, secs: u64)
    requires
        a.lat_us.len() > 0,
    ensures
        ({
            let s = a.lat_us;
            let series = metrics_of(a, secs);
            let avg = value_named(series, "dns.latency_us.avg"@)->0->Count_0;
            let p95 = value_named(series, "dns.latency_us.p95"@)->0->Count_0;
            let max = value_named(series, "dns.latency_us.max"@)->0->Count_0;
            &&& value_named(series, "dns.latency_us.avg"@) == Some(ValueView::Count(avg))
            &&& value_named(series, "dns.latency_us.p95"@) == Some(ValueView::Count(p95))
            &&& value_named(series, "dns.latency_us.max"@) == Some(ValueView::Count(max))
            &&& 2 * sum_of(s) - s.len() < 2 * s.len() * avg
            &&& 2 * s.len() * avg <= 2 * sum_of(s) + s.len()
            &&& s.contains(p95 as u32) && p95 <= u32::MAX
            &&& 20 * s.filter(|x: u32| x <= p95 as int).len() >= 19 * s.len()
            &&& 20 * s.filter(|x: u32| x <= p95 as int - 1).len() < 19 * s.len()
            &&& s.contains(max as u32) && max <= u32::MAX
            &&& forall|i: int| 0 <= i < s.len() ==> s[i] <= max
        }),
{
    let s = a.lat_us;
    let n = s.len();
    let k = p95_rank(n) as int;
    lemma_series_value(a, secs, 21);
    lemma_series_value(a, secs, 22);
    lemma_series_value(a, secs, 23);
    percentiles_are_ranks(s);
    lemma_rank_exists(s, k);
    let p95 = ranked(s, k);
    lemma_count_is_filter(s, p95 as int);
    lemma_count_is_filter(s, p95 as int - 1);
    lemma_sum_is_bounded(s);
    lemma_mean_bound(sum_of(s), n);
    lemma_mean_is_near(sum_of(s), n);
}

proof fn lemma_sum_is_bounded(s: Seq<u32>)
    ensures
        sum_of(s) <= s.len() * 0xffff_ffff,
    decreases s.len(),
{
    if s.len() > 0 {
        lemma_sum_is_bounded(s.drop_last());
    }
}

proof fn lemma_mean_is_near(sum: nat, n: nat)
    requires
        n > 0,
    ensures
        2 * sum - n < 2 * n * nearest_mean(sum, n),
        2 * n * nearest_mean(sum, n) <= 2 * sum + n,
{
    let x = 2 * sum + n;
    let d = 2 * n;
    assert(d * (x / d) <= x && x < d * (x / d) + d) by (nonlinear_arith)
        requires
            d > 0,
            x >= 0,
    ;
}

/// Samples add up part by part.
pub proof fn sums_add_up(a: Seq<u32>, b: Seq<u32>, x: u32)
    ensures
        sum_of(a + b) == sum_of(a) + sum_of(b),
        sum_of(seq![x]) == x,
    decreases b.len(),
{
    assert(seq![x].drop_last() =~= Seq::empty());
    assert(sum_of(seq![x].drop_last()) == 0);
    if b.len() == 0 {
        assert(a + b =~= a);
    } else {
        sums_add_up(a, b.drop_last(), x);
        assert((a + b).drop_last() =~= a + b.drop_last());
    }
}

/// The value of a field is the word behind it, whatever that is; it is a number where it
/// is made of digits alone, of which there is at least one, and fits.
pub proof fn field_value_is_the_word_behind(
    before: Seq<char>,
    key: Seq<char>,
    value: Seq<char>,
    max: nat,
    rest: Seq<char>,
)
    requires
        before.len() == 0 || !('a' <= before.last() <= 'z' || 'A' <= before.last() <= 'Z' || '0'
            <= before.last() <= '9' || before.last() == '_'),
        forall|i: int| 0 <= i < value.len() ==> !is_space(#[trigger] value[i]),
        rest.len() == 0 || is_space(rest[0]),
        forall|at: int|
            0 <= at < before.len() ==> !occurs_at(
                before + (key.push('=') + (value + rest)),
                key.push('='),
                at,
            ),
    ensures
        field_of(before + (key.push('=') + (value + rest)), key) == Some(value),
        value.len() == 0 ==> number_field(
            before + (key.push('=') + (value + rest)),
            key,
            max,
        ) is None,
        (exists|i: int| 0 <= i < value.len() && !('0' <= #[trigger] value[i] <= '9'))
            ==> number_field(before + (key.push('=') + (value + rest)), key, max) is None,
        value.len() > 0 && (forall|i: int|
            0 <= i < value.len() ==> '0' <= #[trigger] value[i] <= '9') ==> number_field(
            before + (key.push('=') + (value + rest)),
            key,
            max,
        ) == if decimal_of(value) <= max {
            Some(decimal_of(value))
        } else {
            None
        },
{
    let pattern = key.push('=');
    let line = before + (pattern + (value + rest));
    let at = before.len() as int;
    lemma_field_skips(line, pattern, 0, at);
    assert(line.subrange(at, at + pattern.len()) =~= pattern);
    assert(line.skip(at + pattern.len()) =~= value + rest);
    if at > 0 {
        assert(line[at - 1] == before.last());
    }
    lemma_first_word_is(value, rest);
    if exists|i: int| 0 <= i < value.len() && !('0' <= #[trigger] value[i] <= '9') {
        let i = choose|i: int| 0 <= i < value.len() && !('0' <= #[trigger] value[i] <= '9');
        assert(!is_digit(value[i]));
        assert(!is_number(value));
    }
}

proof fn lemma_field_in_rest(line: Seq<char>, pattern: Seq<char>, cut: int, at: int)
    requires
        0 < cut <= at,
        cut <= line.len(),
        pattern.len() > 0,
        !is_word(line[cut - 1]),
    ensures
        field_from(line, pattern, at) == field_from(line.skip(cut), pattern, at - cut),
    decreases line.len() - at,
{
    let tail = line.skip(cut);
    if at <= line.len() - pattern.len() {
        assert(line.subrange(at, at + pattern.len()) =~= tail.subrange(
            at - cut,
            at - cut + pattern.len(),
        ));
        assert(occurs_at(line, pattern, at) == occurs_at(tail, pattern, at - cut));
        if !occurs_at(line, pattern, at) {
            lemma_field_in_rest(line, pattern, cut, at + 1);
        } else {
            assert(line.skip(at + pattern.len()) =~= tail.skip(at - cut + pattern.len()));
            if at > cut {
                assert(line[at - 1] == tail[at - cut - 1]);
            }
            lemma_field_in_rest(line, pattern, cut, at + pattern.len());
        }
    }
}

/// A longer name that ends like the field's is passed over: the field is looked for in
/// what follows.
pub proof fn longer_names_are_passed_over(
    before: Seq<char>,
    c: char,
    key: Seq<char>,
    rest: Seq<char>,
)
    requires
        'a' <= c <= 'z' || 'A' <= c <= 'Z' || '0' <= c <= '9' || c == '_',
        forall|at: int|
            0 <= at <= before.len() ==> !occurs_at(
                before.push(c) + (key.push('=') + rest),
                key.push('='),
                at,
            ),
    ensures
        field_of(before.push(c) + (key.push('=') + rest), key) == field_of(rest, key),
{
    let pattern = key.push('=');
    let line = before.push(c) + (pattern + rest);
    let at = before.len() as int + 1;
    let cut = at + pattern.len();
    lemma_field_skips(line, pattern, 0, at);
    assert(line[at - 1] == c);
    assert(line.subrange(at, cut) =~= pattern);
    assert(line[cut - 1] == '=');
    assert(line.skip(cut) =~= rest);
    lemma_field_in_rest(line, pattern, cut, cut);
}

} // verus!
