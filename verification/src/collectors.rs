//! What the host's own counters say: processor, memory, disks, load, uptime and
//! network, read from the text of the kernel's files.

use vstd::prelude::*;
use vstd::string::StringExecFns;

use crate::text::{
    borrowed_view, chars_of, cut_at_the_first, digits_of, digits_stand_for_their_number,
    end_characters_are_dropped, is_blank, is_one_word, is_space, line_stands_alone, lines,
    lines_of, lines_of_joined, owned_view, parse_unsigned, pieces, replace, replace_of, same,
    same_chars, split_once, split_once_of, string_of, trim, trim_end_char, trim_end_char_of,
    trim_keeps, trim_of, trim_undoes_padding, unsigned_is_read_back, unsigned_of,
    word_stands_alone, words, words_of, words_of_joined, words_of_padded,
};

verus! {

/// A measured value before it is turned into one number for display.
pub enum Value {
    /// A plain count.
    Count(u64),
    /// So many in so many seconds.
    Rate { count: u64, secs: u64 },
    /// A part of a whole, shown in percent to one decimal.
    Percent { part: u64, whole: u64 },
    /// The share of the time that was not idle, shown in percent to one decimal.
    Busy { idle: u64, total: u64 },
    /// A number of bytes, shown in gibibytes to one decimal.
    Gib(u64),
    /// A decimal number as text; the metric is left out where it cannot be read.
    Decimal(String),
    /// A decimal number as text, shown to the nearest integer.
    Rounded(String),
}

/// A named measured value.
pub struct Metric {
    pub name: String,
    pub value: Value,
}

/// The mathematical form of [`Value`].
pub enum ValueView {
    Count(u64),
    Rate { count: u64, secs: u64 },
    Percent { part: u64, whole: u64 },
    Busy { idle: u64, total: u64 },
    Gib(u64),
    Decimal(Seq<char>),
    Rounded(Seq<char>),
}

/// The mathematical form of [`Metric`].
pub struct MetricView {
    pub name: Seq<char>,
    pub value: ValueView,
}

impl View for Value {
    type V = ValueView;

    open spec fn view(&self) -> ValueView {
        match *self {
            Value::Count(n) => ValueView::Count(n),
            Value::Rate { count, secs } => ValueView::Rate { count, secs },
            Value::Percent { part, whole } => ValueView::Percent { part, whole },
            Value::Busy { idle, total } => ValueView::Busy { idle, total },
            Value::Gib(bytes) => ValueView::Gib(bytes),
            Value::Decimal(s) => ValueView::Decimal(s@),
            Value::Rounded(s) => ValueView::Rounded(s@),
        }
    }
}

impl View for Metric {
    type V = MetricView;

    open spec fn view(&self) -> MetricView {
        MetricView { name: self.name@, value: self.value@ }
    }
}

/// The mathematical form of a list of metrics.
pub open spec fn metrics_view(metrics: Seq<Metric>) -> Seq<MetricView> {
    metrics.map_values(|m: Metric| m@)
}

/// A metric with the given name and value, in mathematical form.
pub open spec fn metric(name: Seq<char>, value: ValueView) -> MetricView {
    MetricView { name, value }
}

impl Metric {
    /// A copy of the metric.
    pub fn copied(&self) -> (copy: Metric)
        ensures
            copy@ == self@,
    {
        let value = match &self.value {
            Value::Count(n) => Value::Count(*n),
            Value::Rate { count, secs } => Value::Rate { count: *count, secs: *secs },
            Value::Percent { part, whole } => Value::Percent { part: *part, whole: *whole },
            Value::Busy { idle, total } => Value::Busy { idle: *idle, total: *total },
            Value::Gib(bytes) => Value::Gib(*bytes),
            Value::Decimal(s) => Value::Decimal(s.clone()),
            Value::Rounded(s) => Value::Rounded(s.clone()),
        };
        Metric { name: self.name.clone(), value }
    }
}

/// A copy of a list of metrics.
pub fn copy_metrics(metrics: &[Metric]) -> (out: Vec<Metric>)
    ensures
        metrics_view(out@) == metrics_view(metrics@),
{
    let mut out: Vec<Metric> = Vec::new();
    let mut i: usize = 0;
    while i < metrics.len()
        invariant
            i <= metrics.len(),
            out@.len() == i,
            forall|k: int| 0 <= k < i ==> (#[trigger] out@[k])@ == metrics@[k]@,
        decreases metrics.len() - i,
    {
        out.push(metrics[i].copied());
        i += 1;
    }
    assert(metrics_view(out@) =~= metrics_view(metrics@));
    out
}

/// A count or a size does not fit in 64 bits.
#[derive(Debug, Clone, Copy, PartialEq, Eq)]
pub struct OutOfRange;

pub(crate) proof fn lemma_metrics_push(metrics: Seq<Metric>, m: Metric)
    ensures
        metrics_view(metrics.push(m)) == metrics_view(metrics).push(m@),
{
    assert(metrics_view(metrics.push(m)) =~= metrics_view(metrics).push(m@));
}

fn push_metric(out: &mut Vec<Metric>, name: String, value: Value)
    ensures
        metrics_view(final(out)@) == metrics_view(old(out)@).push(metric(name@, value@)),
{
    let m = Metric { name, value };
    proof {
        lemma_metrics_push(out@, m);
    }
    out.push(m);
}

pub(crate) fn extend_metrics(out: &mut Vec<Metric>, more: Vec<Metric>)
    ensures
        metrics_view(final(out)@) == metrics_view(old(out)@) + metrics_view(more@),
{
    let ghost before = out@;
    let mut more = more;
    let ghost added = more@;
    out.append(&mut more);
    assert(metrics_view(out@) =~= metrics_view(before) + metrics_view(added));
}

/// The words that are unsigned 64-bit numbers, as numbers; the others do not count.
pub open spec fn numbers_of(words: Seq<Seq<char>>) -> Seq<u64>
    decreases words.len(),
{
    if words.len() == 0 {
        Seq::empty()
    } else {
        let before = numbers_of(words.drop_last());
        match unsigned_of(words.last(), u64::MAX as nat) {
            Some(n) => before.push(n as u64),
            None => before,
        }
    }
}

fn numbers(list: &[&[char]], from: usize) -> (out: Vec<u64>)
    requires
        from <= list@.len(),
    ensures
        out@ == numbers_of(pieces(list@).skip(from as int)),
{
    let mut out: Vec<u64> = Vec::new();
    let mut i: usize = from;
    let ghost all = pieces(list@).skip(from as int);
    while i < list.len()
        invariant
            from <= i <= list.len(),
            all == pieces(list@).skip(from as int),
            out@ == numbers_of(all.take(i - from)),
        decreases list.len() - i,
    {
        assert(all.take(i + 1 - from).drop_last() =~= all.take(i - from));
        assert(all.take(i + 1 - from).last() == list@[i as int]@);
        if let Some(n) = parse_unsigned(list[i], u64::MAX) {
            out.push(n);
        }
        i += 1;
    }
    assert(all.take(list@.len() - from) =~= all);
    out
}

/// The sum of a list of numbers.
pub open spec fn sum_of(list: Seq<u64>) -> nat
    decreases list.len(),
{
    if list.len() == 0 {
        0
    } else {
        sum_of(list.drop_last()) + list.last() as nat
    }
}

proof fn lemma_sum_grows(list: Seq<u64>, n: int)
    requires
        0 <= n <= list.len(),
    ensures
        sum_of(list.take(n)) <= sum_of(list),
    decreases list.len() - n,
{
    if n < list.len() {
        assert(list.take(n + 1).drop_last() =~= list.take(n));
        lemma_sum_grows(list, n + 1);
    } else {
        assert(list.take(n) =~= list);
    }
}

fn sum(list: &[u64]) -> (total: Option<u64>)
    ensures
        match total {
            Some(t) => t == sum_of(list@),
            None => sum_of(list@) > u64::MAX,
        },
{
    let mut total: u64 = 0;
    let mut i: usize = 0;
    assert(list@.take(0) =~= Seq::empty());
    while i < list.len()
        invariant
            i <= list.len(),
            total == sum_of(list@.take(i as int)),
        decreases list.len() - i,
    {
        assert(list@.take(i + 1).drop_last() =~= list@.take(i as int));
        proof {
            lemma_sum_grows(list@, i + 1);
        }
        if list[i] > u64::MAX - total {
            return None;
        }
        total += list[i];
        i += 1;
    }
    assert(list@.take(list@.len() as int) =~= list@);
    Some(total)
}

/// What the processor has done since the host was started.
#[derive(Debug, Clone, Copy)]
pub enum CpuReading {
    /// The text does not say.
    Absent,
    /// The times do not add up within 64 bits.
    OutOfRange,
    /// The idle time and the whole time, in ticks.
    Times { idle: u64, total: u64 },
}

/// The times in the first line of `/proc/stat`: all numbers behind its name.
pub open spec fn cpu_times_of(stat: Seq<char>) -> Seq<u64> {
    let lines = lines_of(stat);
    if lines.len() == 0 || words_of(lines[0]).len() == 0 {
        Seq::empty()
    } else {
        numbers_of(words_of(lines[0]).skip(1))
    }
}

/// What `/proc/stat` says. The fourth time is the idle time.
pub open spec fn cpu_of(stat: Seq<char>) -> CpuReading {
    let times = cpu_times_of(stat);
    if times.len() < 4 {
        CpuReading::Absent
    } else if sum_of(times) > u64::MAX {
        CpuReading::OutOfRange
    } else {
        CpuReading::Times { idle: times[3], total: sum_of(times) as u64 }
    }
}

/// Reads `/proc/stat`.
pub fn read_cpu(stat: &str) -> (reading: CpuReading)
    ensures
        reading == cpu_of(stat@),
{
    let chars = chars_of(stat);
    let all = lines(chars.as_slice());
    assert(pieces(all@).len() == all@.len());
    if all.len() == 0 {
        return CpuReading::Absent;
    }
    assert(pieces(all@)[0] == all@[0]@);
    let parts = words(all[0]);
    assert(pieces(parts@).len() == parts@.len());
    if parts.len() == 0 {
        return CpuReading::Absent;
    }
    let times = numbers(parts.as_slice(), 1);
    if times.len() < 4 {
        return CpuReading::Absent;
    }
    match sum(times.as_slice()) {
        Some(total) => CpuReading::Times { idle: times[3], total },
        None => CpuReading::OutOfRange,
    }
}

/// `a - b`, or zero where `b` is larger.
pub open spec fn less_or_zero(a: u64, b: u64) -> u64 {
    if a > b {
        (a - b) as u64
    } else {
        0
    }
}

fn less(a: u64, b: u64) -> (d: u64)
    ensures
        d == less_or_zero(a, b),
{
    if a > b {
        a - b
    } else {
        0
    }
}

/// The use of the processor between two readings of `/proc/stat`. There is none
/// where either could not be read, or where no time has passed between them.
pub open spec fn cpu_metrics_of(first: Option<Seq<char>>, second: Option<Seq<char>>) -> Result<
    Seq<MetricView>,
    OutOfRange,
> {
    match optional_cpu(first) {
        CpuReading::Absent => Ok(Seq::empty()),
        CpuReading::OutOfRange => Err(OutOfRange),
        CpuReading::Times { idle: idle1, total: total1 } => match optional_cpu(second) {
            CpuReading::Absent => Ok(Seq::empty()),
            CpuReading::OutOfRange => Err(OutOfRange),
            CpuReading::Times { idle: idle2, total: total2 } => {
                let total = less_or_zero(total2, total1);
                if total == 0 {
                    Ok(Seq::empty())
                } else {
                    Ok(
                        seq![
                            metric(
                                "cpu.usage"@,
                                ValueView::Busy { idle: less_or_zero(idle2, idle1), total },
                            ),
                        ],
                    )
                }
            },
        },
    }
}

/// What `/proc/stat` says, where it could be read.
pub open spec fn optional_cpu(stat: Option<Seq<char>>) -> CpuReading {
    match stat {
        Some(text) => cpu_of(text),
        None => CpuReading::Absent,
    }
}

/// Whether a collection came out as it should.
pub open spec fn collected(
    out: Result<Vec<Metric>, OutOfRange>,
    expected: Result<Seq<MetricView>, OutOfRange>,
) -> bool {
    match expected {
        Ok(metrics) => out matches Ok(list) && metrics_view(list@) == metrics,
        Err(_) => out is Err,
    }
}

fn read_optional_cpu(stat: Option<&str>) -> (reading: CpuReading)
    ensures
        reading == optional_cpu(borrowed_view(stat)),
{
    match stat {
        Some(text) => read_cpu(text),
        None => CpuReading::Absent,
    }
}

fn none_collected() -> (out: Result<Vec<Metric>, OutOfRange>)
    ensures
        collected(out, Ok(Seq::empty())),
{
    let out: Vec<Metric> = Vec::new();
    assert(metrics_view(out@) =~= Seq::empty());
    Ok(out)
}

/// The use of the processor between two readings of `/proc/stat`.
pub fn collect_cpu(first: Option<&str>, second: Option<&str>) -> (out: Result<
    Vec<Metric>,
    OutOfRange,
>)
    ensures
        collected(out, cpu_metrics_of(borrowed_view(first), borrowed_view(second))),
{
    let (idle1, total1): (u64, u64) = match read_optional_cpu(first) {
        CpuReading::Absent => {
            return none_collected();
        },
        CpuReading::OutOfRange => {
            return Err(OutOfRange);
        },
        CpuReading::Times { idle, total } => (idle, total),
    };
    let (idle2, total2): (u64, u64) = match read_optional_cpu(second) {
        CpuReading::Absent => {
            return none_collected();
        },
        CpuReading::OutOfRange => {
            return Err(OutOfRange);
        },
        CpuReading::Times { idle, total } => (idle, total),
    };
    let total: u64 = less(total2, total1);
    if total == 0 {
        return none_collected();
    }
    let mut out: Vec<Metric> = Vec::new();
    push_metric(
        &mut out,
        "cpu.usage".to_string(),
        Value::Busy { idle: less(idle2, idle1), total },
    );
    assert(metrics_view(out@) =~= seq![
        metric("cpu.usage"@, ValueView::Busy { idle: less_or_zero(idle2, idle1), total }),
    ]);
    Ok(out)
}

/// The value that one line of `/proc/meminfo` gives to `key`. The name in front
/// of the value may end with colons.
pub open spec fn line_value_of(line: Seq<char>, key: Seq<char>) -> Option<u64> {
    let parts = words_of(line);
    if parts.len() >= 2 && trim_end_char_of(parts[0], ':') == key {
        match unsigned_of(parts[1], u64::MAX as nat) {
            Some(n) => Some(n as u64),
            None => None,
        }
    } else {
        None
    }
}

/// The value of `key`: what the last line says that gives it one.
pub open spec fn table_value_of(lines: Seq<Seq<char>>, key: Seq<char>) -> Option<u64>
    decreases lines.len(),
{
    if lines.len() == 0 {
        None
    } else {
        match line_value_of(lines.last(), key) {
            Some(n) => Some(n),
            None => table_value_of(lines.drop_last(), key),
        }
    }
}

/// The value of `key`, or zero.
pub open spec fn value_or_zero(lines: Seq<Seq<char>>, key: Seq<char>) -> u64 {
    match table_value_of(lines, key) {
        Some(n) => n,
        None => 0,
    }
}

fn table_value(list: &[&[char]], key: &str) -> (value: u64)
    ensures
        value == value_or_zero(pieces(list@), key@),
{
    let wanted = chars_of(key);
    let ghost all = pieces(list@);
    let mut i: usize = list.len();
    assert(all.take(all.len() as int) =~= all);
    while i > 0
        invariant
            i <= list.len(),
            wanted@ == key@,
            all == pieces(list@),
            table_value_of(all, key@) == table_value_of(all.take(i as int), key@),
        decreases i,
    {
        i -= 1;
        assert(all.take(i + 1).drop_last() =~= all.take(i as int));
        assert(all.take(i + 1).last() == list@[i as int]@);
        let parts = words(list[i]);
        assert(pieces(parts@).len() == parts@.len());
        if parts.len() >= 2 {
            assert(pieces(parts@)[0] == parts@[0]@);
            assert(pieces(parts@)[1] == parts@[1]@);
            if same_chars(trim_end_char(parts[0], ':'), wanted.as_slice()) {
                if let Some(n) = parse_unsigned(parts[1], u64::MAX) {
                    return n;
                }
            }
        }
    }
    0
}

/// The metrics that `/proc/meminfo` gives. There are none without a total.
pub open spec fn memory_metrics_of(meminfo: Seq<char>) -> Seq<MetricView> {
    let lines = lines_of(meminfo);
    let total = value_or_zero(lines, "MemTotal"@);
    let available = value_or_zero(lines, "MemAvailable"@);
    let used = less_or_zero(total, available);
    if total == 0 {
        Seq::empty()
    } else {
        seq![
            metric("mem.total_kb"@, ValueView::Count(total)),
            metric("mem.used_kb"@, ValueView::Count(used)),
            metric("mem.available_kb"@, ValueView::Count(available)),
            metric("mem.used_pct"@, ValueView::Percent { part: used, whole: total }),
        ]
    }
}

/// The use of memory, from `/proc/meminfo`.
pub fn collect_memory(meminfo: &str) -> (out: Vec<Metric>)
    ensures
        metrics_view(out@) == memory_metrics_of(meminfo@),
{
    let chars = chars_of(meminfo);
    let all = lines(chars.as_slice());
    let total: u64 = table_value(all.as_slice(), "MemTotal");
    let available: u64 = table_value(all.as_slice(), "MemAvailable");
    let mut out: Vec<Metric> = Vec::new();
    assert(metrics_view(out@) =~= Seq::empty());
    if total == 0 {
        return out;
    }
    let used: u64 = less(total, available);
    push_metric(&mut out, "mem.total_kb".to_string(), Value::Count(total));
    push_metric(&mut out, "mem.used_kb".to_string(), Value::Count(used));
    push_metric(&mut out, "mem.available_kb".to_string(), Value::Count(available));
    push_metric(
        &mut out,
        "mem.used_pct".to_string(),
        Value::Percent { part: used, whole: total },
    );
    assert(metrics_view(out@) =~= memory_metrics_of(meminfo@));
    out
}

/// Whether a file system of this type keeps its files on a disk.
pub open spec fn is_disk_type(fstype: Seq<char>) -> bool {
    fstype == "ext4"@ || fstype == "ext3"@ || fstype == "xfs"@ || fstype == "btrfs"@ || fstype
        == "zfs"@
}

/// Where the disks in the lines of `/proc/mounts` are mounted, in order.
pub open spec fn mounts_of(lines: Seq<Seq<char>>) -> Seq<Seq<char>>
    decreases lines.len(),
{
    if lines.len() == 0 {
        Seq::empty()
    } else {
        let before = mounts_of(lines.drop_last());
        let parts = words_of(lines.last());
        if parts.len() >= 3 && is_disk_type(parts[2]) {
            before.push(parts[1])
        } else {
            before
        }
    }
}

fn disk_type(fstype: &[char]) -> (yes: bool)
    ensures
        yes == is_disk_type(fstype@),
{
    let name = string_of(fstype);
    same(name.as_str(), "ext4") || same(name.as_str(), "ext3") || same(name.as_str(), "xfs")
        || same(name.as_str(), "btrfs") || same(name.as_str(), "zfs")
}

/// Where disks are mounted, from `/proc/mounts`.
pub fn disk_mounts(mounts: &str) -> (out: Vec<String>)
    ensures
        out@.map_values(|s: String| s@) == mounts_of(lines_of(mounts@)),
{
    let chars = chars_of(mounts);
    let all = lines(chars.as_slice());
    let ghost list = lines_of(mounts@);
    let mut out: Vec<String> = Vec::new();
    let mut i: usize = 0;
    assert(list.take(0) =~= Seq::empty());
    assert(out@.map_values(|s: String| s@) =~= Seq::empty());
    assert(pieces(all@).len() == all@.len());
    while i < all.len()
        invariant
            i <= all.len(),
            list == pieces(all@),
            out@.map_values(|s: String| s@) == mounts_of(list.take(i as int)),
        decreases all.len() - i,
    {
        assert(list.take(i + 1).drop_last() =~= list.take(i as int));
        assert(list.take(i + 1).last() == all@[i as int]@);
        let parts = words(all[i]);
        assert(pieces(parts@).len() == parts@.len());
        if parts.len() >= 3 {
            assert(pieces(parts@)[1] == parts@[1]@);
            assert(pieces(parts@)[2] == parts@[2]@);
            if disk_type(parts[2]) {
                let ghost before = out@;
                out.push(string_of(parts[1]));
                assert(out@.map_values(|s: String| s@) =~= before.map_values(
                    |s: String| s@,
                ).push(parts@[1]@));
            }
        }
        i += 1;
    }
    assert(list.take(all@.len() as int) =~= list);
    out
}

/// A mounted disk: its size and what is free of it, in blocks, and the size of a block.
pub struct Volume {
    pub mount: String,
    pub blocks: u64,
    pub free_blocks: u64,
    pub block_size: u64,
}

/// The part of a metric's name that stands for a mount point.
pub open spec fn mount_label_of(mount: Seq<char>) -> Seq<char> {
    let label = replace_of(mount, '/', '.');
    if label == "."@ {
        ".root"@
    } else {
        label
    }
}

/// The metrics of one disk. There are none for a disk without any blocks.
pub open spec fn volume_metrics_of(volume: Volume) -> Result<Seq<MetricView>, OutOfRange> {
    let total = volume.blocks * volume.block_size;
    let free = volume.free_blocks * volume.block_size;
    let label = mount_label_of(volume.mount@);
    if total > u64::MAX || free > u64::MAX {
        Err(OutOfRange)
    } else if total == 0 {
        Ok(Seq::empty())
    } else if free > total {
        Err(OutOfRange)
    } else {
        Ok(
            seq![
                metric(
                    "disk"@ + label + ".used_pct"@,
                    ValueView::Percent { part: (total - free) as u64, whole: total as u64 },
                ),
                metric("disk"@ + label + ".total_gb"@, ValueView::Gib(total as u64)),
                metric("disk"@ + label + ".used_gb"@, ValueView::Gib((total - free) as u64)),
            ],
        )
    }
}

fn disk_name(label: &str, what: &str) -> (name: String)
    ensures
        name@ == "disk"@ + label@ + what@,
{
    let mut name: String = "disk".to_string();
    name.append(label);
    name.append(what);
    name
}

fn mount_label(mount: &str) -> (label: String)
    ensures
        label@ == mount_label_of(mount@),
{
    let chars = chars_of(mount);
    let label = string_of(replace(chars.as_slice(), '/', '.').as_slice());
    if same(label.as_str(), ".") {
        ".root".to_string()
    } else {
        label
    }
}

/// The use of one disk.
pub fn volume_metrics(volume: &Volume) -> (out: Result<Vec<Metric>, OutOfRange>)
    ensures
        collected(out, volume_metrics_of(*volume)),
{
    let total: u64 = match volume.blocks.checked_mul(volume.block_size) {
        Some(n) => n,
        None => {
            return Err(OutOfRange);
        },
    };
    let free: u64 = match volume.free_blocks.checked_mul(volume.block_size) {
        Some(n) => n,
        None => {
            return Err(OutOfRange);
        },
    };
    if total == 0 {
        return none_collected();
    }
    if free > total {
        return Err(OutOfRange);
    }
    let used: u64 = total - free;
    let label = mount_label(volume.mount.as_str());
    let mut out: Vec<Metric> = Vec::new();
    push_metric(
        &mut out,
        disk_name(label.as_str(), ".used_pct"),
        Value::Percent { part: used, whole: total },
    );
    push_metric(&mut out, disk_name(label.as_str(), ".total_gb"), Value::Gib(total));
    push_metric(&mut out, disk_name(label.as_str(), ".used_gb"), Value::Gib(used));
    proof {
        let expected = volume_metrics_of(*volume)->Ok_0;
        assert(metrics_view(out@) =~= expected);
    }
    Ok(out)
}

/// The metrics of a list of disks, in order.
pub open spec fn disk_metrics_of(volumes: Seq<Volume>) -> Result<Seq<MetricView>, OutOfRange>
    decreases volumes.len(),
{
    if volumes.len() == 0 {
        Ok(Seq::empty())
    } else {
        match (disk_metrics_of(volumes.drop_last()), volume_metrics_of(volumes.last())) {
            (Ok(before), Ok(more)) => Ok(before + more),
            _ => Err(OutOfRange),
        }
    }
}

proof fn lemma_disk_range(volumes: Seq<Volume>, n: int)
    requires
        0 <= n <= volumes.len(),
        disk_metrics_of(volumes.take(n)) is Err,
    ensures
        disk_metrics_of(volumes) is Err,
    decreases volumes.len() - n,
{
    if n < volumes.len() {
        assert(volumes.take(n + 1).drop_last() =~= volumes.take(n));
        lemma_disk_range(volumes, n + 1);
    } else {
        assert(volumes.take(n) =~= volumes);
    }
}

/// The use of the disks.
pub fn collect_disk(volumes: &[Volume]) -> (out: Result<Vec<Metric>, OutOfRange>)
    ensures
        collected(out, disk_metrics_of(volumes@)),
{
    let mut out: Vec<Metric> = Vec::new();
    let mut i: usize = 0;
    assert(volumes@.take(0) =~= Seq::empty());
    assert(metrics_view(out@) =~= Seq::empty());
    while i < volumes.len()
        invariant
            i <= volumes.len(),
            disk_metrics_of(volumes@.take(i as int)) == Ok::<Seq<MetricView>, OutOfRange>(
                metrics_view(out@),
            ),
        decreases volumes.len() - i,
    {
        assert(volumes@.take(i + 1).drop_last() =~= volumes@.take(i as int));
        match volume_metrics(&volumes[i]) {
            Ok(more) => {
                extend_metrics(&mut out, more);
            },
            Err(_) => {
                proof {
                    lemma_disk_range(volumes@, i + 1);
                }
                return Err(OutOfRange);
            },
        }
        i += 1;
    }
    assert(volumes@.take(volumes@.len() as int) =~= volumes@);
    Ok(out)
}

/// The metrics that `/proc/loadavg` gives: its first three words.
pub open spec fn load_metrics_of(loadavg: Seq<char>) -> Seq<MetricView> {
    let parts = words_of(loadavg);
    if parts.len() < 3 {
        Seq::empty()
    } else {
        seq![
            metric("load.1m"@, ValueView::Decimal(parts[0])),
            metric("load.5m"@, ValueView::Decimal(parts[1])),
            metric("load.15m"@, ValueView::Decimal(parts[2])),
        ]
    }
}

/// The load, from `/proc/loadavg`.
pub fn collect_load(loadavg: &str) -> (out: Vec<Metric>)
    ensures
        metrics_view(out@) == load_metrics_of(loadavg@),
{
    let chars = chars_of(loadavg);
    let parts = words(chars.as_slice());
    let mut out: Vec<Metric> = Vec::new();
    assert(pieces(parts@).len() == parts@.len());
    assert(metrics_view(out@) =~= Seq::empty());
    if parts.len() < 3 {
        return out;
    }
    assert(pieces(parts@)[0] == parts@[0]@);
    assert(pieces(parts@)[1] == parts@[1]@);
    assert(pieces(parts@)[2] == parts@[2]@);
    push_metric(&mut out, "load.1m".to_string(), Value::Decimal(string_of(parts[0])));
    push_metric(&mut out, "load.5m".to_string(), Value::Decimal(string_of(parts[1])));
    push_metric(&mut out, "load.15m".to_string(), Value::Decimal(string_of(parts[2])));
    assert(metrics_view(out@) =~= load_metrics_of(loadavg@));
    out
}

/// The metric that `/proc/uptime` gives: its first word.
pub open spec fn uptime_metrics_of(uptime: Seq<char>) -> Seq<MetricView> {
    let parts = words_of(uptime);
    if parts.len() == 0 {
        Seq::empty()
    } else {
        seq![metric("uptime.seconds"@, ValueView::Rounded(parts[0]))]
    }
}

/// The time since the host was started, from `/proc/uptime`.
pub fn collect_uptime(uptime: &str) -> (out: Vec<Metric>)
    ensures
        metrics_view(out@) == uptime_metrics_of(uptime@),
{
    let chars = chars_of(uptime);
    let parts = words(chars.as_slice());
    let mut out: Vec<Metric> = Vec::new();
    assert(pieces(parts@).len() == parts@.len());
    assert(metrics_view(out@) =~= Seq::empty());
    if parts.len() > 0 {
        assert(pieces(parts@)[0] == parts@[0]@);
        push_metric(&mut out, "uptime.seconds".to_string(), Value::Rounded(string_of(parts[0])));
        assert(metrics_view(out@) =~= uptime_metrics_of(uptime@));
    }
    out
}

/// What a network interface has received and sent, in bytes.
pub struct Interface {
    pub name: String,
    pub rx: u64,
    pub tx: u64,
}

/// The mathematical form of [`Interface`].
pub struct InterfaceView {
    pub name: Seq<char>,
    pub rx: u64,
    pub tx: u64,
}

impl View for Interface {
    type V = InterfaceView;

    open spec fn view(&self) -> InterfaceView {
        InterfaceView { name: self.name@, rx: self.rx, tx: self.tx }
    }
}

/// The mathematical form of a list of interfaces.
pub open spec fn interfaces_view(list: Seq<Interface>) -> Seq<InterfaceView> {
    list.map_values(|i: Interface| i@)
}

/// What one line of `/proc/net/dev` says.
pub enum NetLine<T> {
    /// It is not a line about an interface.
    Malformed,
    /// It is about the loopback interface, or says too little.
    Skipped,
    /// It is about this interface.
    Counts(T),
}

/// What a line of `/proc/net/dev` says: a name, a colon, and numbers, of which the
/// first are the bytes received and the ninth the bytes sent.
pub open spec fn net_line_of(line: Seq<char>) -> NetLine<InterfaceView> {
    match split_once_of(trim_of(line), ':') {
        None => NetLine::Malformed,
        Some((name, rest)) => {
            let values = numbers_of(words_of(rest));
            if trim_of(name) == "lo"@ || values.len() < 9 {
                NetLine::Skipped
            } else {
                NetLine::Counts(
                    InterfaceView { name: trim_of(name), rx: values[0], tx: values[8] },
                )
            }
        },
    }
}

/// The interfaces with the counts of `item` in the place of older ones.
pub open spec fn with_interface(list: Seq<InterfaceView>, item: InterfaceView) -> Seq<
    InterfaceView,
>
    decreases list.len(),
{
    if list.len() == 0 {
        seq![item]
    } else if list.first().name == item.name {
        list.update(0, item)
    } else {
        seq![list.first()] + with_interface(list.drop_first(), item)
    }
}

/// The interfaces in the lines of `/proc/net/dev` below its heading, each with
/// what was said of it last; none at all where a line is malformed.
pub open spec fn interfaces_of(lines: Seq<Seq<char>>) -> Option<Seq<InterfaceView>>
    decreases lines.len(),
{
    if lines.len() == 0 {
        Some(Seq::empty())
    } else {
        match interfaces_of(lines.drop_last()) {
            None => None,
            Some(before) => match net_line_of(lines.last()) {
                NetLine::Malformed => None,
                NetLine::Skipped => Some(before),
                NetLine::Counts(item) => Some(with_interface(before, item)),
            },
        }
    }
}

/// What `/proc/net/dev` says: it starts with two lines of heading.
pub open spec fn net_of(dev: Seq<char>) -> Option<Seq<InterfaceView>> {
    let lines = lines_of(dev);
    interfaces_of(
        if lines.len() <= 2 {
            Seq::empty()
        } else {
            lines.skip(2)
        },
    )
}

/// What is known of the interface called `name`.
pub open spec fn interface_of(list: Seq<InterfaceView>, name: Seq<char>) -> Option<InterfaceView>
    decreases list.len(),
{
    if list.len() == 0 {
        None
    } else if list.first().name == name {
        Some(list.first())
    } else {
        interface_of(list.drop_first(), name)
    }
}

proof fn lemma_with_interface(list: Seq<InterfaceView>, item: InterfaceView, i: int)
    requires
        0 <= i <= list.len(),
        forall|k: int| 0 <= k < i ==> (#[trigger] list[k]).name != item.name,
        i < list.len() ==> list[i].name == item.name,
    ensures
        with_interface(list, item) == if i < list.len() {
            list.update(i, item)
        } else {
            list.push(item)
        },
    decreases list.len(),
{
    if i > 0 {
        assert(list[0].name != item.name);
        let rest = list.drop_first();
        assert forall|k: int| 0 <= k < i - 1 implies (#[trigger] rest[k]).name != item.name by {
            assert(list[k + 1] == rest[k]);
        }
        lemma_with_interface(rest, item, i - 1);
        assert(with_interface(list, item) =~= if i < list.len() {
            list.update(i, item)
        } else {
            list.push(item)
        });
    } else if list.len() == 0 {
        assert(list.push(item) =~= seq![item]);
    }
}

proof fn lemma_interface_of(list: Seq<InterfaceView>, name: Seq<char>, i: int)
    requires
        0 <= i <= list.len(),
        forall|k: int| 0 <= k < i ==> (#[trigger] list[k]).name != name,
        i < list.len() ==> list[i].name == name,
    ensures
        interface_of(list, name) == if i < list.len() {
            Some(list[i])
        } else {
            None
        },
    decreases list.len(),
{
    if i > 0 {
        assert(list[0].name != name);
        let rest = list.drop_first();
        assert forall|k: int| 0 <= k < i - 1 implies (#[trigger] rest[k]).name != name by {
            assert(list[k + 1] == rest[k]);
        }
        lemma_interface_of(rest, name, i - 1);
    }
}

fn position(list: &[Interface], name: &str) -> (at: usize)
    ensures
        at <= list@.len(),
        forall|k: int|
            0 <= k < at ==> (#[trigger] interfaces_view(list@)[k]).name != name@,
        at < list@.len() ==> interfaces_view(list@)[at as int].name == name@,
{
    let mut i: usize = 0;
    while i < list.len()
        invariant
            i <= list.len(),
            forall|k: int|
                0 <= k < i ==> (#[trigger] interfaces_view(list@)[k]).name != name@,
        decreases list.len() - i,
    {
        assert(interfaces_view(list@)[i as int] == list@[i as int]@);
        if same(list[i].name.as_str(), name) {
            return i;
        }
        i += 1;
    }
    i
}

fn put_interface(list: &mut Vec<Interface>, item: Interface)
    ensures
        interfaces_view(final(list)@) == with_interface(interfaces_view(old(list)@), item@),
{
    let at: usize = position(list.as_slice(), item.name.as_str());
    let ghost before = list@;
    let ghost added = item@;
    proof {
        assert(interfaces_view(before).len() == before.len());
        lemma_with_interface(interfaces_view(before), added, at as int);
    }
    if at < list.len() {
        list.set(at, item);
        assert(interfaces_view(list@) =~= interfaces_view(before).update(at as int, added));
    } else {
        list.push(item);
        assert(interfaces_view(list@) =~= interfaces_view(before).push(added));
    }
}

fn net_line(line: &[char]) -> (out: NetLine<Interface>)
    ensures
        match net_line_of(line@) {
            NetLine::Malformed => out is Malformed,
            NetLine::Skipped => out is Skipped,
            NetLine::Counts(v) => out matches NetLine::Counts(i) && i@ == v,
        },
{
    match split_once(trim(line), ':') {
        None => NetLine::Malformed,
        Some((name, rest)) => {
            let name = string_of(trim(name));
            let list = words(rest);
            assert(pieces(list@).skip(0) =~= pieces(list@));
            let values = numbers(list.as_slice(), 0);
            if same(name.as_str(), "lo") || values.len() < 9 {
                NetLine::Skipped
            } else {
                NetLine::Counts(Interface { name, rx: values[0], tx: values[8] })
            }
        },
    }
}

proof fn lemma_malformed(lines: Seq<Seq<char>>, n: int)
    requires
        0 <= n <= lines.len(),
        interfaces_of(lines.take(n)) is None,
    ensures
        interfaces_of(lines) is None,
    decreases lines.len() - n,
{
    if n < lines.len() {
        assert(lines.take(n + 1).drop_last() =~= lines.take(n));
        lemma_malformed(lines, n + 1);
    } else {
        assert(lines.take(n) =~= lines);
    }
}

/// Reads `/proc/net/dev`.
pub fn read_net(dev: &str) -> (out: Option<Vec<Interface>>)
    ensures
        match net_of(dev@) {
            Some(list) => out matches Some(found) && interfaces_view(found@) == list,
            None => out is None,
        },
{
    let chars = chars_of(dev);
    let all = lines(chars.as_slice());
    assert(pieces(all@).len() == all@.len());
    let ghost below = if all@.len() <= 2 {
        Seq::empty()
    } else {
        pieces(all@).skip(2)
    };
    let mut out: Vec<Interface> = Vec::new();
    assert(interfaces_view(out@) =~= Seq::empty());
    assert(below.take(0) =~= Seq::empty());
    let mut i: usize = 2;
    while i < all.len()
        invariant
            2 <= i,
            pieces(all@) == lines_of(dev@),
            all@.len() > 2 ==> i <= all@.len() && below == pieces(all@).skip(2),
            all@.len() <= 2 ==> i == 2 && below.len() == 0,
            interfaces_of(below.take(i - 2)) == Some(interfaces_view(out@)),
        decreases all.len() - i,
    {
        assert(below.take(i - 1).drop_last() =~= below.take(i - 2));
        assert(below.take(i - 1).last() == all@[i as int]@);
        match net_line(all[i]) {
            NetLine::Malformed => {
                proof {
                    lemma_malformed(below, i - 1);
                }
                return None;
            },
            NetLine::Skipped => {},
            NetLine::Counts(item) => {
                put_interface(&mut out, item);
            },
        }
        i += 1;
    }
    assert(below.take(i - 2) =~= below);
    Some(out)
}

/// What every interface has received and sent between two readings. Only
/// interfaces that are in both count.
pub open spec fn traffic_of(first: Seq<InterfaceView>, second: Seq<InterfaceView>) -> Seq<
    MetricView,
>
    decreases second.len(),
{
    if second.len() == 0 {
        Seq::empty()
    } else {
        let before = traffic_of(first, second.drop_last());
        let item = second.last();
        match interface_of(first, item.name) {
            Some(old_item) => before.push(
                metric(
                    "net."@ + item.name + ".rx_bytes"@,
                    ValueView::Count(less_or_zero(item.rx, old_item.rx)),
                ),
            ).push(
                metric(
                    "net."@ + item.name + ".tx_bytes"@,
                    ValueView::Count(less_or_zero(item.tx, old_item.tx)),
                ),
            ),
            None => before,
        }
    }
}

fn net_name(interface: &str, what: &str) -> (name: String)
    ensures
        name@ == "net."@ + interface@ + what@,
{
    let mut name: String = "net.".to_string();
    name.append(interface);
    name.append(what);
    name
}

/// What every interface has received and sent between two readings.
pub fn traffic(first: &[Interface], second: &[Interface]) -> (out: Vec<Metric>)
    ensures
        metrics_view(out@) == traffic_of(interfaces_view(first@), interfaces_view(second@)),
{
    let ghost olds = interfaces_view(first@);
    let ghost news = interfaces_view(second@);
    let mut out: Vec<Metric> = Vec::new();
    let mut i: usize = 0;
    assert(news.take(0) =~= Seq::empty());
    assert(metrics_view(out@) =~= Seq::empty());
    while i < second.len()
        invariant
            i <= second.len(),
            olds == interfaces_view(first@),
            news == interfaces_view(second@),
            metrics_view(out@) == traffic_of(olds, news.take(i as int)),
        decreases second.len() - i,
    {
        assert(news.take(i + 1).drop_last() =~= news.take(i as int));
        assert(news.take(i + 1).last() == second@[i as int]@);
        let name = second[i].name.as_str();
        let at: usize = position(first, name);
        proof {
            assert(olds.len() == first@.len());
            lemma_interface_of(olds, name@, at as int);
        }
        if at < first.len() {
            assert(olds[at as int] == first@[at as int]@);
            push_metric(
                &mut out,
                net_name(name, ".rx_bytes"),
                Value::Count(less(second[i].rx, first[at].rx)),
            );
            push_metric(
                &mut out,
                net_name(name, ".tx_bytes"),
                Value::Count(less(second[i].tx, first[at].tx)),
            );
        }
        i += 1;
    }
    assert(news.take(second@.len() as int) =~= news);
    out
}

/// The network metrics that two readings of `/proc/net/dev` give.
pub open spec fn network_metrics_of(first: Option<Seq<char>>, second: Option<Seq<char>>) -> Seq<
    MetricView,
> {
    match (optional_net(first), optional_net(second)) {
        (Some(a), Some(b)) => traffic_of(a, b),
        _ => Seq::empty(),
    }
}

/// What `/proc/net/dev` says, where it could be read.
pub open spec fn optional_net(dev: Option<Seq<char>>) -> Option<Seq<InterfaceView>> {
    match dev {
        Some(text) => net_of(text),
        None => None,
    }
}

/// What every interface has received and sent between two readings of
/// `/proc/net/dev`.
pub fn collect_network(first: Option<&str>, second: Option<&str>) -> (out: Vec<Metric>)
    ensures
        metrics_view(out@) == network_metrics_of(borrowed_view(first), borrowed_view(second)),
{
    if let Some(text1) = first {
        if let Some(text2) = second {
            if let Some(a) = read_net(text1) {
                if let Some(b) = read_net(text2) {
                    return traffic(a.as_slice(), b.as_slice());
                }
            }
        }
    }
    let out: Vec<Metric> = Vec::new();
    assert(metrics_view(out@) =~= Seq::empty());
    out
}

/// What was read of the host: the text of the kernel's files, where they could
/// be read, and the disks.
pub struct Readings {
    pub first_stat: Option<String>,
    pub second_stat: Option<String>,
    pub meminfo: Option<String>,
    pub volumes: Vec<Volume>,
    pub loadavg: Option<String>,
    pub uptime: Option<String>,
    pub first_net: Option<String>,
    pub second_net: Option<String>,
}

/// All metrics of the host: processor, memory, disks, load, uptime, network.
pub open spec fn all_metrics_of(r: Readings) -> Result<Seq<MetricView>, OutOfRange> {
    match (
        cpu_metrics_of(owned_view(r.first_stat), owned_view(r.second_stat)),
        disk_metrics_of(r.volumes@),
    ) {
        (Ok(cpu), Ok(disk)) => Ok(
            cpu + (match r.meminfo {
                Some(text) => memory_metrics_of(text@),
                None => Seq::empty(),
            }) + disk + (match r.loadavg {
                Some(text) => load_metrics_of(text@),
                None => Seq::empty(),
            }) + (match r.uptime {
                Some(text) => uptime_metrics_of(text@),
                None => Seq::empty(),
            }) + network_metrics_of(owned_view(r.first_net), owned_view(r.second_net)),
        ),
        _ => Err(OutOfRange),
    }
}

fn as_text(text: &Option<String>) -> (out: Option<&str>)
    ensures
        borrowed_view(out) == owned_view(*text),
{
    match text {
        Some(s) => Some(s.as_str()),
        None => None,
    }
}

/// Collects all metrics of the host.
pub fn collect_all(r: &Readings) -> (out: Result<Vec<Metric>, OutOfRange>)
    ensures
        collected(out, all_metrics_of(*r)),
{
    let mut out: Vec<Metric> = match collect_cpu(as_text(&r.first_stat), as_text(&r.second_stat)) {
        Ok(list) => list,
        Err(e) => {
            return Err(e);
        },
    };
    let disk: Vec<Metric> = match collect_disk(r.volumes.as_slice()) {
        Ok(list) => list,
        Err(e) => {
            return Err(e);
        },
    };
    let ghost cpu = metrics_view(out@);
    if let Some(text) = &r.meminfo {
        extend_metrics(&mut out, collect_memory(text.as_str()));
    }
    extend_metrics(&mut out, disk);
    if let Some(text) = &r.loadavg {
        extend_metrics(&mut out, collect_load(text.as_str()));
    }
    if let Some(text) = &r.uptime {
        extend_metrics(&mut out, collect_uptime(text.as_str()));
    }
    extend_metrics(&mut out, collect_network(as_text(&r.first_net), as_text(&r.second_net)));
    proof {
        assert(metrics_view(out@) =~= all_metrics_of(*r)->Ok_0);
    }
    Ok(out)
}

/// No interface is listed twice.
pub proof fn interfaces_differ(lines: Seq<Seq<char>>)
    ensures
        match interfaces_of(lines) {
            Some(list) => forall|i: int, j: int|
                0 <= i < j < list.len() ==> list[i].name != list[j].name,
            None => true,
        },
    decreases lines.len(),
{
    if lines.len() > 0 && interfaces_of(lines) is Some {
        interfaces_differ(lines.drop_last());
        let before = interfaces_of(lines.drop_last())->0;
        if let NetLine::Counts(item) = net_line_of(lines.last()) {
            let at = first_named(before, item.name, 0);
            lemma_first_named(before, item.name, 0);
            lemma_with_interface(before, item, at);
        }
    }
}

spec fn first_named(list: Seq<InterfaceView>, name: Seq<char>, from: int) -> int
    decreases list.len() - from,
{
    if from >= list.len() {
        list.len() as int
    } else if list[from].name == name {
        from
    } else {
        first_named(list, name, from + 1)
    }
}

proof fn lemma_first_named(list: Seq<InterfaceView>, name: Seq<char>, from: int)
    requires
        0 <= from <= list.len(),
    ensures
        from <= first_named(list, name, from) <= list.len(),
        forall|k: int|
            from <= k < first_named(list, name, from) ==> (#[trigger] list[k]).name != name,
        first_named(list, name, from) < list.len() ==> list[first_named(list, name, from)].name
            == name,
    decreases list.len() - from,
{
    if from < list.len() && list[from].name != name {
        lemma_first_named(list, name, from + 1);
    }
}

/// The counts that were read last are those that are known of an interface, and
/// nothing changes of the others.
pub proof fn last_counts_stand(list: Seq<InterfaceView>, item: InterfaceView, name: Seq<char>)
    ensures
        interface_of(with_interface(list, item), name) == if name == item.name {
            Some(item)
        } else {
            interface_of(list, name)
        },
    decreases list.len(),
{
    if list.len() == 0 {
        assert(interface_of(seq![item].drop_first(), name) is None);
    } else if list.first().name == item.name {
        assert(list.update(0, item).drop_first() =~= list.drop_first());
    } else {
        let rest = with_interface(list.drop_first(), item);
        assert((seq![list.first()] + rest).drop_first() =~= rest);
        last_counts_stand(list.drop_first(), item, name);
    }
}

/// Numbers as they stand in a row: each in decimal behind a space.
pub open spec fn row_of(numbers: Seq<u64>) -> Seq<char>
    decreases numbers.len(),
{
    if numbers.len() == 0 {
        Seq::empty()
    } else {
        row_of(numbers.drop_last()).push(' ') + digits_of(numbers.last() as nat)
    }
}

proof fn lemma_row(prefix: Seq<char>, ns: Seq<u64>)
    ensures
        words_of(prefix + row_of(ns)) == words_of(prefix) + ns.map_values(
            |n: u64| digits_of(n as nat),
        ),
        forall|i: int|
            0 <= i < row_of(ns).len() ==> {
                let c = #[trigger] row_of(ns)[i];
                c == ' ' || '0' <= c <= '9'
            },
        ns.len() > 0 ==> row_of(ns).len() > 0 && '0' <= row_of(ns).last() <= '9',
    decreases ns.len(),
{
    let f = |n: u64| digits_of(n as nat);
    if ns.len() == 0 {
        assert(prefix + row_of(ns) =~= prefix);
        assert(words_of(prefix) + ns.map_values(f) =~= words_of(prefix));
    } else {
        let before = ns.drop_last();
        let d = digits_of(ns.last() as nat);
        lemma_row(prefix, before);
        digits_stand_for_their_number(ns.last() as nat);
        word_stands_alone(d);
        assert(prefix + row_of(ns) =~= (prefix + row_of(before)).push(' ') + d);
        words_of_joined(prefix + row_of(before), ' ', d);
        assert(words_of(prefix) + ns.map_values(f) =~= (words_of(prefix) + before.map_values(f))
            + seq![d]);
        assert forall|i: int| 0 <= i < row_of(ns).len() implies ({
            let c = #[trigger] row_of(ns)[i];
            c == ' ' || '0' <= c <= '9'
        }) by {
            if i < row_of(before).len() {
                assert(row_of(ns)[i] == row_of(before)[i]);
            } else if i > row_of(before).len() {
                assert(row_of(ns)[i] == d[i - row_of(before).len() - 1]);
            }
        }
    }
}

proof fn lemma_numbers_of(ns: Seq<u64>)
    ensures
        numbers_of(ns.map_values(|n: u64| digits_of(n as nat))) == ns,
    decreases ns.len(),
{
    let f = |n: u64| digits_of(n as nat);
    if ns.len() > 0 {
        let before = ns.drop_last();
        lemma_numbers_of(before);
        unsigned_is_read_back(ns.last() as nat, u64::MAX as nat);
        assert(ns.map_values(f).drop_last() =~= before.map_values(f));
        assert(before.push(ns.last()) =~= ns);
    } else {
        assert(numbers_of(ns.map_values(f)) =~= ns);
    }
}

/// Every number of 64 bits in a row is read, in order, and nothing else.
pub proof fn row_is_read_back(ns: Seq<u64>)
    ensures
        numbers_of(words_of(row_of(ns))) == ns,
{
    lemma_row(Seq::empty(), ns);
    lemma_numbers_of(ns);
    assert(Seq::<char>::empty() + row_of(ns) =~= row_of(ns));
    assert(words_of(Seq::<char>::empty()) + ns.map_values(|n: u64| digits_of(n as nat))
        =~= ns.map_values(|n: u64| digits_of(n as nat)));
}

/// Times add up part by part.
pub proof fn times_add_up(a: Seq<u64>, b: Seq<u64>, x: u64)
    ensures
        sum_of(a + b) == sum_of(a) + sum_of(b),
        sum_of(seq![x]) == x,
    decreases b.len(),
{
    assert(seq![x].drop_last() =~= Seq::empty());
    assert(sum_of(seq![x].drop_last()) == 0);
    if b.len() == 0 {
        assert(a + b =~= a);
    } else {
        times_add_up(a, b.drop_last(), x);
        assert((a + b).drop_last() =~= a + b.drop_last());
    }
}

/// The first line of `/proc/stat`, which is a name and times, and what follows it.
pub open spec fn stat_text(name: Seq<char>, times: Seq<u64>, rest: Seq<char>) -> Seq<char> {
    (name + row_of(times)).push('\n') + rest
}

/// The times of the processor are read from the first line, whatever follows it: the
/// fourth is the idle time, and all of them add up to the whole.
pub proof fn processor_times_are_read(name: Seq<char>, times: Seq<u64>, rest: Seq<char>)
    requires
        is_one_word(name),
    ensures
        cpu_of(stat_text(name, times, rest)) == if times.len() < 4 {
            CpuReading::Absent
        } else if sum_of(times) > u64::MAX {
            CpuReading::OutOfRange
        } else {
            CpuReading::Times { idle: times[3], total: sum_of(times) as u64 }
        },
{
    let line = name + row_of(times);
    let f = |n: u64| digits_of(n as nat);
    lemma_row(name, times);
    word_stands_alone(name);
    lemma_numbers_of(times);
    assert forall|i: int| 0 <= i < line.len() implies line[i] != '\n' && (i == line.len() - 1
        ==> line[i] != '\r') by {
        if i < name.len() {
            assert(!is_space(name[i]));
        } else {
            assert(line[i] == row_of(times)[i - name.len()]);
        }
    }
    lines_of_joined(line, rest);
    line_stands_alone(line);
    assert(lines_of(stat_text(name, times, rest))[0] == line);
    assert((seq![name] + times.map_values(f)).skip(1) =~= times.map_values(f));
}

/// The use of the processor between two readings is told by what was added to the
/// idle time and to the whole; there is none to tell where nothing was added.
pub proof fn processor_use_is_what_was_added(
    name: Seq<char>,
    first: Seq<u64>,
    second: Seq<u64>,
    rest1: Seq<char>,
    rest2: Seq<char>,
)
    requires
        is_one_word(name),
        first.len() >= 4,
        second.len() >= 4,
        sum_of(first) <= u64::MAX,
        sum_of(second) <= u64::MAX,
    ensures
        cpu_metrics_of(
            Some(stat_text(name, first, rest1)),
            Some(stat_text(name, second, rest2)),
        ) == Ok::<Seq<MetricView>, OutOfRange>(
            if sum_of(second) > sum_of(first) {
                seq![
                    MetricView {
                        name: "cpu.usage"@,
                        value: ValueView::Busy {
                            idle: if second[3] > first[3] {
                                (second[3] - first[3]) as u64
                            } else {
                                0
                            },
                            total: (sum_of(second) - sum_of(first)) as u64,
                        },
                    },
                ]
            } else {
                Seq::empty()
            },
        ),
        cpu_metrics_of(None, Some(stat_text(name, second, rest2))) == Ok::<
            Seq<MetricView>,
            OutOfRange,
        >(Seq::empty()),
        cpu_metrics_of(Some(stat_text(name, first, rest1)), None) == Ok::<
            Seq<MetricView>,
            OutOfRange,
        >(Seq::empty()),
{
    processor_times_are_read(name, first, rest1);
    processor_times_are_read(name, second, rest2);
}

/// A line of `/proc/meminfo`: a key, a colon, white space, a number and what follows.
pub open spec fn table_line(
    key: Seq<char>,
    pad: Seq<char>,
    n: nat,
    rest: Seq<char>,
) -> Seq<char> {
    key.push(':') + pad + (digits_of(n) + rest)
}

/// Every number of 64 bits in a table is read under its key, and under no other.
pub proof fn table_value_is_read(
    key: Seq<char>,
    pad: Seq<char>,
    n: u64,
    rest: Seq<char>,
    other: Seq<char>,
)
    requires
        is_one_word(key),
        key.last() != ':',
        is_blank(pad),
        pad.len() > 0,
        rest.len() == 0 || is_space(rest[0]),
    ensures
        line_value_of(table_line(key, pad, n as nat, rest), key) == Some(n),
        other != key ==> line_value_of(table_line(key, pad, n as nat, rest), other) is None,
{
    let head = key.push(':');
    let d = digits_of(n as nat);
    digits_stand_for_their_number(n as nat);
    word_stands_alone(d);
    assert forall|i: int| 0 <= i < head.len() implies !is_space(#[trigger] head[i]) by {
        if i < key.len() {
            assert(!is_space(key[i]));
        }
    }
    word_stands_alone(head);
    words_of_padded(head, pad, d + rest);
    if rest.len() > 0 {
        words_of_joined(d, rest[0], rest.drop_first());
        assert(d.push(rest[0]) + rest.drop_first() =~= d + rest);
    } else {
        assert(d + rest =~= d);
    }
    let parts = words_of(table_line(key, pad, n as nat, rest));
    assert(parts[0] == head && parts[1] == d && parts.len() >= 2);
    end_characters_are_dropped(key, ':', 1);
    assert(key + Seq::new(1, |i: int| ':') =~= head);
    unsigned_is_read_back(n as nat, u64::MAX as nat);
}

/// The last line that gives a key a value counts, and lines that give it none change
/// nothing.
pub proof fn last_line_of_a_table_counts(
    lines: Seq<Seq<char>>,
    line: Seq<char>,
    key: Seq<char>,
)
    ensures
        table_value_of(lines.push(line), key) == match line_value_of(line, key) {
            Some(n) => Some(n),
            None => table_value_of(lines, key),
        },
        table_value_of(Seq::empty(), key) is None,
{
    assert(lines.push(line).drop_last() =~= lines);
}

proof fn lemma_table_joined(a: Seq<Seq<char>>, b: Seq<Seq<char>>, key: Seq<char>)
    ensures
        table_value_of(a + b, key) == match table_value_of(b, key) {
            Some(n) => Some(n),
            None => table_value_of(a, key),
        },
    decreases b.len(),
{
    if b.len() == 0 {
        assert(a + b =~= a);
    } else {
        lemma_table_joined(a, b.drop_last(), key);
        assert((a + b).drop_last() =~= a + b.drop_last());
        assert((a + b).last() == b.last());
    }
}

proof fn lemma_one_table_line(key: Seq<char>, pad: Seq<char>, n: u64, others: Seq<char>)
    requires
        is_one_word(key),
        key.last() != ':',
        is_blank(pad),
        pad.len() > 0,
        !pad.contains('\n'),
        others != key,
    ensures
        lines_of(table_line(key, pad, n as nat, " kB"@).push('\n')) == seq![
            table_line(key, pad, n as nat, " kB"@),
        ],
        table_value_of(lines_of(table_line(key, pad, n as nat, " kB"@).push('\n')), key) == Some(n),
        table_value_of(
            lines_of(table_line(key, pad, n as nat, " kB"@).push('\n')),
            others,
        ) is None,
{
    let line = table_line(key, pad, n as nat, " kB"@);
    let d = digits_of(n as nat);
    reveal_strlit(" kB");
    digits_stand_for_their_number(n as nat);
    table_value_is_read(key, pad, n, " kB"@, others);
    assert forall|i: int| 0 <= i < line.len() implies line[i] != '\n' by {
        if i < key.len() {
            assert(!is_space(key[i]));
        } else if key.len() < i && i < key.len() + 1 + pad.len() {
            assert(line[i] == pad[i - key.len() - 1]);
        } else if i >= key.len() + 1 + pad.len() && i < key.len() + 1 + pad.len() + d.len() {
            assert(line[i] == d[i - key.len() - 1 - pad.len()]);
        }
    }
    assert(line.last() == 'B');
    line_stands_alone(line);
    let one = seq![line];
    assert(one.drop_last() =~= Seq::empty());
    assert(table_value_of(one.drop_last(), key) is None);
    assert(table_value_of(one.drop_last(), others) is None);
}

/// The memory of a host is told by its total and by what is available, for all values
/// of 64 bits, whatever other lines the table holds: what is used is the difference,
/// and never less than nothing.
pub proof fn memory_is_told(
    before: Seq<char>,
    pad1: Seq<char>,
    total: u64,
    between: Seq<char>,
    pad2: Seq<char>,
    available: u64,
    rest: Seq<char>,
)
    requires
        is_blank(pad1),
        pad1.len() > 0,
        !pad1.contains('\n'),
        is_blank(pad2),
        pad2.len() > 0,
        !pad2.contains('\n'),
        table_value_of(lines_of(between.push('\n')), "MemTotal"@) is None,
        table_value_of(lines_of(rest), "MemTotal"@) is None,
        table_value_of(lines_of(rest), "MemAvailable"@) is None,
    ensures
        memory_metrics_of(
            before.push('\n') + (table_line("MemTotal"@, pad1, total as nat, " kB"@).push('\n') + (
            between.push('\n') + (table_line("MemAvailable"@, pad2, available as nat, " kB"@).push(
                '\n',
            ) + rest))),
        ) == if total == 0 {
            Seq::empty()
        } else {
            let used = if total > available {
                (total - available) as u64
            } else {
                0
            };
            seq![
                MetricView { name: "mem.total_kb"@, value: ValueView::Count(total) },
                MetricView { name: "mem.used_kb"@, value: ValueView::Count(used) },
                MetricView { name: "mem.available_kb"@, value: ValueView::Count(available) },
                MetricView {
                    name: "mem.used_pct"@,
                    value: ValueView::Percent { part: used, whole: total },
                },
            ]
        },
        memory_metrics_of(
            table_line("MemTotal"@, pad1, total as nat, " kB"@).push('\n') + (
            between.push('\n') + (table_line("MemAvailable"@, pad2, available as nat, " kB"@).push(
                '\n',
            ) + rest)),
        ) == if total == 0 {
            Seq::empty()
        } else {
            let used = if total > available {
                (total - available) as u64
            } else {
                0
            };
            seq![
                MetricView { name: "mem.total_kb"@, value: ValueView::Count(total) },
                MetricView { name: "mem.used_kb"@, value: ValueView::Count(used) },
                MetricView { name: "mem.available_kb"@, value: ValueView::Count(available) },
                MetricView {
                    name: "mem.used_pct"@,
                    value: ValueView::Percent { part: used, whole: total },
                },
            ]
        },
{
    reveal_strlit("MemTotal");
    reveal_strlit("MemAvailable");
    let kt = "MemTotal"@;
    let ka = "MemAvailable"@;
    assert(kt.len() != ka.len());
    let l1 = table_line(kt, pad1, total as nat, " kB"@);
    let l2 = table_line(ka, pad2, available as nat, " kB"@);
    lemma_one_table_line(kt, pad1, total, ka);
    lemma_one_table_line(ka, pad2, available, kt);
    let t4 = l2.push('\n') + rest;
    let t3 = between.push('\n') + t4;
    let t2 = l1.push('\n') + t3;
    lines_of_joined(l2, rest);
    lines_of_joined(between, t4);
    lines_of_joined(l1, t3);
    lines_of_joined(before, t2);
    lemma_table_joined(lines_of(l2.push('\n')), lines_of(rest), kt);
    lemma_table_joined(lines_of(l2.push('\n')), lines_of(rest), ka);
    lemma_table_joined(lines_of(between.push('\n')), lines_of(t4), kt);
    lemma_table_joined(lines_of(between.push('\n')), lines_of(t4), ka);
    lemma_table_joined(lines_of(l1.push('\n')), lines_of(t3), kt);
    lemma_table_joined(lines_of(l1.push('\n')), lines_of(t3), ka);
    lemma_table_joined(lines_of(before.push('\n')), lines_of(t2), kt);
    lemma_table_joined(lines_of(before.push('\n')), lines_of(t2), ka);
}

/// A line of `/proc/mounts` is a disk by its third word, and is mounted where its
/// second says.
pub proof fn disks_are_told_by_their_type(
    lines: Seq<Seq<char>>,
    device: Seq<char>,
    mount: Seq<char>,
    fstype: Seq<char>,
    rest: Seq<char>,
)
    requires
        is_one_word(device),
        is_one_word(mount),
        is_one_word(fstype),
        rest.len() == 0 || is_space(rest[0]),
    ensures
        mounts_of(lines.push(device.push(' ') + (mount.push(' ') + (fstype + rest)))) == if fstype
            == "ext4"@ || fstype == "ext3"@ || fstype == "xfs"@ || fstype == "btrfs"@ || fstype
            == "zfs"@ {
            mounts_of(lines).push(mount)
        } else {
            mounts_of(lines)
        },
{
    let line = device.push(' ') + (mount.push(' ') + (fstype + rest));
    assert(lines.push(line).drop_last() =~= lines);
    word_stands_alone(device);
    word_stands_alone(mount);
    word_stands_alone(fstype);
    words_of_joined(device, ' ', mount.push(' ') + (fstype + rest));
    words_of_joined(mount, ' ', fstype + rest);
    if rest.len() > 0 {
        words_of_joined(fstype, rest[0], rest.drop_first());
        assert(fstype.push(rest[0]) + rest.drop_first() =~= fstype + rest);
    } else {
        assert(fstype + rest =~= fstype);
    }
    let parts = words_of(line);
    assert(parts[0] == device && parts[1] == mount && parts[2] == fstype && parts.len() >= 3);
}

/// A line of fewer than three words tells of no disk.
pub proof fn short_line_is_no_disk(lines: Seq<Seq<char>>, line: Seq<char>)
    requires
        words_of(line).len() < 3,
    ensures
        mounts_of(lines.push(line)) == mounts_of(lines),
        mounts_of(Seq::empty()) == Seq::<Seq<char>>::empty(),
{
    assert(lines.push(line).drop_last() =~= lines);
}

/// The name of a mount point in a metric: slashes become dots and nothing else
/// changes, but for the root, which is called so.
pub proof fn mount_label_keeps_the_path(mount: Seq<char>, i: int)
    requires
        0 <= i < mount.len(),
    ensures
        mount_label_of(seq!['/']) == ".root"@,
        mount != seq!['/'] && mount != seq!['.'] ==> mount_label_of(mount).len() == mount.len()
            && mount_label_of(mount)[i] == if mount[i] == '/' {
            '.'
        } else {
            mount[i]
        },
{
    reveal_strlit(".");
    reveal_strlit(".root");
    assert(replace_of(seq!['/'], '/', '.') =~= "."@);
    let label = replace_of(mount, '/', '.');
    if label == "."@ {
        assert(mount.len() == 1);
        assert(label[0] == '.');
        assert(mount =~= seq![mount[0]]);
    }
}

/// The use of a disk is told by its blocks, for all sizes that fit in 64 bits.
pub proof fn disk_use_is_told_by_blocks(volume: Volume)
    requires
        volume.blocks > 0,
        volume.block_size > 0,
        volume.free_blocks <= volume.blocks,
        volume.blocks * volume.block_size <= u64::MAX,
    ensures
        ({
            let total = (volume.blocks * volume.block_size) as u64;
            let used = ((volume.blocks - volume.free_blocks) * volume.block_size) as u64;
            let label = mount_label_of(volume.mount@);
            volume_metrics_of(volume) == Ok::<Seq<MetricView>, OutOfRange>(
                seq![
                    MetricView {
                        name: "disk"@ + label + ".used_pct"@,
                        value: ValueView::Percent { part: used, whole: total },
                    },
                    MetricView {
                        name: "disk"@ + label + ".total_gb"@,
                        value: ValueView::Gib(total),
                    },
                    MetricView { name: "disk"@ + label + ".used_gb"@, value: ValueView::Gib(used) },
                ],
            )
        }),
{
    let b = volume.blocks as int;
    let f = volume.free_blocks as int;
    let z = volume.block_size as int;
    assert(b * z > 0 && f * z <= b * z && (b - f) * z == b * z - f * z) by (nonlinear_arith)
        requires
            b > 0,
            z > 0,
            0 <= f <= b,
    ;
}

/// A disk without blocks tells nothing; sizes that do not fit, or more that is free
/// than there is, are refused.
pub proof fn odd_disks_are_told_apart(volume: Volume)
    ensures
        volume.blocks == 0 && volume.free_blocks * volume.block_size <= u64::MAX
            ==> volume_metrics_of(volume) == Ok::<Seq<MetricView>, OutOfRange>(Seq::empty()),
        volume.blocks * volume.block_size > u64::MAX ==> volume_metrics_of(volume) is Err,
        volume.blocks > 0 && volume.block_size > 0 && volume.free_blocks > volume.blocks
            ==> volume_metrics_of(volume) is Err,
{
    let b = volume.blocks as int;
    let f = volume.free_blocks as int;
    let z = volume.block_size as int;
    assert(b > 0 && z > 0 && f > b ==> b * z > 0 && f * z > b * z) by (nonlinear_arith);
    assert(b == 0 ==> b * z == 0);
}

/// The metrics of several disks are those of each, in order; one that is refused has
/// all refused.
pub proof fn disks_add_up(volumes: Seq<Volume>, volume: Volume)
    ensures
        disk_metrics_of(volumes.push(volume)) == match (
            disk_metrics_of(volumes),
            volume_metrics_of(volume),
        ) {
            (Ok(before), Ok(more)) => Ok::<Seq<MetricView>, OutOfRange>(before + more),
            _ => Err(OutOfRange),
        },
        disk_metrics_of(Seq::empty()) == Ok::<Seq<MetricView>, OutOfRange>(Seq::empty()),
{
    assert(volumes.push(volume).drop_last() =~= volumes);
}

/// The load over one, five and fifteen minutes is told by the first three words, and
/// the uptime by the first.
pub proof fn load_and_uptime_are_told_by_words(
    a: Seq<char>,
    b: Seq<char>,
    c: Seq<char>,
    rest: Seq<char>,
)
    requires
        is_one_word(a),
        is_one_word(b),
        is_one_word(c),
        rest.len() == 0 || is_space(rest[0]),
    ensures
        load_metrics_of(a.push(' ') + (b.push(' ') + (c + rest))) == seq![
            MetricView { name: "load.1m"@, value: ValueView::Decimal(a) },
            MetricView { name: "load.5m"@, value: ValueView::Decimal(b) },
            MetricView { name: "load.15m"@, value: ValueView::Decimal(c) },
        ],
        uptime_metrics_of(a + rest) == seq![
            MetricView { name: "uptime.seconds"@, value: ValueView::Rounded(a) },
        ],
{
    word_stands_alone(a);
    word_stands_alone(b);
    word_stands_alone(c);
    words_of_joined(a, ' ', b.push(' ') + (c + rest));
    words_of_joined(b, ' ', c + rest);
    if rest.len() > 0 {
        words_of_joined(c, rest[0], rest.drop_first());
        words_of_joined(a, rest[0], rest.drop_first());
        assert(c.push(rest[0]) + rest.drop_first() =~= c + rest);
        assert(a.push(rest[0]) + rest.drop_first() =~= a + rest);
    } else {
        assert(c + rest =~= c);
        assert(a + rest =~= a);
    }
    let parts = words_of(a.push(' ') + (b.push(' ') + (c + rest)));
    assert(parts[0] == a && parts[1] == b && parts[2] == c && parts.len() >= 3);
    assert(words_of(a + rest)[0] == a);
}

/// A line of `/proc/net/dev` gives its interface the first of its numbers as what was
/// received and the ninth as what was sent, for all numbers of 64 bits; the loopback
/// interface and lines with fewer numbers are skipped, and a line without a colon is
/// malformed.
pub proof fn interface_line_is_read(pad: Seq<char>, name: Seq<char>, numbers: Seq<u64>)
    requires
        is_blank(pad),
        is_one_word(name),
        !name.contains(':'),
    ensures
        net_line_of(pad + (name.push(':') + row_of(numbers))) == if name == "lo"@ || numbers.len()
            < 9 {
            NetLine::Skipped
        } else {
            NetLine::Counts(InterfaceView { name, rx: numbers[0], tx: numbers[8] })
        },
        net_line_of(pad + name) is Malformed,
{
    let row = row_of(numbers);
    let s = name.push(':') + row;
    lemma_row(Seq::empty(), numbers);
    row_is_read_back(numbers);
    assert(!is_space(name[0]));
    assert(!is_space(name[name.len() - 1]));
    assert(s.first() == name[0]);
    if numbers.len() > 0 {
        assert(s.last() == row.last());
    } else {
        assert(s =~= name.push(':'));
    }
    trim_undoes_padding(pad, s, Seq::empty());
    assert(pad + s + Seq::<char>::empty() =~= pad + s);
    trim_undoes_padding(pad, name, Seq::empty());
    assert(pad + name + Seq::<char>::empty() =~= pad + name);
    cut_at_the_first(name, row, ':');
    trim_keeps(name);
}

/// Lines are taken in one by one: counts replace older ones of the same interface,
/// skipped lines change nothing, and a malformed line spoils the whole.
pub proof fn interface_lines_are_taken_in_turn(lines: Seq<Seq<char>>, line: Seq<char>)
    ensures
        interfaces_of(lines.push(line)) == match (interfaces_of(lines), net_line_of(line)) {
            (Some(list), NetLine::Counts(item)) => Some(with_interface(list, item)),
            (Some(list), NetLine::Skipped) => Some(list),
            _ => None,
        },
        interfaces_of(Seq::empty()) == Some(Seq::<InterfaceView>::empty()),
{
    assert(lines.push(line).drop_last() =~= lines);
}

/// The two lines of heading are skipped, whatever they hold.
pub proof fn heading_is_skipped(first: Seq<char>, second: Seq<char>, rest: Seq<char>)
    requires
        !first.contains('\n'),
        !second.contains('\n'),
    ensures
        net_of(first.push('\n') + (second.push('\n') + rest)) == interfaces_of(lines_of(rest)),
{
    lines_of_joined(first, second.push('\n') + rest);
    lines_of_joined(second, rest);
    lemma_one_line_each(first);
    lemma_one_line_each(second);
    let all = lines_of(first.push('\n') + (second.push('\n') + rest));
    if all.len() > 2 {
        assert(all.skip(2) =~= lines_of(rest));
    } else {
        assert(lines_of(rest) =~= Seq::empty());
    }
}

proof fn lemma_one_line_each(line: Seq<char>)
    requires
        !line.contains('\n'),
    ensures
        lines_of(line.push('\n')).len() == 1,
{
    if line.len() > 0 && line.last() == '\r' {
        let shorter = line.drop_last();
        assert forall|i: int| 0 <= i < shorter.len() implies shorter[i] != '\n' by {
            assert(line[i] == shorter[i]);
        }
        line_stands_alone(shorter);
        assert(shorter.push('\r') =~= line);
    } else {
        line_stands_alone(line);
    }
}

/// The traffic of an interface that both readings know is what was added between
/// them, and never less than nothing; one that only the second knows gives none.
pub proof fn traffic_is_what_was_added(
    first: Seq<InterfaceView>,
    second: Seq<InterfaceView>,
    item: InterfaceView,
)
    ensures
        traffic_of(first, second.push(item)) == match interface_of(first, item.name) {
            Some(earlier) => traffic_of(first, second) + seq![
                MetricView {
                    name: "net."@ + item.name + ".rx_bytes"@,
                    value: ValueView::Count(
                        if item.rx > earlier.rx {
                            (item.rx - earlier.rx) as u64
                        } else {
                            0
                        },
                    ),
                },
                MetricView {
                    name: "net."@ + item.name + ".tx_bytes"@,
                    value: ValueView::Count(
                        if item.tx > earlier.tx {
                            (item.tx - earlier.tx) as u64
                        } else {
                            0
                        },
                    ),
                },
            ],
            None => traffic_of(first, second),
        },
        traffic_of(first, Seq::empty()) == Seq::<MetricView>::empty(),
{
    assert(second.push(item).drop_last() =~= second);
    assert(traffic_of(first, second.push(item)) =~= match interface_of(first, item.name) {
        Some(earlier) => traffic_of(first, second) + seq![
            metric(
                "net."@ + item.name + ".rx_bytes"@,
                ValueView::Count(less_or_zero(item.rx, earlier.rx)),
            ),
            metric(
                "net."@ + item.name + ".tx_bytes"@,
                ValueView::Count(less_or_zero(item.tx, earlier.tx)),
            ),
        ],
        None => traffic_of(first, second),
    });
}

/// Two readings of the network that could be read give the traffic between them, and
/// else there is none.
pub proof fn traffic_needs_both_readings(first: Seq<char>, second: Seq<char>)
    ensures
        network_metrics_of(Some(first), Some(second)) == match (net_of(first), net_of(second)) {
            (Some(a), Some(b)) => traffic_of(a, b),
            _ => Seq::empty(),
        },
        network_metrics_of(None, Some(second)) == Seq::<MetricView>::empty(),
        network_metrics_of(Some(first), None) == Seq::<MetricView>::empty(),
{
}

/// The metrics of the host hold those of every collector and no others: their number
/// is the sum, and each collector's metrics stand together behind those before it.
pub proof fn every_collector_is_heard(r: Readings)
    requires
        all_metrics_of(r) is Ok,
        r.meminfo is Some,
        r.loadavg is Some,
        r.uptime is Some,
    ensures
        ({
            let all = all_metrics_of(r)->Ok_0;
            let cpu = cpu_metrics_of(owned_view(r.first_stat), owned_view(r.second_stat))->Ok_0;
            let memory = memory_metrics_of(r.meminfo->0@);
            let disk = disk_metrics_of(r.volumes@)->Ok_0;
            let load = load_metrics_of(r.loadavg->0@);
            let uptime = uptime_metrics_of(r.uptime->0@);
            let network = network_metrics_of(owned_view(r.first_net), owned_view(r.second_net));
            let n1 = cpu.len() as int;
            let n2 = n1 + memory.len();
            let n3 = n2 + disk.len();
            let n4 = n3 + load.len();
            let n5 = n4 + uptime.len();
            &&& all.len() == n5 + network.len()
            &&& all.subrange(0, n1) == cpu
            &&& all.subrange(n1, n2) == memory
            &&& all.subrange(n2, n3) == disk
            &&& all.subrange(n3, n4) == load
            &&& all.subrange(n4, n5) == uptime
            &&& all.subrange(n5, n5 + network.len()) == network
        }),
{
    let all = all_metrics_of(r)->Ok_0;
    let cpu = cpu_metrics_of(owned_view(r.first_stat), owned_view(r.second_stat))->Ok_0;
    let memory = memory_metrics_of(r.meminfo->0@);
    let disk = disk_metrics_of(r.volumes@)->Ok_0;
    let load = load_metrics_of(r.loadavg->0@);
    let uptime = uptime_metrics_of(r.uptime->0@);
    let network = network_metrics_of(owned_view(r.first_net), owned_view(r.second_net));
    let n1 = cpu.len() as int;
    let n2 = n1 + memory.len();
    let n3 = n2 + disk.len();
    let n4 = n3 + load.len();
    let n5 = n4 + uptime.len();
    assert(all.subrange(0, n1) =~= cpu);
    assert(all.subrange(n1, n2) =~= memory);
    assert(all.subrange(n2, n3) =~= disk);
    assert(all.subrange(n3, n4) =~= load);
    assert(all.subrange(n4, n5) =~= uptime);
    assert(all.subrange(n5, n5 + network.len()) =~= network);
}

/// A file that could not be read takes only its own metrics away.
pub proof fn missing_file_takes_only_its_metrics(r: Readings)
    requires
        all_metrics_of(r) is Ok,
    ensures
        all_metrics_of(r)->Ok_0.len() == cpu_metrics_of(
            owned_view(r.first_stat),
            owned_view(r.second_stat),
        )->Ok_0.len() + disk_metrics_of(r.volumes@)->Ok_0.len() + network_metrics_of(
            owned_view(r.first_net),
            owned_view(r.second_net),
        ).len() + (match r.meminfo {
            Some(text) => memory_metrics_of(text@).len(),
            None => 0,
        }) + (match r.loadavg {
            Some(text) => load_metrics_of(text@).len(),
            None => 0,
        }) + (match r.uptime {
            Some(text) => uptime_metrics_of(text@).len(),
            None => 0,
        }),
{
}

/// Numbers are read word by word, in order; a word that is none is passed over.
pub proof fn words_that_are_no_numbers_are_passed_over(words: Seq<Seq<char>>, word: Seq<char>)
    ensures
        numbers_of(words.push(word)) == match unsigned_of(word, 0xffff_ffff_ffff_ffff) {
            Some(n) => numbers_of(words).push(n as u64),
            None => numbers_of(words),
        },
        numbers_of(Seq::empty()) == Seq::<u64>::empty(),
{
    assert(words.push(word).drop_last() =~= words);
}

/// Without a first line, or with a blank one, there are no processor times.
pub proof fn blank_line_has_no_times(line: Seq<char>, rest: Seq<char>)
    requires
        is_blank(line),
        !line.contains('\n'),
    ensures
        cpu_of(Seq::empty()) is Absent,
        cpu_of(line.push('\n') + rest) is Absent,
{
    line_stands_alone(Seq::empty());
    lines_of_joined(line, rest);
    lemma_one_line_each(line);
    line_stands_alone(line);
    let first = lines_of(line.push('\n') + rest)[0];
    assert(first == lines_of(line.push('\n'))[0]);
    if line.len() > 0 && line.last() == '\r' {
        let shorter = line.drop_last();
        assert(!shorter.contains('\n'));
        line_stands_alone(shorter);
        assert(shorter.push('\r') =~= line);
        assert(first == shorter);
        assert(is_blank(shorter)) by {
            assert forall|i: int| 0 <= i < shorter.len() implies is_space(
                #[trigger] shorter[i],
            ) by {
                assert(is_space(line[i]));
            }
        }
    }
    word_stands_alone(first);
}

/// The processor is told of only by two readings that say its times. A reading whose
/// times do not fit is refused, unless the first reading says nothing at all.
pub proof fn processor_needs_both_readings(first: Seq<char>, second: Seq<char>)
    ensures
        cpu_of(first) is Absent ==> cpu_metrics_of(Some(first), Some(second)) == Ok::<
            Seq<MetricView>,
            OutOfRange,
        >(Seq::empty()),
        cpu_of(first) is OutOfRange ==> cpu_metrics_of(Some(first), Some(second)) is Err,
        cpu_of(first) is Times && cpu_of(second) is Absent ==> cpu_metrics_of(
            Some(first),
            Some(second),
        ) == Ok::<Seq<MetricView>, OutOfRange>(Seq::empty()),
        cpu_of(first) is Times && cpu_of(second) is OutOfRange ==> cpu_metrics_of(
            Some(first),
            Some(second),
        ) is Err,
        cpu_of(first) is Times && cpu_of(second) is Times ==> cpu_metrics_of(
            Some(first),
            Some(second),
        ) is Ok,
        cpu_metrics_of(None, None) == Ok::<Seq<MetricView>, OutOfRange>(Seq::empty()),
{
}

/// However many colons stand behind a key, they are not part of it.
pub proof fn colons_behind_a_key_do_not_count(
    key: Seq<char>,
    colons: nat,
    pad: Seq<char>,
    n: u64,
    rest: Seq<char>,
)
    requires
        is_one_word(key),
        key.last() != ':',
        is_blank(pad),
        pad.len() > 0,
        rest.len() == 0 || is_space(rest[0]),
    ensures
        line_value_of(
            key + Seq::new(colons, |i: int| ':') + pad + (digits_of(n as nat) + rest),
            key,
        ) == Some(n),
{
    let head = key + Seq::new(colons, |i: int| ':');
    let d = digits_of(n as nat);
    digits_stand_for_their_number(n as nat);
    word_stands_alone(d);
    assert forall|i: int| 0 <= i < head.len() implies !is_space(#[trigger] head[i]) by {
        if i < key.len() {
            assert(!is_space(key[i]));
        }
    }
    word_stands_alone(head);
    words_of_padded(head, pad, d + rest);
    if rest.len() > 0 {
        words_of_joined(d, rest[0], rest.drop_first());
        assert(d.push(rest[0]) + rest.drop_first() =~= d + rest);
    } else {
        assert(d + rest =~= d);
    }
    let parts = words_of(head + pad + (d + rest));
    assert(parts[0] == head && parts[1] == d && parts.len() >= 2);
    end_characters_are_dropped(key, ':', colons);
    unsigned_is_read_back(n as nat, u64::MAX as nat);
}

/// A line of one word gives no value, and neither does one whose second word is no
/// number of 64 bits.
pub proof fn line_without_a_number_gives_no_value(line: Seq<char>, key: Seq<char>)
    ensures
        words_of(line).len() < 2 ==> line_value_of(line, key) is None,
        words_of(line).len() >= 2 && unsigned_of(words_of(line)[1], 0xffff_ffff_ffff_ffff) is None
            ==> line_value_of(line, key) is None,
{
}

/// A table that gives no total, or none but zero, tells nothing of the memory; one that
/// does not give what is available counts all of it as used.
pub proof fn missing_memory_lines_count_as_zero(text: Seq<char>, total: u64)
    ensures
        table_value_of(lines_of(text), "MemTotal"@) is None ==> memory_metrics_of(text).len() == 0,
        table_value_of(lines_of(text), "MemTotal"@) == Some(total) && total > 0 && table_value_of(
            lines_of(text),
            "MemAvailable"@,
        ) is None ==> memory_metrics_of(text) == seq![
            MetricView { name: "mem.total_kb"@, value: ValueView::Count(total) },
            MetricView { name: "mem.used_kb"@, value: ValueView::Count(total) },
            MetricView { name: "mem.available_kb"@, value: ValueView::Count(0) },
            MetricView {
                name: "mem.used_pct"@,
                value: ValueView::Percent { part: total, whole: total },
            },
        ],
{
}

/// A disk whose blocks have no size tells nothing, and one of which more is free than
/// fits in 64 bits is refused.
pub proof fn odd_block_sizes_are_told_apart(volume: Volume)
    ensures
        volume.block_size == 0 ==> volume_metrics_of(volume) == Ok::<Seq<MetricView>, OutOfRange>(
            Seq::empty(),
        ),
        volume.free_blocks * volume.block_size > u64::MAX ==> volume_metrics_of(volume) is Err,
{
    assert(volume.block_size == 0 ==> volume.blocks * volume.block_size == 0
        && volume.free_blocks * volume.block_size == 0) by (nonlinear_arith);
}

/// Texts of too few words tell nothing of the load and the uptime.
pub proof fn too_few_words_tell_nothing(text: Seq<char>)
    ensures
        words_of(text).len() < 3 ==> load_metrics_of(text).len() == 0,
        words_of(text).len() == 0 ==> uptime_metrics_of(text).len() == 0,
{
}

/// White space may stand between the name of an interface and its colon.
pub proof fn interface_name_is_trimmed(
    pad: Seq<char>,
    name: Seq<char>,
    gap: Seq<char>,
    numbers: Seq<u64>,
)
    requires
        is_blank(pad),
        is_blank(gap),
        is_one_word(name),
        !name.contains(':'),
    ensures
        net_line_of(pad + ((name + gap).push(':') + row_of(numbers))) == net_line_of(
            name.push(':') + row_of(numbers),
        ),
{
    let row = row_of(numbers);
    let s = (name + gap).push(':') + row;
    let none = Seq::<char>::empty();
    lemma_row(Seq::empty(), numbers);
    assert(!is_space(name[0]));
    assert(!is_space(name[name.len() - 1]));
    assert(s.first() == name[0]);
    if numbers.len() > 0 {
        assert(s.last() == row.last());
    } else {
        assert(s =~= (name + gap).push(':'));
    }
    trim_undoes_padding(pad, s, none);
    assert(pad + s + none =~= pad + s);
    assert(!(name + gap).contains(':')) by {
        assert forall|i: int| 0 <= i < (name + gap).len() implies (name + gap)[i] != ':' by {
            if i < name.len() {
                assert(name.contains(name[i]));
            } else {
                assert(is_space(gap[i - name.len()]));
            }
        }
    }
    cut_at_the_first(name + gap, row, ':');
    trim_undoes_padding(none, name, gap);
    assert(none + name + gap =~= name + gap);
    interface_line_is_read(none, name, numbers);
    assert(none + (name.push(':') + row) =~= name.push(':') + row);
    row_is_read_back(numbers);
}

/// A table of two lines or fewer is all heading.
pub proof fn heading_alone_lists_nothing(dev: Seq<char>)
    requires
        lines_of(dev).len() <= 2,
    ensures
        net_of(dev) == Some(Seq::<InterfaceView>::empty()),
{
}

/// The metrics of the host are refused where those of the processor or of the disks are,
/// and only there.
pub proof fn refused_where_a_collector_refuses(r: Readings)
    ensures
        all_metrics_of(r) is Err <==> cpu_metrics_of(
            owned_view(r.first_stat),
            owned_view(r.second_stat),
        ) is Err || disk_metrics_of(r.volumes@) is Err,
{
}

/// What a collector gives out is what it was to collect, metric by metric, and it fails
/// where that is refused.
pub proof fn collected_metrics_are_the_expected_ones(
    out: Result<Vec<Metric>, OutOfRange>,
    expected: Result<Seq<MetricView>, OutOfRange>,
    i: int,
)
    requires
        collected(out, expected),
    ensures
        out is Ok <==> expected is Ok,
        out is Ok ==> out->Ok_0@.len() == expected->Ok_0.len(),
        out is Ok && 0 <= i < out->Ok_0@.len() ==> out->Ok_0@[i].name@ == expected->Ok_0[i].name
            && out->Ok_0@[i].value@ == expected->Ok_0[i].value,
{
    if let Ok(list) = out {
        if 0 <= i < list@.len() {
            assert(metrics_view(list@)[i] == list@[i]@);
        }
    }
}

/// The mathematical form of a metric has its name and its value, each value keeps its
/// numbers or its text, and the form of a list holds each metric in its place.
pub proof fn form_of_a_metric_is_whole(
    m: Metric,
    list: Seq<Metric>,
    i: int,
    a: u64,
    b: u64,
    text: String,
)
    requires
        0 <= i < list.len(),
    ensures
        m@.name == m.name@,
        m@.value == m.value@,
        metrics_view(list).len() == list.len(),
        metrics_view(list)[i] == list[i]@,
        m.value == Value::Count(a) ==> m@.value == ValueView::Count(a),
        m.value == (Value::Rate { count: a, secs: b }) ==> m@.value == (ValueView::Rate {
            count: a,
            secs: b,
        }),
        m.value == (Value::Percent { part: a, whole: b }) ==> m@.value == (ValueView::Percent {
            part: a,
            whole: b,
        }),
        m.value == (Value::Busy { idle: a, total: b }) ==> m@.value == (ValueView::Busy {
            idle: a,
            total: b,
        }),
        m.value == Value::Gib(a) ==> m@.value == ValueView::Gib(a),
        m.value == Value::Decimal(text) ==> m@.value == ValueView::Decimal(text@),
        m.value == Value::Rounded(text) ==> m@.value == ValueView::Rounded(text@),
{
}

} // verus!
