//! The requests to the monitor: which stored rows they ask for, and which log
//! lines may be handed in.

use vstd::prelude::*;
use vstd::utf8::{encode_utf8, encode_utf8_decode_utf8};

use crate::journald::{entries_view, EntryView, LogEntry};
use crate::outside::unix_now;
use crate::text::{borrowed_view, chars_of, owned_view, starts_with, string_of};

verus! {

/// How many rows are listed at most where all metrics are asked for.
pub const METRICS_LIMIT: u64 = 1000;

/// How many log lines are listed at most.
pub const LOGS_LIMIT: u64 = 500;

/// A request for metrics.
pub struct MetricsQuery {
    pub name: Option<String>,
    pub hours: Option<i64>,
}

/// A request for log lines.
pub struct LogsQuery {
    pub source: Option<String>,
    pub hours: Option<i64>,
}

/// A request for alerts.
pub struct AlertsQuery {
    pub hours: Option<i64>,
}

/// The order in which rows are listed. Where there is a limit, the first rows in
/// this order are the ones that are kept.
#[derive(Debug, Clone, Copy, PartialEq, Eq)]
pub enum RowOrder {
    OldestFirst,
    NewestFirst,
}

/// Which stored rows are asked for: those from `since` on, of one name where
/// one is given, in order, and no more than `limit`, where there is one.
pub struct Selection {
    pub name: Option<String>,
    pub since: i64,
    /// Rows that are not resolved are asked for too, whatever their age.
    pub unresolved: bool,
    pub order: RowOrder,
    pub limit: Option<u64>,
}

/// The mathematical form of [`Selection`].
pub struct SelectionView {
    pub name: Option<Seq<char>>,
    pub since: int,
    pub unresolved: bool,
    pub order: RowOrder,
    pub limit: Option<u64>,
}

impl View for Selection {
    type V = SelectionView;

    open spec fn view(&self) -> SelectionView {
        SelectionView {
            name: owned_view(self.name),
            since: self.since as int,
            unresolved: self.unresolved,
            order: self.order,
            limit: self.limit,
        }
    }
}

fn copied(name: &Option<String>) -> (copy: Option<String>)
    ensures
        owned_view(copy) == owned_view(*name),
{
    match name {
        Some(s) => Some(s.clone()),
        None => None,
    }
}

/// The moment so many hours before `now`.
pub open spec fn hours_before(now: int, hours: int) -> int {
    now - hours * 3600
}

/// Whether a number of seconds, and the moment so many seconds before `now`, fit
/// in 64 bits.
pub open spec fn reaches_back(now: int, seconds: int) -> bool {
    i64::MIN <= seconds <= i64::MAX && i64::MIN <= now - seconds <= i64::MAX
}

/// The moment that lies `count` times `unit` seconds before `now`, where it fits in 64 bits.
pub fn moment_before(now: i64, count: i64, unit: i64) -> (moment: Option<i64>)
    ensures
        match moment {
            Some(m) => reaches_back(now as int, count * unit) && m == now - count * unit,
            None => !reaches_back(now as int, count * unit),
        },
{
    match count.checked_mul(unit) {
        Some(seconds) => now.checked_sub(seconds),
        None => None,
    }
}

/// A number of hours, or else `default`.
pub open spec fn hours_or(hours: Option<i64>, default: i64) -> int {
    match hours {
        Some(h) => h as int,
        None => default as int,
    }
}

/// Which metrics are asked for at `now`: of the last 24 hours, unless told
/// otherwise, the oldest first.
pub open spec fn metrics_selection(q: MetricsQuery, now: int) -> SelectionView {
    SelectionView {
        name: owned_view(q.name),
        since: hours_before(now, hours_or(q.hours, 24)),
        unresolved: false,
        order: RowOrder::OldestFirst,
        limit: if q.name is Some {
            None
        } else {
            Some(METRICS_LIMIT)
        },
    }
}

/// Which log lines are asked for at `now`: of the last hour, unless told
/// otherwise, the newest first.
pub open spec fn logs_selection(q: LogsQuery, now: int) -> SelectionView {
    SelectionView {
        name: owned_view(q.source),
        since: hours_before(now, hours_or(q.hours, 1)),
        unresolved: false,
        order: RowOrder::NewestFirst,
        limit: Some(LOGS_LIMIT),
    }
}

/// Which alerts are asked for at `now`: of the last 24 hours, unless told
/// otherwise, and those that are not resolved, the newest first.
pub open spec fn alerts_selection(q: AlertsQuery, now: int) -> SelectionView {
    SelectionView {
        name: None,
        since: hours_before(now, hours_or(q.hours, 24)),
        unresolved: true,
        order: RowOrder::NewestFirst,
        limit: None,
    }
}

/// Whether a selection is the expected one; there is none where its time does
/// not fit in 64 bits.
pub open spec fn selected(
    out: Option<Selection>,
    expected: SelectionView,
    now: int,
    hours: int,
) -> bool {
    if reaches_back(now, hours * 3600) {
        out matches Some(s) && s@ == expected
    } else {
        out is None
    }
}

/// Which metrics a request asks for at `now`.
pub fn metrics_at(q: &MetricsQuery, now: i64) -> (out: Option<Selection>)
    ensures
        selected(out, metrics_selection(*q, now as int), now as int, hours_or(q.hours, 24)),
{
    let hours: i64 = q.hours.unwrap_or(24);
    match moment_before(now, hours, 3600) {
        Some(since) => {
            let limit: Option<u64> = if q.name.is_some() {
                None
            } else {
                Some(METRICS_LIMIT)
            };
            Some(
                Selection {
                    name: copied(&q.name),
                    since,
                    unresolved: false,
                    order: RowOrder::OldestFirst,
                    limit,
                },
            )
        },
        None => None,
    }
}

/// Which metrics a request asks for now.
pub fn metrics(q: &MetricsQuery) -> (out: Option<Selection>)
    ensures
        exists|now: i64|
            0 <= now && #[trigger] selected(
                out,
                metrics_selection(*q, now as int),
                now as int,
                hours_or(q.hours, 24),
            ),
{
    let now: i64 = unix_now();
    let out = metrics_at(q, now);
    assert(selected(out, metrics_selection(*q, now as int), now as int, hours_or(q.hours, 24)));
    out
}

/// Which log lines a request asks for at `now`.
pub fn logs_at(q: &LogsQuery, now: i64) -> (out: Option<Selection>)
    ensures
        selected(out, logs_selection(*q, now as int), now as int, hours_or(q.hours, 1)),
{
    let hours: i64 = q.hours.unwrap_or(1);
    match moment_before(now, hours, 3600) {
        Some(since) => Some(
            Selection {
                name: copied(&q.source),
                since,
                unresolved: false,
                order: RowOrder::NewestFirst,
                limit: Some(LOGS_LIMIT),
            },
        ),
        None => None,
    }
}

/// Which log lines a request asks for now.
pub fn logs(q: &LogsQuery) -> (out: Option<Selection>)
    ensures
        exists|now: i64|
            0 <= now && #[trigger] selected(
                out,
                logs_selection(*q, now as int),
                now as int,
                hours_or(q.hours, 1),
            ),
{
    let now: i64 = unix_now();
    let out = logs_at(q, now);
    assert(selected(out, logs_selection(*q, now as int), now as int, hours_or(q.hours, 1)));
    out
}

/// Which alerts a request asks for at `now`.
pub fn alerts_at(q: &AlertsQuery, now: i64) -> (out: Option<Selection>)
    ensures
        selected(out, alerts_selection(*q, now as int), now as int, hours_or(q.hours, 24)),
{
    let hours: i64 = q.hours.unwrap_or(24);
    match moment_before(now, hours, 3600) {
        Some(since) => Some(
            Selection {
                name: None,
                since,
                unresolved: true,
                order: RowOrder::NewestFirst,
                limit: None,
            },
        ),
        None => None,
    }
}

/// Which alerts a request asks for now.
pub fn alerts(q: &AlertsQuery) -> (out: Option<Selection>)
    ensures
        exists|now: i64|
            0 <= now && #[trigger] selected(
                out,
                alerts_selection(*q, now as int),
                now as int,
                hours_or(q.hours, 24),
            ),
{
    let now: i64 = unix_now();
    let out = alerts_at(q, now);
    assert(selected(out, alerts_selection(*q, now as int), now as int, hours_or(q.hours, 24)));
    out
}

/// How many alerts have not been resolved, by when each was.
pub open spec fn active_of(resolved: Seq<Option<i64>>) -> nat
    decreases resolved.len(),
{
    if resolved.len() == 0 {
        0
    } else {
        active_of(resolved.drop_last()) + if resolved.last() is None {
            1nat
        } else {
            0nat
        }
    }
}

/// Counts the alerts that have not been resolved.
pub fn count_active(resolved: &[Option<i64>]) -> (active: usize)
    ensures
        active == active_of(resolved@),
{
    let mut active: usize = 0;
    let mut i: usize = 0;
    assert(resolved@.take(0) =~= Seq::empty());
    while i < resolved.len()
        invariant
            active <= i <= resolved.len(),
            active == active_of(resolved@.take(i as int)),
        decreases resolved.len() - i,
    {
        assert(resolved@.take(i + 1).drop_last() =~= resolved@.take(i as int));
        if resolved[i].is_none() {
            active += 1;
        }
        i += 1;
    }
    assert(resolved@.take(resolved@.len() as int) =~= resolved@);
    active
}

/// A log line handed in by another application.
pub struct IngestLine {
    pub source: String,
    pub line: String,
    pub ts: Option<i64>,
}

/// The log lines handed in at once.
pub struct IngestBody {
    pub logs: Vec<IngestLine>,
}

/// Compares two runs of bytes. Where they are of one length every byte is looked
/// at, wherever they differ.
pub fn ct_eq(a: &[u8], b: &[u8]) -> (yes: bool)
    ensures
        yes == (a@ == b@),
{
    if a.len() != b.len() {
        return false;
    }
    let mut diff: u8 = 0;
    let mut i: usize = 0;
    while i < a.len()
        invariant
            i <= a.len(),
            a.len() == b.len(),
            (diff == 0) == (forall|k: int| 0 <= k < i ==> a@[k] == b@[k]),
        decreases a.len() - i,
    {
        let x: u8 = a[i];
        let y: u8 = b[i];
        assert((diff | (x ^ y)) == 0 <==> diff == 0 && x == y) by (bit_vector);
        diff = diff | (x ^ y);
        i += 1;
    }
    assert((a@ =~= b@) == (forall|k: int| 0 <= k < a@.len() ==> a@[k] == b@[k]));
    diff == 0
}

/// The token that a request brings: behind `Bearer` in its `Authorization`
/// header, or else in a header of its own.
pub open spec fn provided_token(
    authorization: Option<Seq<char>>,
    own_header: Option<Seq<char>>,
) -> Option<Seq<char>> {
    match authorization {
        Some(value) => if "Bearer "@.is_prefix_of(value) {
            Some(value.skip("Bearer "@.len() as int))
        } else {
            own_header
        },
        None => own_header,
    }
}

fn token_of(authorization: Option<&str>, own_header: Option<&str>) -> (token: Option<String>)
    ensures
        owned_view(token) == provided_token(
            borrowed_view(authorization),
            borrowed_view(own_header),
        ),
{
    if let Some(value) = authorization {
        let chars = chars_of(value);
        if starts_with(chars.as_slice(), "Bearer ") {
            proof {
                reveal_strlit("Bearer ");
            }
            return Some(string_of(vstd::slice::slice_subrange(chars.as_slice(), 7, chars.len())));
        }
    }
    match own_header {
        Some(value) => Some(value.to_string()),
        None => None,
    }
}

/// What becomes of log lines that are handed in.
pub enum IngestStep {
    /// Nothing: the answer is this status and text.
    Refuse { status: u16, body: String },
    /// There are none to store.
    Nothing,
    /// They are stored so.
    Store(Vec<LogEntry>),
}

/// A log line as it is stored when it comes in at `now`.
pub open spec fn ingested_of(line: IngestLine, now: i64) -> EntryView {
    EntryView {
        source: line.source@,
        line: line.line@,
        ts: match line.ts {
            Some(ts) => ts,
            None => now,
        },
    }
}

/// Whether a request that brings `provided` may hand in log lines.
pub open spec fn may_ingest(token: Seq<char>, provided: Option<Seq<char>>) -> bool {
    token.len() > 0 && provided == Some(token)
}

/// Whether `step` is what becomes of log lines handed in at `now`.
pub open spec fn ingest_leads_to(
    step: IngestStep,
    token: Seq<char>,
    provided: Option<Seq<char>>,
    body: IngestBody,
    now: i64,
) -> bool {
    if token.len() == 0 {
        step matches IngestStep::Refuse { status, body } && status == 503 && body@
            == "ingest disabled"@
    } else if provided != Some(token) {
        step matches IngestStep::Refuse { status, body } && status == 401 && body@
            == "invalid ingest token"@
    } else if body.logs@.len() == 0 {
        step is Nothing
    } else {
        step matches IngestStep::Store(entries) && entries_view(entries@) == body.logs@.map_values(
            |line: IngestLine| ingested_of(line, now),
        )
    }
}

fn ingested(body: &IngestBody, now: i64) -> (out: Vec<LogEntry>)
    ensures
        entries_view(out@) == body.logs@.map_values(|line: IngestLine| ingested_of(line, now)),
{
    let mut out: Vec<LogEntry> = Vec::new();
    let mut i: usize = 0;
    while i < body.logs.len()
        invariant
            i <= body.logs.len(),
            out@.len() == i,
            forall|k: int|
                0 <= k < i ==> (#[trigger] out@[k])@ == ingested_of(body.logs@[k], now),
        decreases body.logs.len() - i,
    {
        let line = &body.logs[i];
        let ts: i64 = line.ts.unwrap_or(now);
        out.push(LogEntry { source: line.source.clone(), line: line.line.clone(), ts });
        i += 1;
    }
    assert(entries_view(out@) =~= body.logs@.map_values(
        |line: IngestLine| ingested_of(line, now),
    ));
    out
}

proof fn lemma_same_bytes(a: Seq<char>, b: Seq<char>)
    ensures
        (encode_utf8(a) == encode_utf8(b)) == (a == b),
{
    encode_utf8_decode_utf8(a);
    encode_utf8_decode_utf8(b);
}

fn token_refusal(token: &str, authorization: Option<&str>, own_header: Option<&str>) -> (refusal:
    Option<IngestStep>)
    ensures
        ({
            let provided = provided_token(borrowed_view(authorization), borrowed_view(own_header));
            match refusal {
                None => may_ingest(token@, provided),
                Some(step) => !may_ingest(token@, provided) && (step matches IngestStep::Refuse {
                    status,
                    body,
                } && if token@.len() == 0 {
                    status == 503 && body@ == "ingest disabled"@
                } else {
                    status == 401 && body@ == "invalid ingest token"@
                }),
            }
        }),
{
    if chars_of(token).len() == 0 {
        return Some(IngestStep::Refuse { status: 503, body: "ingest disabled".to_string() });
    }
    let accepted: bool = match token_of(authorization, own_header) {
        Some(provided) => {
            proof {
                lemma_same_bytes(provided@, token@);
            }
            ct_eq(provided.as_str().as_bytes(), token.as_bytes())
        },
        None => false,
    };
    if accepted {
        None
    } else {
        Some(IngestStep::Refuse { status: 401, body: "invalid ingest token".to_string() })
    }
}

/// Decides what becomes of log lines that are handed in at `now`.
pub fn ingest_at(
    token: &str,
    authorization: Option<&str>,
    own_header: Option<&str>,
    body: &IngestBody,
    now: i64,
) -> (step: IngestStep)
    ensures
        ingest_leads_to(
            step,
            token@,
            provided_token(borrowed_view(authorization), borrowed_view(own_header)),
            *body,
            now,
        ),
{
    match token_refusal(token, authorization, own_header) {
        Some(refusal) => refusal,
        None => if body.logs.len() == 0 {
            IngestStep::Nothing
        } else {
            IngestStep::Store(ingested(body, now))
        },
    }
}

/// Decides what becomes of log lines that are handed in now. Where none are
/// stored the clock is not looked at.
pub fn ingest(
    token: &str,
    authorization: Option<&str>,
    own_header: Option<&str>,
    body: &IngestBody,
) -> (step: IngestStep)
    ensures
        exists|now: i64|
            0 <= now && #[trigger] ingest_leads_to(
                step,
                token@,
                provided_token(borrowed_view(authorization), borrowed_view(own_header)),
                *body,
                now,
            ),
{
    let (step, now): (IngestStep, i64) = match token_refusal(token, authorization, own_header) {
        Some(refusal) => (refusal, 0),
        None => if body.logs.len() == 0 {
            (IngestStep::Nothing, 0)
        } else {
            let now: i64 = unix_now();
            (IngestStep::Store(ingested(body, now)), now)
        },
    };
    assert(ingest_leads_to(
        step,
        token@,
        provided_token(borrowed_view(authorization), borrowed_view(own_header)),
        *body,
        now,
    ));
    step
}

/// Log lines are stored only for a request that brings the configured token.
pub proof fn only_the_token_lets_in(
    step: IngestStep,
    token: Seq<char>,
    provided: Option<Seq<char>>,
    body: IngestBody,
    now: i64,
)
    requires
        ingest_leads_to(step, token, provided, body, now),
    ensures
        (step is Refuse) == !may_ingest(token, provided),
        step is Store ==> may_ingest(token, provided),
{
}

/// The token behind `Bearer` is the one that counts, whatever else is sent.
pub proof fn bearer_token_counts(token: Seq<char>, own_header: Option<Seq<char>>)
    ensures
        provided_token(Some("Bearer "@ + token), own_header) == Some(token),
{
    assert(("Bearer "@ + token).skip("Bearer "@.len() as int) =~= token);
    assert("Bearer "@.is_prefix_of("Bearer "@ + token));
}

/// Every line that is let in is stored once, in order, as it came; one without a
/// time gets the time at which it came in.
pub proof fn every_line_is_stored(
    step: IngestStep,
    token: Seq<char>,
    body: IngestBody,
    now: i64,
    i: int,
)
    requires
        token.len() > 0,
        ingest_leads_to(step, token, Some(token), body, now),
        0 <= i < body.logs@.len(),
    ensures
        step is Store,
        step->Store_0@.len() == body.logs@.len(),
        step->Store_0@[i].source@ == body.logs@[i].source@,
        step->Store_0@[i].line@ == body.logs@[i].line@,
        step->Store_0@[i].ts == (match body.logs@[i].ts {
            Some(ts) => ts,
            None => now,
        }),
{
    let entries = step->Store_0@;
    assert(entries_view(entries).len() == entries.len());
    assert(entries_view(entries)[i] == entries[i]@);
}

/// The hours that a request asks for reach back from now, sixty minutes of sixty seconds
/// each, whatever their number; without one it is a day for metrics and alerts, and one
/// hour for log lines.
pub proof fn requests_reach_back_by_hours(
    m: MetricsQuery,
    l: LogsQuery,
    a: AlertsQuery,
    now: int,
)
    ensures
        m.hours matches Some(h) ==> metrics_selection(m, now).since + h * 60 * 60 == now,
        m.hours is None ==> metrics_selection(m, now).since + 24 * 60 * 60 == now,
        l.hours matches Some(h) ==> logs_selection(l, now).since + h * 60 * 60 == now,
        l.hours is None ==> logs_selection(l, now).since + 60 * 60 == now,
        a.hours matches Some(h) ==> alerts_selection(a, now).since + h * 60 * 60 == now,
        a.hours is None ==> alerts_selection(a, now).since + 24 * 60 * 60 == now,
{
}

/// Metrics of one name come all, those of all names up to a thousand, and log lines up to
/// five hundred, of the source that is asked for, if one is. Metrics come the oldest first,
/// the others the newest first, and alerts also when they are not resolved.
pub proof fn requests_name_what_they_ask_for(
    m: MetricsQuery,
    l: LogsQuery,
    a: AlertsQuery,
    now: int,
)
    ensures
        metrics_selection(m, now).name == owned_view(m.name),
        m.name is Some ==> metrics_selection(m, now).limit is None,
        m.name is None ==> metrics_selection(m, now).limit == Some(1000u64),
        metrics_selection(m, now).order is OldestFirst && !metrics_selection(m, now).unresolved,
        logs_selection(l, now).name == owned_view(l.source),
        logs_selection(l, now).limit == Some(500u64),
        logs_selection(l, now).order is NewestFirst && !logs_selection(l, now).unresolved,
        alerts_selection(a, now).name is None,
        alerts_selection(a, now).limit is None,
        alerts_selection(a, now).order is NewestFirst && alerts_selection(a, now).unresolved,
{
}

/// A selection is given on every request whose time fits in 64 bits, and on no other.
pub proof fn selection_is_given_where_it_fits(
    out: Option<Selection>,
    expected: SelectionView,
    now: int,
    hours: int,
)
    requires
        selected(out, expected, now, hours),
    ensures
        out is Some <==> i64::MIN <= hours * 3600 <= i64::MAX && i64::MIN <= now - hours * 3600
            <= i64::MAX,
        out is Some ==> out->0@ == expected,
{
}

/// Alerts are counted one by one, those that are not resolved.
pub proof fn active_alerts_are_counted(resolved: Seq<Option<i64>>, at: i64)
    ensures
        active_of(resolved.push(None)) == active_of(resolved) + 1,
        active_of(resolved.push(Some(at))) == active_of(resolved),
        active_of(Seq::empty()) == 0,
{
    assert(resolved.push(None).drop_last() =~= resolved);
    assert(resolved.push(Some(at)).drop_last() =~= resolved);
}

/// A header of the request's own counts only where no token stands behind `Bearer`.
pub proof fn own_header_counts_without_bearer(
    authorization: Option<Seq<char>>,
    own_header: Option<Seq<char>>,
)
    requires
        authorization matches Some(value) ==> !"Bearer "@.is_prefix_of(value),
    ensures
        provided_token(authorization, own_header) == own_header,
{
}

/// Where no token is set nobody hands in lines; where one is set only the very same token
/// does. The answers tell the two apart.
pub proof fn refusals_tell_why(
    step: IngestStep,
    token: Seq<char>,
    provided: Option<Seq<char>>,
    body: IngestBody,
    now: i64,
)
    requires
        ingest_leads_to(step, token, provided, body, now),
    ensures
        token.len() == 0 ==> (step matches IngestStep::Refuse { status, body: text } && status
            == 503 && text@ == "ingest disabled"@),
        token.len() > 0 && provided != Some(token) ==> (step matches IngestStep::Refuse {
            status,
            body: text,
        } && status == 401 && text@ == "invalid ingest token"@),
        token.len() > 0 && provided == Some(token) && body.logs@.len() == 0 ==> step is Nothing,
        token.len() > 0 && provided == Some(token) && body.logs@.len() > 0 ==> step is Store,
{
}

/// The mathematical form of a selection is the whole selection.
pub proof fn form_of_a_selection_is_whole(s: Selection)
    ensures
        s@.name is Some <==> s.name is Some,
        s.name matches Some(name) ==> s@.name == Some(name@),
        s@.since == s.since,
        s@.unresolved == s.unresolved,
        s@.order == s.order,
        s@.limit == s.limit,
{
}

/// A moment is reached wherever both it and the seconds that lie between are numbers of 64
/// bits with a sign, the smallest and the largest among them.
pub proof fn moments_of_64_bits_are_reached(now: i64, seconds: i64, moment: i64)
    ensures
        now - seconds == moment ==> reaches_back(now as int, seconds as int),
        now - seconds > 0x7fff_ffff_ffff_ffff || now - seconds < -0x8000_0000_0000_0000
            ==> !reaches_back(now as int, seconds as int),
{
}

} // verus!
