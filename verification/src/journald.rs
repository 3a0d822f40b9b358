//! Following the system journal: from its JSON records to log entries, batched
//! for storage.

use vstd::prelude::*;
use vstd::utf8::{
    decode_utf8, encode_utf8, encode_utf8_decode_utf8, encode_utf8_valid_utf8, valid_utf8,
};

use crate::dns_metrics::{observe, observed, query_of, AggView, DnsState};
use crate::json::{field_of, text_of, Document, DocumentView, Field, FieldView};
use crate::outside::{json_from_str, json_of_text, lossy_text, lossy_text_of, unix_now};
use crate::text::{
    chars_of, contains, contains_text, digits_of, found_where_it_stands, parse_signed,
    signed_is_read_back, signed_of, string_of, trim, trim_keeps, trim_of, trim_only_drops,
    trimmed_ends,
};

verus! {

/// Seconds between a stop of the follower and its next start.
pub const RESTART_SECS: u64 = 5;

/// Seconds between two flushes of the batch.
pub const FLUSH_SECS: u64 = 1;

/// A stored log line.
pub struct LogEntry {
    pub source: String,
    pub line: String,
    pub ts: i64,
}

/// The mathematical form of [`LogEntry`].
pub struct EntryView {
    pub source: Seq<char>,
    pub line: Seq<char>,
    pub ts: i64,
}

impl View for LogEntry {
    type V = EntryView;

    open spec fn view(&self) -> EntryView {
        EntryView { source: self.source@, line: self.line@, ts: self.ts }
    }
}

/// The mathematical form of a list of entries.
pub open spec fn entries_view(entries: Seq<LogEntry>) -> Seq<EntryView> {
    entries.map_values(|e: LogEntry| e@)
}

/// Whether `c` is a final byte of an escape sequence.
pub open spec fn is_final(c: char) -> bool {
    '@' <= c <= '~'
}

/// What follows the final byte of an escape sequence.
pub open spec fn after_escape(s: Seq<char>) -> Seq<char>
    decreases s.len(),
{
    if s.len() == 0 {
        s
    } else if is_final(s.first()) {
        s.drop_first()
    } else {
        after_escape(s.drop_first())
    }
}

/// What follows an escape sequence is no longer than what it stands in.
pub proof fn lemma_after_escape(s: Seq<char>)
    ensures
        after_escape(s).len() <= s.len(),
    decreases s.len(),
{
    if s.len() > 0 {
        lemma_after_escape(s.drop_first());
    }
}

/// `s` without its escape sequences: an escape character, `[`, and what follows
/// up to its final byte. An escape character with no `[` after it is dropped alone.
pub open spec fn without_escapes(s: Seq<char>) -> Seq<char>
    decreases s.len(),
{
    proof {
        lemma_after_escape(s.skip(2));
    }
    if s.len() == 0 {
        s
    } else if s.first() != '\u{1b}' {
        seq![s.first()] + without_escapes(s.drop_first())
    } else if s.len() > 1 && s[1] == '[' {
        without_escapes(after_escape(s.skip(2)))
    } else {
        without_escapes(s.drop_first())
    }
}

/// A log line without escape sequences and without white space at its ends.
pub open spec fn strip_ansi_of(s: Seq<char>) -> Seq<char> {
    trim_of(without_escapes(s))
}

/// Removes ANSI escape sequences from a log line, and white space at its ends.
pub fn strip_ansi(s: &str) -> (result: String)
    ensures
        result@ == strip_ansi_of(s@),
{
    let chars = chars_of(s);
    let mut out: Vec<char> = Vec::new();
    let mut i: usize = 0;
    assert(chars@.skip(0) == chars@);
    while i < chars.len()
        invariant
            i <= chars.len(),
            without_escapes(chars@) == out@ + without_escapes(chars@.skip(i as int)),
        decreases chars.len() - i,
    {
        let ghost rest = chars@.skip(i as int);
        let ghost before = out@;
        let c: char = chars[i];
        assert(rest.drop_first() =~= chars@.skip(i + 1));
        if c != '\u{1b}' {
            out.push(c);
            i += 1;
            assert(before + (seq![c] + without_escapes(chars@.skip(i as int))) =~= out@
                + without_escapes(chars@.skip(i as int)));
        } else if i + 1 < chars.len() && chars[i + 1] == '[' {
            assert(rest.skip(2) =~= chars@.skip(i + 2));
            let mut j: usize = i + 2;
            let mut done: bool = false;
            while !done && j < chars.len()
                invariant
                    i + 2 <= j <= chars.len(),
                    if done {
                        after_escape(chars@.skip(i + 2)) == chars@.skip(j as int)
                    } else {
                        after_escape(chars@.skip(i + 2)) == after_escape(chars@.skip(j as int))
                    },
                decreases chars.len() - j,
            {
                let n: char = chars[j];
                assert(chars@.skip(j as int).drop_first() =~= chars@.skip(j + 1));
                if '@' <= n && n <= '~' {
                    done = true;
                }
                j += 1;
            }
            assert(j == chars.len() ==> chars@.skip(j as int) =~= Seq::<char>::empty());
            i = j;
        } else {
            i += 1;
        }
    }
    assert(chars@.skip(i as int) =~= Seq::<char>::empty());
    assert(out@ + Seq::<char>::empty() =~= out@);
    string_of(trim(out.as_slice()))
}

/// The bytes that an array of a record stands for: the low byte of each item
/// that is an unsigned integer; the others do not count.
pub open spec fn bytes_of(items: Seq<Option<u64>>) -> Seq<u8>
    decreases items.len(),
{
    if items.len() == 0 {
        Seq::<u8>::empty()
    } else {
        let before = bytes_of(items.drop_last());
        match items.last() {
            Some(n) => before.push((n % 256) as u8),
            None => before,
        }
    }
}

fn bytes(items: &[Option<u64>]) -> (out: Vec<u8>)
    ensures
        out@ == bytes_of(items@),
{
    let mut out: Vec<u8> = Vec::new();
    let mut i: usize = 0;
    while i < items.len()
        invariant
            i <= items.len(),
            out@ == bytes_of(items@.take(i as int)),
        decreases items.len() - i,
    {
        assert(items@.take(i + 1).drop_last() =~= items@.take(i as int));
        if let Some(n) = items[i] {
            out.push((n % 256) as u8);
        }
        i += 1;
    }
    assert(items@.take(items@.len() as int) =~= items@);
    out
}

/// The text that bytes stand for.
pub open spec fn text_in(bytes: Seq<u8>) -> Seq<char> {
    if valid_utf8(bytes) {
        decode_utf8(bytes)
    } else {
        lossy_text_of(bytes)
    }
}

/// The message of a record: a string, or an array of the bytes of one.
pub open spec fn message_of(record: DocumentView) -> Option<Seq<char>> {
    match field_of(record, "MESSAGE"@) {
        Some(FieldView::Text(s)) => Some(s),
        Some(FieldView::List(items)) => Some(text_in(bytes_of(items))),
        _ => None,
    }
}

/// The unit that a record comes from, or else its identifier, or else `journal`.
pub open spec fn source_of(record: DocumentView) -> Seq<char> {
    match text_of(record, "_SYSTEMD_UNIT"@) {
        Some(unit) => unit,
        None => match text_of(record, "SYSLOG_IDENTIFIER"@) {
            Some(identifier) => identifier,
            None => "journal"@,
        },
    }
}

/// Microseconds as whole seconds, towards zero.
pub open spec fn seconds_of(micros: int) -> int {
    if micros >= 0 {
        micros / 1_000_000
    } else {
        -(-micros / 1_000_000)
    }
}

/// The moment that a record tells, in seconds.
pub open spec fn told_moment(record: DocumentView) -> Option<i64> {
    match text_of(record, "__REALTIME_TIMESTAMP"@) {
        Some(text) => match signed_of(text) {
            Some(micros) => Some(seconds_of(micros) as i64),
            None => None,
        },
        None => None,
    }
}

/// The moment of a record in seconds, or else `now`.
pub open spec fn moment_of(record: DocumentView, now: i64) -> i64 {
    match told_moment(record) {
        Some(moment) => moment,
        None => now,
    }
}

/// The log entry of a record: none where it has no message, or an empty one.
pub open spec fn record_of(record: DocumentView, now: i64) -> Option<EntryView> {
    match message_of(record) {
        Some(message) if strip_ansi_of(message).len() > 0 => Some(
            EntryView {
                source: source_of(record),
                line: strip_ansi_of(message),
                ts: moment_of(record, now),
            },
        ),
        _ => None,
    }
}

/// The log entry of the text of a record.
pub open spec fn entry_of(raw: Seq<char>, now: i64) -> Option<EntryView> {
    match json_of_text(raw) {
        Some(record) => record_of(record, now),
        None => None,
    }
}

/// Whether an optional entry is the given one.
pub open spec fn entry_is(entry: Option<LogEntry>, view: Option<EntryView>) -> bool {
    match view {
        Some(v) => entry matches Some(e) && e@ == v,
        None => entry is None,
    }
}

/// What a record tells of its log entry.
struct Draft {
    source: String,
    line: String,
    ts: Option<i64>,
}

impl Draft {
    fn dated(self, now: i64) -> (entry: LogEntry)
        ensures
            entry@ == (EntryView {
                source: self.source@,
                line: self.line@,
                ts: match self.ts {
                    Some(ts) => ts,
                    None => now,
                },
            }),
    {
        LogEntry { source: self.source, line: self.line, ts: self.ts.unwrap_or(now) }
    }
}

fn told_seconds(record: &Document) -> (ts: Option<i64>)
    ensures
        ts == told_moment(record@),
{
    match record.text("__REALTIME_TIMESTAMP") {
        Some(text) => match parse_signed(chars_of(text.as_str()).as_slice()) {
            Some(micros) => {
                if micros >= 0 {
                    Some(micros / 1_000_000)
                } else {
                    let size: i128 = 0 - micros as i128;
                    Some((0 - size / 1_000_000) as i64)
                }
            },
            None => None,
        },
        None => None,
    }
}

fn record_draft(record: &Document) -> (draft: Option<Draft>)
    ensures
        match draft {
            Some(d) => {
                &&& message_of(record@) is Some
                &&& strip_ansi_of(message_of(record@)->0).len() > 0
                &&& d.line@ == strip_ansi_of(message_of(record@)->0)
                &&& d.source@ == source_of(record@)
                &&& d.ts == told_moment(record@)
            },
            None => forall|now: i64| #[trigger] record_of(record@, now) is None,
        },
{
    let raw_message: String = match record.field("MESSAGE") {
        Some(Field::Text(s)) => s.clone(),
        Some(Field::List(items)) => lossy_text(bytes(items.as_slice()).as_slice()),
        _ => {
            return None;
        },
    };
    let line = strip_ansi(raw_message.as_str());
    if line.as_str().is_empty() {
        return None;
    }
    let source: String = match record.text("_SYSTEMD_UNIT") {
        Some(unit) => unit.clone(),
        None => match record.text("SYSLOG_IDENTIFIER") {
            Some(identifier) => identifier.clone(),
            None => "journal".to_string(),
        },
    };
    Some(Draft { source, line, ts: told_seconds(record) })
}

/// Takes the log entry out of a record; `now` is its moment where it tells none.
pub fn record_entry(record: &Document, now: i64) -> (entry: Option<LogEntry>)
    ensures
        entry_is(entry, record_of(record@, now)),
{
    match record_draft(record) {
        Some(draft) => Some(draft.dated(now)),
        None => None,
    }
}

/// Takes the log entry out of the text of a record; `now` is its moment where
/// it tells none.
pub fn parse_line_at(raw: &str, now: i64) -> (entry: Option<LogEntry>)
    ensures
        entry_is(entry, entry_of(raw@, now)),
{
    match json_from_str(raw) {
        Some(record) => record_entry(&record, now),
        None => None,
    }
}

/// Takes the log entry out of the text of a record; its moment is that of the
/// call where it tells none. Only then is the clock looked at.
pub fn parse_line(raw: &str) -> (entry: Option<LogEntry>)
    ensures
        exists|now: i64| 0 <= now && entry_is(entry, #[trigger] entry_of(raw@, now)),
{
    let draft: Option<Draft> = match json_from_str(raw) {
        Some(record) => record_draft(&record),
        None => None,
    };
    match draft {
        Some(draft) => {
            let now: i64 = if draft.ts.is_some() {
                0
            } else {
                unix_now()
            };
            let entry = Some(draft.dated(now));
            assert(entry_is(entry, entry_of(raw@, now)));
            entry
        },
        None => {
            assert(entry_is(None, entry_of(raw@, 0)));
            None
        },
    }
}

/// The arguments with which the journal is followed for the given units.
pub open spec fn follow_args_of(units: Seq<Seq<char>>) -> Seq<Seq<char>>
    decreases units.len(),
{
    if units.len() == 0 {
        seq!["-f"@, "-o"@, "json"@, "-n"@, "0"@, "--no-pager"@]
    } else {
        follow_args_of(units.drop_last()).push("-u"@).push(units.last())
    }
}

/// What a list of strings holds.
pub open spec fn strings_view(v: Seq<String>) -> Seq<Seq<char>> {
    v.map_values(|s: String| s@)
}

/// The arguments with which the journal is followed for the given units; none
/// where there is no unit to follow.
pub fn follow_args(units: &[String]) -> (args: Option<Vec<String>>)
    ensures
        match args {
            Some(a) => units@.len() > 0 && strings_view(a@) == follow_args_of(
                strings_view(units@),
            ),
            None => units@.len() == 0,
        },
{
    if units.len() == 0 {
        return None;
    }
    let ghost all = strings_view(units@);
    let mut args: Vec<String> = Vec::new();
    args.push("-f".to_string());
    args.push("-o".to_string());
    args.push("json".to_string());
    args.push("-n".to_string());
    args.push("0".to_string());
    args.push("--no-pager".to_string());
    assert(strings_view(args@) =~= follow_args_of(all.take(0)));
    let mut i: usize = 0;
    while i < units.len()
        invariant
            i <= units.len(),
            all == strings_view(units@),
            strings_view(args@) == follow_args_of(all.take(i as int)),
        decreases units.len() - i,
    {
        let ghost before = args@;
        args.push("-u".to_string());
        args.push(units[i].clone());
        assert(all.take(i + 1).drop_last() =~= all.take(i as int));
        assert(strings_view(args@) =~= strings_view(before).push("-u"@).push(all[i as int]));
        i += 1;
    }
    assert(all.take(all.len() as int) =~= all);
    Some(args)
}

/// What happens to the follower.
pub enum Event {
    /// The journal gave a line.
    Line(String),
    /// The flush timer ran out.
    Tick,
    /// The journal ended.
    Closed,
    /// Reading the journal failed.
    Failed,
}

/// What the follower is to do next.
pub enum Action {
    /// Wait for the next event.
    Wait,
    /// Store and broadcast these entries, then wait.
    Store(Vec<LogEntry>),
    /// Store and broadcast these entries if there are any, then stop.
    Finish(Vec<LogEntry>),
    /// Stop at once.
    Abort,
}

/// The follower of the journal: what it has read and not yet handed on.
pub struct Follower {
    pub batch: Vec<LogEntry>,
}

/// The mathematical form of [`Event`].
pub enum EventView {
    Line(Seq<char>),
    Tick,
    Closed,
    Failed,
}

impl View for Event {
    type V = EventView;

    open spec fn view(&self) -> EventView {
        match self {
            Event::Line(raw) => EventView::Line(raw@),
            Event::Tick => EventView::Tick,
            Event::Closed => EventView::Closed,
            Event::Failed => EventView::Failed,
        }
    }
}

/// The entry that an event brings.
pub open spec fn entry_in(event: EventView, now: i64) -> Option<EntryView> {
    match event {
        EventView::Line(raw) => entry_of(raw, now),
        _ => None,
    }
}

/// The batch with one entry more, if there is one.
pub open spec fn batch_with(batch: Seq<EntryView>, entry: Option<EntryView>) -> Seq<EntryView> {
    match entry {
        Some(e) => batch.push(e),
        None => batch,
    }
}

/// The batch after an event.
pub open spec fn batch_after(batch: Seq<EntryView>, event: EventView, now: i64) -> Seq<EntryView> {
    match event {
        EventView::Line(_) => batch_with(batch, entry_in(event, now)),
        EventView::Tick => Seq::empty(),
        EventView::Closed => Seq::empty(),
        EventView::Failed => batch,
    }
}

/// The entries that are handed on at an event.
pub open spec fn handed_on(batch: Seq<EntryView>, event: EventView) -> Seq<EntryView> {
    match event {
        EventView::Tick => batch,
        EventView::Closed => batch,
        _ => Seq::empty(),
    }
}

/// Whether an entry comes from the name server.
pub open spec fn is_of_name_server(entry: EntryView) -> bool {
    contains_text(entry.source, "akurai-dns"@)
}

/// The name server's window with an entry, if there is one: those of the name
/// server are fed to it.
pub open spec fn window_with(window: AggView, entry: Option<EntryView>) -> AggView {
    match entry {
        Some(e) if is_of_name_server(e) => observed(window, e.line),
        _ => window,
    }
}

/// The name server's window after an event.
pub open spec fn window_after(window: AggView, event: EventView, now: i64) -> AggView {
    window_with(window, entry_in(event, now))
}

/// Whether the name server's window can count the query that an entry tells of,
/// if it tells of one.
pub open spec fn has_room(window: AggView, entry: Option<EntryView>) -> bool {
    match entry {
        Some(e) => is_of_name_server(e) && query_of(e.line) is Some ==> window.udp + window.tcp
            < u64::MAX,
        None => true,
    }
}

/// Whether the name server's window can count what an event brings.
pub open spec fn window_has_room(window: AggView, event: EventView, now: i64) -> bool {
    has_room(window, entry_in(event, now))
}

/// Whether an action is what an event leads to with the given batch.
pub open spec fn event_leads_to(action: Action, batch: Seq<LogEntry>, event: EventView) -> bool {
    match event {
        EventView::Line(_) => action is Wait,
        EventView::Tick => if batch.len() == 0 {
            action is Wait
        } else {
            action matches Action::Store(entries) && entries@ == batch
        },
        EventView::Closed => action matches Action::Finish(entries) && entries@ == batch,
        EventView::Failed => action is Abort,
    }
}

/// What an optional entry holds.
pub open spec fn entry_view(entry: Option<LogEntry>) -> Option<EntryView> {
    match entry {
        Some(e) => Some(e@),
        None => None,
    }
}

/// Whether an event at `now` has led from one batch and window to another, with
/// the given action. Where the window has no room nothing changes, and there is
/// no action.
pub open spec fn step_taken(
    action: Option<Action>,
    batch: Seq<LogEntry>,
    new_batch: Seq<LogEntry>,
    window: AggView,
    new_window: AggView,
    event: EventView,
    now: i64,
) -> bool {
    if window_has_room(window, event, now) {
        &&& new_window == window_after(window, event, now)
        &&& entries_view(new_batch) == batch_after(entries_view(batch), event, now)
        &&& action matches Some(a)
        &&& event_leads_to(a, batch, event)
    } else {
        &&& new_window == window
        &&& new_batch == batch
        &&& action is None
    }
}

fn from_name_server(entry: &LogEntry) -> (yes: bool)
    ensures
        yes == is_of_name_server(entry@),
{
    contains(chars_of(entry.source.as_str()).as_slice(), "akurai-dns")
}

fn room_for(dns: &DnsState, entry: &Option<LogEntry>) -> (yes: bool)
    requires
        dns.well_formed(),
    ensures
        yes == has_room(dns.agg@, entry_view(*entry)),
{
    if dns.agg.tcp < u64::MAX - dns.agg.udp {
        return true;
    }
    match entry {
        Some(e) => {
            let line = chars_of(e.line.as_str());
            !(from_name_server(e) && (contains(line.as_slice(), "UDP query") || contains(
                line.as_slice(),
                "TCP query",
            )))
        },
        None => true,
    }
}

impl Follower {
    /// A follower that has read nothing.
    pub fn new() -> (f: Follower)
        ensures
            f.batch@.len() == 0,
    {
        Follower { batch: Vec::new() }
    }

    /// What to do at an event. `now` is the moment of an entry that tells none. The
    /// name server's window must have room for a query that the event brings.
    pub fn step(&mut self, dns: &mut DnsState, event: Event, now: i64) -> (action: Action)
        requires
            old(dns).well_formed(),
            window_has_room(old(dns).agg@, event@, now),
        ensures
            final(dns).well_formed(),
            final(dns).agg@ == window_after(old(dns).agg@, event@, now),
            final(dns).last == old(dns).last,
            entries_view(final(self).batch@) == batch_after(
                entries_view(old(self).batch@),
                event@,
                now,
            ),
            event_leads_to(action, old(self).batch@, event@),
    {
        match event {
            Event::Line(raw) => {
                let entry = parse_line_at(raw.as_str(), now);
                self.take(dns, entry);
                Action::Wait
            },
            Event::Tick => {
                if self.batch.len() == 0 {
                    assert(entries_view(self.batch@) =~= Seq::<EntryView>::empty());
                    return Action::Wait;
                }
                let mut entries: Vec<LogEntry> = Vec::new();
                std::mem::swap(&mut entries, &mut self.batch);
                assert(entries_view(self.batch@) =~= Seq::<EntryView>::empty());
                Action::Store(entries)
            },
            Event::Closed => {
                let mut entries: Vec<LogEntry> = Vec::new();
                std::mem::swap(&mut entries, &mut self.batch);
                assert(entries_view(self.batch@) =~= Seq::<EntryView>::empty());
                Action::Finish(entries)
            },
            Event::Failed => Action::Abort,
        }
    }

    fn take(&mut self, dns: &mut DnsState, entry: Option<LogEntry>)
        requires
            old(dns).well_formed(),
            has_room(old(dns).agg@, entry_view(entry)),
        ensures
            final(dns).well_formed(),
            final(dns).agg@ == window_with(old(dns).agg@, entry_view(entry)),
            final(dns).last == old(dns).last,
            entries_view(final(self).batch@) == batch_with(
                entries_view(old(self).batch@),
                entry_view(entry),
            ),
    {
        if let Some(entry) = entry {
            if from_name_server(&entry) {
                observe(dns, entry.line.as_str());
            }
            let ghost before = self.batch@;
            let ghost added = entry@;
            self.batch.push(entry);
            assert(entries_view(self.batch@) =~= entries_view(before).push(added));
        }
    }

    /// What to do at an event, as [`Follower::step`] says. The clock is looked at
    /// only for an entry that tells no moment. Where the name server's window has no
    /// room for a query, nothing changes and there is no action.
    pub fn try_step(&mut self, dns: &mut DnsState, event: Event) -> (action: Option<Action>)
        requires
            old(dns).well_formed(),
        ensures
            final(dns).well_formed(),
            final(dns).last == old(dns).last,
            exists|now: i64|
                0 <= now && #[trigger] step_taken(
                    action,
                    old(self).batch@,
                    final(self).batch@,
                    old(dns).agg@,
                    final(dns).agg@,
                    event@,
                    now,
                ),
    {
        let ghost view = event@;
        match event {
            Event::Line(raw) => {
                let entry = parse_line(raw.as_str());
                let ghost now = choose|now: i64|
                    0 <= now && entry_is(entry, #[trigger] entry_of(raw@, now));
                assert(view == EventView::Line(raw@));
                assert(entry_view(entry) == entry_in(view, now));
                let action: Option<Action> = if room_for(dns, &entry) {
                    self.take(dns, entry);
                    Some(Action::Wait)
                } else {
                    None
                };
                assert(step_taken(
                    action,
                    old(self).batch@,
                    self.batch@,
                    old(dns).agg@,
                    dns.agg@,
                    view,
                    now,
                ));
                action
            },
            other => {
                let action = Some(self.step(dns, other, 0));
                assert(step_taken(
                    action,
                    old(self).batch@,
                    self.batch@,
                    old(dns).agg@,
                    dns.agg@,
                    view,
                    0,
                ));
                action
            },
        }
    }
}

/// A stripped line holds no escape character.
pub proof fn stripped_has_no_escape(s: Seq<char>)
    ensures
        !strip_ansi_of(s).contains('\u{1b}'),
{
    lemma_no_escape(s);
    if strip_ansi_of(s).contains('\u{1b}') {
        trim_only_drops(without_escapes(s), '\u{1b}');
    }
}

proof fn lemma_no_escape(s: Seq<char>)
    ensures
        !without_escapes(s).contains('\u{1b}'),
    decreases s.len(),
{
    if s.len() > 0 {
        if s.first() != '\u{1b}' {
            let rest = without_escapes(s.drop_first());
            lemma_no_escape(s.drop_first());
            let all = seq![s.first()] + rest;
            if all.contains('\u{1b}') {
                let i = choose|i: int| 0 <= i < all.len() && all[i] == '\u{1b}';
                assert(rest[i - 1] == '\u{1b}');
            }
        } else if s.len() > 1 && s[1] == '[' {
            lemma_after_escape(s.skip(2));
            lemma_no_escape(after_escape(s.skip(2)));
        } else {
            lemma_no_escape(s.drop_first());
        }
    }
}

/// A line with no escape character is only trimmed.
pub proof fn plain_line_is_kept(s: Seq<char>)
    requires
        !s.contains('\u{1b}'),
    ensures
        strip_ansi_of(s) == trim_of(s),
{
    lemma_plain(s);
}

proof fn lemma_plain(s: Seq<char>)
    requires
        !s.contains('\u{1b}'),
    ensures
        without_escapes(s) == s,
    decreases s.len(),
{
    if s.len() > 0 {
        assert(s[0] != '\u{1b}');
        assert(!s.drop_first().contains('\u{1b}')) by {
            if s.drop_first().contains('\u{1b}') {
                let i = choose|i: int|
                    0 <= i < s.drop_first().len() && s.drop_first()[i] == '\u{1b}';
                assert(s[i + 1] == '\u{1b}');
            }
        }
        lemma_plain(s.drop_first());
        assert(seq![s.first()] + s.drop_first() =~= s);
    }
}

/// Stripping a stripped line changes nothing.
pub proof fn strip_is_idempotent(s: Seq<char>)
    ensures
        strip_ansi_of(strip_ansi_of(s)) == strip_ansi_of(s),
{
    stripped_has_no_escape(s);
    plain_line_is_kept(strip_ansi_of(s));
    trimmed_ends(without_escapes(s));
    trim_keeps(strip_ansi_of(s));
}

/// The batch after a run of events, each at its moment.
pub open spec fn batch_after_all(events: Seq<(EventView, i64)>) -> Seq<EntryView>
    decreases events.len(),
{
    if events.len() == 0 {
        Seq::empty()
    } else {
        batch_after(batch_after_all(events.drop_last()), events.last().0, events.last().1)
    }
}

/// What was handed on in a run of events, in order.
pub open spec fn handed_on_all(events: Seq<(EventView, i64)>) -> Seq<EntryView>
    decreases events.len(),
{
    if events.len() == 0 {
        Seq::empty()
    } else {
        handed_on_all(events.drop_last()) + handed_on(
            batch_after_all(events.drop_last()),
            events.last().0,
        )
    }
}

/// The entries that a run of events brings, in order.
pub open spec fn entries_in(events: Seq<(EventView, i64)>) -> Seq<EntryView>
    decreases events.len(),
{
    if events.len() == 0 {
        Seq::empty()
    } else {
        match entry_in(events.last().0, events.last().1) {
            Some(entry) => entries_in(events.drop_last()).push(entry),
            None => entries_in(events.drop_last()),
        }
    }
}

/// Every entry that was read has been handed on once, in the order read, or is
/// still in the batch.
pub proof fn no_entry_is_lost(events: Seq<(EventView, i64)>)
    ensures
        handed_on_all(events) + batch_after_all(events) == entries_in(events),
    decreases events.len(),
{
    if events.len() > 0 {
        no_entry_is_lost(events.drop_last());
        let batch = batch_after_all(events.drop_last());
        let before = handed_on_all(events.drop_last());
        assert(handed_on_all(events) + batch_after_all(events) =~= entries_in(events));
    }
}

/// When the journal ends, nothing that was read is left behind.
pub proof fn closing_hands_on_everything(events: Seq<(EventView, i64)>)
    requires
        events.len() > 0,
        events.last().0 is Closed,
    ensures
        handed_on_all(events) == entries_in(events),
{
    no_entry_is_lost(events);
    assert(handed_on_all(events) + Seq::<EntryView>::empty() =~= handed_on_all(events));
}

proof fn lemma_bytes_of(items: Seq<Option<u64>>, bytes: Seq<u8>)
    requires
        items.len() == bytes.len(),
        forall|i: int| 0 <= i < items.len() ==> #[trigger] items[i] == Some(bytes[i] as u64),
    ensures
        bytes_of(items) == bytes,
    decreases items.len(),
{
    if items.len() > 0 {
        let before = items.drop_last();
        assert forall|i: int| 0 <= i < before.len() implies #[trigger] before[i] == Some(
            bytes.drop_last()[i] as u64,
        ) by {
            assert(items[i] == Some(bytes[i] as u64));
        }
        lemma_bytes_of(before, bytes.drop_last());
        assert(items[items.len() - 1] == Some(bytes[bytes.len() - 1] as u64));
        assert(bytes.drop_last().push(bytes.last()) =~= bytes);
    }
}

/// A message that came as an array of the bytes of a text is read as that text,
/// as if it had come as a string.
pub proof fn byte_message_is_its_text(record: DocumentView, text: Seq<char>)
    requires
        field_of(record, "MESSAGE"@) == Some(
            FieldView::List(encode_utf8(text).map_values(|b: u8| Some(b as u64))),
        ),
    ensures
        message_of(record) == Some(text),
{
    let items = encode_utf8(text).map_values(|b: u8| Some(b as u64));
    lemma_bytes_of(items, encode_utf8(text));
    encode_utf8_valid_utf8(text);
    encode_utf8_decode_utf8(text);
}

proof fn lemma_sequence_ends(p: Seq<char>, f: char, rest: Seq<char>)
    requires
        forall|i: int| 0 <= i < p.len() ==> !('@' <= #[trigger] p[i] <= '~'),
        '@' <= f <= '~',
    ensures
        after_escape(p.push(f) + rest) == rest,
    decreases p.len(),
{
    let s = p.push(f) + rest;
    if p.len() == 0 {
        assert(s.drop_first() =~= rest);
    } else {
        let q = p.drop_first();
        assert(s.first() == p[0]);
        assert(s.drop_first() =~= q.push(f) + rest);
        assert forall|i: int| 0 <= i < q.len() implies !('@' <= #[trigger] q[i] <= '~') by {
            assert(q[i] == p[i + 1]);
        }
        lemma_sequence_ends(q, f, rest);
    }
}

/// An escape sequence, which is an escape character, `[`, parameters and a final
/// byte, is removed as a whole, and nothing with it of the text before it or behind
/// its final byte. Every character from `@` to `~` is a final byte, so every letter
/// is; no other is.
pub proof fn sequence_is_removed(a: Seq<char>, p: Seq<char>, f: char, rest: Seq<char>)
    requires
        !a.contains('\u{1b}'),
        forall|i: int| 0 <= i < p.len() ==> !('@' <= #[trigger] p[i] <= '~'),
        '@' <= f <= '~',
    ensures
        without_escapes(a + (seq!['\u{1b}', '['] + (p.push(f) + rest))) == a + without_escapes(
            rest,
        ),
{
    let tail = seq!['\u{1b}', '['] + (p.push(f) + rest);
    lemma_sequence_ends(p, f, rest);
    assert(tail.skip(2) =~= p.push(f) + rest);
    assert(without_escapes(tail) == without_escapes(rest));
    text_before_is_kept(a, tail);
}

/// Text before an escape character is kept as it is.
pub proof fn text_before_is_kept(a: Seq<char>, tail: Seq<char>)
    requires
        !a.contains('\u{1b}'),
    ensures
        without_escapes(a + tail) == a + without_escapes(tail),
    decreases a.len(),
{
    if a.len() == 0 {
        assert(a + tail =~= tail);
        assert(a + without_escapes(tail) =~= without_escapes(tail));
    } else {
        let rest = a.drop_first();
        assert(a[0] != '\u{1b}');
        assert forall|i: int| 0 <= i < rest.len() implies rest[i] != '\u{1b}' by {
            assert(a[i + 1] == rest[i]);
        }
        text_before_is_kept(rest, tail);
        assert((a + tail).drop_first() =~= rest + tail);
        assert(seq![a.first()] + (rest + without_escapes(tail)) =~= a + without_escapes(tail));
    }
}

/// An escape character that starts no sequence is dropped alone, and a sequence
/// without a final byte is dropped to the end.
pub proof fn lone_escape_is_dropped(rest: Seq<char>, p: Seq<char>)
    requires
        rest.len() == 0 || rest.first() != '[',
        forall|i: int| 0 <= i < p.len() ==> !('@' <= #[trigger] p[i] <= '~'),
    ensures
        without_escapes(seq!['\u{1b}'] + rest) == without_escapes(rest),
        without_escapes(seq!['\u{1b}', '['] + p) == Seq::<char>::empty(),
{
    let s = seq!['\u{1b}'] + rest;
    assert(s.drop_first() =~= rest);
    if rest.len() > 0 {
        assert(s[1] == rest.first());
    }
    let t = seq!['\u{1b}', '['] + p;
    assert(t.skip(2) =~= p);
    lemma_no_end(p);
    let nothing = after_escape(p);
    assert(without_escapes(t) == without_escapes(nothing));
    assert(without_escapes(nothing) =~= Seq::empty());
}

proof fn lemma_no_end(p: Seq<char>)
    requires
        forall|i: int| 0 <= i < p.len() ==> !('@' <= #[trigger] p[i] <= '~'),
    ensures
        after_escape(p).len() == 0,
    decreases p.len(),
{
    if p.len() > 0 {
        let q = p.drop_first();
        assert(!('@' <= p[0] <= '~'));
        assert forall|i: int| 0 <= i < q.len() implies !('@' <= #[trigger] q[i] <= '~') by {
            assert(q[i] == p[i + 1]);
        }
        lemma_no_end(q);
    }
}

/// The entry of a record with a string for its message, that leaves something when it
/// is stripped: the line is the stripped message, the source is the unit, or else the
/// identifier, or else `journal`.
pub proof fn record_gives_its_entry(record: DocumentView, message: Seq<char>, now: i64)
    requires
        field_of(record, "MESSAGE"@) == Some(FieldView::Text(message)),
        trim_of(without_escapes(message)).len() > 0,
    ensures
        record_of(record, now) matches Some(entry) && entry.line == trim_of(
            without_escapes(message),
        ) && (text_of(record, "_SYSTEMD_UNIT"@) matches Some(unit) ==> entry.source == unit) && (
        text_of(record, "_SYSTEMD_UNIT"@) is None ==> (text_of(
            record,
            "SYSLOG_IDENTIFIER"@,
        ) matches Some(identifier) ==> entry.source == identifier)) && (text_of(
            record,
            "_SYSTEMD_UNIT"@,
        ) is None && text_of(record, "SYSLOG_IDENTIFIER"@) is None ==> entry.source
            == "journal"@),
{
}

/// A record without a message, or with one that leaves nothing when it is stripped,
/// gives no entry.
pub proof fn empty_record_gives_none(record: DocumentView, message: Seq<char>, now: i64)
    requires
        field_of(record, "MESSAGE"@) is None || field_of(record, "MESSAGE"@) == Some(
            FieldView::Other,
        ) || (field_of(record, "MESSAGE"@) == Some(FieldView::Text(message)) && trim_of(
            without_escapes(message),
        ).len() == 0),
    ensures
        record_of(record, now) is None,
{
}

/// The moment of a record is what it tells in microseconds, cut to seconds, for all
/// numbers that fit; one that tells none has the given moment.
pub proof fn record_tells_its_moment(record: DocumentView, n: nat, now: i64)
    requires
        record_of(record, now) is Some,
    ensures
        text_of(record, "__REALTIME_TIMESTAMP"@) == Some(digits_of(n)) && n <= i64::MAX
            ==> record_of(record, now)->0.ts == n / 1_000_000,
        text_of(record, "__REALTIME_TIMESTAMP"@) == Some(seq!['-'] + digits_of(n)) && n
            <= 0x8000_0000_0000_0000 ==> record_of(record, now)->0.ts == -(n as int / 1_000_000),
        text_of(record, "__REALTIME_TIMESTAMP"@) is None ==> record_of(record, now)->0.ts == now,
{
    signed_is_read_back(n);
}

/// The bytes of an array are taken one by one, the low byte of each number, and what
/// is no number is passed over.
pub proof fn bytes_are_taken_one_by_one(items: Seq<Option<u64>>, n: u64)
    ensures
        bytes_of(items.push(Some(n))) == bytes_of(items).push((n % 256) as u8),
        bytes_of(items.push(None)) == bytes_of(items),
        bytes_of(Seq::empty()) == Seq::<u8>::empty(),
{
    assert(items.push(Some(n)).drop_last() =~= items);
    assert(items.push(None).drop_last() =~= items);
}

/// The arguments follow every unit, in order, behind those that ask for new records
/// as JSON.
pub proof fn every_unit_is_followed(units: Seq<Seq<char>>, unit: Seq<char>)
    ensures
        follow_args_of(Seq::empty()) == seq!["-f"@, "-o"@, "json"@, "-n"@, "0"@, "--no-pager"@],
        follow_args_of(units.push(unit)) == follow_args_of(units) + seq!["-u"@, unit],
{
    assert(units.push(unit).drop_last() =~= units);
    assert(follow_args_of(units.push(unit)) =~= follow_args_of(units) + seq!["-u"@, unit]);
}

/// The entries that an action hands on.
pub open spec fn entries_of_action(action: Action) -> Seq<LogEntry> {
    match action {
        Action::Store(entries) => entries@,
        Action::Finish(entries) => entries@,
        _ => Seq::empty(),
    }
}

/// What an action hands on at an event is the batch at a tick and at the end, and
/// nothing else at any other; the journal's end finishes, and its failure aborts.
pub proof fn actions_hand_on_the_batch(action: Action, batch: Seq<LogEntry>, event: EventView)
    requires
        event_leads_to(action, batch, event),
    ensures
        entries_view(entries_of_action(action)) == handed_on(entries_view(batch), event),
        event is Tick || event is Closed ==> entries_of_action(action) == batch,
        event is Line || event is Failed ==> entries_of_action(action).len() == 0,
        event is Closed <==> action is Finish,
        event is Failed <==> action is Abort,
        action is Store ==> batch.len() > 0,
{
    assert(entries_view(Seq::empty()) =~= Seq::empty());
    if batch.len() == 0 {
        assert(batch =~= Seq::empty());
    }
}

/// A line that gives an entry adds that one to the batch, one that gives none leaves it,
/// and so does a failure; a tick and the end leave nothing behind.
pub proof fn batch_takes_every_entry(batch: Seq<EntryView>, raw: Seq<char>, now: i64)
    ensures
        match entry_of(raw, now) {
            Some(entry) => batch_after(batch, EventView::Line(raw), now) == batch + seq![entry],
            None => batch_after(batch, EventView::Line(raw), now) == batch,
        },
        batch_after(batch, EventView::Failed, now) == batch,
        batch_after(batch, EventView::Tick, now).len() == 0,
        batch_after(batch, EventView::Closed, now).len() == 0,
{
    if let Some(entry) = entry_of(raw, now) {
        assert(batch.push(entry) =~= batch + seq![entry]);
    }
}

/// The lines of the name server, which are told by their source, are counted in its
/// window, and no others are.
pub proof fn only_the_name_server_is_counted(
    window: AggView,
    a: Seq<char>,
    b: Seq<char>,
    entry: EntryView,
)
    ensures
        entry.source == a + "akurai-dns"@ + b ==> window_with(window, Some(entry)) == observed(
            window,
            entry.line,
        ),
        !contains_text(entry.source, "akurai-dns"@) ==> window_with(window, Some(entry)) == window,
        window_with(window, None) == window,
{
    found_where_it_stands(a, "akurai-dns"@, b);
}

/// A record that tells a moment which is no number has the given moment.
pub proof fn odd_moment_is_not_taken(record: DocumentView, text: Seq<char>, now: i64)
    requires
        record_of(record, now) is Some,
        text_of(record, "__REALTIME_TIMESTAMP"@) == Some(text),
    ensures
        signed_of(text) is None ==> record_of(record, now)->0.ts == now,
        signed_of(text) matches Some(n) ==> (n >= 0 ==> record_of(record, now)->0.ts == n
            / 1_000_000),
{
}

/// Two records that differ only in that the message of one is a string and that of the
/// other the bytes of the same string give the same entry.
pub proof fn byte_message_gives_the_same_entry(
    a: DocumentView,
    b: DocumentView,
    text: Seq<char>,
    now: i64,
)
    requires
        field_of(a, "MESSAGE"@) == Some(FieldView::Text(text)),
        field_of(b, "MESSAGE"@) == Some(
            FieldView::List(encode_utf8(text).map_values(|b: u8| Some(b as u64))),
        ),
        text_of(a, "_SYSTEMD_UNIT"@) == text_of(b, "_SYSTEMD_UNIT"@),
        text_of(a, "SYSLOG_IDENTIFIER"@) == text_of(b, "SYSLOG_IDENTIFIER"@),
        text_of(a, "__REALTIME_TIMESTAMP"@) == text_of(b, "__REALTIME_TIMESTAMP"@),
    ensures
        record_of(a, now) == record_of(b, now),
{
    byte_message_is_its_text(b, text);
}

/// Bytes that are no UTF-8 are read with what cannot be read replaced.
pub proof fn odd_bytes_are_replaced(record: DocumentView, items: Seq<Option<u64>>)
    requires
        field_of(record, "MESSAGE"@) == Some(FieldView::List(items)),
    ensures
        message_of(record) == Some(
            if valid_utf8(bytes_of(items)) {
                decode_utf8(bytes_of(items))
            } else {
                lossy_text_of(bytes_of(items))
            },
        ),
{
}

/// A line of the journal gives the entry of its record, and one that is no JSON gives
/// none.
pub proof fn line_gives_the_entry_of_its_record(raw: Seq<char>, now: i64)
    ensures
        json_of_text(raw) matches Some(record) ==> entry_of(raw, now) == record_of(record, now),
        json_of_text(raw) is None ==> entry_of(raw, now) is None,
{
}

/// Where the window has room an event is taken: its entry joins the batch, is counted if
/// it is of the name server, and the action is the one of the event. Without room nothing
/// changes, and that is so only for a query of the name server.
pub proof fn events_are_taken_while_there_is_room(
    action: Option<Action>,
    batch: Seq<LogEntry>,
    new_batch: Seq<LogEntry>,
    window: AggView,
    new_window: AggView,
    event: EventView,
    now: i64,
)
    requires
        step_taken(action, batch, new_batch, window, new_window, event, now),
    ensures
        window.udp + window.tcp < u64::MAX || event !is Line ==> action is Some,
        action is None ==> new_batch == batch && new_window == window,
        action matches Some(a) ==> {
            &&& entries_view(entries_of_action(a)) == handed_on(entries_view(batch), event)
            &&& event is Closed <==> a is Finish
            &&& event is Failed <==> a is Abort
            &&& entries_view(new_batch) == batch_after(entries_view(batch), event, now)
            &&& event matches EventView::Line(raw) ==> new_window == window_with(
                window,
                entry_of(raw, now),
            )
            &&& event !is Line ==> new_window == window
        },
{
    if let Some(a) = action {
        actions_hand_on_the_batch(a, batch, event);
    }
}

/// The mathematical form of an entry is the whole entry, that of a list holds each in its
/// place, and an entry that is the expected one has its source, its line and its moment.
pub proof fn form_of_an_entry_is_whole(
    entry: LogEntry,
    list: Seq<LogEntry>,
    i: int,
    given: Option<LogEntry>,
    expected: Option<EntryView>,
)
    requires
        0 <= i < list.len(),
        entry_is(given, expected),
    ensures
        entry@.source == entry.source@,
        entry@.line == entry.line@,
        entry@.ts == entry.ts,
        entries_view(list).len() == list.len(),
        entries_view(list)[i] == list[i]@,
        given is Some <==> expected is Some,
        given matches Some(e) ==> e.source@ == expected->0.source && e.line@ == expected->0.line
            && e.ts == expected->0.ts,
{
}

} // verus!
