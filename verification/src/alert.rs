//! Alerts: when a rule is violated, when it no longer is, and what the alert log says.

use vstd::prelude::*;
use vstd::string::StringExecFns;

use crate::outside::{is_stamp, utc_stamp};
use crate::text::{same, split_once_of};

verus! {

/// A rule on one metric.
pub struct AlertRule {
    pub id: i64,
    pub name: String,
    pub metric_name: String,
    pub operator: String,
    /// The threshold as it is shown, to one decimal.
    pub threshold: String,
    pub duration_secs: i64,
}

/// A sample of a metric, held against the threshold of a rule.
pub struct Sample {
    /// It lies above the threshold.
    pub above: bool,
    /// It lies below the threshold.
    pub below: bool,
    /// It differs from the threshold by less than can be told apart.
    pub close: bool,
    /// The sample as it is shown, to one decimal.
    pub shown: String,
}

/// Whether a sample violates a rule with this operator. One that is not known is
/// never violated.
pub open spec fn violation(sample: Sample, operator: Seq<char>) -> bool {
    if operator == "gt"@ {
        sample.above
    } else if operator == "lt"@ {
        sample.below
    } else if operator == "eq"@ {
        sample.close
    } else {
        false
    }
}

/// Tells whether a sample violates a rule with this operator.
pub fn violates(sample: &Sample, operator: &str) -> (yes: bool)
    ensures
        yes == violation(*sample, operator@),
        operator@ == "gt"@ ==> yes == sample.above,
        operator@ == "lt"@ ==> yes == sample.below,
        operator@ == "eq"@ ==> yes == sample.close,
        operator@ != "gt"@ && operator@ != "lt"@ && operator@ != "eq"@ ==> !yes,
{
    proof {
        operators_compare(*sample);
    }
    if same(operator, "gt") {
        sample.above
    } else if same(operator, "lt") {
        sample.below
    } else if same(operator, "eq") {
        sample.close
    } else {
        false
    }
}

/// From when on samples count for a rule at `now`, where that fits in 64 bits.
pub fn sample_cutoff(now: i64, duration_secs: i64) -> (cutoff: Option<i64>)
    ensures
        match cutoff {
            Some(c) => c == now - duration_secs,
            None => now - duration_secs < i64::MIN || now - duration_secs > i64::MAX,
        },
{
    now.checked_sub(duration_secs)
}

/// Whether every sample violates a rule.
pub open spec fn all_violate(samples: Seq<Sample>, operator: Seq<char>) -> bool {
    forall|i: int| 0 <= i < samples.len() ==> violation(#[trigger] samples[i], operator)
}

/// What is to be done about a rule.
pub enum AlertAction {
    Nothing,
    /// An alert of this rule is opened at this moment with the sample at this
    /// position, and the message goes to the alert log.
    Trigger { rule_id: i64, at: i64, sample: usize, message: String },
    /// The open alerts of this rule are resolved at this moment, and the message
    /// goes to the alert log.
    Resolve { rule_id: i64, at: i64, message: String },
}

/// The mathematical form of [`AlertAction`].
pub enum ActionView {
    Nothing,
    Trigger { rule_id: i64, at: i64, sample: int, message: Seq<char> },
    Resolve { rule_id: i64, at: i64, message: Seq<char> },
}

impl View for AlertAction {
    type V = ActionView;

    open spec fn view(&self) -> ActionView {
        match self {
            AlertAction::Nothing => ActionView::Nothing,
            AlertAction::Trigger { rule_id, at, sample, message } => ActionView::Trigger {
                rule_id: *rule_id,
                at: *at,
                sample: *sample as int,
                message: message@,
            },
            AlertAction::Resolve { rule_id, at, message } => ActionView::Resolve {
                rule_id: *rule_id,
                at: *at,
                message: message@,
            },
        }
    }
}

/// What the alert log says when an alert is opened.
pub open spec fn trigger_message(rule: AlertRule, latest: Sample) -> Seq<char> {
    "ALERT rule=\""@ + rule.name@ + "\" metric=\""@ + rule.metric_name@ + "\" value="@
        + latest.shown@ + " threshold="@ + rule.threshold@
}

/// What the alert log says when an alert is resolved.
pub open spec fn resolve_message(rule: AlertRule, latest: Sample) -> Seq<char> {
    "RESOLVED rule=\""@ + rule.name@ + "\" metric=\""@ + rule.metric_name@ + "\" value="@
        + latest.shown@
}

/// What is to be done about a rule at `now`, given the samples that count, the
/// oldest first, and whether it has an open alert. Without samples nothing is
/// done. The newest sample is the one that is recorded and shown.
pub open spec fn action_of(
    rule: AlertRule,
    samples: Seq<Sample>,
    open: bool,
    now: i64,
) -> ActionView {
    let violated = all_violate(samples, rule.operator@);
    if samples.len() == 0 || violated == open {
        ActionView::Nothing
    } else if violated {
        ActionView::Trigger {
            rule_id: rule.id,
            at: now,
            sample: samples.len() - 1,
            message: trigger_message(rule, samples.last()),
        }
    } else {
        ActionView::Resolve {
            rule_id: rule.id,
            at: now,
            message: resolve_message(rule, samples.last()),
        }
    }
}

/// Whether a rule has an open alert after an action.
pub open spec fn open_after(action: ActionView, open: bool) -> bool {
    match action {
        ActionView::Nothing => open,
        ActionView::Trigger { .. } => true,
        ActionView::Resolve { .. } => false,
    }
}

fn message_start(verb: &str, rule: &AlertRule, latest: &Sample) -> (message: String)
    ensures
        message@ == verb@ + rule.name@ + "\" metric=\""@ + rule.metric_name@ + "\" value="@
            + latest.shown@,
{
    let mut message: String = verb.to_string();
    message.append(rule.name.as_str());
    message.append("\" metric=\"");
    message.append(rule.metric_name.as_str());
    message.append("\" value=");
    message.append(latest.shown.as_str());
    message
}

/// Decides what is to be done about a rule at `now`.
pub fn evaluate_rule(rule: &AlertRule, samples: &[Sample], open: bool, now: i64) -> (action:
    AlertAction)
    ensures
        action@ == action_of(*rule, samples@, open, now),
        action is Trigger <==> samples@.len() > 0 && !open && forall|i: int|
            0 <= i < samples@.len() ==> violation(#[trigger] samples@[i], rule.operator@),
        action is Resolve <==> samples@.len() > 0 && open && exists|i: int|
            0 <= i < samples@.len() && !violation(#[trigger] samples@[i], rule.operator@),
        action matches AlertAction::Trigger { rule_id, at, sample, .. } ==> rule_id == rule.id
            && at == now && sample == samples@.len() - 1,
        action matches AlertAction::Resolve { rule_id, at, .. } ==> rule_id == rule.id && at
            == now,
{
    if samples.len() == 0 {
        return AlertAction::Nothing;
    }
    let mut violated: bool = true;
    let mut i: usize = 0;
    while i < samples.len()
        invariant
            i <= samples.len(),
            violated == (forall|k: int|
                0 <= k < i ==> violation(#[trigger] samples@[k], rule.operator@)),
        decreases samples.len() - i,
    {
        if !violates(&samples[i], rule.operator.as_str()) {
            violated = false;
        }
        i += 1;
    }
    let newest: usize = samples.len() - 1;
    let latest = &samples[newest];
    if violated && !open {
        let mut message = message_start("ALERT rule=\"", rule, latest);
        message.append(" threshold=");
        message.append(rule.threshold.as_str());
        AlertAction::Trigger { rule_id: rule.id, at: now, sample: newest, message }
    } else if !violated && open {
        let message = message_start("RESOLVED rule=\"", rule, latest);
        AlertAction::Resolve { rule_id: rule.id, at: now, message }
    } else {
        AlertAction::Nothing
    }
}

/// A rule with what is known about it: the samples that count, the oldest first,
/// and how many of its alerts are open.
pub struct Watched {
    pub rule: AlertRule,
    pub samples: Vec<Sample>,
    pub open_events: i64,
}

impl Watched {
    /// What is to be done about the rule at `now`.
    pub open spec fn action(self, now: i64) -> ActionView {
        action_of(self.rule, self.samples@, self.open_events > 0, now)
    }
}

/// What is to be done about each rule at `now`.
pub open spec fn actions_of(list: Seq<Watched>, now: i64) -> Seq<ActionView> {
    list.map_values(|w: Watched| w.action(now))
}

/// Decides what is to be done about each rule at `now`.
pub fn evaluate_alerts(list: &[Watched], now: i64) -> (actions: Vec<AlertAction>)
    ensures
        actions@.map_values(|a: AlertAction| a@) == actions_of(list@, now),
{
    let mut actions: Vec<AlertAction> = Vec::new();
    let mut i: usize = 0;
    while i < list.len()
        invariant
            i <= list.len(),
            actions@.len() == i,
            forall|k: int| 0 <= k < i ==> (#[trigger] actions@[k])@ == actions_of(list@, now)[k],
        decreases list.len() - i,
    {
        let w = &list[i];
        actions.push(evaluate_rule(&w.rule, w.samples.as_slice(), w.open_events > 0, now));
        i += 1;
    }
    assert(actions@.map_values(|a: AlertAction| a@) =~= actions_of(list@, now));
    actions
}

/// A line of the alert log.
pub open spec fn log_line_of(stamp: Seq<char>, message: Seq<char>) -> Seq<char> {
    stamp + " "@ + message + "\n"@
}

/// A line of the alert log, with the time that it bears.
pub fn log_line_at(stamp: &str, message: &str) -> (line: String)
    ensures
        line@ == log_line_of(stamp@, message@),
{
    let mut line: String = stamp.to_string();
    line.append(" ");
    line.append(message);
    line.append("\n");
    line
}

/// A line of the alert log, with the time at which it is made.
pub fn log_line(message: &str) -> (line: String)
    ensures
        exists|stamp: Seq<char>|
            is_stamp(stamp) && line@ == #[trigger] log_line_of(stamp, message@),
{
    let stamp = utc_stamp();
    log_line_at(stamp.as_str(), message)
}

/// The stamp of a line of the alert log is what stands before its first space, and
/// the message is what follows.
pub proof fn log_line_is_read_back(stamp: Seq<char>, message: Seq<char>)
    requires
        is_stamp(stamp),
    ensures
        split_once_of(log_line_of(stamp, message), ' ') == Some((stamp, message + "\n"@)),
{
    let line = log_line_of(stamp, message);
    let n = stamp.len() as int;
    reveal_strlit(" ");
    assert(line[n] == ' ');
    assert(line.contains(' '));
    line.index_of_first_ensures(' ');
    assert forall|i: int| 0 <= i < n implies line[i] != ' ' by {
        assert(line[i] == stamp[i]);
    }
    assert(line.index_of_first(' ') == Some(n));
    assert(line.take(n) =~= stamp);
    assert(line.skip(n + 1) =~= message + "\n"@);
}

/// Whatever came before, a rule with samples has an open alert afterwards if and
/// only if all of them violate it.
pub proof fn open_exactly_when_violated(
    rule: AlertRule,
    samples: Seq<Sample>,
    open: bool,
    now: i64,
)
    requires
        samples.len() > 0,
    ensures
        open_after(action_of(rule, samples, open, now), open) == all_violate(
            samples,
            rule.operator@,
        ),
{
}

/// A rule without samples stays as it is.
pub proof fn no_samples_change_nothing(rule: AlertRule, open: bool, now: i64)
    ensures
        action_of(rule, Seq::empty(), open, now) == ActionView::Nothing,
{
}

/// What has been said once is not said again: a second look at the same samples
/// leads to nothing.
pub proof fn second_look_changes_nothing(
    rule: AlertRule,
    samples: Seq<Sample>,
    open: bool,
    now: i64,
    later: i64,
)
    ensures
        action_of(
            rule,
            samples,
            open_after(action_of(rule, samples, open, now), open),
            later,
        ) == ActionView::Nothing,
{
}

/// A recorded alert, with the sample that it was opened with.
pub struct RecordedAlert {
    pub rule_id: i64,
    pub triggered_at: i64,
    pub resolved_at: Option<i64>,
    pub value: Sample,
}

/// Whether a recorded alert is an open one of the given rule.
pub open spec fn is_open(event: RecordedAlert, rule_id: i64) -> bool {
    event.rule_id == rule_id && event.resolved_at is None
}

/// How many alerts of a rule are open.
pub open spec fn open_count(events: Seq<RecordedAlert>, rule_id: i64) -> nat
    decreases events.len(),
{
    if events.len() == 0 {
        0
    } else {
        open_count(events.drop_last(), rule_id) + if is_open(events.last(), rule_id) {
            1nat
        } else {
            0nat
        }
    }
}

/// A recorded alert when the open alerts of a rule have been resolved.
pub open spec fn resolved(event: RecordedAlert, rule_id: i64, at: i64) -> RecordedAlert {
    if is_open(event, rule_id) {
        RecordedAlert {
            rule_id: event.rule_id,
            triggered_at: event.triggered_at,
            resolved_at: Some(at),
            value: event.value,
        }
    } else {
        event
    }
}

/// The recorded alerts after an action that was decided on the given samples.
pub open spec fn events_after(
    events: Seq<RecordedAlert>,
    action: ActionView,
    samples: Seq<Sample>,
) -> Seq<RecordedAlert> {
    match action {
        ActionView::Nothing => events,
        ActionView::Trigger { rule_id, at, sample, .. } => events.push(
            RecordedAlert {
                rule_id,
                triggered_at: at,
                resolved_at: None,
                value: samples[sample],
            },
        ),
        ActionView::Resolve { rule_id, at, .. } => events.map_values(
            |e: RecordedAlert| resolved(e, rule_id, at),
        ),
    }
}

/// The recorded alerts after the actions about each rule at `now`.
pub open spec fn events_after_all(
    events: Seq<RecordedAlert>,
    list: Seq<Watched>,
    now: i64,
) -> Seq<RecordedAlert>
    decreases list.len(),
{
    if list.len() == 0 {
        events
    } else {
        events_after(
            events_after_all(events, list.drop_last(), now),
            list.last().action(now),
            list.last().samples@,
        )
    }
}

/// Whether every rule is listed once, with the number of its open alerts.
pub open spec fn watches(list: Seq<Watched>, events: Seq<RecordedAlert>) -> bool {
    &&& forall|i: int, j: int| 0 <= i < j < list.len() ==> list[i].rule.id != list[j].rule.id
    &&& forall|i: int|
        0 <= i < list.len() ==> (#[trigger] list[i]).open_events == open_count(
            events,
            list[i].rule.id,
        )
}

/// How many alerts of a rule are open after an action about it.
spec fn count_after(action: ActionView, before: nat) -> nat {
    match action {
        ActionView::Nothing => before,
        ActionView::Trigger { .. } => before + 1,
        ActionView::Resolve { .. } => 0,
    }
}

proof fn lemma_resolved_count(
    events: Seq<RecordedAlert>,
    resolved_id: i64,
    at: i64,
    rule_id: i64,
)
    ensures
        open_count(
            events.map_values(|e: RecordedAlert| resolved(e, resolved_id, at)),
            rule_id,
        ) == if rule_id == resolved_id {
            0
        } else {
            open_count(events, rule_id)
        },
    decreases events.len(),
{
    if events.len() > 0 {
        let f = |e: RecordedAlert| resolved(e, resolved_id, at);
        lemma_resolved_count(events.drop_last(), resolved_id, at, rule_id);
        assert(events.map_values(f).drop_last() =~= events.drop_last().map_values(f));
    }
}

proof fn lemma_count_step(
    events: Seq<RecordedAlert>,
    w: Watched,
    now: i64,
    rule_id: i64,
)
    ensures
        open_count(events_after(events, w.action(now), w.samples@), rule_id) == if rule_id
            == w.rule.id {
            count_after(w.action(now), open_count(events, rule_id))
        } else {
            open_count(events, rule_id)
        },
{
    let after = events_after(events, w.action(now), w.samples@);
    match w.action(now) {
        ActionView::Nothing => {},
        ActionView::Trigger { .. } => {
            assert(after.drop_last() =~= events);
        },
        ActionView::Resolve { rule_id: resolved_id, at, .. } => {
            lemma_resolved_count(events, resolved_id, at, rule_id);
        },
    }
}

proof fn lemma_count_of_others(
    events: Seq<RecordedAlert>,
    list: Seq<Watched>,
    now: i64,
    rule_id: i64,
)
    requires
        forall|i: int| 0 <= i < list.len() ==> (#[trigger] list[i]).rule.id != rule_id,
    ensures
        open_count(events_after_all(events, list, now), rule_id) == open_count(events, rule_id),
    decreases list.len(),
{
    if list.len() > 0 {
        let before = list.drop_last();
        assert forall|i: int| 0 <= i < before.len() implies (#[trigger] before[i]).rule.id
            != rule_id by {
            assert(list[i] == before[i]);
        }
        lemma_count_of_others(events, before, now, rule_id);
        lemma_count_step(events_after_all(events, before, now), list.last(), now, rule_id);
        assert(list[list.len() - 1].rule.id != rule_id);
    }
}

proof fn lemma_count_of_rule(
    events: Seq<RecordedAlert>,
    list: Seq<Watched>,
    now: i64,
    j: int,
)
    requires
        forall|a: int, b: int| 0 <= a < b < list.len() ==> list[a].rule.id != list[b].rule.id,
        0 <= j < list.len(),
    ensures
        open_count(events_after_all(events, list, now), list[j].rule.id) == count_after(
            list[j].action(now),
            open_count(events, list[j].rule.id),
        ),
    decreases list.len(),
{
    let before = list.drop_last();
    let id = list[j].rule.id;
    assert forall|a: int, b: int| 0 <= a < b < before.len() implies before[a].rule.id
        != before[b].rule.id by {
        assert(list[a].rule.id != list[b].rule.id);
    }
    if j == list.len() - 1 {
        assert forall|i: int| 0 <= i < before.len() implies (#[trigger] before[i]).rule.id
            != id by {
            assert(list[i].rule.id != list[j].rule.id);
        }
        lemma_count_of_others(events, before, now, id);
    } else {
        lemma_count_of_rule(events, before, now, j);
        assert(before[j] == list[j]);
        assert(list[j].rule.id != list[list.len() - 1].rule.id);
    }
    lemma_count_step(events_after_all(events, before, now), list.last(), now, id);
}

/// An alert is opened only for a rule that has none open.
pub proof fn opened_only_where_none_is_open(w: Watched, now: i64)
    ensures
        w.action(now) is Trigger ==> w.open_events <= 0,
        w.action(now) is Resolve ==> w.open_events > 0,
{
}

/// No rule ever has more than one open alert: a look at the rules keeps it so.
pub proof fn one_open_alert_per_rule(
    events: Seq<RecordedAlert>,
    list: Seq<Watched>,
    now: i64,
    rule_id: i64,
)
    requires
        watches(list, events),
        open_count(events, rule_id) <= 1,
    ensures
        open_count(events_after_all(events, list, now), rule_id) <= 1,
{
    if exists|j: int| 0 <= j < list.len() && (#[trigger] list[j]).rule.id == rule_id {
        let j = choose|j: int| 0 <= j < list.len() && (#[trigger] list[j]).rule.id == rule_id;
        lemma_count_of_rule(events, list, now, j);
    } else {
        lemma_count_of_others(events, list, now, rule_id);
    }
}

/// After a look at the rules, a rule with samples has an open alert if and only
/// if all of them violate it; one without samples has as many as before.
pub proof fn open_alerts_tell_the_violations(
    events: Seq<RecordedAlert>,
    list: Seq<Watched>,
    now: i64,
    j: int,
)
    requires
        watches(list, events),
        0 <= j < list.len(),
    ensures
        ({
            let after = open_count(events_after_all(events, list, now), list[j].rule.id);
            if list[j].samples@.len() > 0 {
                (after > 0) == all_violate(list[j].samples@, list[j].rule.operator@)
            } else {
                after == open_count(events, list[j].rule.id)
            }
        }),
{
    lemma_count_of_rule(events, list, now, j);
}

/// No recorded alert is ever deleted or moved: it keeps its rule, the moment at
/// which it was opened and its sample. One that was resolved stays as it is, and
/// so does every one of a rule that is not looked at.
pub proof fn recorded_alerts_are_kept(
    events: Seq<RecordedAlert>,
    list: Seq<Watched>,
    now: i64,
    i: int,
)
    requires
        0 <= i < events.len(),
    ensures
        events_after_all(events, list, now).len() >= events.len(),
        ({
            let after = events_after_all(events, list, now)[i];
            &&& after.rule_id == events[i].rule_id
            &&& after.triggered_at == events[i].triggered_at
            &&& after.value == events[i].value
            &&& events[i].resolved_at is Some ==> after == events[i]
            &&& (forall|j: int|
                0 <= j < list.len() ==> (#[trigger] list[j]).rule.id != events[i].rule_id)
                ==> after == events[i]
        }),
    decreases list.len(),
{
    if list.len() > 0 {
        let before = list.drop_last();
        recorded_alerts_are_kept(events, before, now, i);
        if forall|j: int|
            0 <= j < list.len() ==> (#[trigger] list[j]).rule.id != events[i].rule_id {
            assert forall|j: int| 0 <= j < before.len() implies (#[trigger] before[j]).rule.id
                != events[i].rule_id by {
                assert(list[j] == before[j]);
            }
            assert(list[list.len() - 1].rule.id != events[i].rule_id);
        }
    }
}

/// Each operator looks at its own comparison, and one that is not known at none.
pub proof fn operators_compare(sample: Sample)
    ensures
        violation(sample, "gt"@) == sample.above,
        violation(sample, "lt"@) == sample.below,
        violation(sample, "eq"@) == sample.close,
        forall|operator: Seq<char>|
            operator != "gt"@ && operator != "lt"@ && operator != "eq"@ ==> !(#[trigger] violation(
                sample,
                operator,
            )),
{
    reveal_strlit("gt");
    reveal_strlit("lt");
    reveal_strlit("eq");
    assert("gt"@[0] == 'g' && "lt"@[0] == 'l' && "eq"@[0] == 'e');
}

/// One sample that does not violate the rule is enough: no alert is opened, and one
/// that is open is resolved.
pub proof fn one_good_sample_is_enough(
    rule: AlertRule,
    samples: Seq<Sample>,
    open: bool,
    now: i64,
    i: int,
)
    requires
        0 <= i < samples.len(),
        !violation(samples[i], rule.operator@),
    ensures
        action_of(rule, samples, open, now) !is Trigger,
        open ==> action_of(rule, samples, open, now) is Resolve,
        !open ==> action_of(rule, samples, open, now) is Nothing,
{
}

/// Where every sample violates the rule, an alert is opened unless one is open, and
/// none is resolved. It records the newest sample, the rule and the moment.
pub proof fn only_bad_samples_open_an_alert(
    rule: AlertRule,
    samples: Seq<Sample>,
    open: bool,
    now: i64,
)
    requires
        samples.len() > 0,
        forall|i: int| 0 <= i < samples.len() ==> violation(#[trigger] samples[i], rule.operator@),
    ensures
        open ==> action_of(rule, samples, open, now) is Nothing,
        !open ==> (action_of(rule, samples, open, now) matches ActionView::Trigger {
            rule_id,
            at,
            sample,
            message,
        } && rule_id == rule.id && at == now && sample == samples.len() - 1 && message
            == "ALERT rule=\""@ + rule.name@ + "\" metric=\""@ + rule.metric_name@ + "\" value="@
            + samples[samples.len() - 1].shown@ + " threshold="@ + rule.threshold@),
{
}

/// What is resolved is told with the newest sample, the rule and the moment.
pub proof fn resolution_tells_the_newest_sample(
    rule: AlertRule,
    samples: Seq<Sample>,
    open: bool,
    now: i64,
)
    ensures
        action_of(rule, samples, open, now) matches ActionView::Resolve { rule_id, at, message }
            ==> rule_id == rule.id && at == now && message == "RESOLVED rule=\""@ + rule.name@
            + "\" metric=\""@ + rule.metric_name@ + "\" value="@
            + samples[samples.len() - 1].shown@,
{
}

/// A rule is judged by its samples one by one: more samples can only take an alert
/// away, whatever their order.
pub proof fn more_samples_open_no_alert(
    rule: AlertRule,
    samples: Seq<Sample>,
    more: Seq<Sample>,
    now: i64,
)
    requires
        samples.len() > 0,
        action_of(rule, samples + more, false, now) is Trigger,
    ensures
        action_of(rule, samples, false, now) is Trigger,
        more.len() > 0 ==> action_of(rule, more, false, now) is Trigger,
{
    let all = samples + more;
    assert forall|i: int| 0 <= i < samples.len() implies violation(
        #[trigger] samples[i],
        rule.operator@,
    ) by {
        assert(all[i] == samples[i]);
    }
    assert forall|i: int| 0 <= i < more.len() implies violation(
        #[trigger] more[i],
        rule.operator@,
    ) by {
        assert(all[samples.len() + i] == more[i]);
    }
}

/// Every rule has its own action, in the order of the rules, by its own samples and by
/// whether it has open alerts.
pub proof fn every_rule_has_its_action(list: Seq<Watched>, now: i64, i: int)
    requires
        0 <= i < list.len(),
    ensures
        actions_of(list, now).len() == list.len(),
        actions_of(list, now)[i] == action_of(
            list[i].rule,
            list[i].samples@,
            list[i].open_events >= 1,
            now,
        ),
{
}

/// An alert that is opened is recorded behind the others, with its rule, its moment and
/// the newest sample, and is not resolved.
pub proof fn opened_alert_is_recorded(
    events: Seq<RecordedAlert>,
    rule: AlertRule,
    samples: Seq<Sample>,
    open: bool,
    now: i64,
)
    requires
        action_of(rule, samples, open, now) is Trigger,
    ensures
        ({
            let after = events_after(events, action_of(rule, samples, open, now), samples);
            &&& after.len() == events.len() + 1
            &&& after.take(events.len() as int) == events
            &&& after.last().rule_id == rule.id
            &&& after.last().triggered_at == now
            &&& after.last().resolved_at is None
            &&& after.last().value == samples[samples.len() - 1]
        }),
{
    let after = events_after(events, action_of(rule, samples, open, now), samples);
    assert(after.take(events.len() as int) =~= events);
}

/// When a rule is no longer violated all its open alerts are resolved at that moment, and
/// no others.
pub proof fn open_alerts_are_resolved(
    events: Seq<RecordedAlert>,
    rule: AlertRule,
    samples: Seq<Sample>,
    open: bool,
    now: i64,
    i: int,
)
    requires
        action_of(rule, samples, open, now) is Resolve,
        0 <= i < events.len(),
    ensures
        ({
            let after = events_after(events, action_of(rule, samples, open, now), samples);
            &&& after.len() == events.len()
            &&& if events[i].rule_id == rule.id && events[i].resolved_at is None {
                &&& after[i].resolved_at == Some(now)
                &&& after[i].rule_id == events[i].rule_id
                &&& after[i].triggered_at == events[i].triggered_at
                &&& after[i].value == events[i].value
            } else {
                after[i] == events[i]
            }
        }),
{
}

/// The open alerts of a rule are counted one by one.
pub proof fn open_alerts_are_counted(events: Seq<RecordedAlert>, event: RecordedAlert, rule_id: i64)
    ensures
        open_count(Seq::empty(), rule_id) == 0,
        event.rule_id == rule_id && event.resolved_at is None ==> open_count(
            events.push(event),
            rule_id,
        ) == open_count(events, rule_id) + 1,
        event.rule_id != rule_id || event.resolved_at is Some ==> open_count(
            events.push(event),
            rule_id,
        ) == open_count(events, rule_id),
{
    assert(events.push(event).drop_last() =~= events);
}

/// Looks at two lists of rules in turn record what one look at both records.
pub proof fn rules_are_looked_at_in_turn(
    events: Seq<RecordedAlert>,
    list: Seq<Watched>,
    watched: Watched,
    now: i64,
)
    ensures
        events_after_all(events, Seq::empty(), now) == events,
        events_after_all(events, list.push(watched), now) == events_after(
            events_after_all(events, list, now),
            action_of(watched.rule, watched.samples@, watched.open_events >= 1, now),
            watched.samples@,
        ),
{
    assert(list.push(watched).drop_last() =~= list);
}

/// The mathematical form of an action is the whole action.
pub proof fn form_of_an_action_is_whole(action: AlertAction)
    ensures
        action is Nothing <==> action@ is Nothing,
        action matches AlertAction::Trigger { rule_id, at, sample, message } ==> action@ == (
        ActionView::Trigger { rule_id, at, sample: sample as int, message: message@ }),
        action matches AlertAction::Resolve { rule_id, at, message } ==> action@ == (
        ActionView::Resolve { rule_id, at, message: message@ }),
{
}

} // verus!
