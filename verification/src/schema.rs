//! The alert rules that a new installation starts with.

use vstd::prelude::*;

verus! {

/// A rule to start with.
pub struct SeedRule {
    pub name: String,
    pub metric_name: String,
    pub operator: String,
    pub threshold: u32,
    pub duration_secs: i64,
}

/// The mathematical form of [`SeedRule`].
pub struct SeedRuleView {
    pub name: Seq<char>,
    pub metric_name: Seq<char>,
    pub operator: Seq<char>,
    pub threshold: u32,
    pub duration_secs: i64,
}

impl View for SeedRule {
    type V = SeedRuleView;

    open spec fn view(&self) -> SeedRuleView {
        SeedRuleView {
            name: self.name@,
            metric_name: self.metric_name@,
            operator: self.operator@,
            threshold: self.threshold,
            duration_secs: self.duration_secs,
        }
    }
}

/// The rules to start with, given how many there are already.
pub open spec fn seed_rules_of(count: int) -> Seq<SeedRuleView> {
    if count > 0 {
        Seq::empty()
    } else {
        seq![
            SeedRuleView {
                name: "High CPU"@,
                metric_name: "cpu.usage"@,
                operator: "gt"@,
                threshold: 90,
                duration_secs: 300,
            },
            SeedRuleView {
                name: "High Memory"@,
                metric_name: "mem.used_pct"@,
                operator: "gt"@,
                threshold: 90,
                duration_secs: 300,
            },
            SeedRuleView {
                name: "Disk Almost Full"@,
                metric_name: "disk./.used_pct"@,
                operator: "gt"@,
                threshold: 85,
                duration_secs: 60,
            },
        ]
    }
}

fn seed_rule(name: &str, metric_name: &str, threshold: u32, duration_secs: i64) -> (rule: SeedRule)
    ensures
        rule@ == (SeedRuleView {
            name: name@,
            metric_name: metric_name@,
            operator: "gt"@,
            threshold,
            duration_secs,
        }),
{
    SeedRule {
        name: name.to_string(),
        metric_name: metric_name.to_string(),
        operator: "gt".to_string(),
        threshold,
        duration_secs,
    }
}

/// Gives the rules to start with, unless there are some already.
pub fn seed_alert_rules(count: i64) -> (rules: Vec<SeedRule>)
    ensures
        rules@.map_values(|r: SeedRule| r@) == seed_rules_of(count as int),
{
    let mut rules: Vec<SeedRule> = Vec::new();
    if count <= 0 {
        rules.push(seed_rule("High CPU", "cpu.usage", 90, 300));
        rules.push(seed_rule("High Memory", "mem.used_pct", 90, 300));
        rules.push(seed_rule("Disk Almost Full", "disk./.used_pct", 85, 60));
    }
    assert(rules@.map_values(|r: SeedRule| r@) =~= seed_rules_of(count as int));
    rules
}

/// An installation without rules starts with three, which warn of a metric that stays
/// above a limit: the processor and the memory above 90 % for five minutes, the disk of
/// the root above 85 % for one. One that has rules gets no others.
pub proof fn seeds_watch_the_host(count: int, i: int)
    ensures
        count > 0 ==> seed_rules_of(count).len() == 0,
        count <= 0 ==> seed_rules_of(count).len() == 3,
        0 <= i < seed_rules_of(count).len() ==> {
            let rule = seed_rules_of(count)[i];
            &&& rule.operator == "gt"@
            &&& i == 0 ==> rule.name == "High CPU"@ && rule.metric_name == "cpu.usage"@
                && rule.threshold == 90 && rule.duration_secs == 5 * 60
            &&& i == 1 ==> rule.name == "High Memory"@ && rule.metric_name == "mem.used_pct"@
                && rule.threshold == 90 && rule.duration_secs == 5 * 60
            &&& i == 2 ==> rule.name == "Disk Almost Full"@ && rule.metric_name
                == "disk./.used_pct"@ && rule.threshold == 85 && rule.duration_secs == 60
        },
{
}

} // verus!
