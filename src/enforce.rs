//! The enforcement decision for one live process, and how its outcome is
//! recorded.

use vstd::prelude::*;
use crate::text::{lower_of, name_matches, decimal_of, lowercase, matches_pattern, decimal};
use crate::state::{AppState, BlacklistEntry, ActivityLog, key_of, last_n, LOG_CAPACITY};
use crate::procs::ProcRow;

verus! {

/// What a matching rule asks for.
#[derive(PartialEq, Eq, Structural, Clone, Copy, Debug)]
pub enum Action {
    /// Observe only: the rule does not kill.
    Detect,
    /// Terminate the process.
    Kill,
    /// The rule kills, but the process is under its CPU threshold.
    BelowThreshold,
}

/// The rule that governs a process, by index, and what it asks for.
#[derive(PartialEq, Eq, Structural, Clone, Copy, Debug)]
pub struct Verdict {
    pub rule: usize,
    pub action: Action,
}

/// Index of the first rule whose key matches the lowercase process name, or -1.
pub open spec fn first_rule(rules: Seq<BlacklistEntry>, name: Seq<char>) -> int
    decreases rules.len(),
{
    if rules.len() == 0 {
        -1
    } else if name_matches(name, key_of(rules[0])) {
        0
    } else {
        let r = first_rule(rules.drop_first(), name);
        if r < 0 { -1 } else { r + 1 }
    }
}

/// What a rule asks for, given the process's CPU.
pub open spec fn action_for(rule: BlacklistEntry, cpu: u64) -> Action {
    if !rule.auto_kill {
        Action::Detect
    } else if rule.cpu_threshold == 0 || cpu >= rule.cpu_threshold {
        Action::Kill
    } else {
        Action::BelowThreshold
    }
}

/// The verdict for a process under a rule set.
pub open spec fn verdict_of(rules: Seq<BlacklistEntry>, p: ProcRow) -> Option<Verdict> {
    let i = first_rule(rules, lower_of(p.name@));
    if i < 0 {
        None
    } else {
        Some(Verdict { rule: i as usize, action: action_for(rules[i], p.cpu) })
    }
}

/// A value in tenths, with one decimal: 123 is "12.3".
pub open spec fn tenths_text(v: u64) -> Seq<char> {
    decimal_of((v / 10) as nat) + "."@ + decimal_of((v % 10) as nat)
}

/// A value in tenths rounded to a whole number, ties to even.
pub open spec fn whole_of_tenths(v: u64) -> nat {
    let q = v / 10;
    let r = v % 10;
    if r > 5 || (r == 5 && q % 2 == 1) { (q + 1) as nat } else { q as nat }
}

/// The reason recorded for a decision.
pub open spec fn reason_of(action: Action, killed: bool, cpu: u64, threshold: u64) -> Seq<char> {
    match action {
        Action::Detect => "Detected"@,
        Action::Kill => if killed {
            "Killed (CPU: "@ + tenths_text(cpu) + "%)"@
        } else {
            "Kill failed (no permission)"@
        },
        Action::BelowThreshold => "CPU "@ + tenths_text(cpu) + "% < threshold "@ + decimal_of(
            whole_of_tenths(threshold),
        ) + "%"@,
    }
}

/// The first matching rule is one of the rules.
pub proof fn lemma_first_rule_in_range(rules: Seq<BlacklistEntry>, name: Seq<char>)
    ensures
        -1 <= first_rule(rules, name) < rules.len(),
    decreases rules.len(),
{
    if rules.len() > 0 {
        lemma_first_rule_in_range(rules.drop_first(), name);
    }
}

proof fn lemma_first_rule_found(rules: Seq<BlacklistEntry>, name: Seq<char>, i: int)
    requires
        0 <= i < rules.len(),
        name_matches(name, key_of(rules[i])),
        forall|j: int| 0 <= j < i ==> !name_matches(name, key_of(#[trigger] rules[j])),
    ensures
        first_rule(rules, name) == i,
    decreases i,
{
    if i > 0 {
        let t = rules.drop_first();
        assert forall|j: int| 0 <= j < i - 1 implies !name_matches(name, key_of(#[trigger] t[j])) by {
            assert(t[j] == rules[j + 1]);
        }
        lemma_first_rule_found(t, name, i - 1);
    }
}

proof fn lemma_first_rule_absent(rules: Seq<BlacklistEntry>, name: Seq<char>)
    requires
        forall|j: int| 0 <= j < rules.len() ==> !name_matches(name, key_of(#[trigger] rules[j])),
    ensures
        first_rule(rules, name) == -1,
    decreases rules.len(),
{
    if rules.len() > 0 {
        let t = rules.drop_first();
        assert forall|j: int| 0 <= j < t.len() implies !name_matches(name, key_of(#[trigger] t[j])) by {
            assert(t[j] == rules[j + 1]);
        }
        lemma_first_rule_absent(t, name);
    }
}

/// The first rule that governs `p`, and what it asks for.
pub fn decide(rules: &Vec<BlacklistEntry>, p: &ProcRow) -> (r: Option<Verdict>)
    ensures
        r == verdict_of(rules@, *p),
        r is Some ==> r->Some_0.rule < rules@.len(),
{
    let pname = lowercase(p.name.as_str());
    let mut i: usize = 0;
    while i < rules.len()
        invariant
            i <= rules@.len(),
            pname@ == lower_of(p.name@),
            forall|j: int| 0 <= j < i ==> !name_matches(pname@, key_of(#[trigger] rules@[j])),
        decreases rules@.len() - i,
    {
        let key = lowercase(rules[i].name.as_str());
        if matches_pattern(pname.as_str(), key.as_str()) {
            proof {
                lemma_first_rule_found(rules@, pname@, i as int);
            }
            let rule = &rules[i];
            let action = if !rule.auto_kill {
                Action::Detect
            } else if rule.cpu_threshold == 0 || p.cpu >= rule.cpu_threshold {
                Action::Kill
            } else {
                Action::BelowThreshold
            };
            return Some(Verdict { rule: i, action });
        }
        i = i + 1;
    }
    proof {
        lemma_first_rule_absent(rules@, pname@);
    }
    None
}

/// The verdict for each process of a snapshot, in order.
pub fn plan_pass(rules: &Vec<BlacklistEntry>, procs: &Vec<ProcRow>) -> (r: Vec<Option<Verdict>>)
    ensures
        r@.len() == procs@.len(),
        forall|i: int| 0 <= i < procs@.len() ==> #[trigger] r@[i] == verdict_of(rules@, procs@[i]),
{
    let mut r: Vec<Option<Verdict>> = Vec::new();
    let mut i: usize = 0;
    while i < procs.len()
        invariant
            i <= procs@.len(),
            r@.len() == i,
            forall|k: int| 0 <= k < i ==> #[trigger] r@[k] == verdict_of(rules@, procs@[k]),
        decreases procs@.len() - i,
    {
        r.push(decide(rules, &procs[i]));
        i = i + 1;
    }
    r
}

/// `v` in tenths with one decimal.
fn tenths(v: u64) -> (r: String)
    ensures
        r@ == tenths_text(v),
{
    let a = decimal(v / 10);
    let b = decimal(v % 10);
    a.concat(".").concat(b.as_str())
}

/// The reason text for a decision.
pub fn reason_text(action: Action, killed: bool, cpu: u64, threshold: u64) -> (r: String)
    ensures
        r@ == reason_of(action, killed, cpu, threshold),
{
    match action {
        Action::Detect => String::from_str("Detected"),
        Action::Kill => if killed {
            String::from_str("Killed (CPU: ").concat(tenths(cpu).as_str()).concat("%)")
        } else {
            String::from_str("Kill failed (no permission)")
        },
        Action::BelowThreshold => {
            let q = threshold / 10;
            let rem = threshold % 10;
            let whole = if rem > 5 || (rem == 5 && q % 2 == 1) { q + 1 } else { q };
            String::from_str("CPU ").concat(tenths(cpu).as_str()).concat("% < threshold ").concat(
                decimal(whole).as_str(),
            ).concat("%")
        },
    }
}

/// `l` is the entry that decision `v` on `p` produces, under a rule with
/// CPU threshold `threshold`.
pub open spec fn describes(l: ActivityLog, p: ProcRow, v: Verdict, killed: bool, threshold: u64,
    detected_at: String) -> bool
{
    &&& l.name == p.name
    &&& l.pid == p.pid
    &&& l.cpu_usage == p.cpu
    &&& l.detected_at == detected_at
    &&& l.was_killed == (v.action == Action::Kill && killed)
    &&& l.reason@ == reason_of(v.action, killed, p.cpu, threshold)
}

impl AppState {
    /// Applies the outcome of verdict `v` on process `p`: `killed` tells
    /// whether a termination that `v` asked for succeeded. A successful kill
    /// adds one to the rule's `kill_count`; when the rule logs, the entry is
    /// appended to the activity log and returned.
    pub fn record(&mut self, p: &ProcRow, v: Verdict, killed: bool, detected_at: String)
        -> (r: Option<ActivityLog>)
        requires
            v.rule < old(self).blacklist@.len(),
            v.action == Action::Kill && killed ==> old(self).blacklist@[v.rule as int].kill_count
                < u32::MAX,
        ensures
            ({
                let e = old(self).blacklist@[v.rule as int];
                let hit = v.action == Action::Kill && killed;
                &&& hit ==> final(self).blacklist@ == old(self).blacklist@.update(v.rule as int,
                    BlacklistEntry { kill_count: (e.kill_count + 1) as u32, ..e })
                &&& !hit ==> final(self).blacklist == old(self).blacklist
                &&& (r is Some <==> e.log_enabled)
                &&& r is Some ==> describes(r->Some_0, *p, v, killed, e.cpu_threshold, detected_at)
                    && final(self).activity_logs@ == last_n(old(self).activity_logs@.push(r->Some_0),
                    LOG_CAPACITY as int)
                &&& r is None ==> final(self).activity_logs == old(self).activity_logs
            }),
    {
        let i = v.rule;
        let hit = v.action == Action::Kill && killed;
        let threshold = self.blacklist[i].cpu_threshold;
        let log_enabled = self.blacklist[i].log_enabled;
        if hit {
            let mut e = self.blacklist[i].duplicate();
            e.kill_count = e.kill_count + 1;
            self.blacklist.set(i, e);
        }
        if log_enabled {
            let log = ActivityLog {
                name: p.name.clone(),
                pid: p.pid,
                cpu_usage: p.cpu,
                detected_at,
                was_killed: hit,
                reason: reason_text(v.action, killed, p.cpu, threshold),
            };
            let out = log.duplicate();
            self.append_log(log);
            Some(out)
        } else {
            None
        }
    }
}

} // verus!
