//! Properties that hold across the library's operations.

use vstd::prelude::*;
use crate::state::{BlacklistEntry, ActivityLog, clamp_threshold, last_n, MAX_THRESHOLD};
use crate::enforce::{Action, action_for, verdict_of, lemma_first_rule_in_range};
use crate::text::lower_of;
use crate::procs::ProcRow;

verus! {

/// A stored CPU threshold is the requested one clamped to [0, 100%]:
/// `min(max(t, 0), 100%)`.
pub proof fn lemma_threshold_is_clamped(t: int)
    ensures
        clamp_threshold(t) == vstd::math::min(vstd::math::max(t, 0), MAX_THRESHOLD as int),
        0 <= clamp_threshold(t) <= MAX_THRESHOLD,
{
}

/// Appending to the kept window of a history keeps the window of the longer
/// history: after any run of appends the log holds exactly the newest
/// entries, oldest first.
pub proof fn lemma_window_of_appends(history: Seq<ActivityLog>, log: ActivityLog, n: int)
    requires
        n > 0,
    ensures
        last_n(last_n(history, n).push(log), n) == last_n(history.push(log), n),
        last_n(history.push(log), n).len() <= n,
        last_n(history.push(log), n).last() == log,
{
    let w = last_n(history, n);
    let h = history.push(log);
    if history.len() > n {
        assert(last_n(w.push(log), n) =~= last_n(h, n));
    } else {
        assert(w == history);
    }
}

/// Over a whole pass: a log loaded as `history`, with the entries `added`
/// appended one at a time and the pass ended by keeping the newest `n`, holds
/// exactly the newest `n` entries of `history + added`, oldest first; the
/// newest are never dropped, and a loaded log longer than `n` is cut back
/// even when nothing is added.
pub proof fn lemma_window_of_pass(history: Seq<ActivityLog>, added: Seq<ActivityLog>, n: int)
    requires
        n > 0,
    ensures
        last_n(window_after(history, added, n), n) == last_n(history + added, n),
        last_n(history + added, n).len() == vstd::math::min((history + added).len() as int, n),
        last_n(history + added, n) == (history + added).subrange(
            (history + added).len() - last_n(history + added, n).len(),
            (history + added).len() as int,
        ),
    decreases added.len(),
{
    if added.len() == 0 {
        assert(history + added =~= history);
    } else {
        let front = added.drop_last();
        let x = added.last();
        let w = window_after(history, front, n);
        lemma_window_of_pass(history, front, n);
        lemma_window_of_appends(w, x, n);
        lemma_window_of_appends(history + front, x, n);
        assert((history + front).push(x) =~= history + added);
    }
}

/// The log after appending `added` one at a time, each append keeping the
/// newest `n`.
pub open spec fn window_after(history: Seq<ActivityLog>, added: Seq<ActivityLog>, n: int) -> Seq<ActivityLog>
    decreases added.len(),
{
    if added.len() == 0 {
        history
    } else {
        last_n(window_after(history, added.drop_last(), n).push(added.last()), n)
    }
}

/// With only observing rules, every process of a pass is either unmatched
/// or merely detected: nothing is killed, so `record` leaves every kill count
/// and the rules as they were, and a second pass over the same processes
/// classifies them the same way.
pub proof fn lemma_observing_rules_only_detect(rules: Seq<BlacklistEntry>, procs: Seq<ProcRow>)
    requires
        forall|i: int| 0 <= i < rules.len() ==> !(#[trigger] rules[i]).auto_kill,
    ensures
        forall|k: int| 0 <= k < procs.len() ==> (#[trigger] verdict_of(rules, procs[k])) is None
            || verdict_of(rules, procs[k])->Some_0.action == Action::Detect,
{
    assert forall|k: int| 0 <= k < procs.len() implies (#[trigger] verdict_of(rules, procs[k])) is None
        || verdict_of(rules, procs[k])->Some_0.action == Action::Detect by {
        lemma_first_rule_in_range(rules, lower_of(procs[k].name@));
    }
}

/// A killing rule with threshold 0 makes every match eligible; otherwise a
/// process is eligible exactly from the threshold up, the threshold itself
/// included.
pub proof fn lemma_threshold_boundary(rule: BlacklistEntry, cpu: u64)
    requires
        rule.auto_kill,
    ensures
        rule.cpu_threshold == 0 ==> action_for(rule, cpu) == Action::Kill,
        cpu >= rule.cpu_threshold ==> action_for(rule, cpu) == Action::Kill,
        rule.cpu_threshold > 0 && cpu < rule.cpu_threshold ==> action_for(rule, cpu)
            == Action::BelowThreshold,
{
}

} // verus!
