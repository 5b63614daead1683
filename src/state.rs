//! The persisted policy state: blacklist rules and the bounded activity log.

use vstd::prelude::*;
use crate::text::{lower_of, lowercase};
use crate::names::{resolved, resolve_process_name};

verus! {

/// Highest CPU threshold, in tenths of a percent (100%).
pub const MAX_THRESHOLD: u64 = 1000;

/// How many activity entries are kept.
pub const LOG_CAPACITY: usize = 1000;

/// How many activity entries a read hands out.
pub const RECENT_LOGS: usize = 100;

/// A persisted rule: processes whose lowercase name contains `name` are
/// governed by it. `cpu_threshold` is in tenths of a percent; 0 means that a
/// match is always eligible for termination.
pub struct BlacklistEntry {
    pub name: String,
    pub auto_kill: bool,
    pub cpu_threshold: u64,
    pub log_enabled: bool,
    pub created_at: String,
    pub kill_count: u32,
}

/// One detection or termination event. `cpu_usage` is in tenths of a percent.
pub struct ActivityLog {
    pub name: String,
    pub pid: u32,
    pub cpu_usage: u64,
    pub detected_at: String,
    pub was_killed: bool,
    pub reason: String,
}

/// The whole persisted unit.
pub struct AppState {
    pub blacklist: Vec<BlacklistEntry>,
    pub activity_logs: Vec<ActivityLog>,
}

/// Why a blacklist operation was rejected.
#[derive(PartialEq, Eq, Structural, Clone, Copy, Debug)]
pub enum BlacklistError {
    EmptyName,
    AlreadyExists,
    NotFound,
}

impl BlacklistError {
    /// The message shown to the user.
    pub fn message(&self) -> (r: String)
        ensures
            r@ == error_text(*self),
    {
        match self {
            BlacklistError::EmptyName => String::from_str("Name cannot be empty"),
            BlacklistError::AlreadyExists => String::from_str("Already in blacklist"),
            BlacklistError::NotFound => String::from_str("Not found in blacklist"),
        }
    }
}

pub open spec fn error_text(e: BlacklistError) -> Seq<char> {
    match e {
        BlacklistError::EmptyName => "Name cannot be empty"@,
        BlacklistError::AlreadyExists => "Already in blacklist"@,
        BlacklistError::NotFound => "Not found in blacklist"@,
    }
}

/// The value that a persisted entry without a `log_enabled` field gets.
pub fn default_true() -> (r: bool)
    ensures
        r,
{
    true
}

/// Relies on chrono's `Local::now` and `format`: the local time as text.
/// Nothing is promised of the value.
#[verifier::external_body]
fn now_stamp() -> (r: String) {
    chrono::Local::now().format("%Y-%m-%d %H:%M:%S").to_string()
}

/// The case-insensitive key of a rule.
pub open spec fn key_of(e: BlacklistEntry) -> Seq<char> {
    lower_of(e.name@)
}

/// No two rules share a key.
pub open spec fn names_unique(bl: Seq<BlacklistEntry>) -> bool {
    forall|i: int, j: int|
        0 <= i < j < bl.len() ==> key_of(#[trigger] bl[i]) != key_of(#[trigger] bl[j])
}

/// Some rule has the key.
pub open spec fn has_key(bl: Seq<BlacklistEntry>, key: Seq<char>) -> bool {
    exists|i: int| 0 <= i < bl.len() && key_of(#[trigger] bl[i]) == key
}

/// Index of the first rule with the key, or -1.
pub open spec fn rule_index(bl: Seq<BlacklistEntry>, key: Seq<char>) -> int
    decreases bl.len(),
{
    if bl.len() == 0 {
        -1
    } else if key_of(bl[0]) == key {
        0
    } else {
        let r = rule_index(bl.drop_first(), key);
        if r < 0 { -1 } else { r + 1 }
    }
}

/// The rules whose key differs from `key`, in order.
pub open spec fn without_key(bl: Seq<BlacklistEntry>, key: Seq<char>) -> Seq<BlacklistEntry>
    decreases bl.len(),
{
    if bl.len() == 0 {
        seq![]
    } else {
        let rest = without_key(bl.drop_last(), key);
        if key_of(bl.last()) == key { rest } else { rest.push(bl.last()) }
    }
}

/// A threshold clamped to [0, 100%].
pub open spec fn clamp_threshold(t: int) -> int {
    if t < 0 { 0 } else if t > MAX_THRESHOLD { MAX_THRESHOLD as int } else { t }
}

/// The last `n` elements of `s`, or all of them.
pub open spec fn last_n<T>(s: Seq<T>, n: int) -> Seq<T> {
    if s.len() > n { s.subrange(s.len() - n, s.len() as int) } else { s }
}

proof fn lemma_rule_index_found(bl: Seq<BlacklistEntry>, key: Seq<char>, i: int)
    requires
        0 <= i < bl.len(),
        key_of(bl[i]) == key,
        forall|j: int| 0 <= j < i ==> key_of(#[trigger] bl[j]) != key,
    ensures
        rule_index(bl, key) == i,
    decreases i,
{
    if i > 0 {
        let t = bl.drop_first();
        assert forall|j: int| 0 <= j < i - 1 implies key_of(#[trigger] t[j]) != key by {
            assert(t[j] == bl[j + 1]);
        }
        lemma_rule_index_found(t, key, i - 1);
    }
}

proof fn lemma_rule_index_absent(bl: Seq<BlacklistEntry>, key: Seq<char>)
    requires
        forall|j: int| 0 <= j < bl.len() ==> key_of(#[trigger] bl[j]) != key,
    ensures
        rule_index(bl, key) == -1,
    decreases bl.len(),
{
    if bl.len() > 0 {
        let t = bl.drop_first();
        assert forall|j: int| 0 <= j < t.len() implies key_of(#[trigger] t[j]) != key by {
            assert(t[j] == bl[j + 1]);
        }
        lemma_rule_index_absent(t, key);
    }
}

/// Removing every rule with one key keeps the others in order and keeps
/// keys unique.
proof fn lemma_without_key(bl: Seq<BlacklistEntry>, key: Seq<char>)
    ensures
        forall|i: int| 0 <= i < without_key(bl, key).len() ==>
            bl.contains(#[trigger] without_key(bl, key)[i]),
        forall|i: int| 0 <= i < without_key(bl, key).len() ==>
            key_of(#[trigger] without_key(bl, key)[i]) != key,
        names_unique(bl) ==> names_unique(without_key(bl, key)),
        without_key(bl, key).len() == bl.len() <==> !has_key(bl, key),
        without_key(bl, key).len() <= bl.len(),
        !has_key(bl, key) ==> without_key(bl, key) == bl,
    decreases bl.len(),
{
    if bl.len() > 0 {
        let d = bl.drop_last();
        lemma_without_key(d, key);
        let rest = without_key(d, key);
        assert forall|i: int| 0 <= i < rest.len() implies bl.contains(#[trigger] rest[i]) by {
            let k = choose|k: int| 0 <= k < d.len() && d[k] == rest[i];
            assert(bl[k] == rest[i]);
        }
        if key_of(bl.last()) != key {
            let r = rest.push(bl.last());
            assert(r[rest.len() as int] == bl[bl.len() - 1]);
            assert forall|i: int| 0 <= i < r.len() implies bl.contains(#[trigger] r[i]) by {
                if i < rest.len() {
                    assert(r[i] == rest[i]);
                }
            }
            if names_unique(bl) {
                assert(names_unique(d)) by {
                    assert forall|i: int, j: int| 0 <= i < j < d.len() implies key_of(#[trigger] d[i])
                        != key_of(#[trigger] d[j]) by {
                        assert(d[i] == bl[i] && d[j] == bl[j]);
                    }
                }
                assert forall|i: int, j: int| 0 <= i < j < r.len() implies key_of(#[trigger] r[i])
                    != key_of(#[trigger] r[j]) by {
                    if j == rest.len() {
                        let k = choose|k: int| 0 <= k < d.len() && d[k] == rest[i];
                        assert(bl[k] == r[i]);
                        assert(r[j] == bl[bl.len() - 1]);
                    } else {
                        assert(r[i] == rest[i] && r[j] == rest[j]);
                    }
                }
            }
            if has_key(bl, key) {
                let w = choose|w: int| 0 <= w < bl.len() && key_of(#[trigger] bl[w]) == key;
                assert(d[w] == bl[w]);
            }
            if !has_key(bl, key) {
                assert(!has_key(d, key)) by {
                    if has_key(d, key) {
                        let w = choose|w: int| 0 <= w < d.len() && key_of(#[trigger] d[w]) == key;
                        assert(bl[w] == d[w]);
                    }
                }
                assert(r =~= bl);
            }
        } else {
            assert(has_key(bl, key)) by {
                assert(key_of(bl[bl.len() - 1]) == key);
            }
            if names_unique(bl) {
                assert(names_unique(d)) by {
                    assert forall|i: int, j: int| 0 <= i < j < d.len() implies key_of(#[trigger] d[i])
                        != key_of(#[trigger] d[j]) by {
                        assert(d[i] == bl[i] && d[j] == bl[j]);
                    }
                }
            }
        }
    }
}

impl BlacklistEntry {
    /// A copy with every field equal.
    pub fn duplicate(&self) -> (r: BlacklistEntry)
        ensures
            r == *self,
    {
        BlacklistEntry {
            name: self.name.clone(),
            auto_kill: self.auto_kill,
            cpu_threshold: self.cpu_threshold,
            log_enabled: self.log_enabled,
            created_at: self.created_at.clone(),
            kill_count: self.kill_count,
        }
    }
}

impl ActivityLog {
    /// A copy with every field equal.
    pub fn duplicate(&self) -> (r: ActivityLog)
        ensures
            r == *self,
    {
        ActivityLog {
            name: self.name.clone(),
            pid: self.pid,
            cpu_usage: self.cpu_usage,
            detected_at: self.detected_at.clone(),
            was_killed: self.was_killed,
            reason: self.reason.clone(),
        }
    }
}

impl AppState {
    /// An empty state: no rules, no activity.
    pub fn new() -> (r: AppState)
        ensures
            r.blacklist@.len() == 0,
            r.activity_logs@.len() == 0,
    {
        AppState { blacklist: Vec::new(), activity_logs: Vec::new() }
    }

    /// Index of the first rule whose key is `key`.
    pub fn position(&self, key: &String) -> (r: Option<usize>)
        ensures
            match r {
                Some(i) => i == rule_index(self.blacklist@, key@) && i < self.blacklist@.len()
                    && key_of(self.blacklist@[i as int]) == key@,
                None => rule_index(self.blacklist@, key@) == -1 && !has_key(self.blacklist@, key@),
            },
    {
        let mut i: usize = 0;
        while i < self.blacklist.len()
            invariant
                i <= self.blacklist@.len(),
                forall|j: int| 0 <= j < i ==> key_of(#[trigger] self.blacklist@[j]) != key@,
            decreases self.blacklist@.len() - i,
        {
            let k = lowercase(self.blacklist[i].name.as_str());
            if k == *key {
                proof {
                    lemma_rule_index_found(self.blacklist@, key@, i as int);
                }
                return Some(i);
            }
            i = i + 1;
        }
        proof {
            lemma_rule_index_absent(self.blacklist@, key@);
        }
        None
    }

    /// A copy of every rule, in order.
    pub fn get_blacklist(&self) -> (r: Vec<BlacklistEntry>)
        ensures
            r@ == self.blacklist@,
    {
        let mut r: Vec<BlacklistEntry> = Vec::new();
        let mut i: usize = 0;
        while i < self.blacklist.len()
            invariant
                i <= self.blacklist@.len(),
                r@ == self.blacklist@.subrange(0, i as int),
            decreases self.blacklist@.len() - i,
        {
            r.push(self.blacklist[i].duplicate());
            i = i + 1;
        }
        assert(r@ =~= self.blacklist@);
        r
    }

    /// Adds a rule for the canonical form of `name`, created at `created_at`.
    /// Fails on an empty name, and on one whose key a rule already has.
    pub fn add_entry(&mut self, name: &str, auto_kill: bool, cpu_threshold: i64, created_at: String)
        -> (r: Result<String, BlacklistError>)
        ensures
            final(self).activity_logs == old(self).activity_logs,
            resolved(name@).len() == 0 ==> r == Err::<String, BlacklistError>(BlacklistError::EmptyName)
                && final(self).blacklist == old(self).blacklist,
            resolved(name@).len() > 0 && has_key(old(self).blacklist@, lower_of(resolved(name@)))
                ==> r == Err::<String, BlacklistError>(BlacklistError::AlreadyExists)
                && final(self).blacklist == old(self).blacklist,
            resolved(name@).len() > 0 && !has_key(old(self).blacklist@, lower_of(resolved(name@)))
                ==> r is Ok && r->Ok_0@ == resolved(name@) + " added to blacklist"@
                && final(self).blacklist@ == old(self).blacklist@.push(BlacklistEntry {
                    name: final(self).blacklist@.last().name,
                    auto_kill,
                    cpu_threshold: clamp_threshold(cpu_threshold as int) as u64,
                    log_enabled: true,
                    created_at,
                    kill_count: 0,
                }) && final(self).blacklist@.last().name@ == resolved(name@),
            names_unique(old(self).blacklist@) ==> names_unique(final(self).blacklist@),
    {
        let canonical = resolve_process_name(name);
        if canonical.as_str().unicode_len() == 0 {
            return Err(BlacklistError::EmptyName);
        }
        let key = lowercase(canonical.as_str());
        if self.position(&key).is_some() {
            return Err(BlacklistError::AlreadyExists);
        }
        let threshold: u64 = if cpu_threshold < 0 {
            0
        } else if cpu_threshold as u64 > MAX_THRESHOLD {
            MAX_THRESHOLD
        } else {
            cpu_threshold as u64
        };
        let message = canonical.clone().concat(" added to blacklist");
        let entry = BlacklistEntry {
            name: canonical,
            auto_kill,
            cpu_threshold: threshold,
            log_enabled: true,
            created_at,
            kill_count: 0,
        };
        let ghost before = self.blacklist@;
        self.blacklist.push(entry);
        proof {
            let after = self.blacklist@;
            if names_unique(before) {
                assert forall|i: int, j: int| 0 <= i < j < after.len() implies key_of(#[trigger] after[i])
                    != key_of(#[trigger] after[j]) by {
                    if j == before.len() {
                        assert(after[i] == before[i]);
                    } else {
                        assert(after[i] == before[i] && after[j] == before[j]);
                    }
                }
            }
        }
        Ok(message)
    }

    /// Adds a rule created now; see `add_entry`.
    pub fn add_to_blacklist(&mut self, name: &str, auto_kill: bool, cpu_threshold: i64)
        -> (r: Result<String, BlacklistError>)
        ensures
            final(self).activity_logs == old(self).activity_logs,
            resolved(name@).len() == 0 ==> r == Err::<String, BlacklistError>(BlacklistError::EmptyName)
                && final(self).blacklist == old(self).blacklist,
            resolved(name@).len() > 0 && has_key(old(self).blacklist@, lower_of(resolved(name@)))
                ==> r == Err::<String, BlacklistError>(BlacklistError::AlreadyExists)
                && final(self).blacklist == old(self).blacklist,
            resolved(name@).len() > 0 && !has_key(old(self).blacklist@, lower_of(resolved(name@)))
                ==> r is Ok && r->Ok_0@ == resolved(name@) + " added to blacklist"@
                && final(self).blacklist@.len() == old(self).blacklist@.len() + 1
                && final(self).blacklist@.drop_last() == old(self).blacklist@
                && final(self).blacklist@.last().name@ == resolved(name@)
                && final(self).blacklist@.last().auto_kill == auto_kill
                && final(self).blacklist@.last().cpu_threshold == clamp_threshold(cpu_threshold as int)
                && final(self).blacklist@.last().log_enabled
                && final(self).blacklist@.last().kill_count == 0,
            names_unique(old(self).blacklist@) ==> names_unique(final(self).blacklist@),
    {
        let stamp = now_stamp();
        let r = self.add_entry(name, auto_kill, cpu_threshold, stamp);
        proof {
            if r is Ok {
                assert(self.blacklist@.drop_last() =~= old(self).blacklist@);
            }
        }
        r
    }

    /// Removes every rule whose key is the lowercase form of `name`.
    pub fn remove_from_blacklist(&mut self, name: &str) -> (r: Result<String, BlacklistError>)
        ensures
            final(self).activity_logs == old(self).activity_logs,
            final(self).blacklist@ == without_key(old(self).blacklist@, lower_of(name@)),
            has_key(old(self).blacklist@, lower_of(name@)) ==> r is Ok
                && r->Ok_0@ == name@ + " removed from blacklist"@,
            !has_key(old(self).blacklist@, lower_of(name@)) ==> r
                == Err::<String, BlacklistError>(BlacklistError::NotFound),
            names_unique(old(self).blacklist@) ==> names_unique(final(self).blacklist@),
    {
        let key = lowercase(name);
        let mut kept: Vec<BlacklistEntry> = Vec::new();
        let mut i: usize = 0;
        while i < self.blacklist.len()
            invariant
                i <= self.blacklist@.len(),
                kept@ == without_key(self.blacklist@.subrange(0, i as int), key@),
            decreases self.blacklist@.len() - i,
        {
            let k = lowercase(self.blacklist[i].name.as_str());
            let ghost prefix = self.blacklist@.subrange(0, i as int + 1);
            assert(prefix.drop_last() =~= self.blacklist@.subrange(0, i as int));
            if k != key {
                kept.push(self.blacklist[i].duplicate());
            }
            i = i + 1;
        }
        assert(self.blacklist@.subrange(0, i as int) =~= self.blacklist@);
        proof {
            lemma_without_key(self.blacklist@, key@);
        }
        let removed = kept.len() < self.blacklist.len();
        self.blacklist = kept;
        if removed {
            Ok(String::from_str(name).concat(" removed from blacklist"))
        } else {
            Err(BlacklistError::NotFound)
        }
    }

    /// Flips `auto_kill` of the first rule with the key of `name`.
    pub fn toggle_auto_kill(&mut self, name: &str) -> (r: Result<bool, BlacklistError>)
        ensures
            final(self).activity_logs == old(self).activity_logs,
            ({
                let i = rule_index(old(self).blacklist@, lower_of(name@));
                let e = old(self).blacklist@[i];
                if i < 0 {
                    r == Err::<bool, BlacklistError>(BlacklistError::NotFound)
                        && final(self).blacklist == old(self).blacklist
                } else {
                    r == Ok::<bool, BlacklistError>(!e.auto_kill)
                        && final(self).blacklist@ == old(self).blacklist@.update(i,
                        BlacklistEntry { auto_kill: !e.auto_kill, ..e })
                }
            }),
            names_unique(old(self).blacklist@) ==> names_unique(final(self).blacklist@),
    {
        let key = lowercase(name);
        match self.position(&key) {
            None => Err(BlacklistError::NotFound),
            Some(i) => {
                let mut e = self.blacklist[i].duplicate();
                e.auto_kill = !e.auto_kill;
                let v = e.auto_kill;
                self.blacklist.set(i, e);
                proof { self.lemma_update_keeps_unique(old(self).blacklist@, i as int); }
                Ok(v)
            },
        }
    }

    /// Flips `log_enabled` of the first rule with the key of `name`.
    pub fn toggle_blacklist_log(&mut self, name: &str) -> (r: Result<bool, BlacklistError>)
        ensures
            final(self).activity_logs == old(self).activity_logs,
            ({
                let i = rule_index(old(self).blacklist@, lower_of(name@));
                let e = old(self).blacklist@[i];
                if i < 0 {
                    r == Err::<bool, BlacklistError>(BlacklistError::NotFound)
                        && final(self).blacklist == old(self).blacklist
                } else {
                    r == Ok::<bool, BlacklistError>(!e.log_enabled)
                        && final(self).blacklist@ == old(self).blacklist@.update(i,
                        BlacklistEntry { log_enabled: !e.log_enabled, ..e })
                }
            }),
            names_unique(old(self).blacklist@) ==> names_unique(final(self).blacklist@),
    {
        let key = lowercase(name);
        match self.position(&key) {
            None => Err(BlacklistError::NotFound),
            Some(i) => {
                let mut e = self.blacklist[i].duplicate();
                e.log_enabled = !e.log_enabled;
                let v = e.log_enabled;
                self.blacklist.set(i, e);
                proof { self.lemma_update_keeps_unique(old(self).blacklist@, i as int); }
                Ok(v)
            },
        }
    }

    /// Stores `threshold` clamped to [0, 100%] in the first rule with the key
    /// of `name`, and returns the stored value.
    pub fn set_cpu_threshold(&mut self, name: &str, threshold: i64) -> (r: Result<u64, BlacklistError>)
        ensures
            final(self).activity_logs == old(self).activity_logs,
            ({
                let i = rule_index(old(self).blacklist@, lower_of(name@));
                let e = old(self).blacklist@[i];
                if i < 0 {
                    r == Err::<u64, BlacklistError>(BlacklistError::NotFound)
                        && final(self).blacklist == old(self).blacklist
                } else {
                    r == Ok::<u64, BlacklistError>(clamp_threshold(threshold as int) as u64)
                        && final(self).blacklist@ == old(self).blacklist@.update(i,
                        BlacklistEntry { cpu_threshold: clamp_threshold(threshold as int) as u64, ..e })
                }
            }),
            names_unique(old(self).blacklist@) ==> names_unique(final(self).blacklist@),
    {
        let key = lowercase(name);
        match self.position(&key) {
            None => Err(BlacklistError::NotFound),
            Some(i) => {
                let mut e = self.blacklist[i].duplicate();
                e.cpu_threshold = if threshold < 0 {
                    0
                } else if threshold as u64 > MAX_THRESHOLD {
                    MAX_THRESHOLD
                } else {
                    threshold as u64
                };
                let v = e.cpu_threshold;
                self.blacklist.set(i, e);
                proof { self.lemma_update_keeps_unique(old(self).blacklist@, i as int); }
                Ok(v)
            },
        }
    }

    /// Replacing one rule by one with the same name keeps keys unique.
    proof fn lemma_update_keeps_unique(&self, before: Seq<BlacklistEntry>, i: int)
        requires
            0 <= i < before.len(),
            self.blacklist@.len() == before.len(),
            self.blacklist@[i].name == before[i].name,
            forall|j: int| 0 <= j < before.len() && j != i ==> self.blacklist@[j] == before[j],
        ensures
            names_unique(before) ==> names_unique(self.blacklist@),
    {
        let after = self.blacklist@;
        if names_unique(before) {
            assert forall|a: int, b: int| 0 <= a < b < after.len() implies key_of(#[trigger] after[a])
                != key_of(#[trigger] after[b]) by {
                assert(key_of(after[a]) == key_of(before[a]));
                assert(key_of(after[b]) == key_of(before[b]));
            }
        }
    }

    /// Appends one entry and keeps only the newest `LOG_CAPACITY`.
    pub fn append_log(&mut self, log: ActivityLog)
        ensures
            final(self).blacklist == old(self).blacklist,
            final(self).activity_logs@ == last_n(old(self).activity_logs@.push(log),
                LOG_CAPACITY as int),
    {
        self.activity_logs.push(log);
        let n = self.activity_logs.len();
        if n > LOG_CAPACITY {
            let recent = self.activity_logs.split_off(n - LOG_CAPACITY);
            self.activity_logs = recent;
        }
    }

    /// Ends an enforcement pass: keeps only the newest `LOG_CAPACITY`
    /// entries, however many the state was loaded with.
    pub fn finish_pass(&mut self)
        ensures
            final(self).blacklist == old(self).blacklist,
            final(self).activity_logs@ == last_n(old(self).activity_logs@, LOG_CAPACITY as int),
    {
        let n = self.activity_logs.len();
        if n > LOG_CAPACITY {
            let recent = self.activity_logs.split_off(n - LOG_CAPACITY);
            self.activity_logs = recent;
        }
    }

    /// The newest `RECENT_LOGS` entries, newest first.
    pub fn get_activity_logs(&self) -> (r: Vec<ActivityLog>)
        ensures
            r@.len() == if self.activity_logs@.len() < RECENT_LOGS {
                self.activity_logs@.len() as int
            } else {
                RECENT_LOGS as int
            },
            forall|i: int| 0 <= i < r@.len() ==>
                #[trigger] r@[i] == self.activity_logs@[self.activity_logs@.len() - 1 - i],
    {
        let n = self.activity_logs.len();
        let mut r: Vec<ActivityLog> = Vec::new();
        let mut i: usize = 0;
        while i < n && i < RECENT_LOGS
            invariant
                n == self.activity_logs@.len(),
                i <= n,
                i <= RECENT_LOGS,
                r@.len() == i,
                forall|k: int| 0 <= k < i ==>
                    #[trigger] r@[k] == self.activity_logs@[n - 1 - k],
            decreases n - i,
        {
            r.push(self.activity_logs[n - 1 - i].duplicate());
            i = i + 1;
        }
        r
    }

    /// Empties the activity log.
    pub fn clear_activity_logs(&mut self) -> (r: String)
        ensures
            final(self).blacklist == old(self).blacklist,
            final(self).activity_logs@.len() == 0,
            r@ == "Logs cleared"@,
    {
        self.activity_logs.clear();
        String::from_str("Logs cleared")
    }
}

} // verus!
