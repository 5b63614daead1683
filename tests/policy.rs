use proc_guard::enforce::{decide, plan_pass, reason_text, Action, Verdict};
use proc_guard::names::{canonical_name, resolve_process_name};
use proc_guard::procs::ProcRow;
use proc_guard::state::{default_true, ActivityLog, AppState, BlacklistError};

fn row(pid: u32, name: &str, cpu: u64, memory_kb: u64) -> ProcRow {
    ProcRow { pid, name: name.to_string(), cpu, memory_kb }
}

fn log(i: u32) -> ActivityLog {
    ActivityLog {
        name: format!("p{}", i),
        pid: i,
        cpu_usage: 0,
        detected_at: String::new(),
        was_killed: false,
        reason: "Detected".to_string(),
    }
}

#[test]
fn resolve_maps_aliases_after_trim_and_lowercase() {
    assert_eq!(resolve_process_name("  Edge "), "msedge");
    assert_eq!(resolve_process_name("Microsoft Edge"), "msedge");
    assert_eq!(resolve_process_name("VS Code"), "code");
    assert_eq!(resolve_process_name("Google Chrome"), "chrome");
    assert_eq!(resolve_process_name("Calc"), "calculator");
    assert_eq!(resolve_process_name("Task Manager"), "taskmgr");
    assert_eq!(resolve_process_name("Command Prompt"), "cmd");
    assert_eq!(resolve_process_name(" Foo.EXE "), "foo.exe");
    assert_eq!(resolve_process_name("   "), "");
}

#[test]
fn add_keeps_display_name_and_defaults() {
    let mut s = AppState::new();
    assert_eq!(s.add_to_blacklist("Chrome", true, 250), Ok("chrome added to blacklist".to_string()));
    let bl = s.get_blacklist();
    assert_eq!(bl.len(), 1);
    assert_eq!(bl[0].name, "chrome");
    assert!(bl[0].auto_kill);
    assert_eq!(bl[0].cpu_threshold, 250);
    assert!(bl[0].log_enabled);
    assert_eq!(bl[0].kill_count, 0);
}

#[test]
fn add_rejects_case_insensitive_duplicate_and_empty() {
    let mut s = AppState::new();
    assert!(s.add_entry("Game.exe", false, 0, "t".to_string()).is_ok());
    assert_eq!(s.add_entry("GAME.EXE", true, 0, "t".to_string()), Err(BlacklistError::AlreadyExists));
    assert_eq!(s.add_entry("  ", true, 0, "t".to_string()), Err(BlacklistError::EmptyName));
    assert_eq!(s.blacklist.len(), 1);
    assert_eq!(s.blacklist[0].created_at, "t");
}

#[test]
fn add_clamps_threshold() {
    let mut s = AppState::new();
    s.add_entry("a", true, -5, String::new()).unwrap();
    s.add_entry("b", true, 4000, String::new()).unwrap();
    assert_eq!(s.blacklist[0].cpu_threshold, 0);
    assert_eq!(s.blacklist[1].cpu_threshold, 1000);
}

#[test]
fn remove_is_case_insensitive() {
    let mut s = AppState::new();
    s.add_entry("game", true, 0, String::new()).unwrap();
    s.add_entry("other", true, 0, String::new()).unwrap();
    assert_eq!(s.remove_from_blacklist("GAME"), Ok("GAME removed from blacklist".to_string()));
    assert_eq!(s.blacklist.len(), 1);
    assert_eq!(s.blacklist[0].name, "other");
    assert_eq!(s.remove_from_blacklist("game"), Err(BlacklistError::NotFound));
}

#[test]
fn add_remove_sequence_keeps_names_unique() {
    let mut s = AppState::new();
    for n in ["a", "A", "b", "B ", "a"] {
        let _ = s.add_entry(n, false, 0, String::new());
    }
    let _ = s.remove_from_blacklist("A");
    let _ = s.add_entry("a", false, 0, String::new());
    let _ = s.add_entry("A", false, 0, String::new());
    let names: Vec<String> = s.blacklist.iter().map(|e| e.name.to_lowercase()).collect();
    assert_eq!(names, vec!["b".to_string(), "a".to_string()]);
}

#[test]
fn toggles_flip_and_report_new_value() {
    let mut s = AppState::new();
    s.add_entry("game", false, 0, String::new()).unwrap();
    assert_eq!(s.toggle_auto_kill("Game"), Ok(true));
    assert_eq!(s.toggle_auto_kill("GAME"), Ok(false));
    assert_eq!(s.toggle_blacklist_log("game"), Ok(false));
    assert!(!s.blacklist[0].log_enabled);
    assert_eq!(s.toggle_auto_kill("nope"), Err(BlacklistError::NotFound));
    assert_eq!(s.toggle_blacklist_log("nope"), Err(BlacklistError::NotFound));
}

#[test]
fn set_cpu_threshold_clamps() {
    let mut s = AppState::new();
    s.add_entry("game", true, 0, String::new()).unwrap();
    assert_eq!(s.set_cpu_threshold("GAME", -500), Ok(0));
    assert_eq!(s.set_cpu_threshold("game", 1500), Ok(1000));
    assert_eq!(s.set_cpu_threshold("game", 505), Ok(505));
    assert_eq!(s.blacklist[0].cpu_threshold, 505);
    assert_eq!(s.set_cpu_threshold("game", i64::MIN), Ok(0));
    assert_eq!(s.set_cpu_threshold("game", i64::MAX), Ok(1000));
    assert_eq!(s.set_cpu_threshold("x", 10), Err(BlacklistError::NotFound));
}

#[test]
fn error_messages() {
    assert_eq!(BlacklistError::EmptyName.message(), "Name cannot be empty");
    assert_eq!(BlacklistError::AlreadyExists.message(), "Already in blacklist");
    assert_eq!(BlacklistError::NotFound.message(), "Not found in blacklist");
}

#[test]
fn log_keeps_newest_thousand_in_order() {
    let mut s = AppState::new();
    for i in 0..1005u32 {
        s.append_log(log(i));
    }
    assert_eq!(s.activity_logs.len(), 1000);
    assert_eq!(s.activity_logs[0].pid, 5);
    assert_eq!(s.activity_logs[999].pid, 1004);
    for k in 0..999 {
        assert_eq!(s.activity_logs[k].pid + 1, s.activity_logs[k + 1].pid);
    }
}

#[test]
fn recent_logs_are_newest_first_and_capped() {
    let mut s = AppState::new();
    assert!(s.get_activity_logs().is_empty());
    for i in 0..3u32 {
        s.append_log(log(i));
    }
    let r: Vec<u32> = s.get_activity_logs().iter().map(|l| l.pid).collect();
    assert_eq!(r, vec![2, 1, 0]);
    for i in 3..250u32 {
        s.append_log(log(i));
    }
    let r = s.get_activity_logs();
    assert_eq!(r.len(), 100);
    assert_eq!(r[0].pid, 249);
    assert_eq!(r[99].pid, 150);
    assert_eq!(s.activity_logs.len(), 250);
}

#[test]
fn clear_empties_logs_only() {
    let mut s = AppState::new();
    s.add_entry("a", false, 0, String::new()).unwrap();
    s.append_log(log(1));
    assert_eq!(s.clear_activity_logs(), "Logs cleared");
    assert!(s.activity_logs.is_empty());
    assert_eq!(s.blacklist.len(), 1);
}

#[test]
fn default_true_is_true() {
    assert!(default_true());
}

#[test]
fn observing_rules_detect_twice_without_kills() {
    let mut s = AppState::new();
    s.add_entry("game", false, 0, "t0".to_string()).unwrap();
    let procs = vec![row(1, "Game.exe", 900, 10), row(2, "other", 5, 10), row(3, "mygame", 0, 1)];
    for pass in 0..2 {
        let plan = plan_pass(&s.blacklist, &procs);
        assert_eq!(plan, vec![
            Some(Verdict { rule: 0, action: Action::Detect }),
            None,
            Some(Verdict { rule: 0, action: Action::Detect }),
        ]);
        for (p, v) in procs.iter().zip(plan.iter()) {
            if let Some(v) = v {
                let l = s.record(p, *v, false, format!("t{}", pass)).unwrap();
                assert_eq!(l.reason, "Detected");
                assert!(!l.was_killed);
            }
        }
        assert_eq!(s.blacklist[0].kill_count, 0);
    }
    assert_eq!(s.activity_logs.len(), 4);
}

#[test]
fn zero_threshold_always_kills() {
    let mut s = AppState::new();
    s.add_entry("game", true, 0, String::new()).unwrap();
    let v = decide(&s.blacklist, &row(7, "GAME", 0, 0)).unwrap();
    assert_eq!(v.action, Action::Kill);
}

#[test]
fn threshold_is_inclusive() {
    let mut s = AppState::new();
    s.add_entry("game", true, 500, String::new()).unwrap();
    assert_eq!(decide(&s.blacklist, &row(1, "game", 500, 0)).unwrap().action, Action::Kill);
    assert_eq!(decide(&s.blacklist, &row(1, "game", 499, 0)).unwrap().action, Action::BelowThreshold);
    assert_eq!(decide(&s.blacklist, &row(1, "gam", 900, 0)), None);
}

#[test]
fn first_matching_rule_governs() {
    let mut s = AppState::new();
    s.add_entry("game", false, 0, String::new()).unwrap();
    s.add_entry("gameserver", true, 0, String::new()).unwrap();
    let v = decide(&s.blacklist, &row(1, "GameServer.exe", 10, 0)).unwrap();
    assert_eq!(v, Verdict { rule: 0, action: Action::Detect });
}

#[test]
fn successful_kill_counts_and_logs() {
    let mut s = AppState::new();
    s.add_entry("game", true, 0, String::new()).unwrap();
    let p = row(42, "Game.exe", 505, 0);
    let v = decide(&s.blacklist, &p).unwrap();
    let l = s.record(&p, v, true, "now".to_string()).unwrap();
    assert_eq!(l.reason, "Killed (CPU: 50.5%)");
    assert!(l.was_killed);
    assert_eq!(l.name, "Game.exe");
    assert_eq!(l.pid, 42);
    assert_eq!(l.cpu_usage, 505);
    assert_eq!(l.detected_at, "now");
    assert_eq!(s.blacklist[0].kill_count, 1);
    assert_eq!(s.activity_logs.len(), 1);
}

#[test]
fn failed_kill_does_not_count() {
    let mut s = AppState::new();
    s.add_entry("game", true, 0, String::new()).unwrap();
    let p = row(42, "game", 5, 0);
    let v = decide(&s.blacklist, &p).unwrap();
    let l = s.record(&p, v, false, String::new()).unwrap();
    assert_eq!(l.reason, "Kill failed (no permission)");
    assert!(!l.was_killed);
    assert_eq!(s.blacklist[0].kill_count, 0);
}

#[test]
fn below_threshold_reason() {
    let mut s = AppState::new();
    s.add_entry("game", true, 500, String::new()).unwrap();
    let p = row(1, "game", 499, 0);
    let v = decide(&s.blacklist, &p).unwrap();
    let l = s.record(&p, v, false, String::new()).unwrap();
    assert_eq!(l.reason, "CPU 49.9% < threshold 50%");
}

#[test]
fn silent_rule_kills_without_log() {
    let mut s = AppState::new();
    s.add_entry("game", true, 0, String::new()).unwrap();
    s.toggle_blacklist_log("game").unwrap();
    let p = row(1, "game", 0, 0);
    let v = decide(&s.blacklist, &p).unwrap();
    assert!(s.record(&p, v, true, String::new()).is_none());
    assert_eq!(s.blacklist[0].kill_count, 1);
    assert!(s.activity_logs.is_empty());
}

#[test]
fn reason_text_rounds_threshold_half_to_even() {
    assert_eq!(reason_text(Action::BelowThreshold, false, 7, 125), "CPU 0.7% < threshold 12%");
    assert_eq!(reason_text(Action::BelowThreshold, false, 1234, 135), "CPU 123.4% < threshold 14%");
    assert_eq!(reason_text(Action::BelowThreshold, false, 0, 1000), "CPU 0.0% < threshold 100%");
    assert_eq!(reason_text(Action::Kill, true, 1000, 0), "Killed (CPU: 100.0%)");
    assert_eq!(reason_text(Action::Detect, true, 1, 1), "Detected");
}

#[test]
fn canonical_name_maps_aliases_only() {
    assert_eq!(canonical_name("microsoft edge"), "msedge");
    assert_eq!(canonical_name("vscode"), "code");
    assert_eq!(canonical_name("command prompt"), "cmd");
    assert_eq!(canonical_name("Edge"), "Edge");
    assert_eq!(canonical_name("notepad"), "notepad");
}

#[test]
fn finish_pass_cuts_a_long_loaded_log() {
    let mut s = AppState::new();
    for i in 0..1200u32 {
        s.activity_logs.push(log(i));
    }
    s.finish_pass();
    assert_eq!(s.activity_logs.len(), 1000);
    assert_eq!(s.activity_logs[0].pid, 200);
    assert_eq!(s.activity_logs[999].pid, 1199);
    s.finish_pass();
    assert_eq!(s.activity_logs.len(), 1000);
}

#[test]
fn resolve_trims_unicode_white_space() {
    assert_eq!(resolve_process_name("\u{3000}Chrome\u{A0}\n"), "chrome");
}
