use proc_guard::kills::{group_targets, kill_group_report, kill_pid_report};
use proc_guard::gpu::{attribute_usage, parse_pid_from_instance, CounterSample, GpuMonitor, GpuUsage};
use proc_guard::procs::{grouped_processes, watched_processes, ProcRow};
use proc_guard::text::{chars_of, matches_pattern, occurs};

fn row(pid: u32, name: &str, cpu: u64, memory_kb: u64) -> ProcRow {
    ProcRow { pid, name: name.to_string(), cpu, memory_kb }
}

fn sample(instance: &str, value: u64) -> CounterSample {
    CounterSample { instance: instance.to_string(), value }
}

#[test]
fn pattern_matching_is_substring_or_equal() {
    assert!(matches_pattern("chrome.exe", "chrome"));
    assert!(matches_pattern("chrome", "chrome"));
    assert!(matches_pattern("anything", ""));
    assert!(!matches_pattern("chr", "chrome"));
    assert!(occurs(&chars_of("abcabd"), &chars_of("abd")));
    assert!(!occurs(&chars_of("abcabd"), &chars_of("abe")));
}

#[test]
fn watched_rows_match_case_insensitively() {
    let procs = vec![row(1, "Chrome.exe", 10, 100), row(2, "code", 5, 5), row(3, "msedge.exe", 1, 1)];
    let r = watched_processes(&vec!["Google Chrome".to_string(), "edge".to_string()], &procs);
    let pids: Vec<u32> = r.iter().map(|p| p.pid).collect();
    assert_eq!(pids, vec![1, 3]);
    assert_eq!(r[0].name, "Chrome.exe");
}

#[test]
fn empty_watch_list_matches_nothing() {
    let procs = vec![row(1, "a", 0, 0)];
    assert!(watched_processes(&vec![], &procs).is_empty());
    assert!(watched_processes(&vec!["   ".to_string()], &procs).is_empty());
    assert!(grouped_processes(&vec![], &procs).is_empty());
}

#[test]
fn grouping_sums_one_name() {
    let procs = vec![row(11, "Foo", 100, 1000), row(12, "Foo", 200, 3000), row(13, "bar", 900, 1)];
    let g = grouped_processes(&vec!["foo".to_string()], &procs);
    assert_eq!(g.len(), 1);
    assert_eq!(g[0].name, "Foo");
    assert_eq!(g[0].process_count, 2);
    assert_eq!(g[0].total_cpu, 300);
    assert_eq!(g[0].total_memory_kb, 4000);
    assert_eq!(g[0].pids, vec![11, 12]);
}

#[test]
fn grouping_keeps_case_and_orders_by_cpu() {
    let procs = vec![
        row(1, "foo", 10, 1),
        row(2, "FOO", 50, 1),
        row(3, "foobar", 30, 1),
        row(4, "foo", 25, 1),
        row(5, "xfoo", 35, 1),
    ];
    let g = grouped_processes(&vec!["Foo".to_string()], &procs);
    let names: Vec<&str> = g.iter().map(|x| x.name.as_str()).collect();
    assert_eq!(names, vec!["FOO", "foo", "xfoo", "foobar"]);
    assert_eq!(g[1].total_cpu, 35);
    assert_eq!(g[1].pids, vec![1, 4]);
    let ties = grouped_processes(&vec!["a".to_string()], &vec![row(1, "a1", 5, 0), row(2, "a2", 5, 0)]);
    assert_eq!(ties[0].name, "a1");
    assert_eq!(ties[1].name, "a2");
}

#[test]
fn pid_is_parsed_from_instance_names() {
    assert_eq!(parse_pid_from_instance("pid_1234_luid_0x00000000_0x0000D1A5_phys_0_eng_0_engtype_3D"), Some(1234));
    assert_eq!(parse_pid_from_instance("pid_99"), Some(99));
    assert_eq!(parse_pid_from_instance("x_pid_7_pid_8"), Some(7));
    assert_eq!(parse_pid_from_instance("pid_+5_x"), None);
    assert_eq!(parse_pid_from_instance("pid_4294967295_x"), Some(4294967295));
    assert_eq!(parse_pid_from_instance("pid_4294967296_x"), None);
    assert_eq!(parse_pid_from_instance("pid__x"), None);
    assert_eq!(parse_pid_from_instance("pid_12a_x"), None);
    assert_eq!(parse_pid_from_instance("luid_0x0_phys_0"), None);
    assert_eq!(parse_pid_from_instance(""), None);
}

#[test]
fn gpu_engines_of_one_process_are_summed() {
    let samples = vec![
        sample("pid_100_engtype_3D_eng_0", 500),
        sample("pid_100_engtype_Copy_eng_1", 300),
        sample("engtype_3D_eng_2", 900),
    ];
    assert_eq!(attribute_usage(&samples), vec![GpuUsage { pid: 100, usage: 800 }]);
}

#[test]
fn gpu_usage_per_process() {
    let samples = vec![
        sample("pid_1_eng_0", 1),
        sample("pid_2_eng_0", 20),
        sample("pid_1_eng_1", 3),
    ];
    let m = GpuMonitor::ready(5, 6);
    assert!(m.is_ready());
    assert_eq!(m.query(), 5);
    assert_eq!(m.counter(), 6);
    let mut r = m.get_usage(&samples);
    r.sort_by_key(|u| u.pid);
    assert_eq!(r, vec![GpuUsage { pid: 1, usage: 4 }, GpuUsage { pid: 2, usage: 20 }]);
}

#[test]
fn disabled_monitor_reports_nothing() {
    let m = GpuMonitor::disabled();
    assert!(!m.is_ready());
    assert!(m.get_usage(&vec![sample("pid_1_eng_0", 5)]).is_empty());
}

#[test]
fn group_kill_targets_match_case_insensitively() {
    let procs = vec![row(1, "Game.exe", 0, 0), row(2, "other", 0, 0), row(3, "MYGAME", 0, 0)];
    assert_eq!(group_targets("GAME", &procs), vec![1, 3]);
    assert!(group_targets("zzz", &procs).is_empty());
}

#[test]
fn kill_reports() {
    assert_eq!(kill_group_report(3, 1), Ok("Killed 3 processes, 1 failed".to_string()));
    assert_eq!(kill_group_report(0, 2), Err("Failed to kill 2 processes (permission denied?)".to_string()));
    assert_eq!(kill_group_report(0, 0), Err("No matching processes found".to_string()));
    assert_eq!(kill_pid_report(77, true, true), Ok("PID 77 terminated".to_string()));
    assert_eq!(kill_pid_report(77, true, false), Err("Failed to kill (permission denied?)".to_string()));
    assert_eq!(kill_pid_report(77, false, false), Err("Process not found".to_string()));
}

#[test]
fn blank_group_name_targets_nothing() {
    let procs = vec![row(1, "Game.exe", 0, 0), row(2, "other", 0, 0)];
    assert!(group_targets("", &procs).is_empty());
    assert!(group_targets(" \t ", &procs).is_empty());
    assert_eq!(kill_group_report(0, 0), Err("No matching processes found".to_string()));
}

#[test]
fn pid_field_takes_digits_only() {
    assert_eq!(parse_pid_from_instance("pid_-5_x"), None);
    assert_eq!(parse_pid_from_instance("pid_ 5_x"), None);
    assert_eq!(parse_pid_from_instance("pid_05_x"), Some(5));
}
