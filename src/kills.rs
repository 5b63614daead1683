//! Targets and outcome reports of the manual kill commands.

use vstd::prelude::*;
use crate::text::{lower_of, trim_of, name_matches, decimal_of, lowercase, trim, matches_pattern, decimal};
use crate::procs::ProcRow;

verus! {

/// The pids of the rows whose lowercase name matches the lowercase form of
/// `name`, in order.
pub open spec fn targets_of(procs: Seq<ProcRow>, name: Seq<char>) -> Seq<u32>
    decreases procs.len(),
{
    if procs.len() == 0 {
        seq![]
    } else {
        let rest = targets_of(procs.drop_last(), name);
        if name_matches(lower_of(procs.last().name@), lower_of(name)) {
            rest.push(procs.last().pid)
        } else {
            rest
        }
    }
}

/// The processes that killing the group `name` aims at. A name that is
/// blank aims at none.
pub fn group_targets(name: &str, procs: &Vec<ProcRow>) -> (r: Vec<u32>)
    ensures
        trim_of(name@).len() == 0 ==> r@.len() == 0,
        trim_of(name@).len() > 0 ==> r@ == targets_of(procs@, name@),
{
    let mut r: Vec<u32> = Vec::new();
    if trim(name).unicode_len() == 0 {
        return r;
    }
    let key = lowercase(name);
    let mut i: usize = 0;
    while i < procs.len()
        invariant
            i <= procs@.len(),
            key@ == lower_of(name@),
            r@ == targets_of(procs@.subrange(0, i as int), name@),
        decreases procs@.len() - i,
    {
        let ghost q = procs@.subrange(0, i as int + 1);
        assert(q.drop_last() =~= procs@.subrange(0, i as int));
        let pname = lowercase(procs[i].name.as_str());
        if matches_pattern(pname.as_str(), key.as_str()) {
            r.push(procs[i].pid);
        }
        i = i + 1;
    }
    assert(procs@.subrange(0, i as int) =~= procs@);
    r
}

/// The report of a group kill with `killed` successes and `failed` failures.
pub open spec fn group_report(killed: u64, failed: u64) -> Result<Seq<char>, Seq<char>> {
    if killed > 0 {
        Ok("Killed "@ + decimal_of(killed as nat) + " processes, "@ + decimal_of(failed as nat)
            + " failed"@)
    } else if failed > 0 {
        Err("Failed to kill "@ + decimal_of(failed as nat) + " processes (permission denied?)"@)
    } else {
        Err("No matching processes found"@)
    }
}

/// Reports a group kill.
pub fn kill_group_report(killed: u64, failed: u64) -> (r: Result<String, String>)
    ensures
        match (r, group_report(killed, failed)) {
            (Ok(a), Ok(b)) => a@ == b,
            (Err(a), Err(b)) => a@ == b,
            _ => false,
        },
{
    if killed > 0 {
        let a = decimal(killed);
        let b = decimal(failed);
        Ok(String::from_str("Killed ").concat(a.as_str()).concat(" processes, ").concat(b.as_str()).concat(
            " failed",
        ))
    } else if failed > 0 {
        let b = decimal(failed);
        Err(String::from_str("Failed to kill ").concat(b.as_str()).concat(" processes (permission denied?)"))
    } else {
        Err(String::from_str("No matching processes found"))
    }
}

/// The report of killing one process: `found` tells whether it was running,
/// `ok` whether the termination succeeded.
pub open spec fn pid_report(pid: u32, found: bool, ok: bool) -> Result<Seq<char>, Seq<char>> {
    if !found {
        Err("Process not found"@)
    } else if ok {
        Ok("PID "@ + decimal_of(pid as nat) + " terminated"@)
    } else {
        Err("Failed to kill (permission denied?)"@)
    }
}

/// Reports killing one process.
pub fn kill_pid_report(pid: u32, found: bool, ok: bool) -> (r: Result<String, String>)
    ensures
        match (r, pid_report(pid, found, ok)) {
            (Ok(a), Ok(b)) => a@ == b,
            (Err(a), Err(b)) => a@ == b,
            _ => false,
        },
{
    if !found {
        Err(String::from_str("Process not found"))
    } else if ok {
        Ok(String::from_str("PID ").concat(decimal(pid as u64).as_str()).concat(" terminated"))
    } else {
        Err(String::from_str("Failed to kill (permission denied?)"))
    }
}

} // verus!
