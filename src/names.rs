//! Turning what a user types into the lowercase token that process names are
//! matched against.

use vstd::prelude::*;
use crate::text::{lower_of, trim_of, lowercase, trim, same_text};

verus! {

/// The executable base name for a few common aliases; any other input is its
/// own canonical form.
pub open spec fn canonical_of(s: Seq<char>) -> Seq<char> {
    if s == "edge"@ || s == "microsoft edge"@ || s == "msedge"@ {
        "msedge"@
    } else if s == "chrome"@ || s == "google chrome"@ {
        "chrome"@
    } else if s == "code"@ || s == "vscode"@ || s == "vs code"@ {
        "code"@
    } else if s == "calc"@ || s == "calculator"@ {
        "calculator"@
    } else if s == "task manager"@ || s == "taskmgr"@ {
        "taskmgr"@
    } else if s == "cmd"@ || s == "command prompt"@ {
        "cmd"@
    } else {
        s
    }
}

/// The token that a user's input stands for: trimmed, lowercased, then
/// mapped through the alias table.
pub open spec fn resolved(input: Seq<char>) -> Seq<char> {
    canonical_of(lower_of(trim_of(input)))
}

/// Maps a trimmed, lowercase name through the alias table.
pub fn canonical_name(t: &str) -> (r: String)
    ensures
        r@ == canonical_of(t@),
{
    if same_text(t, "edge") || same_text(t, "microsoft edge") || same_text(t, "msedge") {
        String::from_str("msedge")
    } else if same_text(t, "chrome") || same_text(t, "google chrome") {
        String::from_str("chrome")
    } else if same_text(t, "code") || same_text(t, "vscode") || same_text(t, "vs code") {
        String::from_str("code")
    } else if same_text(t, "calc") || same_text(t, "calculator") {
        String::from_str("calculator")
    } else if same_text(t, "task manager") || same_text(t, "taskmgr") {
        String::from_str("taskmgr")
    } else if same_text(t, "cmd") || same_text(t, "command prompt") {
        String::from_str("cmd")
    } else {
        String::from_str(t)
    }
}

/// Resolves a user-typed process name to its canonical lowercase token.
pub fn resolve_process_name(input: &str) -> (r: String)
    ensures
        r@ == resolved(input@),
{
    let s = lowercase(trim(input));
    canonical_name(s.as_str())
}

} // verus!
