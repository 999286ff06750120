//! Progress events that the install flow reports to the window.

use vstd::prelude::*;

verus! {

/// A progress event about an app.
pub struct Progress {
    pub app: String,
    /// download | install | done | error
    pub phase: String,
    pub message: String,
    /// -1 = indeterminate
    pub percent: i32,
}

/// An event about `name` in phase `phase`.
pub fn progress(name: &str, phase: &str, message: &str, percent: i32) -> (p: Progress)
    ensures
        p.app@ == name@,
        p.phase@ == phase@,
        p.message@ == message@,
        p.percent == percent,
{
    Progress {
        app: String::from_str(name),
        phase: String::from_str(phase),
        message: String::from_str(message),
        percent,
    }
}

/// The event that an install of `name` has started: no telling how far it is.
pub fn progress_installing(name: &str) -> (p: Progress)
    ensures
        p.app@ == name@,
        p.phase@ == "install"@,
        p.message@ == "Installazione…"@,
        p.percent == -1,
{
    progress(name, "install", "Installazione…", -1)
}

/// The event that the work on `name` is done.
pub fn progress_done(name: &str, msg: &str) -> (p: Progress)
    ensures
        p.app@ == name@,
        p.phase@ == "done"@,
        p.message@ == msg@,
        p.percent == 100,
{
    progress(name, "done", msg, 100)
}

/// The event that the work on `name` failed.
pub fn progress_error(name: &str, msg: &str) -> (p: Progress)
    ensures
        p.app@ == name@,
        p.phase@ == "error"@,
        p.message@ == msg@,
        p.percent == -1,
{
    progress(name, "error", msg, -1)
}

} // verus!
