//! The consensus core of a distributed shell: it takes the captured output
//! of one command run on many hosts, normalises each host's stream,
//! merges the streams line by line into a view that collapses agreement
//! and details divergence, and drives the interactive two-level cursor
//! over that view.  Reading files, terminals and processes is left to the
//! binary built around this crate.

pub mod colors;
pub mod consensus;
pub mod hosts;
pub mod normalize;
pub mod render;
pub mod selection;
pub mod text;
pub mod tmux;
pub mod watch;

use vstd::prelude::*;

verus! {

/// Completion state of one host's remote command, as recorded in its
/// per-host status marker file.
#[derive(Clone, Copy, Debug, PartialEq, Eq, Structural)]
pub enum Status {
    Pending,
    Running,
    Success,
    Failed,
}

/// The status a marker file's text denotes: its trimmed content, with
/// anything unrecognised counting as pending.
pub open spec fn status_of_str(s: Seq<char>) -> Status {
    let t = crate::text::trim_spec(s);
    if t == "running"@ {
        Status::Running
    } else if t == "success"@ {
        Status::Success
    } else if t == "failed"@ {
        Status::Failed
    } else {
        Status::Pending
    }
}

impl Status {
    /// Parse a status marker file's content.
    pub fn from_str(s: &str) -> (r: Status)
        ensures
            r == status_of_str(s@),
    {
        let t = crate::text::trim(s);
        if crate::text::str_eq(t.as_str(), "running") {
            Status::Running
        } else if crate::text::str_eq(t.as_str(), "success") {
            Status::Success
        } else if crate::text::str_eq(t.as_str(), "failed") {
            Status::Failed
        } else {
            Status::Pending
        }
    }

    /// The marker text written for this status.
    pub fn as_str(&self) -> (r: &'static str)
        ensures
            self is Running ==> r@ == "running"@,
            self is Success ==> r@ == "success"@,
            self is Failed ==> r@ == "failed"@,
            self is Pending ==> r@ == "pending"@,
    {
        match self {
            Status::Running => "running",
            Status::Success => "success",
            Status::Failed => "failed",
            Status::Pending => "pending",
        }
    }
}

} // verus!
