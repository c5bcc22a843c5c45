//! The record produced for each matched log line, and how its status is read.

use vstd::prelude::*;

use crate::text::{contains_text, has_sub};

verus! {

/// One matched log line.
#[derive(Debug, Clone)]
pub struct LogEntry {
    /// Time of day, `HH:MM:SS`.
    pub timestamp: String,
    /// `Status:<raw status>`.
    pub status: String,
    /// `User:<user> - Messages:<message>`.
    pub message: String,
    /// Dotted-quad client address, or `N/A` where the line carries none.
    pub ip: String,
}

/// The characters of each field of a [`LogEntry`].
pub struct EntryView {
    pub timestamp: Seq<char>,
    pub status: Seq<char>,
    pub message: Seq<char>,
    pub ip: Seq<char>,
}

impl View for LogEntry {
    type V = EntryView;

    open spec fn view(&self) -> EntryView {
        EntryView {
            timestamp: self.timestamp@,
            status: self.status@,
            message: self.message@,
            ip: self.ip@,
        }
    }
}

/// The views of a run of entries.
pub open spec fn entry_views(logs: Seq<LogEntry>) -> Seq<EntryView> {
    logs.map_values(|e: LogEntry| e@)
}

/// The address that stands for "no address known".
pub open spec fn sentinel_ip() -> Seq<char> {
    "N/A"@
}

/// A failed attempt: the status mentions `False`.
pub open spec fn is_failed(e: EntryView) -> bool {
    has_sub(e.status, "False"@)
}

/// A successful attempt: the status mentions `True` and not `False`.
pub open spec fn is_success(e: EntryView) -> bool {
    !is_failed(e) && has_sub(e.status, "True"@)
}

/// Whether `status` marks a failed attempt.
pub fn status_failed(status: &String) -> (r: bool)
    ensures
        r == has_sub(status@, "False"@),
{
    contains_text(status.as_str(), "False")
}

/// Whether `status` mentions a successful attempt (it may mention a failure too).
pub fn status_true(status: &String) -> (r: bool)
    ensures
        r == has_sub(status@, "True"@),
{
    contains_text(status.as_str(), "True")
}

/// Whether `ip` is the placeholder for a missing address.
pub fn is_sentinel_ip(ip: &String) -> (r: bool)
    ensures
        r == (ip@ == sentinel_ip()),
{
    let s = String::from_str("N/A");
    *ip == s
}

} // verus!
