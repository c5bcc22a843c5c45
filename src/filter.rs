//! Narrowing a run of entries down to those that an address and a status
//! filter select; the status is compared without regard to case.

use vstd::prelude::*;

use crate::entry::{entry_views, EntryView, LogEntry};
use crate::text::{contains_text, has_sub};

verus! {

/// What `str::to_lowercase` makes of a string.
pub uninterp spec fn lower_of(s: Seq<char>) -> Seq<char>;

/// Relies on `str::to_lowercase`: the lowercase mapping of each character,
/// which depends on the characters alone; nothing stays nothing.
#[verifier::external_body]
fn lowercase(s: &str) -> (r: String)
    ensures
        r@ == lower_of(s@),
        s@.len() == 0 ==> r@.len() == 0,
{
    s.to_lowercase()
}

/// `e` passes the filters: an empty address filter passes every entry, another
/// one those whose address holds it; an empty status filter passes every
/// entry, another one those whose lowered status holds the lowered filter.
/// `status_lower` is the lowered status of `e`, `filter_lower` the lowered
/// status filter.
pub open spec fn passes(e: EntryView, ip_filter: Seq<char>, status_filter: Seq<char>, status_lower: Seq<char>,
    filter_lower: Seq<char>) -> bool {
    &&& ip_filter.len() == 0 || has_sub(e.ip, ip_filter)
    &&& status_filter.len() == 0 || has_sub(status_lower, filter_lower)
}

/// Whether an entry passes the filters, given the lowered forms of its
/// status and of the status filter.
pub fn passes_filter(entry: &LogEntry, ip_filter: &str, status_filter: &str, status_lower: &str,
    filter_lower: &str) -> (r: bool)
    ensures
        r == passes(entry@, ip_filter@, status_filter@, status_lower@, filter_lower@),
{
    let ip_ok = ip_filter.is_empty() || contains_text(entry.ip.as_str(), ip_filter);
    ip_ok && (status_filter.is_empty() || contains_text(status_lower, filter_lower))
}

/// A copy of `e`.
pub fn copy_entry(e: &LogEntry) -> (r: LogEntry)
    ensures
        r@ == e@,
{
    LogEntry {
        timestamp: e.timestamp.clone(),
        status: e.status.clone(),
        message: e.message.clone(),
        ip: e.ip.clone(),
    }
}

/// `e` passes the filters, its status and the status filter lowered.
pub open spec fn selected(e: EntryView, ip_filter: Seq<char>, status_filter: Seq<char>) -> bool {
    passes(e, ip_filter, status_filter, lower_of(e.status), lower_of(status_filter))
}

/// The entries of `logs` that pass the filters, in their order.
pub fn filter_logs(logs: &[LogEntry], ip_filter: &str, status_filter: &str) -> (r: Vec<LogEntry>)
    ensures
        entry_views(r@) == entry_views(logs@).filter(|e: EntryView| selected(e, ip_filter@, status_filter@)),
{
    let ghost v = entry_views(logs@);
    let ghost keep = |e: EntryView| selected(e, ip_filter@, status_filter@);
    let filter_lower = lowercase(status_filter);
    let mut out: Vec<LogEntry> = Vec::new();
    let mut i: usize = 0;
    assert(v.take(0) =~= Seq::<EntryView>::empty());
    assert(entry_views(out@) =~= v.take(0).filter(keep));
    while i < logs.len()
        invariant
            i <= logs.len(),
            v == entry_views(logs@),
            filter_lower@ == lower_of(status_filter@),
            keep == (|e: EntryView| selected(e, ip_filter@, status_filter@)),
            entry_views(out@) == v.take(i as int).filter(keep),
        decreases logs.len() - i,
    {
        assert(v.take(i + 1) =~= v.take(i as int).push(v[i as int]));
        proof {
            v.take(i as int).lemma_filter_push(v[i as int], keep);
        }
        let status_lower = lowercase(logs[i].status.as_str());
        if passes_filter(&logs[i], ip_filter, status_filter, status_lower.as_str(), filter_lower.as_str()) {
            let ghost before = out@;
            out.push(copy_entry(&logs[i]));
            assert(keep(v[i as int]));
            assert(entry_views(out@) =~= entry_views(before).push(v[i as int]));
        } else {
            assert(!keep(v[i as int]));
        }
        i += 1;
    }
    assert(v.take(logs.len() as int) =~= v);
    out
}

} // verus!
