//! Aggregate counts over a run of entries, and the addresses with too many
//! failed attempts.

use vstd::prelude::*;

use crate::entry::{entry_views, is_failed, is_sentinel_ip, is_success, sentinel_ip, status_failed,
    status_true, EntryView, LogEntry};
use crate::risk::{group_by_ip, ip_failed_count, ips_in_order, text_views};

verus! {

/// More failed attempts than this make an address suspicious.
pub const FAILED_ATTEMPTS_LIMIT: usize = 3;

/// Counts over a run of entries.
pub struct LogStats {
    pub total_logs: usize,
    pub successful_logins: usize,
    pub failed_logins: usize,
    /// The distinct addresses, `N/A` left out, in order of first appearance.
    pub unique_ips: Vec<String>,
}

/// Number of failed attempts in `v`.
pub open spec fn failed_total(v: Seq<EntryView>) -> nat
    decreases v.len(),
{
    if v.len() == 0 {
        0
    } else {
        failed_total(v.drop_last()) + if is_failed(v.last()) { 1nat } else { 0nat }
    }
}

/// Number of successful attempts in `v`.
pub open spec fn success_total(v: Seq<EntryView>) -> nat
    decreases v.len(),
{
    if v.len() == 0 {
        0
    } else {
        success_total(v.drop_last()) + if is_success(v.last()) { 1nat } else { 0nat }
    }
}

impl Default for LogStats {
    fn default() -> (r: LogStats)
        ensures
            r.total_logs == 0,
            r.successful_logins == 0,
            r.failed_logins == 0,
            r.unique_ips@.len() == 0,
    {
        LogStats { total_logs: 0, successful_logins: 0, failed_logins: 0, unique_ips: Vec::new() }
    }
}

/// The distinct addresses of `v` but the placeholder, in order of first appearance.
pub open spec fn unique_ips_of(v: Seq<EntryView>) -> Seq<Seq<char>> {
    ips_in_order(v).filter(|ip: Seq<char>| ip != sentinel_ip())
}

/// The addresses of `v`, the placeholder included, with more than three
/// failed attempts, in order of first appearance.
pub open spec fn suspicious_ips_of(v: Seq<EntryView>) -> Seq<Seq<char>> {
    ips_in_order(v).filter(|ip: Seq<char>| ip_failed_count(v, ip) > FAILED_ATTEMPTS_LIMIT)
}

/// Successful and failed attempts together never outnumber the entries.
pub proof fn lemma_totals_bounded(v: Seq<EntryView>)
    ensures
        success_total(v) + failed_total(v) <= v.len(),
    decreases v.len(),
{
    if v.len() > 0 {
        lemma_totals_bounded(v.drop_last());
    }
}

/// Counts the entries, the failed and the successful attempts, and collects
/// the distinct addresses. A status that mentions `False` counts as failed
/// whatever else it says; one that mentions `True` and not `False` as
/// successful; any other only toward the total.
pub fn analyze_logs(logs: &[LogEntry]) -> (r: LogStats)
    ensures
        r.total_logs == logs@.len(),
        r.failed_logins == failed_total(entry_views(logs@)),
        r.successful_logins == success_total(entry_views(logs@)),
        text_views(r.unique_ips@) == unique_ips_of(entry_views(logs@)),
{
    let ghost v = entry_views(logs@);
    let mut failed: usize = 0;
    let mut success: usize = 0;
    let mut i: usize = 0;
    while i < logs.len()
        invariant
            i <= logs.len(),
            v == entry_views(logs@),
            failed == failed_total(v.take(i as int)),
            success == success_total(v.take(i as int)),
        decreases logs.len() - i,
    {
        let ghost w = v.take(i as int);
        assert(v.take(i + 1).drop_last() =~= w);
        proof {
            lemma_totals_bounded(w);
        }
        if status_failed(&logs[i].status) {
            failed += 1;
        } else if status_true(&logs[i].status) {
            success += 1;
        }
        i += 1;
    }
    assert(v.take(logs.len() as int) =~= v);
    let (ips, _totals, _fails) = group_by_ip(logs);
    let ghost g = ips_in_order(v);
    let ghost keep = |ip: Seq<char>| ip != sentinel_ip();
    let mut unique: Vec<String> = Vec::new();
    let mut k: usize = 0;
    assert(g.take(0) =~= Seq::<Seq<char>>::empty());
    assert(text_views(unique@) =~= g.take(0).filter(keep));
    while k < ips.len()
        invariant
            k <= ips.len(),
            g == text_views(ips@),
            keep == (|ip: Seq<char>| ip != sentinel_ip()),
            text_views(unique@) == g.take(k as int).filter(keep),
        decreases ips.len() - k,
    {
        assert(g.take(k + 1) =~= g.take(k as int).push(g[k as int]));
        proof {
            g.take(k as int).lemma_filter_push(g[k as int], keep);
        }
        assert(ips@[k as int]@ == g[k as int]);
        if !is_sentinel_ip(&ips[k]) {
            let ghost before = unique@;
            unique.push(ips[k].clone());
            assert(keep(g[k as int]));
            assert(text_views(unique@) =~= text_views(before).push(g[k as int]));
        } else {
            assert(!keep(g[k as int]));
        }
        k += 1;
    }
    assert(g.take(ips.len() as int) =~= g);
    LogStats { total_logs: logs.len(), successful_logins: success, failed_logins: failed, unique_ips: unique }
}

/// The addresses, the placeholder `N/A` included, with more than three
/// failed attempts, each once, in order of first appearance.
pub fn detect_suspicious_ips(logs: &[LogEntry]) -> (r: Vec<String>)
    ensures
        text_views(r@) == suspicious_ips_of(entry_views(logs@)),
{
    let ghost v = entry_views(logs@);
    let (ips, _totals, fails) = group_by_ip(logs);
    let ghost g = ips_in_order(v);
    let ghost keep = |ip: Seq<char>| ip_failed_count(v, ip) > FAILED_ATTEMPTS_LIMIT;
    let mut out: Vec<String> = Vec::new();
    let mut k: usize = 0;
    assert(g.take(0) =~= Seq::<Seq<char>>::empty());
    assert(text_views(out@) =~= g.take(0).filter(keep));
    while k < ips.len()
        invariant
            k <= ips.len(),
            g == text_views(ips@),
            fails.len() == ips.len(),
            forall|j: int| 0 <= j < ips.len() ==> fails@[j] == ip_failed_count(v, #[trigger] ips@[j]@),
            keep == (|ip: Seq<char>| ip_failed_count(v, ip) > FAILED_ATTEMPTS_LIMIT),
            text_views(out@) == g.take(k as int).filter(keep),
        decreases ips.len() - k,
    {
        assert(g.take(k + 1) =~= g.take(k as int).push(g[k as int]));
        proof {
            g.take(k as int).lemma_filter_push(g[k as int], keep);
        }
        assert(ips@[k as int]@ == g[k as int]);
        if fails[k] > FAILED_ATTEMPTS_LIMIT {
            let ghost before = out@;
            out.push(ips[k].clone());
            assert(keep(g[k as int]));
            assert(text_views(out@) =~= text_views(before).push(g[k as int]));
        } else {
            assert(!keep(g[k as int]));
        }
        k += 1;
    }
    assert(g.take(ips.len() as int) =~= g);
    out
}

} // verus!
