//! Per-address risk ranking: the share of failed attempts, weighted 7 to 3
//! against how busy the address is next to the others, as exact fractions.

use vstd::prelude::*;

use std::cmp::Ordering;

use crate::entry::{entry_views, is_failed, status_failed, EntryView, LogEntry};
use crate::order::{cmp_frac, lemma_frac_le_trans, lemma_text_less_total,
    lemma_text_less_trans, text_less, text_less_exec};

verus! {

/// Number of entries of `v` from address `ip`.
pub open spec fn ip_count(v: Seq<EntryView>, ip: Seq<char>) -> nat
    decreases v.len(),
{
    if v.len() == 0 {
        0
    } else {
        ip_count(v.drop_last(), ip) + if v.last().ip == ip { 1nat } else { 0nat }
    }
}

/// Number of failed attempts in `v` from address `ip`.
pub open spec fn ip_failed_count(v: Seq<EntryView>, ip: Seq<char>) -> nat
    decreases v.len(),
{
    if v.len() == 0 {
        0
    } else {
        ip_failed_count(v.drop_last(), ip) + if v.last().ip == ip && is_failed(v.last()) {
            1nat
        } else {
            0nat
        }
    }
}

/// The distinct addresses of `v`, the placeholder included, in order of
/// first appearance.
pub open spec fn ips_in_order(v: Seq<EntryView>) -> Seq<Seq<char>>
    decreases v.len(),
{
    if v.len() == 0 {
        seq![]
    } else {
        let earlier = ips_in_order(v.drop_last());
        if earlier.contains(v.last().ip) {
            earlier
        } else {
            earlier.push(v.last().ip)
        }
    }
}

/// An address has no more failed attempts than entries, and no more entries
/// than there are in all.
pub proof fn lemma_count_bounds(v: Seq<EntryView>, ip: Seq<char>)
    ensures
        ip_failed_count(v, ip) <= ip_count(v, ip) <= v.len(),
    decreases v.len(),
{
    if v.len() > 0 {
        lemma_count_bounds(v.drop_last(), ip);
    }
}

/// The distinct addresses are distinct, and each has at least one entry.
pub proof fn lemma_ips_in_order_facts(v: Seq<EntryView>)
    ensures
        ips_in_order(v).no_duplicates(),
        forall|k: int| 0 <= k < ips_in_order(v).len() ==> ip_count(v, #[trigger] ips_in_order(v)[k]) > 0,
    decreases v.len(),
{
    if v.len() > 0 {
        let w = v.drop_last();
        lemma_ips_in_order_facts(w);
        assert forall|k: int| 0 <= k < ips_in_order(v).len() implies ip_count(v, #[trigger] ips_in_order(v)[k]) > 0 by {
            if k < ips_in_order(w).len() {
                assert(ip_count(w, ips_in_order(w)[k]) > 0);
            }
        }
    }
}

/// Position of `ip` in `ips`, if it is there.
fn find_ip(ips: &Vec<String>, ip: &String) -> (r: Option<usize>)
    ensures
        r matches Some(p) ==> p < ips.len() && ips@[p as int]@ == ip@,
        r is None ==> forall|k: int| 0 <= k < ips.len() ==> ips@[k]@ != ip@,
{
    let mut k: usize = 0;
    while k < ips.len()
        invariant
            k <= ips.len(),
            forall|j: int| 0 <= j < k ==> ips@[j]@ != ip@,
        decreases ips.len() - k,
    {
        if ips[k] == *ip {
            return Some(k);
        }
        k += 1;
    }
    None
}

/// The views of a run of strings.
pub open spec fn text_views(s: Seq<String>) -> Seq<Seq<char>> {
    s.map_values(|t: String| t@)
}

/// The distinct addresses of `logs` in order of first appearance, with the
/// number of entries and of failed attempts of each.
pub(crate) fn group_by_ip(logs: &[LogEntry]) -> (r: (Vec<String>, Vec<usize>, Vec<usize>))
    ensures
        text_views(r.0@) == ips_in_order(entry_views(logs@)),
        r.1.len() == r.0.len(),
        r.2.len() == r.0.len(),
        forall|k: int| 0 <= k < r.0.len() ==> r.1@[k] == ip_count(entry_views(logs@), #[trigger] r.0@[k]@),
        forall|k: int| 0 <= k < r.0.len() ==> r.2@[k] == ip_failed_count(entry_views(logs@), #[trigger] r.0@[k]@),
{
    let ghost v = entry_views(logs@);
    let mut ips: Vec<String> = Vec::new();
    let mut totals: Vec<usize> = Vec::new();
    let mut fails: Vec<usize> = Vec::new();
    let mut i: usize = 0;
    assert(v.take(0) =~= Seq::<EntryView>::empty());
    assert(text_views(ips@) =~= Seq::<Seq<char>>::empty());
    while i < logs.len()
        invariant
            i <= logs.len(),
            v == entry_views(logs@),
            text_views(ips@) == ips_in_order(v.take(i as int)),
            totals.len() == ips.len(),
            fails.len() == ips.len(),
            forall|k: int| 0 <= k < ips.len() ==> totals@[k] == ip_count(v.take(i as int), #[trigger] ips@[k]@),
            forall|k: int| 0 <= k < ips.len() ==> fails@[k] == ip_failed_count(v.take(i as int), #[trigger] ips@[k]@),
        decreases logs.len() - i,
    {
        let e = &logs[i];
        let failed = status_failed(&e.status);
        let ghost w = v.take(i as int);
        let ghost w2 = v.take(i + 1);
        assert(w2.drop_last() =~= w);
        assert(w2.last() == e@);
        proof {
            lemma_count_bounds(w, e.ip@);
            lemma_ips_in_order_facts(w);
        }
        let ghost old_totals = totals@;
        let ghost old_fails = fails@;
        let ghost old_ips = ips@;
        match find_ip(&ips, &e.ip) {
            Some(p) => {
                assert(text_views(ips@)[p as int] == e.ip@);
                assert(ips_in_order(w).contains(e.ip@));
                let t = totals[p] + 1;
                totals.set(p, t);
                if failed {
                    let f = fails[p] + 1;
                    fails.set(p, f);
                }
                assert forall|k: int| 0 <= k < ips.len() implies totals@[k] == ip_count(w2, #[trigger] ips@[k]@)
                    && fails@[k] == ip_failed_count(w2, ips@[k]@) by {
                    if k != p {
                        assert(text_views(old_ips)[k] != text_views(old_ips)[p as int]);
                    }
                }
            },
            None => {
                assert(!ips_in_order(w).contains(e.ip@)) by {
                    if ips_in_order(w).contains(e.ip@) {
                        let k = choose|k: int| 0 <= k < ips_in_order(w).len() && ips_in_order(w)[k] == e.ip@;
                        assert(ips@[k]@ == e.ip@);
                    }
                }
                ips.push(e.ip.clone());
                totals.push(1);
                fails.push(if failed { 1 } else { 0 });
                assert(text_views(ips@) =~= ips_in_order(w).push(e.ip@));
                assert(ip_count(w, e.ip@) == 0 && ip_failed_count(w, e.ip@) == 0) by {
                    lemma_absent_counts(w, e.ip@);
                }
                assert forall|k: int| 0 <= k < ips.len() implies totals@[k] == ip_count(w2, #[trigger] ips@[k]@)
                    && fails@[k] == ip_failed_count(w2, ips@[k]@) by {
                    if k < old_ips.len() {
                        assert(text_views(old_ips)[k] != e.ip@);
                    }
                }
            },
        }
        i += 1;
    }
    assert(v.take(logs.len() as int) =~= v);
    (ips, totals, fails)
}

/// An address that never appears has no entries and no failed attempts.
pub proof fn lemma_absent_counts(v: Seq<EntryView>, ip: Seq<char>)
    requires
        !ips_in_order(v).contains(ip),
    ensures
        ip_count(v, ip) == 0,
        ip_failed_count(v, ip) == 0,
    decreases v.len(),
{
    if v.len() > 0 {
        let w = v.drop_last();
        if ips_in_order(w).contains(ip) {
            let k = choose|k: int| 0 <= k < ips_in_order(w).len() && ips_in_order(w)[k] == ip;
            assert(ips_in_order(v)[k] == ip);
        }
        lemma_absent_counts(w, ip);
        if v.last().ip == ip && !ips_in_order(w).contains(ip) {
            assert(ips_in_order(v).last() == ip);
        }
    }
}

/// Bound on the number of entries that the ranking takes; it keeps every
/// product of counts within 128 bits. No slice of entries, each holding four
/// strings, comes near it.
pub const MAX_ENTRIES: u64 = 0x1000_0000_0000_0000;

/// Smallest entry count among the addresses `ips` (0 where there are none).
pub open spec fn least_count(v: Seq<EntryView>, ips: Seq<Seq<char>>) -> int
    decreases ips.len(),
{
    if ips.len() == 0 {
        0
    } else if ips.len() == 1 {
        ip_count(v, ips[0]) as int
    } else {
        let rest = least_count(v, ips.drop_last());
        let c = ip_count(v, ips.last()) as int;
        if c < rest { c } else { rest }
    }
}

/// Largest entry count among the addresses `ips` (0 where there are none).
pub open spec fn greatest_count(v: Seq<EntryView>, ips: Seq<Seq<char>>) -> int
    decreases ips.len(),
{
    if ips.len() == 0 {
        0
    } else if ips.len() == 1 {
        ip_count(v, ips[0]) as int
    } else {
        let rest = greatest_count(v, ips.drop_last());
        let c = ip_count(v, ips.last()) as int;
        if c > rest { c } else { rest }
    }
}

/// Every count lies between the smallest and the largest.
pub proof fn lemma_extrema(v: Seq<EntryView>, ips: Seq<Seq<char>>)
    ensures
        forall|k: int| 0 <= k < ips.len() ==>
            least_count(v, ips) <= ip_count(v, #[trigger] ips[k]) <= greatest_count(v, ips),
    decreases ips.len(),
{
    if ips.len() > 1 {
        lemma_extrema(v, ips.drop_last());
        assert forall|k: int| 0 <= k < ips.len() implies
            least_count(v, ips) <= ip_count(v, #[trigger] ips[k]) <= greatest_count(v, ips) by {
            if k < ips.len() - 1 {
                assert(ips[k] == ips.drop_last()[k]);
            }
        }
    }
}

/// The risk of an address with `total` entries, `failed` of them failed,
/// when the busiest address has `hi` entries and the quietest `lo`, as
/// numerator and denominator: 0.7 times the failed share plus 0.3 times
/// `(total - lo) / (hi - lo)`, the second term being 0 where `hi == lo`.
pub open spec fn risk_fraction(total: int, failed: int, lo: int, hi: int) -> (int, int) {
    if hi == lo {
        (7 * failed, 10 * total)
    } else {
        (7 * failed * (hi - lo) + 3 * total * (total - lo), 10 * total * (hi - lo))
    }
}

/// The risk of one address: `score_num / score_den`, a value in `[0, 1]`.
#[derive(Debug, Clone)]
pub struct RiskScore {
    pub ip: String,
    /// Entries from this address.
    pub total: usize,
    /// Failed attempts from this address.
    pub failed: usize,
    pub score_num: u128,
    pub score_den: u128,
}

pub struct RiskView {
    pub ip: Seq<char>,
    pub total: int,
    pub failed: int,
    pub num: int,
    pub den: int,
}

impl View for RiskScore {
    type V = RiskView;

    open spec fn view(&self) -> RiskView {
        RiskView {
            ip: self.ip@,
            total: self.total as int,
            failed: self.failed as int,
            num: self.score_num as int,
            den: self.score_den as int,
        }
    }
}

/// The views of a run of scores.
pub open spec fn risk_views(r: Seq<RiskScore>) -> Seq<RiskView> {
    r.map_values(|x: RiskScore| x@)
}

/// `a` comes first in the ranking: a higher score, or the same score and an
/// address that sorts first.
pub open spec fn ranks_before(a: RiskView, b: RiskView) -> bool {
    a.num * b.den > b.num * a.den || (a.num * b.den == b.num * a.den && text_less(a.ip, b.ip))
}

/// `x` is the score of one of the addresses of `v`, with its counts.
pub open spec fn scored_in(v: Seq<EntryView>, x: RiskView) -> bool {
    let ips = ips_in_order(v);
    &&& ips.contains(x.ip)
    &&& x.total == ip_count(v, x.ip)
    &&& x.failed == ip_failed_count(v, x.ip)
    &&& (x.num, x.den) == risk_fraction(x.total, x.failed, least_count(v, ips), greatest_count(v, ips))
}

/// `r` holds the score of every address of `v` once, highest first, equal
/// scores by address.
pub open spec fn is_ranking(v: Seq<EntryView>, r: Seq<RiskView>) -> bool {
    &&& r.len() == ips_in_order(v).len()
    &&& forall|k: int| 0 <= k < r.len() ==> scored_in(v, #[trigger] r[k])
    &&& forall|ip: Seq<char>| ips_in_order(v).contains(ip) ==> exists|k: int| 0 <= k < r.len() && (#[trigger] r[k]).ip == ip
    &&& forall|i: int, j: int| 0 <= i < j < r.len() ==> ranks_before(#[trigger] r[i], #[trigger] r[j])
}

/// The ranking order is asymmetric, and total on distinct addresses.
pub proof fn lemma_ranks_total(a: RiskView, b: RiskView)
    requires
        a.den > 0,
        b.den > 0,
    ensures
        !(ranks_before(a, b) && ranks_before(b, a)),
        a.ip != b.ip ==> ranks_before(a, b) || ranks_before(b, a),
{
    lemma_text_less_total(a.ip, b.ip);
    assert(a.num * b.den == b.den * a.num && b.num * a.den == a.den * b.num) by (nonlinear_arith);
}

/// The ranking order is transitive.
pub proof fn lemma_ranks_trans(a: RiskView, b: RiskView, c: RiskView)
    requires
        a.den > 0,
        b.den > 0,
        c.den > 0,
        ranks_before(a, b),
        ranks_before(b, c),
    ensures
        ranks_before(a, c),
{
    lemma_frac_le_trans(c.num, c.den, b.num, b.den, a.num, a.den);
    if a.num * b.den == b.num * a.den && b.num * c.den == c.num * b.den {
        lemma_text_less_trans(a.ip, b.ip, c.ip);
    }
}

/// Whether `a` comes before `b` in the ranking.
fn ranks_before_exec(a: &RiskScore, b: &RiskScore) -> (r: bool)
    requires
        a.score_den > 0,
        b.score_den > 0,
    ensures
        r == ranks_before(a@, b@),
{
    match cmp_frac(a.score_num, a.score_den, b.score_num, b.score_den) {
        Ordering::Greater => true,
        Ordering::Less => false,
        Ordering::Equal => text_less_exec(&a.ip, &b.ip),
    }
}

/// Where every count is positive, so is the smallest.
pub proof fn lemma_least_positive(v: Seq<EntryView>, ips: Seq<Seq<char>>)
    requires
        ips.len() > 0,
        forall|k: int| 0 <= k < ips.len() ==> ip_count(v, #[trigger] ips[k]) > 0,
    ensures
        least_count(v, ips) > 0,
    decreases ips.len(),
{
    if ips.len() > 1 {
        assert(ips.drop_last()[0] == ips[0]);
        assert forall|k: int| 0 <= k < ips.len() - 1 implies ip_count(v, #[trigger] ips.drop_last()[k]) > 0 by {
            assert(ips.drop_last()[k] == ips[k]);
        }
        lemma_least_positive(v, ips.drop_last());
        assert(ip_count(v, ips[ips.len() - 1]) > 0);
    }
}

/// Exact risk of an address with `total` entries, `failed` of them failed,
/// where address totals range over `[lo, hi]`.
fn score_of(total: usize, failed: usize, lo: usize, hi: usize) -> (r: (u128, u128))
    requires
        failed <= total,
        1 <= lo <= total <= hi < MAX_ENTRIES,
    ensures
        (r.0 as int, r.1 as int) == risk_fraction(total as int, failed as int, lo as int, hi as int),
        r.1 > 0,
{
    let t = total as u128;
    let f = failed as u128;
    if hi == lo {
        (7 * f, 10 * t)
    } else {
        let d = (hi - lo) as u128;
        let a = t - lo as u128;
        assert(f * d <= 0x1000_0000_0000_0000 * 0x1000_0000_0000_0000) by (nonlinear_arith)
            requires f < 0x1000_0000_0000_0000, d < 0x1000_0000_0000_0000;
        assert(t * a <= 0x1000_0000_0000_0000 * 0x1000_0000_0000_0000) by (nonlinear_arith)
            requires t < 0x1000_0000_0000_0000, a < 0x1000_0000_0000_0000;
        assert(t * d <= 0x1000_0000_0000_0000 * 0x1000_0000_0000_0000) by (nonlinear_arith)
            requires t < 0x1000_0000_0000_0000, d < 0x1000_0000_0000_0000;
        assert(t * d > 0) by (nonlinear_arith)
            requires t >= 1, d >= 1;
        let fd = f * d;
        let ta = t * a;
        let td = t * d;
        assert(7 * fd == 7 * f * d && 3 * ta == 3 * t * a && 10 * td == 10 * t * d) by (nonlinear_arith)
            requires fd == f * d, ta == t * a, td == t * d;
        (7 * fd + 3 * ta, 10 * td)
    }
}

/// Smallest and largest of the entry counts `totals` of the addresses `ips`.
fn count_extrema(totals: &Vec<usize>, Ghost(v): Ghost<Seq<EntryView>>, Ghost(g): Ghost<Seq<Seq<char>>>) -> (r: (usize, usize))
    requires
        totals.len() == g.len(),
        g.len() > 0,
        forall|j: int| 0 <= j < g.len() ==> totals@[j] == ip_count(v, #[trigger] g[j]),
    ensures
        r.0 == least_count(v, g),
        r.1 == greatest_count(v, g),
{
    let mut lo: usize = totals[0];
    let mut hi: usize = totals[0];
    let mut k: usize = 1;
    assert(g.take(1).drop_last() =~= Seq::<Seq<char>>::empty());
    while k < totals.len()
        invariant
            1 <= k <= totals.len(),
            totals.len() == g.len(),
            forall|j: int| 0 <= j < g.len() ==> totals@[j] == ip_count(v, #[trigger] g[j]),
            lo == least_count(v, g.take(k as int)),
            hi == greatest_count(v, g.take(k as int)),
        decreases totals.len() - k,
    {
        assert(g.take(k + 1).drop_last() =~= g.take(k as int));
        assert(g.take(k + 1).last() == g[k as int]);
        if totals[k] < lo {
            lo = totals[k];
        }
        if totals[k] > hi {
            hi = totals[k];
        }
        k += 1;
    }
    assert(g.take(totals.len() as int) =~= g);
    (lo, hi)
}

/// Puts `x` into the ranking `ranked` at the place where it belongs.
fn insert_ranked(ranked: &mut Vec<RiskScore>, x: RiskScore)
    requires
        x.score_den > 0,
        forall|j: int| 0 <= j < old(ranked).len() ==> (#[trigger] old(ranked)@[j]).score_den > 0,
        forall|j: int| 0 <= j < old(ranked).len() ==> (#[trigger] old(ranked)@[j]@).ip != x@.ip,
        forall|i: int, j: int| 0 <= i < j < old(ranked).len() ==>
            ranks_before(#[trigger] old(ranked)@[i]@, #[trigger] old(ranked)@[j]@),
    ensures
        exists|p: int| 0 <= p <= old(ranked).len() && final(ranked)@ == old(ranked)@.insert(p, x),
        forall|i: int, j: int| 0 <= i < j < final(ranked).len() ==>
            ranks_before(#[trigger] final(ranked)@[i]@, #[trigger] final(ranked)@[j]@),
{
    let mut p: usize = 0;
    while p < ranked.len() && !ranks_before_exec(&x, &ranked[p])
        invariant
            p <= ranked.len(),
            x.score_den > 0,
            forall|j: int| 0 <= j < ranked.len() ==> (#[trigger] ranked@[j]).score_den > 0,
            forall|j: int| 0 <= j < p ==> !ranks_before(x@, #[trigger] ranked@[j]@),
        decreases ranked.len() - p,
    {
        p += 1;
    }
    let ghost before = ranked@;
    assert forall|j: int| 0 <= j < p implies ranks_before(#[trigger] before[j]@, x@) by {
        lemma_ranks_total(before[j]@, x@);
    }
    assert forall|j: int| p <= j < before.len() implies ranks_before(x@, #[trigger] before[j]@) by {
        if j > p {
            lemma_ranks_trans(x@, before[p as int]@, before[j]@);
        }
    }
    ranked.insert(p, x);
    proof {
        before.insert_ensures(p as int, x);
    }
    assert forall|i: int, j: int| 0 <= i < j < ranked.len() implies
        ranks_before(#[trigger] ranked@[i]@, #[trigger] ranked@[j]@) by {
        if j < p {
        } else if j == p {
        } else if i < p {
            lemma_ranks_trans(before[i]@, x@, before[j - 1]@);
        } else if i == p {
        } else {
        }
    }
}

/// No count exceeds the number of entries.
pub proof fn lemma_greatest_bounded(v: Seq<EntryView>, ips: Seq<Seq<char>>)
    ensures
        greatest_count(v, ips) <= v.len(),
    decreases ips.len(),
{
    if ips.len() > 0 {
        lemma_count_bounds(v, ips.last());
        lemma_count_bounds(v, ips[0]);
        lemma_greatest_bounded(v, ips.drop_last());
    }
}

/// `r` ranks the first `k` addresses of `v`.
spec fn ranks_prefix(v: Seq<EntryView>, r: Seq<RiskScore>, k: int) -> bool {
    let g = ips_in_order(v);
    &&& r.len() == k
    &&& forall|j: int| 0 <= j < r.len() ==> scored_in(v, #[trigger] r[j]@) && r[j].score_den > 0
    &&& forall|j: int| 0 <= j < r.len() ==> exists|m: int| 0 <= m < k && (#[trigger] r[j]@).ip == g[m]
    &&& forall|m: int| #![trigger g[m]] 0 <= m < k ==> exists|j: int| 0 <= j < r.len() && (#[trigger] r[j]@).ip == g[m]
    &&& forall|i: int, j: int| 0 <= i < j < r.len() ==> ranks_before(#[trigger] r[i]@, #[trigger] r[j]@)
}

/// Adds the score `x` of the next address to a ranking of the addresses before it.
fn add_score(ranked: &mut Vec<RiskScore>, x: RiskScore, Ghost(v): Ghost<Seq<EntryView>>, Ghost(k): Ghost<int>)
    requires
        ranks_prefix(v, old(ranked)@, k),
        0 <= k < ips_in_order(v).len(),
        ips_in_order(v).no_duplicates(),
        scored_in(v, x@),
        x.score_den > 0,
        x@.ip == ips_in_order(v)[k],
    ensures
        ranks_prefix(v, final(ranked)@, k + 1),
{
    let ghost g = ips_in_order(v);
    let ghost before = ranked@;
    assert forall|j: int| 0 <= j < before.len() implies (#[trigger] before[j]@).ip != x@.ip by {
        let m = choose|m: int| 0 <= m < k && before[j]@.ip == g[m];
        assert(g[m] != g[k]);
    }
    assert forall|j: int| 0 <= j < before.len() implies (#[trigger] before[j]).score_den > 0 by {
        assert(scored_in(v, before[j]@) && before[j].score_den > 0);
    }
    insert_ranked(ranked, x);
    let ghost p = choose|p: int| 0 <= p <= before.len() && ranked@ == before.insert(p, x);
    proof {
        before.insert_ensures(p, x);
    }
    assert forall|j: int| 0 <= j < ranked.len() implies
        exists|m: int| 0 <= m < k + 1 && (#[trigger] ranked@[j]@).ip == g[m] by {
        if j < p {
            let m = choose|m: int| 0 <= m < k && before[j]@.ip == g[m];
        } else if j == p {
        } else {
            let m = choose|m: int| 0 <= m < k && before[j - 1]@.ip == g[m];
        }
    }
    assert forall|m: int| #![trigger g[m]] 0 <= m < k + 1 implies
        exists|j: int| 0 <= j < ranked.len() && (#[trigger] ranked@[j]@).ip == g[m] by {
        if m == k {
            assert(ranked@[p]@.ip == g[m]);
        } else {
            let j = choose|j: int| 0 <= j < before.len() && before[j]@.ip == g[m];
            if j < p {
                assert(ranked@[j]@.ip == g[m]);
            } else {
                assert(ranked@[j + 1]@.ip == g[m]);
            }
        }
    }
    assert forall|j: int| 0 <= j < ranked.len() implies scored_in(v, #[trigger] ranked@[j]@)
        && ranked@[j].score_den > 0 by {
        if j < p {
            assert(ranked@[j] == before[j]);
        } else if j > p {
            assert(ranked@[j] == before[j - 1]);
        }
    }
}

/// Ranks the addresses of `logs` by risk, highest first; equal scores are
/// ordered by address. Each address, the placeholder `N/A` included, gets
/// one score; no entries give an empty ranking.
pub fn calculate_risk_scores(logs: &[LogEntry]) -> (r: Vec<RiskScore>)
    requires
        logs@.len() < MAX_ENTRIES,
    ensures
        is_ranking(entry_views(logs@), risk_views(r@)),
{
    let ghost v = entry_views(logs@);
    let (ips, totals, fails) = group_by_ip(logs);
    let ghost g = ips_in_order(v);
    proof {
        lemma_ips_in_order_facts(v);
        lemma_extrema(v, g);
        lemma_greatest_bounded(v, g);
    }
    let mut ranked: Vec<RiskScore> = Vec::new();
    if ips.len() == 0 {
        return ranked;
    }
    assert forall|j: int| 0 <= j < g.len() implies totals@[j] == ip_count(v, #[trigger] g[j]) by {
        assert(ips@[j]@ == g[j]);
    }
    let (lo, hi) = count_extrema(&totals, Ghost(v), Ghost(g));
    proof {
        lemma_least_positive(v, g);
    }
    let mut k: usize = 0;
    while k < ips.len()
        invariant
            k <= ips.len(),
            ips.len() == g.len(),
            totals.len() == ips.len(),
            fails.len() == ips.len(),
            g == text_views(ips@),
            g == ips_in_order(v),
            g.no_duplicates(),
            v == entry_views(logs@),
            forall|j: int| 0 <= j < ips.len() ==> totals@[j] == ip_count(v, #[trigger] ips@[j]@),
            forall|j: int| 0 <= j < ips.len() ==> fails@[j] == ip_failed_count(v, #[trigger] ips@[j]@),
            forall|j: int| 0 <= j < g.len() ==>
                least_count(v, g) <= ip_count(v, #[trigger] g[j]) <= greatest_count(v, g),
            lo == least_count(v, g),
            hi == greatest_count(v, g),
            1 <= lo,
            hi <= v.len() < MAX_ENTRIES,
            ranks_prefix(v, ranked@, k as int),
        decreases ips.len() - k,
    {
        let ghost gk = g[k as int];
        proof {
            lemma_count_bounds(v, gk);
        }
        assert(ips@[k as int]@ == gk);
        assert(least_count(v, g) <= ip_count(v, gk) <= greatest_count(v, g));
        let (num, den) = score_of(totals[k], fails[k], lo, hi);
        let x = RiskScore { ip: ips[k].clone(), total: totals[k], failed: fails[k], score_num: num, score_den: den };
        assert(scored_in(v, x@));
        add_score(&mut ranked, x, Ghost(v), Ghost(k as int));
        k += 1;
    }
    let ghost rv = risk_views(ranked@);
    assert forall|j: int| 0 <= j < rv.len() implies scored_in(v, #[trigger] rv[j]) by {
        assert(rv[j] == ranked@[j]@);
    }
    assert forall|i: int, j: int| 0 <= i < j < rv.len() implies ranks_before(#[trigger] rv[i], #[trigger] rv[j]) by {
        assert(rv[i] == ranked@[i]@ && rv[j] == ranked@[j]@);
    }
    assert forall|ip: Seq<char>| g.contains(ip) implies
        exists|j: int| 0 <= j < rv.len() && (#[trigger] rv[j]).ip == ip by {
        let m = choose|m: int| 0 <= m < g.len() && g[m] == ip;
        let j = choose|j: int| 0 <= j < ranked.len() && (#[trigger] ranked@[j]@).ip == g[m];
        assert(rv[j].ip == ip);
    }
    ranked
}

} // verus!
