//! Laws that tie the parser, the counts and the ranking together.

use vstd::prelude::*;

use crate::entry::{sentinel_ip, EntryView};
use crate::grammar::{entries_scan, line_entries, line_entry, log_entries};
use crate::risk::{greatest_count, ip_count, ip_failed_count, ips_in_order, is_ranking, lemma_absent_counts,
    lemma_count_bounds, lemma_extrema, lemma_ips_in_order_facts, lemma_ranks_total, least_count, ranks_before,
    scored_in, RiskView};
use crate::stats::{failed_total, success_total, suspicious_ips_of, unique_ips_of, FAILED_ATTEMPTS_LIMIT};

verus! {

broadcast use vstd::seq_lib::group_filter_ensures;

/// `s[a..b]` is one whole line of `s`.
pub open spec fn is_line(s: Seq<char>, a: int, b: int) -> bool {
    &&& 0 <= a <= b <= s.len()
    &&& a == 0 || s[a - 1] == '\n'
    &&& b == s.len() || s[b] == '\n'
    &&& forall|k: int| a <= k < b ==> s[k] != '\n'
}

/// Lines without an entry, scanned from a line start, give nothing.
proof fn lemma_scan_empty(s: Seq<char>, start: int, i: int)
    requires
        0 <= start <= i <= s.len(),
        start == 0 || s[start - 1] == '\n',
        forall|k: int| start <= k < i ==> s[k] != '\n',
        forall|a: int, b: int| is_line(s, a, b) ==> line_entry(#[trigger] s.subrange(a, b)) is None,
    ensures
        entries_scan(s, start, i) == Seq::<EntryView>::empty(),
    decreases s.len() - i,
{
    if i >= s.len() {
        assert(is_line(s, start, s.len() as int));
        assert(line_entries(s.subrange(start, s.len() as int)) =~= Seq::<EntryView>::empty());
    } else if s[i] == '\n' {
        assert(is_line(s, start, i));
        lemma_scan_empty(s, i + 1, i + 1);
        assert(line_entries(s.subrange(start, i)) =~= Seq::<EntryView>::empty());
        assert(entries_scan(s, start, i) =~= Seq::<EntryView>::empty());
    } else {
        lemma_scan_empty(s, start, i + 1);
    }
}

/// A text none of whose lines holds an authentication line gives no entries,
/// and the counts over no entries are all zero.
pub proof fn lemma_unmatched_text_gives_nothing(s: Seq<char>)
    requires
        forall|a: int, b: int| is_line(s, a, b) ==> line_entry(#[trigger] s.subrange(a, b)) is None,
    ensures
        log_entries(s).len() == 0,
        failed_total(log_entries(s)) == 0,
        success_total(log_entries(s)) == 0,
        unique_ips_of(log_entries(s)).len() == 0,
{
    lemma_scan_empty(s, 0, 0);
    let v = log_entries(s);
    assert(ips_in_order(v) =~= Seq::<Seq<char>>::empty());
}

/// The placeholder address is never among the distinct addresses.
pub proof fn lemma_unique_ips_exclude_placeholder(v: Seq<EntryView>)
    ensures
        !unique_ips_of(v).contains(sentinel_ip()),
{
    let f = unique_ips_of(v);
    if f.contains(sentinel_ip()) {
        let i = choose|i: int| 0 <= i < f.len() && f[i] == sentinel_ip();
        assert(f[i] != sentinel_ip());
    }
}

/// An address is suspicious exactly when it has more than three failed
/// attempts; three are not enough.
pub proof fn lemma_suspicious_exact(v: Seq<EntryView>, ip: Seq<char>)
    ensures
        suspicious_ips_of(v).contains(ip) <==> ip_failed_count(v, ip) > FAILED_ATTEMPTS_LIMIT,
        ip_failed_count(v, ip) == FAILED_ATTEMPTS_LIMIT ==> !suspicious_ips_of(v).contains(ip),
{
    let g = ips_in_order(v);
    let pred = |x: Seq<char>| ip_failed_count(v, x) > FAILED_ATTEMPTS_LIMIT;
    let f = suspicious_ips_of(v);
    if f.contains(ip) {
        let i = choose|i: int| 0 <= i < f.len() && f[i] == ip;
        assert(pred(f[i]));
    }
    if ip_failed_count(v, ip) > FAILED_ATTEMPTS_LIMIT {
        if !g.contains(ip) {
            lemma_absent_counts(v, ip);
        }
        let i = choose|i: int| 0 <= i < g.len() && g[i] == ip;
        assert(g.filter(pred).contains(g[i]));
    }
}

/// Every risk score lies in `[0, 1]`, and the ranking never rises.
pub proof fn lemma_ranking_scores(v: Seq<EntryView>, r: Seq<RiskView>)
    requires
        is_ranking(v, r),
    ensures
        forall|k: int| 0 <= k < r.len() ==> 0 <= (#[trigger] r[k]).num <= r[k].den && r[k].den > 0,
        forall|i: int, j: int| 0 <= i < j < r.len() ==>
            (#[trigger] r[i]).num * (#[trigger] r[j]).den >= r[j].num * r[i].den,
{
    assert forall|k: int| 0 <= k < r.len() implies 0 <= (#[trigger] r[k]).num <= r[k].den && r[k].den > 0 by {
        lemma_score_in_unit(v, r[k]);
    }
}

/// A score lies in `[0, 1]` and has a positive denominator.
proof fn lemma_score_in_unit(v: Seq<EntryView>, x: RiskView)
    requires
        scored_in(v, x),
    ensures
        0 <= x.num <= x.den,
        x.den > 0,
{
    let g = ips_in_order(v);
    lemma_ips_in_order_facts(v);
    lemma_extrema(v, g);
    lemma_count_bounds(v, x.ip);
    let k = choose|k: int| 0 <= k < g.len() && g[k] == x.ip;
    assert(ip_count(v, g[k]) > 0);
    let lo = least_count(v, g);
    let hi = greatest_count(v, g);
    let t = x.total;
    let f = x.failed;
    assert(lo <= t <= hi);
    assert(0 <= f <= t);
    if hi == lo {
        assert(0 <= 7 * f <= 10 * t);
    } else {
        assert(0 <= 7 * f * (hi - lo) + 3 * t * (t - lo) <= 10 * t * (hi - lo)) by (nonlinear_arith)
            requires 0 <= f <= t, lo <= t <= hi, lo < hi, t >= 1;
        assert(10 * t * (hi - lo) > 0) by (nonlinear_arith)
            requires t >= 1, lo < hi;
    }
}

/// Where all counts are equal, both extremes are that count.
proof fn lemma_equal_counts_extrema(v: Seq<EntryView>, ips: Seq<Seq<char>>, c: int)
    requires
        ips.len() > 0,
        forall|k: int| 0 <= k < ips.len() ==> ip_count(v, #[trigger] ips[k]) == c,
    ensures
        least_count(v, ips) == c,
        greatest_count(v, ips) == c,
    decreases ips.len(),
{
    if ips.len() > 1 {
        assert forall|k: int| 0 <= k < ips.len() - 1 implies ip_count(v, #[trigger] ips.drop_last()[k]) == c by {
            assert(ips.drop_last()[k] == ips[k]);
        }
        lemma_equal_counts_extrema(v, ips.drop_last(), c);
        assert(ip_count(v, ips[ips.len() - 1]) == c);
    }
}

/// Where every address has as many entries as every other, the activity
/// term vanishes: each score is exactly 0.7 times the failed share.
pub proof fn lemma_equal_activity(v: Seq<EntryView>, r: Seq<RiskView>)
    requires
        is_ranking(v, r),
        forall|a: Seq<char>, b: Seq<char>| ips_in_order(v).contains(a) && ips_in_order(v).contains(b)
            ==> ip_count(v, a) == ip_count(v, b),
    ensures
        forall|k: int| 0 <= k < r.len() ==>
            (#[trigger] r[k]).num * (10 * r[k].total) == 7 * r[k].failed * r[k].den,
{
    let g = ips_in_order(v);
    if g.len() > 0 {
        let c = ip_count(v, g[0]) as int;
        assert forall|k: int| 0 <= k < g.len() implies ip_count(v, #[trigger] g[k]) == c by {
            assert(g.contains(g[k]) && g.contains(g[0]));
        }
        lemma_equal_counts_extrema(v, g, c);
        assert forall|k: int| 0 <= k < r.len() implies
            (#[trigger] r[k]).num * (10 * r[k].total) == 7 * r[k].failed * r[k].den by {
            assert(scored_in(v, r[k]));
            assert(r[k].num == 7 * r[k].failed && r[k].den == 10 * r[k].total);
            assert(r[k].num * (10 * r[k].total) == 7 * r[k].failed * r[k].den) by (nonlinear_arith)
                requires r[k].num == 7 * r[k].failed, r[k].den == 10 * r[k].total;
        }
    }
}

/// Two strictly ranked sequences of the same elements are equal.
proof fn lemma_sorted_unique(a: Seq<RiskView>, b: Seq<RiskView>)
    requires
        a.len() == b.len(),
        forall|x: RiskView| a.contains(x) <==> b.contains(x),
        forall|k: int| 0 <= k < a.len() ==> (#[trigger] a[k]).den > 0,
        forall|k: int| 0 <= k < b.len() ==> (#[trigger] b[k]).den > 0,
        forall|i: int, j: int| 0 <= i < j < a.len() ==> ranks_before(#[trigger] a[i], #[trigger] a[j]),
        forall|i: int, j: int| 0 <= i < j < b.len() ==> ranks_before(#[trigger] b[i], #[trigger] b[j]),
    ensures
        a == b,
    decreases a.len(),
{
    if a.len() > 0 {
        assert(a.contains(a[0]));
        let k = choose|k: int| 0 <= k < b.len() && b[k] == a[0];
        assert(b.contains(b[0]));
        let m = choose|m: int| 0 <= m < a.len() && a[m] == b[0];
        if k > 0 && m > 0 {
            assert(ranks_before(b[0], b[k]));
            assert(ranks_before(a[0], a[m]));
            lemma_ranks_total(a[0], b[0]);
        }
        if k > 0 && m == 0 {
            assert(ranks_before(b[0], b[k]));
            lemma_ranks_total(a[0], a[0]);
        }
        if k == 0 && m > 0 {
            assert(ranks_before(a[0], a[m]));
            lemma_ranks_total(a[0], a[0]);
        }
        assert(a[0] == b[0]);
        let at = a.drop_first();
        let bt = b.drop_first();
        assert forall|x: RiskView| at.contains(x) <==> bt.contains(x) by {
            if at.contains(x) {
                let i = choose|i: int| 0 <= i < at.len() && at[i] == x;
                assert(a[i + 1] == x);
                assert(ranks_before(a[0], a[i + 1]));
                lemma_ranks_total(x, x);
                assert(b.contains(x));
                let j = choose|j: int| 0 <= j < b.len() && b[j] == x;
                assert(j != 0);
                assert(bt[j - 1] == x);
            }
            if bt.contains(x) {
                let i = choose|i: int| 0 <= i < bt.len() && bt[i] == x;
                assert(b[i + 1] == x);
                assert(ranks_before(b[0], b[i + 1]));
                lemma_ranks_total(x, x);
                assert(a.contains(x));
                let j = choose|j: int| 0 <= j < a.len() && a[j] == x;
                assert(j != 0);
                assert(at[j - 1] == x);
            }
        }
        assert forall|i: int, j: int| 0 <= i < j < at.len() implies ranks_before(#[trigger] at[i], #[trigger] at[j]) by {
            assert(at[i] == a[i + 1] && at[j] == a[j + 1]);
        }
        assert forall|i: int, j: int| 0 <= i < j < bt.len() implies ranks_before(#[trigger] bt[i], #[trigger] bt[j]) by {
            assert(bt[i] == b[i + 1] && bt[j] == b[j + 1]);
        }
        lemma_sorted_unique(at, bt);
        assert(a =~= seq![a[0]] + at);
        assert(b =~= seq![b[0]] + bt);
    } else {
        assert(a =~= b);
    }
}

/// The ranking of a run of entries is one sequence: any two results that
/// meet the ranking's contract are equal, so repeated calls agree.
pub proof fn lemma_ranking_unique(v: Seq<EntryView>, a: Seq<RiskView>, b: Seq<RiskView>)
    requires
        is_ranking(v, a),
        is_ranking(v, b),
    ensures
        a == b,
{
    lemma_ranking_scores(v, a);
    lemma_ranking_scores(v, b);
    assert forall|x: RiskView| a.contains(x) implies b.contains(x) by {
        let i = choose|i: int| 0 <= i < a.len() && a[i] == x;
        assert(scored_in(v, a[i]));
        let j = choose|j: int| 0 <= j < b.len() && (#[trigger] b[j]).ip == x.ip;
        assert(scored_in(v, b[j]));
        assert(b[j] == x);
    }
    assert forall|x: RiskView| b.contains(x) implies a.contains(x) by {
        let i = choose|i: int| 0 <= i < b.len() && b[i] == x;
        assert(scored_in(v, b[i]));
        let j = choose|j: int| 0 <= j < a.len() && (#[trigger] a[j]).ip == x.ip;
        assert(scored_in(v, a[j]));
        assert(a[j] == x);
    }
    lemma_sorted_unique(a, b);
}

} // verus!
