//! Exact comparison of non-negative fractions and the code-point order on
//! strings, with the facts that sorting needs.

use vstd::prelude::*;

use std::cmp::Ordering;

use crate::text::chars_of;

verus! {

/// Sign of `a/b - c/d` for positive `b` and `d`, as an ordering.
pub open spec fn frac_order(a: int, b: int, c: int, d: int) -> Ordering {
    if a * d < c * b {
        Ordering::Less
    } else if a * d == c * b {
        Ordering::Equal
    } else {
        Ordering::Greater
    }
}

/// Fractions whose integer parts differ are ordered by them.
proof fn lemma_quotients_differ(a: int, b: int, c: int, d: int, q1: int, r1: int, q2: int, r2: int)
    requires
        b > 0,
        d > 0,
        a == q1 * b + r1,
        c == q2 * d + r2,
        0 <= r1 < b,
        0 <= r2 < d,
        q1 > q2,
    ensures
        a * d > c * b,
{
    assert(a * d >= q1 * b * d) by (nonlinear_arith)
        requires a == q1 * b + r1, r1 >= 0, d > 0;
    assert(c * b < (q2 + 1) * d * b) by (nonlinear_arith)
        requires c == q2 * d + r2, r2 < d, b > 0;
    assert((q2 + 1) * d * b <= q1 * b * d) by (nonlinear_arith)
        requires q1 >= q2 + 1, b > 0, d > 0;
}

/// With equal integer parts, the cross difference is that of the remainders.
proof fn lemma_same_quotient(a: int, b: int, c: int, d: int, q: int, r1: int, r2: int)
    requires
        a == q * b + r1,
        c == q * d + r2,
    ensures
        a * d - c * b == r1 * d - r2 * b,
{
    assert(a * d - c * b == r1 * d - r2 * b) by (nonlinear_arith)
        requires a == q * b + r1, c == q * d + r2;
}

/// Compares `a/b` with `c/d` exactly, without forming the cross products.
pub fn cmp_frac(a: u128, b: u128, c: u128, d: u128) -> (r: Ordering)
    requires
        b > 0,
        d > 0,
    ensures
        r == frac_order(a as int, b as int, c as int, d as int),
    decreases b + d,
{
    let q1 = a / b;
    let r1 = a % b;
    let q2 = c / d;
    let r2 = c % d;
    proof {
        vstd::arithmetic::div_mod::lemma_fundamental_div_mod(a as int, b as int);
        vstd::arithmetic::div_mod::lemma_fundamental_div_mod(c as int, d as int);
        assert(b * q1 == q1 * b) by (nonlinear_arith);
        assert(d * q2 == q2 * d) by (nonlinear_arith);
    }
    if q1 > q2 {
        proof {
            lemma_quotients_differ(a as int, b as int, c as int, d as int, q1 as int, r1 as int, q2 as int, r2 as int);
        }
        return Ordering::Greater;
    }
    if q1 < q2 {
        proof {
            lemma_quotients_differ(c as int, d as int, a as int, b as int, q2 as int, r2 as int, q1 as int, r1 as int);
        }
        return Ordering::Less;
    }
    proof {
        lemma_same_quotient(a as int, b as int, c as int, d as int, q1 as int, r1 as int, r2 as int);
    }
    if r1 == 0 && r2 == 0 {
        assert(r1 * d - r2 * b == 0) by (nonlinear_arith)
            requires r1 == 0, r2 == 0;
        return Ordering::Equal;
    }
    if r1 == 0 {
        assert(r2 * b > 0 && r1 * d == 0) by (nonlinear_arith)
            requires r2 > 0, b > 0, r1 == 0;
        return Ordering::Less;
    }
    if r2 == 0 {
        assert(r1 * d > 0 && r2 * b == 0) by (nonlinear_arith)
            requires r1 > 0, d > 0, r2 == 0;
        return Ordering::Greater;
    }
    assert(d * r1 == r1 * d && b * r2 == r2 * b) by (nonlinear_arith);
    cmp_frac(d, r2, b, r1)
}

/// Order of fractions with positive denominators is transitive.
pub proof fn lemma_frac_le_trans(a: int, b: int, c: int, d: int, e: int, f: int)
    requires
        b > 0,
        d > 0,
        f > 0,
        a * d <= c * b,
        c * f <= e * d,
    ensures
        a * f <= e * b,
        (a * d < c * b || c * f < e * d) ==> a * f < e * b,
{
    assert(a * d * f <= c * b * f) by (nonlinear_arith)
        requires a * d <= c * b, f > 0;
    assert(c * f * b <= e * d * b) by (nonlinear_arith)
        requires c * f <= e * d, b > 0;
    assert(a * f * d <= e * b * d) by (nonlinear_arith)
        requires a * d * f <= c * b * f, c * f * b <= e * d * b;
    assert(a * f <= e * b) by (nonlinear_arith)
        requires a * f * d <= e * b * d, d > 0;
    if a * d < c * b || c * f < e * d {
        assert(a * d * f < c * b * f || c * f * b < e * d * b) by (nonlinear_arith)
            requires a * d < c * b || c * f < e * d, f > 0, b > 0;
        assert(a * f * d < e * b * d) by (nonlinear_arith)
            requires a * d * f <= c * b * f, c * f * b <= e * d * b,
                a * d * f < c * b * f || c * f * b < e * d * b;
        assert(a * f < e * b) by (nonlinear_arith)
            requires a * f * d < e * b * d, d > 0;
    }
}

/// Code-point order on strings: `a` sorts strictly before `b`.
pub open spec fn text_less(a: Seq<char>, b: Seq<char>) -> bool
    decreases a.len(),
{
    if a.len() == 0 {
        b.len() > 0
    } else if b.len() == 0 {
        false
    } else if a[0] != b[0] {
        a[0] < b[0]
    } else {
        text_less(a.drop_first(), b.drop_first())
    }
}

/// `text_less` is a strict total order.
pub proof fn lemma_text_less_total(a: Seq<char>, b: Seq<char>)
    ensures
        !(text_less(a, b) && text_less(b, a)),
        a != b ==> text_less(a, b) || text_less(b, a),
        !text_less(a, a),
    decreases a.len(),
{
    if a.len() > 0 && b.len() > 0 && a[0] == b[0] {
        lemma_text_less_total(a.drop_first(), b.drop_first());
        if a != b {
            assert(a.drop_first() != b.drop_first()) by {
                if a.drop_first() == b.drop_first() {
                    assert(a =~= seq![a[0]] + a.drop_first());
                    assert(b =~= seq![b[0]] + b.drop_first());
                }
            }
        }
    }
    if a.len() > 0 {
        lemma_text_less_total(a.drop_first(), a.drop_first());
    }
    if a.len() == 0 && b.len() == 0 {
        assert(a =~= b);
    }
}

/// `text_less` is transitive.
pub proof fn lemma_text_less_trans(a: Seq<char>, b: Seq<char>, c: Seq<char>)
    requires
        text_less(a, b),
        text_less(b, c),
    ensures
        text_less(a, c),
    decreases a.len(),
{
    if a.len() > 0 && b.len() > 0 && c.len() > 0 && a[0] == b[0] && b[0] == c[0] {
        lemma_text_less_trans(a.drop_first(), b.drop_first(), c.drop_first());
    }
}

/// Whether `a` sorts strictly before `b` by code points.
pub fn text_less_exec(a: &String, b: &String) -> (r: bool)
    ensures
        r == text_less(a@, b@),
{
    let x = chars_of(a.as_str());
    let y = chars_of(b.as_str());
    let mut i: usize = 0;
    assert(x@.skip(0) =~= x@ && y@.skip(0) =~= y@);
    while i < x.len() && i < y.len() && x[i] == y[i]
        invariant
            i <= x.len(),
            i <= y.len(),
            x@ == a@,
            y@ == b@,
            text_less(a@, b@) == text_less(x@.skip(i as int), y@.skip(i as int)),
        decreases x.len() - i,
    {
        assert(x@.skip(i as int).drop_first() =~= x@.skip(i + 1));
        assert(y@.skip(i as int).drop_first() =~= y@.skip(i + 1));
        i += 1;
    }
    if i == x.len() {
        i < y.len()
    } else if i == y.len() {
        false
    } else {
        x[i] < y[i]
    }
}

} // verus!
