//! The log line grammar and the parser over whole texts.
//!
//! An authentication line reads
//! `[HH:MM:SS INF] User:<word> Status:<word> Messages:<text> ActionName:<word> ClientIp:<d>.<d>.<d>.<d>`.
//! The first place in a line where this shape starts is taken; the message
//! is the shortest text after which the rest of the shape follows; the
//! address's last group takes every digit that follows. Anything may stand
//! before the shape and after it. A line without the shape gives no entry.

use vstd::prelude::*;

use crate::entry::{entry_views, EntryView, LogEntry};
use crate::text::{chars_of, occurs_at, occurs_at_exec, text_of};

verus! {

/// Membership in the Unicode word class `\w`: alphabetic, mark, decimal
/// number, connector punctuation and join control characters.
pub uninterp spec fn word_char(c: char) -> bool;

/// The ASCII word characters: `[0-9A-Za-z_]`.
pub open spec fn ascii_word(c: char) -> bool {
    ('0' <= c <= '9') || ('A' <= c <= 'Z') || ('a' <= c <= 'z') || c == '_'
}

/// Relies on `regex_syntax::is_word_character`, which answers whether `c`
/// is in `\w` and never panics with the crate's default features. Its
/// source takes `[0-9A-Za-z_]` as the ASCII members of the class.
#[verifier::external_body]
fn is_word(c: char) -> (r: bool)
    ensures
        r == word_char(c),
        c <= '\x7f' ==> (r <==> ascii_word(c)),
{
    regex_syntax::is_word_character(c)
}

pub open spec fn is_digit(c: char) -> bool {
    '0' <= c <= '9'
}

/// End of the run of word characters that starts at `i`.
pub open spec fn word_end(s: Seq<char>, i: int) -> int
    decreases s.len() - i,
{
    if 0 <= i < s.len() && word_char(s[i]) {
        word_end(s, i + 1)
    } else {
        i
    }
}

/// End of the run of decimal digits that starts at `i`.
pub open spec fn digit_end(s: Seq<char>, i: int) -> int
    decreases s.len() - i,
{
    if 0 <= i < s.len() && is_digit(s[i]) {
        digit_end(s, i + 1)
    } else {
        i
    }
}

/// A run of one or more digits at `i` followed by a dot: the dot's position.
pub open spec fn digits_dot(s: Seq<char>, i: int) -> Option<int> {
    let e = digit_end(s, i);
    if e > i && e < s.len() && s[e] == '.' {
        Some(e)
    } else {
        None
    }
}

/// End of a dotted quad of digit runs that starts at `q`.
pub open spec fn dotted_quad_end(s: Seq<char>, q: int) -> Option<int> {
    match digits_dot(s, q) {
        Some(a) => match digits_dot(s, a + 1) {
            Some(b) => match digits_dot(s, b + 1) {
                Some(c) => {
                    let d = digit_end(s, c + 1);
                    if d > c + 1 {
                        Some(d)
                    } else {
                        None
                    }
                },
                None => None,
            },
            None => None,
        },
        None => None,
    }
}

/// ` ActionName:<word> ClientIp:<quad>` at `p`: the bounds of the address.
pub open spec fn tail_at(s: Seq<char>, p: int) -> Option<(int, int)> {
    if occurs_at(s, p, " ActionName:"@) {
        let a0 = p + " ActionName:"@.len();
        let a1 = word_end(s, a0);
        if a1 > a0 && occurs_at(s, a1, " ClientIp:"@) {
            let q = a1 + " ClientIp:"@.len();
            match dotted_quad_end(s, q) {
                Some(e) => Some((q, e)),
                None => None,
            }
        } else {
            None
        }
    } else {
        None
    }
}

/// The first position from `p` on where the tail follows, with no line
/// break before it.
pub open spec fn message_end(s: Seq<char>, p: int) -> Option<int>
    decreases s.len() - p,
{
    if p < 0 || p > s.len() {
        None
    } else if tail_at(s, p) is Some {
        Some(p)
    } else if p < s.len() && s[p] != '\n' {
        message_end(s, p + 1)
    } else {
        None
    }
}

/// `HH:MM:SS` at `i`, with ASCII digits.
pub open spec fn clock_at(s: Seq<char>, i: int) -> bool {
    &&& 0 <= i
    &&& i + 8 <= s.len()
    &&& is_digit(s[i]) && is_digit(s[i + 1]) && s[i + 2] == ':'
    &&& is_digit(s[i + 3]) && is_digit(s[i + 4]) && s[i + 5] == ':'
    &&& is_digit(s[i + 6]) && is_digit(s[i + 7])
}

/// The entry of an authentication line whose shape starts at `i`.
pub open spec fn auth_at(s: Seq<char>, i: int) -> Option<EntryView> {
    if occurs_at(s, i, "["@) && clock_at(s, i + 1) && occurs_at(s, i + 9, " INF] User:"@) {
        let u0 = i + 9 + " INF] User:"@.len();
        let u1 = word_end(s, u0);
        if u1 > u0 && occurs_at(s, u1, " Status:"@) {
            let t0 = u1 + " Status:"@.len();
            let t1 = word_end(s, t0);
            if t1 > t0 && occurs_at(s, t1, " Messages:"@) {
                let m0 = t1 + " Messages:"@.len();
                match message_end(s, m0) {
                    Some(m1) => {
                        let ip = tail_at(s, m1)->0;
                        Some(EntryView {
                            timestamp: s.subrange(i + 1, i + 9),
                            status: "Status:"@ + s.subrange(t0, t1),
                            message: "User:"@ + s.subrange(u0, u1) + " - Messages:"@ + s.subrange(m0, m1),
                            ip: s.subrange(ip.0, ip.1),
                        })
                    },
                    None => None,
                }
            } else {
                None
            }
        } else {
            None
        }
    } else {
        None
    }
}

/// The entry of the first authentication shape at or after `i`.
pub open spec fn first_auth(s: Seq<char>, i: int) -> Option<EntryView>
    decreases s.len() - i,
{
    if i < 0 || i >= s.len() {
        None
    } else {
        match auth_at(s, i) {
            Some(e) => Some(e),
            None => first_auth(s, i + 1),
        }
    }
}

/// The entry that a line gives, if any.
pub open spec fn line_entry(line: Seq<char>) -> Option<EntryView> {
    first_auth(line, 0)
}

pub open spec fn line_entries(line: Seq<char>) -> Seq<EntryView> {
    match line_entry(line) {
        Some(e) => seq![e],
        None => seq![],
    }
}

/// Entries of the text `s` from the line that starts at `start`, whose
/// characters up to `i` hold no line break.
pub open spec fn entries_scan(s: Seq<char>, start: int, i: int) -> Seq<EntryView>
    decreases s.len() - i,
{
    if i >= s.len() {
        line_entries(s.subrange(start, s.len() as int))
    } else if s[i] == '\n' {
        line_entries(s.subrange(start, i)) + entries_scan(s, i + 1, i + 1)
    } else {
        entries_scan(s, start, i + 1)
    }
}

/// The entries of a text: one for each line, split at `\n`, that holds an
/// authentication shape, in the order of the lines.
pub open spec fn log_entries(s: Seq<char>) -> Seq<EntryView> {
    entries_scan(s, 0, 0)
}

pub open spec fn entry_option_view(o: Option<LogEntry>) -> Option<EntryView> {
    match o {
        Some(e) => Some(e@),
        None => None,
    }
}

fn word_end_exec(s: &Vec<char>, i: usize) -> (r: usize)
    requires
        i <= s.len(),
    ensures
        r == word_end(s@, i as int),
        i <= r <= s.len(),
{
    let mut j = i;
    while j < s.len() && is_word(s[j])
        invariant
            i <= j <= s.len(),
            word_end(s@, i as int) == word_end(s@, j as int),
        decreases s.len() - j,
    {
        j += 1;
    }
    j
}

fn digit_end_exec(s: &Vec<char>, i: usize) -> (r: usize)
    requires
        i <= s.len(),
    ensures
        r == digit_end(s@, i as int),
        i <= r <= s.len(),
{
    let mut j = i;
    while j < s.len() && '0' <= s[j] && s[j] <= '9'
        invariant
            i <= j <= s.len(),
            digit_end(s@, i as int) == digit_end(s@, j as int),
        decreases s.len() - j,
    {
        j += 1;
    }
    j
}

/// Whether the literal `lit` stands in `s` at `i`.
fn lit_at(s: &Vec<char>, i: usize, lit: &str) -> (r: bool)
    ensures
        r == occurs_at(s@, i as int, lit@),
{
    let l = chars_of(lit);
    occurs_at_exec(s, i, &l)
}

/// Number of characters of `lit`.
fn lit_len(lit: &str) -> (n: usize)
    ensures
        n == lit@.len(),
{
    chars_of(lit).len()
}

fn digits_dot_exec(s: &Vec<char>, i: usize) -> (r: Option<usize>)
    requires
        i <= s.len(),
    ensures
        match r {
            Some(e) => digits_dot(s@, i as int) == Some(e as int) && e < s.len(),
            None => digits_dot(s@, i as int) is None,
        },
{
    let e = digit_end_exec(s, i);
    if e > i && e < s.len() && s[e] == '.' {
        Some(e)
    } else {
        None
    }
}

fn dotted_quad_end_exec(s: &Vec<char>, q: usize) -> (r: Option<usize>)
    requires
        q <= s.len(),
    ensures
        match r {
            Some(e) => dotted_quad_end(s@, q as int) == Some(e as int) && q <= e <= s.len(),
            None => dotted_quad_end(s@, q as int) is None,
        },
{
    let a = match digits_dot_exec(s, q) {
        Some(a) => a,
        None => return None,
    };
    let b = match digits_dot_exec(s, a + 1) {
        Some(b) => b,
        None => return None,
    };
    let c = match digits_dot_exec(s, b + 1) {
        Some(c) => c,
        None => return None,
    };
    let d = digit_end_exec(s, c + 1);
    if d > c + 1 {
        Some(d)
    } else {
        None
    }
}

fn tail_at_exec(s: &Vec<char>, p: usize) -> (r: Option<(usize, usize)>)
    ensures
        match r {
            Some(b) => tail_at(s@, p as int) == Some((b.0 as int, b.1 as int)) && b.0 <= b.1 <= s.len(),
            None => tail_at(s@, p as int) is None,
        },
{
    let action = " ActionName:";
    if !lit_at(s, p, action) {
        return None;
    }
    let n = lit_len(action);
    assert(occurs_at(s@, p as int, action@));
    assert(p + n <= s.len());
    let a0 = p + n;
    let a1 = word_end_exec(s, a0);
    let client = " ClientIp:";
    if !(a1 > a0 && lit_at(s, a1, client)) {
        return None;
    }
    let q = a1 + lit_len(client);
    match dotted_quad_end_exec(s, q) {
        Some(e) => Some((q, e)),
        None => None,
    }
}

fn message_end_exec(s: &Vec<char>, p: usize) -> (r: Option<(usize, usize, usize)>)
    requires
        p <= s.len(),
    ensures
        match r {
            Some(m) => message_end(s@, p as int) == Some(m.0 as int) && tail_at(s@, m.0 as int)
                == Some((m.1 as int, m.2 as int)) && p <= m.0 <= s.len() && m.1 <= m.2 <= s.len(),
            None => message_end(s@, p as int) is None,
        },
{
    let mut j = p;
    loop
        invariant
            p <= j <= s.len(),
            message_end(s@, p as int) == message_end(s@, j as int),
        decreases s.len() - j,
    {
        match tail_at_exec(s, j) {
            Some(b) => return Some((j, b.0, b.1)),
            None => {},
        }
        if j < s.len() && s[j] != '\n' {
            j += 1;
        } else {
            return None;
        }
    }
}

/// Appends `s[a..b]` to `out`.
fn push_range(out: &mut Vec<char>, s: &Vec<char>, a: usize, b: usize)
    requires
        a <= b <= s.len(),
    ensures
        final(out)@ == old(out)@ + s@.subrange(a as int, b as int),
{
    let mut k = a;
    while k < b
        invariant
            a <= k <= b,
            b <= s.len(),
            out@ == old(out)@ + s@.subrange(a as int, k as int),
        decreases b - k,
    {
        out.push(s[k]);
        assert(s@.subrange(a as int, k + 1) =~= s@.subrange(a as int, k as int).push(s@[k as int]));
        k += 1;
    }
}

/// The entry of an authentication shape that starts at `i` in `s`.
fn auth_at_exec(s: &Vec<char>, i: usize) -> (r: Option<LogEntry>)
    ensures
        entry_option_view(r) == auth_at(s@, i as int),
{
    if !lit_at(s, i, "[") {
        return None;
    }
    if s.len() - i < 9 {
        return None;
    }
    let c = i + 1;
    if !('0' <= s[c] && s[c] <= '9' && '0' <= s[c + 1] && s[c + 1] <= '9' && s[c + 2] == ':'
        && '0' <= s[c + 3] && s[c + 3] <= '9' && '0' <= s[c + 4] && s[c + 4] <= '9' && s[c + 5] == ':'
        && '0' <= s[c + 6] && s[c + 6] <= '9' && '0' <= s[c + 7] && s[c + 7] <= '9') {
        return None;
    }
    let inf = " INF] User:";
    if !lit_at(s, i + 9, inf) {
        return None;
    }
    let u0 = i + 9 + lit_len(inf);
    let u1 = word_end_exec(s, u0);
    let status_tag = " Status:";
    if !(u1 > u0 && lit_at(s, u1, status_tag)) {
        return None;
    }
    let t0 = u1 + lit_len(status_tag);
    let t1 = word_end_exec(s, t0);
    let messages_tag = " Messages:";
    if !(t1 > t0 && lit_at(s, t1, messages_tag)) {
        return None;
    }
    let m0 = t1 + lit_len(messages_tag);
    let (m1, ip0, ip1) = match message_end_exec(s, m0) {
        Some(m) => m,
        None => return None,
    };
    let mut time: Vec<char> = Vec::new();
    push_range(&mut time, s, i + 1, i + 9);
    let mut status = chars_of("Status:");
    push_range(&mut status, s, t0, t1);
    let mut message = chars_of("User:");
    push_range(&mut message, s, u0, u1);
    let sep = chars_of(" - Messages:");
    push_range(&mut message, &sep, 0, sep.len());
    assert(sep@.subrange(0, sep@.len() as int) =~= sep@);
    push_range(&mut message, s, m0, m1);
    let mut ip: Vec<char> = Vec::new();
    push_range(&mut ip, s, ip0, ip1);
    assert(time@ =~= s@.subrange(i + 1, i + 9));
    assert(ip@ =~= s@.subrange(ip0 as int, ip1 as int));
    Some(LogEntry {
        timestamp: text_of(time.as_slice()),
        status: text_of(status.as_slice()),
        message: text_of(message.as_slice()),
        ip: text_of(ip.as_slice()),
    })
}

/// The entry of the first authentication shape in the characters `s`.
fn line_entry_exec(s: &Vec<char>) -> (r: Option<LogEntry>)
    ensures
        entry_option_view(r) == line_entry(s@),
{
    let mut i: usize = 0;
    while i < s.len()
        invariant
            i <= s.len(),
            first_auth(s@, 0) == first_auth(s@, i as int),
        decreases s.len() - i,
    {
        match auth_at_exec(s, i) {
            Some(e) => return Some(e),
            None => {},
        }
        i += 1;
    }
    None
}

/// Parses one line: the entry of its first authentication shape, if any.
pub fn parse_line(line: &str) -> (r: Option<LogEntry>)
    ensures
        entry_option_view(r) == line_entry(line@),
{
    let s = chars_of(line);
    line_entry_exec(&s)
}

/// Parses a whole text: one entry for each line, split at `\n`, that holds an
/// authentication shape, in the order of the lines; other lines are skipped.
pub fn parse_logs(text: &str) -> (r: Vec<LogEntry>)
    ensures
        entry_views(r@) == log_entries(text@),
{
    let s = chars_of(text);
    let mut out: Vec<LogEntry> = Vec::new();
    let mut start: usize = 0;
    let mut i: usize = 0;
    assert(entry_views(out@) =~= Seq::<EntryView>::empty());
    assert(log_entries(s@) =~= entry_views(out@) + entries_scan(s@, 0, 0));
    while i < s.len()
        invariant
            start <= i <= s.len(),
            s@ == text@,
            log_entries(s@) == entry_views(out@) + entries_scan(s@, start as int, i as int),
        decreases s.len() - i,
    {
        if s[i] == '\n' {
            let mut line: Vec<char> = Vec::new();
            push_range(&mut line, &s, start, i);
            let ghost before = out@;
            match line_entry_exec(&line) {
                Some(e) => {
                    out.push(e);
                    assert(entry_views(out@) =~= entry_views(before) + line_entries(s@.subrange(start as int, i as int)));
                },
                None => {
                    assert(entry_views(out@) =~= entry_views(before) + line_entries(s@.subrange(start as int, i as int)));
                },
            }
            start = i + 1;
        }
        i += 1;
    }
    let mut line: Vec<char> = Vec::new();
    push_range(&mut line, &s, start, s.len());
    let ghost before = out@;
    match line_entry_exec(&line) {
        Some(e) => {
            out.push(e);
        },
        None => {},
    }
    assert(entry_views(out@) =~= entry_views(before) + line_entries(s@.subrange(start as int, s.len() as int)));
    out
}

} // verus!
