use vstd::prelude::*;

use crate::measurement::{utc_now, Latency, Measurement, Timestamp};

verus! {

/// Why a probe report yielded no measurement.
#[derive(PartialEq, Eq, Structural, Clone, Copy, Debug)]
pub enum ParseError {
    /// The statistics header `min/avg/max/stddev` does not occur.
    MarkerNotFound,
    /// Nothing follows ` = ` after the last header.
    StatsSegmentMissing,
    /// The average field is missing or is not a number.
    MalformedNumber,
}

/// The header that introduces the round-trip statistics line.
pub open spec fn marker() -> Seq<char> {
    seq!['m', 'i', 'n', '/', 'a', 'v', 'g', '/', 'm', 'a', 'x', '/', 's', 't', 'd', 'd', 'e', 'v']
}

/// What stands between the header and the statistics values.
pub open spec fn separator() -> Seq<char> {
    seq![' ', '=', ' ']
}

pub open spec fn occurs_at(t: Seq<char>, p: Seq<char>, i: int) -> bool {
    0 <= i && i + p.len() <= t.len() && t.subrange(i, i + p.len()) == p
}

/// The last position not after `i` at which `p` occurs in `t`.
pub open spec fn last_occurrence_upto(t: Seq<char>, p: Seq<char>, i: int) -> Option<int>
    decreases i + 1,
{
    if i < 0 {
        None
    } else if occurs_at(t, p, i) {
        Some(i)
    } else {
        last_occurrence_upto(t, p, i - 1)
    }
}

/// The last position at which `p` occurs in `t`.
pub open spec fn last_occurrence(t: Seq<char>, p: Seq<char>) -> Option<int> {
    last_occurrence_upto(t, p, t.len() - p.len())
}

/// The first position not before `i` at which `p` occurs in `t`.
pub open spec fn first_occurrence_from(t: Seq<char>, p: Seq<char>, i: int) -> Option<int>
    decreases t.len() + 1 - i,
{
    if i < 0 || t.len() < i + p.len() {
        None
    } else if occurs_at(t, p, i) {
        Some(i)
    } else {
        first_occurrence_from(t, p, i + 1)
    }
}

/// The first position in `[i, e)` that holds `c`, or `e` where none does.
pub open spec fn first_char_from(t: Seq<char>, c: char, i: int, e: int) -> int
    decreases e - i,
{
    if i >= e {
        e
    } else if t[i] == c {
        i
    } else {
        first_char_from(t, c, i + 1, e)
    }
}

pub open spec fn is_blank(c: char) -> bool {
    c == ' ' || c == '\t' || c == '\n' || c == '\r'
}

pub open spec fn trim_start(s: Seq<char>) -> Seq<char>
    decreases s.len(),
{
    if s.len() > 0 && is_blank(s[0]) {
        trim_start(s.drop_first())
    } else {
        s
    }
}

pub open spec fn trim_end(s: Seq<char>) -> Seq<char>
    decreases s.len(),
{
    if s.len() > 0 && is_blank(s.last()) {
        trim_end(s.drop_last())
    } else {
        s
    }
}

/// `s` without leading and trailing blanks.
pub open spec fn trim(s: Seq<char>) -> Seq<char> {
    trim_end(trim_start(s))
}

pub open spec fn is_digit(c: char) -> bool {
    '0' <= c && c <= '9'
}

pub open spec fn all_digits(s: Seq<char>) -> bool {
    forall|i: int| 0 <= i < s.len() ==> is_digit(#[trigger] s[i])
}

/// The number that the decimal digits `s` continue after the value `acc`.
pub open spec fn fold_digits(acc: int, s: Seq<char>) -> int
    decreases s.len(),
{
    if s.len() == 0 {
        acc
    } else {
        fold_digits(acc * 10 + (s[0] as int - '0' as int), s.drop_first())
    }
}

/// `g` without one leading `+`.
pub open spec fn unsigned_part(g: Seq<char>) -> Seq<char> {
    if g.len() > 0 && g[0] == '+' {
        g.drop_first()
    } else {
        g
    }
}

/// The first position from `i` on that holds an exponent mark, `e` or `E`,
/// or the length of `t` where none does.
pub open spec fn first_exp_mark(t: Seq<char>, i: int) -> int
    decreases t.len() - i,
{
    if i >= t.len() {
        t.len() as int
    } else if t[i] == 'e' || t[i] == 'E' {
        i
    } else {
        first_exp_mark(t, i + 1)
    }
}

/// Digits with at most one `.` and at least one digit: the value of all the
/// digits together, and how many follow the `.`.
pub open spec fn mantissa_of(m: Seq<char>) -> Option<(int, nat)> {
    let d = first_char_from(m, '.', 0, m.len() as int);
    let ip = m.subrange(0, d);
    let fp = if d < m.len() {
        m.subrange(d + 1, m.len() as int)
    } else {
        Seq::<char>::empty()
    };
    if all_digits(ip) && all_digits(fp) && ip.len() + fp.len() > 0 {
        Some((fold_digits(fold_digits(0, ip), fp), fp.len()))
    } else {
        None
    }
}

/// An optional sign, then at least one digit: the exponent's value.
pub open spec fn exponent_of(x: Seq<char>) -> Option<int> {
    let ds = if x.len() > 0 && (x[0] == '+' || x[0] == '-') {
        x.drop_first()
    } else {
        x
    };
    let v = fold_digits(0, ds);
    if ds.len() > 0 && all_digits(ds) {
        Some(if x[0] == '-' { -v } else { v })
    } else {
        None
    }
}

pub open spec fn pow10(n: nat) -> nat
    decreases n,
{
    if n == 0 {
        1
    } else {
        10 * pow10((n - 1) as nat)
    }
}

/// The latency `u * 10^net`, where it can be held.
pub open spec fn scaled(u: int, net: int) -> Option<Latency> {
    if net >= 0 {
        if u * pow10(net as nat) <= u64::MAX {
            Some(Latency { units: (u * pow10(net as nat)) as u64, scale: 0 })
        } else {
            None
        }
    } else if -net <= usize::MAX {
        Some(Latency { units: u as u64, scale: (-net) as usize })
    } else {
        None
    }
}

/// The latency that the text `f` denotes, read as a non-negative float is
/// written: after trimming blanks, an optional `+`, decimal digits with at
/// most one `.` and at least one digit, then optionally `e` or `E`, a sign
/// and digits. The digits of the mantissa together, and the exponent, stay
/// below 2^64. A `-` sign, `inf`, `NaN` and unit suffixes are not latencies.
pub open spec fn decimal_of(f: Seq<char>) -> Option<Latency> {
    let g = unsigned_part(trim(f));
    let x = first_exp_mark(g, 0);
    let ex = if x < g.len() {
        exponent_of(g.subrange(x + 1, g.len() as int))
    } else {
        Some(0int)
    };
    match mantissa_of(g.subrange(0, x)) {
        Some((u, fl)) => match ex {
            Some(e) => if u <= u64::MAX && -(u64::MAX as int) <= e <= u64::MAX {
                scaled(u, e - fl)
            } else {
                None
            },
            None => None,
        },
        None => None,
    }
}

/// Where the statistics values start: just after the first ` = ` that
/// follows the last header.
pub open spec fn stats_start(t: Seq<char>) -> Option<int> {
    match last_occurrence(t, marker()) {
        None => None,
        Some(m) => match first_occurrence_from(t, separator(), m) {
            None => None,
            Some(k) => Some(k + 3),
        },
    }
}

/// Where the statistics values that start at `s` end: at the next ` = `, or
/// at the end of the text.
pub open spec fn stats_end(t: Seq<char>, s: int) -> int {
    match first_occurrence_from(t, separator(), s) {
        Some(k) => k,
        None => t.len() as int,
    }
}

/// What a probe report `t`, received at `at`, yields: the average, the second
/// `/`-separated field of the statistics that follow the last header.
pub open spec fn parse_text(t: Seq<char>, at: Timestamp) -> Result<Measurement, ParseError> {
    match last_occurrence(t, marker()) {
        None => Err(ParseError::MarkerNotFound),
        Some(m) => match stats_start(t) {
            None => Err(ParseError::StatsSegmentMissing),
            Some(s) => {
                let e = stats_end(t, s);
                let f0 = first_char_from(t, '/', s, e);
                if f0 >= e {
                    Err(ParseError::MalformedNumber)
                } else {
                    let f1 = first_char_from(t, '/', f0 + 1, e);
                    match decimal_of(t.subrange(f0 + 1, f1)) {
                        None => Err(ParseError::MalformedNumber),
                        Some(l) => Ok(Measurement { latency: l, observed_at: at }),
                    }
                }
            },
        },
    }
}

fn chars_of(s: &str) -> (r: Vec<char>)
    ensures
        r@ == s@,
{
    let n = s.unicode_len();
    let mut r: Vec<char> = Vec::new();
    let mut i: usize = 0;
    while i < n
        invariant
            n == s@.len(),
            i <= n,
            r@ == s@.subrange(0, i as int),
        decreases n - i,
    {
        r.push(s.get_char(i));
        i += 1;
    }
    r
}

fn slice_chars(v: &Vec<char>, lo: usize, hi: usize) -> (r: Vec<char>)
    requires
        lo <= hi <= v@.len(),
    ensures
        r@ == v@.subrange(lo as int, hi as int),
{
    let mut r: Vec<char> = Vec::new();
    let mut i: usize = lo;
    while i < hi
        invariant
            lo <= i <= hi <= v@.len(),
            r@ == v@.subrange(lo as int, i as int),
        decreases hi - i,
    {
        r.push(v[i]);
        i += 1;
    }
    r
}

fn occurs_at_exec(v: &Vec<char>, p: &Vec<char>, i: usize) -> (r: bool)
    ensures
        r == occurs_at(v@, p@, i as int),
{
    if i > v.len() || p.len() > v.len() - i {
        return false;
    }
    let mut j: usize = 0;
    while j < p.len()
        invariant
            i + p@.len() <= v.len(),
            j <= p@.len(),
            forall|k: int| 0 <= k < j ==> v@[i + k] == p@[k],
        decreases p@.len() - j,
    {
        if v[i + j] != p[j] {
            assert(v@.subrange(i as int, i + p@.len())[j as int] != p@[j as int]);
            return false;
        }
        j += 1;
    }
    assert(v@.subrange(i as int, i + p@.len()) =~= p@);
    true
}

fn last_occurrence_exec(v: &Vec<char>, p: &Vec<char>) -> (r: Option<usize>)
    ensures
        match r {
            None => last_occurrence(v@, p@) is None,
            Some(i) => last_occurrence(v@, p@) == Some(i as int),
        },
{
    if p.len() > v.len() {
        return None;
    }
    let mut i: usize = v.len() - p.len();
    loop
        invariant
            i <= v@.len() - p@.len(),
            last_occurrence(v@, p@) == last_occurrence_upto(v@, p@, i as int),
        decreases i,
    {
        if occurs_at_exec(v, p, i) {
            return Some(i);
        }
        if i == 0 {
            assert(last_occurrence_upto(v@, p@, -1) is None);
            return None;
        }
        i -= 1;
    }
}

fn first_occurrence_exec(v: &Vec<char>, p: &Vec<char>, from: usize) -> (r: Option<usize>)
    ensures
        match r {
            None => first_occurrence_from(v@, p@, from as int) is None,
            Some(i) => first_occurrence_from(v@, p@, from as int) == Some(i as int) && from <= i
                && i + p@.len() <= v@.len(),
        },
{
    if p.len() == 0 {
        if from > v.len() {
            return None;
        }
        assert(v@.subrange(from as int, from as int) =~= p@);
        return Some(from);
    }
    let mut i: usize = from;
    loop
        invariant
            from <= i,
            p@.len() > 0,
            first_occurrence_from(v@, p@, from as int) == first_occurrence_from(v@, p@, i as int),
        decreases v@.len() + 1 - i,
    {
        if i > v.len() || p.len() > v.len() - i {
            return None;
        }
        if occurs_at_exec(v, p, i) {
            return Some(i);
        }
        i += 1;
    }
}

fn first_char_exec(v: &Vec<char>, c: char, from: usize, e: usize) -> (r: usize)
    requires
        from <= e <= v@.len(),
    ensures
        r == first_char_from(v@, c, from as int, e as int),
        from <= r <= e,
        r < e ==> v@[r as int] == c,
{
    let mut i: usize = from;
    while i < e && v[i] != c
        invariant
            from <= i <= e <= v@.len(),
            first_char_from(v@, c, from as int, e as int) == first_char_from(v@, c, i as int, e as int),
        decreases e - i,
    {
        i += 1;
    }
    i
}

fn is_blank_exec(c: char) -> (r: bool)
    ensures
        r == is_blank(c),
{
    c == ' ' || c == '\t' || c == '\n' || c == '\r'
}

fn trim_exec(v: &Vec<char>) -> (r: Vec<char>)
    ensures
        r@ == trim(v@),
{
    let mut a: usize = 0;
    assert(v@.subrange(0, v@.len() as int) =~= v@);
    while a < v.len() && is_blank_exec(v[a])
        invariant
            a <= v@.len(),
            trim_start(v@.subrange(a as int, v@.len() as int)) == trim_start(v@),
        decreases v@.len() - a,
    {
        assert(v@.subrange(a as int, v@.len() as int).drop_first() =~= v@.subrange(a + 1, v@.len() as int));
        a += 1;
    }
    let mut b: usize = v.len();
    while b > a && is_blank_exec(v[b - 1])
        invariant
            a <= b <= v@.len(),
            trim_start(v@) == v@.subrange(a as int, v@.len() as int),
            trim_end(v@.subrange(a as int, b as int)) == trim(v@),
        decreases b - a,
    {
        assert(v@.subrange(a as int, b as int).drop_last() =~= v@.subrange(a as int, b - 1));
        b -= 1;
    }
    slice_chars(v, a, b)
}

fn all_digits_exec(v: &Vec<char>, lo: usize, hi: usize) -> (r: bool)
    requires
        lo <= hi <= v@.len(),
    ensures
        r == all_digits(v@.subrange(lo as int, hi as int)),
{
    let mut i: usize = lo;
    while i < hi
        invariant
            lo <= i <= hi <= v@.len(),
            forall|k: int| lo <= k < i ==> is_digit(v@[k]),
        decreases hi - i,
    {
        if !('0' <= v[i] && v[i] <= '9') {
            assert(!is_digit(v@.subrange(lo as int, hi as int)[i - lo]));
            return false;
        }
        i += 1;
    }
    assert forall|k: int| 0 <= k < hi - lo implies is_digit(#[trigger] v@.subrange(lo as int, hi as int)[k]) by {
        assert(v@.subrange(lo as int, hi as int)[k] == v@[lo + k]);
    }
    true
}

proof fn lemma_fold_digits_grows(acc: int, s: Seq<char>)
    requires
        acc >= 0,
        all_digits(s),
    ensures
        fold_digits(acc, s) >= acc,
    decreases s.len(),
{
    if s.len() > 0 {
        assert(is_digit(s[0]));
        assert(all_digits(s.drop_first())) by {
            assert forall|i: int| 0 <= i < s.drop_first().len() implies is_digit(#[trigger] s.drop_first()[i]) by {
                assert(s.drop_first()[i] == s[i + 1]);
            }
        }
        lemma_fold_digits_grows(acc * 10 + (s[0] as int - '0' as int), s.drop_first());
    }
}

/// Continues `acc` with the digits in `v[lo..hi]`; `None` where the value
/// passes `u64::MAX`.
fn fold_digits_exec(v: &Vec<char>, lo: usize, hi: usize, acc: u64) -> (r: Option<u64>)
    requires
        lo <= hi <= v@.len(),
        all_digits(v@.subrange(lo as int, hi as int)),
    ensures
        match r {
            Some(x) => x == fold_digits(acc as int, v@.subrange(lo as int, hi as int)),
            None => fold_digits(acc as int, v@.subrange(lo as int, hi as int)) > u64::MAX,
        },
{
    let mut i: usize = lo;
    let mut a: u64 = acc;
    while i < hi
        invariant
            lo <= i <= hi <= v@.len(),
            all_digits(v@.subrange(lo as int, hi as int)),
            fold_digits(a as int, v@.subrange(i as int, hi as int)) == fold_digits(
                acc as int,
                v@.subrange(lo as int, hi as int),
            ),
        decreases hi - i,
    {
        let ghost rest = v@.subrange(i as int, hi as int);
        assert(rest[0] == v@.subrange(lo as int, hi as int)[i - lo]);
        assert(rest.drop_first() =~= v@.subrange(i + 1, hi as int));
        let d = (v[i] as u32 - '0' as u32) as u64;
        if a > (u64::MAX - d) / 10 {
            assert(all_digits(rest.drop_first())) by {
                assert forall|k: int| 0 <= k < rest.drop_first().len() implies is_digit(
                    #[trigger] rest.drop_first()[k],
                ) by {
                    assert(rest.drop_first()[k] == v@.subrange(lo as int, hi as int)[i + 1 + k - lo]);
                }
            }
            proof {
                lemma_fold_digits_grows(a * 10 + d, rest.drop_first());
            }
            return None;
        }
        a = a * 10 + d;
        i += 1;
    }
    Some(a)
}

fn first_exp_exec(v: &Vec<char>) -> (r: usize)
    ensures
        r == first_exp_mark(v@, 0),
        r <= v@.len(),
{
    let mut i: usize = 0;
    while i < v.len() && v[i] != 'e' && v[i] != 'E'
        invariant
            i <= v@.len(),
            first_exp_mark(v@, 0) == first_exp_mark(v@, i as int),
        decreases v@.len() - i,
    {
        i += 1;
    }
    i
}

/// The mantissa written in `m`, where its value fits in a `u64`.
fn mantissa_exec(m: &Vec<char>) -> (r: Option<(u64, usize)>)
    ensures
        match r {
            Some((u, fl)) => mantissa_of(m@) == Some((u as int, fl as nat)),
            None => !(mantissa_of(m@) matches Some((u, _)) && u <= u64::MAX),
        },
{
    let n = m.len();
    let d = first_char_exec(m, '.', 0, n);
    let fp_lo: usize = if d < n { d + 1 } else { n };
    let ghost fp = if d < n {
        m@.subrange(d + 1, n as int)
    } else {
        Seq::<char>::empty()
    };
    assert(m@.subrange(fp_lo as int, n as int) =~= fp);
    if !all_digits_exec(m, 0, d) || !all_digits_exec(m, fp_lo, n) || (d == 0 && fp_lo == n) {
        return None;
    }
    match fold_digits_exec(m, 0, d, 0) {
        None => {
            proof {
                lemma_fold_digits_grows(fold_digits(0, m@.subrange(0, d as int)), fp);
            }
            None
        },
        Some(ip) => match fold_digits_exec(m, fp_lo, n, ip) {
            None => None,
            Some(u) => Some((u, n - fp_lo)),
        },
    }
}

/// The exponent written in `x`, as a sign and a magnitude that fits in a
/// `u64`.
fn exponent_exec(x: &Vec<char>) -> (r: Option<(bool, u64)>)
    ensures
        match r {
            Some((neg, mag)) => exponent_of(x@) == Some(
                if neg {
                    -(mag as int)
                } else {
                    mag as int
                },
            ),
            None => !(exponent_of(x@) matches Some(v) && -(u64::MAX as int) <= v <= u64::MAX),
        },
{
    let n = x.len();
    let signed = n > 0 && (x[0] == '+' || x[0] == '-');
    let neg = n > 0 && x[0] == '-';
    let lo: usize = if signed { 1 } else { 0 };
    assert(x@.subrange(lo as int, n as int) =~= if signed {
        x@.drop_first()
    } else {
        x@
    });
    if lo == n || !all_digits_exec(x, lo, n) {
        return None;
    }
    match fold_digits_exec(x, lo, n, 0) {
        None => None,
        Some(mag) => Some((neg, mag)),
    }
}

proof fn lemma_pow10_monotone(a: nat, b: nat)
    requires
        a <= b,
    ensures
        pow10(a) <= pow10(b),
    decreases b,
{
    if a < b {
        lemma_pow10_monotone(a, (b - 1) as nat);
    }
}

/// `u * 10^k`, where it fits in a `u64`.
fn scale_up(u: u64, k: u64) -> (r: Option<u64>)
    ensures
        match r {
            Some(v) => v == u * pow10(k as nat),
            None => u * pow10(k as nat) > u64::MAX,
        },
{
    if u == 0 {
        assert(0 * pow10(k as nat) == 0);
        return Some(0);
    }
    let mut v: u64 = u;
    let mut i: u64 = 0;
    assert(pow10(0) == 1);
    while i < k
        invariant
            i <= k,
            u > 0,
            v == u * pow10(i as nat),
        decreases k - i,
    {
        let ghost p = pow10(i as nat);
        assert(pow10((i + 1) as nat) == 10 * p);
        if v > u64::MAX / 10 {
            proof {
                lemma_pow10_monotone((i + 1) as nat, k as nat);
                let q = pow10(k as nat);
                assert(u * q >= u * (10 * p)) by (nonlinear_arith)
                    requires
                        q >= 10 * p,
                        u > 0,
                ;
                assert(u * (10 * p) == 10 * (u * p)) by (nonlinear_arith);
            }
            return None;
        }
        v = v * 10;
        assert(v == u * pow10((i + 1) as nat)) by (nonlinear_arith)
            requires
                v == 10 * (u * p),
                pow10((i + 1) as nat) == 10 * p,
        ;
        i += 1;
    }
    Some(v)
}

/// The latency written in `f`, as `decimal_of` describes it.
fn decimal_exec(f: &Vec<char>) -> (r: Option<Latency>)
    ensures
        r == decimal_of(f@),
{
    let g0 = trim_exec(f);
    let n0 = g0.len();
    let g = if n0 > 0 && g0[0] == '+' {
        assert(g0@.subrange(1, n0 as int) =~= g0@.drop_first());
        slice_chars(&g0, 1, n0)
    } else {
        assert(g0@.subrange(0, n0 as int) =~= g0@);
        slice_chars(&g0, 0, n0)
    };
    let n = g.len();
    let x = first_exp_exec(&g);
    let m = slice_chars(&g, 0, x);
    let (u, fl) = match mantissa_exec(&m) {
        None => return None,
        Some(p) => p,
    };
    let (neg, mag) = if x < n {
        let e = slice_chars(&g, x + 1, n);
        match exponent_exec(&e) {
            None => return None,
            Some(p) => p,
        }
    } else {
        (false, 0)
    };
    if neg {
        let total: u128 = mag as u128 + fl as u128;
        if total == 0 {
            assert(pow10(0) == 1);
            assert(u * pow10(0) == u);
            return Some(Latency { units: u, scale: 0 });
        }
        if total > usize::MAX as u128 {
            return None;
        }
        Some(Latency { units: u, scale: total as usize })
    } else if mag as u128 >= fl as u128 {
        match scale_up(u, mag - fl as u64) {
            None => None,
            Some(v) => Some(Latency { units: v, scale: 0 }),
        }
    } else {
        Some(Latency { units: u, scale: fl - mag as usize })
    }
}

/// Reads a probe report received at `received_at`: the average of the
/// statistics line that follows the last `min/avg/max/stddev` header.
pub fn parse(raw_text: &str, received_at: Timestamp) -> (r: Result<Measurement, ParseError>)
    ensures
        r == parse_text(raw_text@, received_at),
{
    let t = chars_of(raw_text);
    let mk = vec!['m', 'i', 'n', '/', 'a', 'v', 'g', '/', 'm', 'a', 'x', '/', 's', 't', 'd', 'd', 'e', 'v'];
    let sep = vec![' ', '=', ' '];
    let m = match last_occurrence_exec(&t, &mk) {
        None => return Err(ParseError::MarkerNotFound),
        Some(m) => m,
    };
    let k = match first_occurrence_exec(&t, &sep, m) {
        None => return Err(ParseError::StatsSegmentMissing),
        Some(k) => k,
    };
    let n = t.len();
    assert(sep@.len() == 3);
    assert(k + 3 <= n);
    let s = k + 3;
    let e = match first_occurrence_exec(&t, &sep, s) {
        None => t.len(),
        Some(k2) => k2,
    };
    let f0 = first_char_exec(&t, '/', s, e);
    if f0 >= e {
        return Err(ParseError::MalformedNumber);
    }
    let f1 = first_char_exec(&t, '/', f0 + 1, e);
    let field = slice_chars(&t, f0 + 1, f1);
    match decimal_exec(&field) {
        None => Err(ParseError::MalformedNumber),
        Some(l) => Ok(Measurement { latency: l, observed_at: received_at }),
    }
}

/// Reads a probe report that has just arrived, stamping it with the current
/// UTC time. Whatever the clock reads, the outcome is that of `parse_text`
/// at some instant.
pub fn parse_ping(ping_output: &str) -> (r: Result<Measurement, ParseError>)
    ensures
        exists|at: Timestamp| r == parse_text(ping_output@, at),
{
    let now = utc_now();
    parse(ping_output, now)
}


proof fn lemma_last_skip(t: Seq<char>, p: Seq<char>, i: int, j: int)
    requires
        0 <= j <= i,
        forall|k: int| j < k <= i ==> !occurs_at(t, p, k),
    ensures
        last_occurrence_upto(t, p, i) == last_occurrence_upto(t, p, j),
    decreases i - j,
{
    if i > j {
        lemma_last_skip(t, p, i - 1, j);
    }
}

proof fn lemma_last_none(t: Seq<char>, p: Seq<char>, i: int)
    requires
        forall|k: int| !occurs_at(t, p, k),
    ensures
        last_occurrence_upto(t, p, i) is None,
    decreases i + 1,
{
    if i >= 0 {
        lemma_last_none(t, p, i - 1);
    }
}

proof fn lemma_first_skip(t: Seq<char>, p: Seq<char>, i: int, j: int)
    requires
        0 <= i <= j,
        forall|k: int| i <= k < j ==> !occurs_at(t, p, k),
        occurs_at(t, p, j),
    ensures
        first_occurrence_from(t, p, i) == Some(j),
    decreases j - i,
{
    if i < j {
        lemma_first_skip(t, p, i + 1, j);
    }
}

proof fn lemma_first_at_least(t: Seq<char>, p: Seq<char>, i: int)
    ensures
        first_occurrence_from(t, p, i) matches Some(x) ==> x >= i,
    decreases t.len() + 1 - i,
{
    if !(i < 0 || t.len() < i + p.len()) && !occurs_at(t, p, i) {
        lemma_first_at_least(t, p, i + 1);
    }
}

proof fn lemma_first_after(t: Seq<char>, p: Seq<char>, i: int, j: int)
    requires
        0 <= i,
        forall|k: int| i <= k <= j ==> !occurs_at(t, p, k),
    ensures
        first_occurrence_from(t, p, i) matches Some(x) ==> x > j,
    decreases t.len() + 1 - i,
{
    if i > j {
        lemma_first_at_least(t, p, i);
    } else if i + p.len() <= t.len() {
        lemma_first_after(t, p, i + 1, j);
    }
}

proof fn lemma_char_skip(t: Seq<char>, c: char, i: int, j: int, e: int)
    requires
        i <= j < e,
        forall|k: int| i <= k < j ==> t[k] != c,
        t[j] == c,
    ensures
        first_char_from(t, c, i, e) == j,
    decreases j - i,
{
    if i < j {
        lemma_char_skip(t, c, i + 1, j, e);
    }
}

/// A report without the header yields `MarkerNotFound`, whatever else it
/// holds.
pub proof fn lemma_no_marker_fails(t: Seq<char>, at: Timestamp)
    requires
        forall|i: int| !occurs_at(t, marker(), i),
    ensures
        parse_text(t, at) == Err::<Measurement, ParseError>(ParseError::MarkerNotFound),
{
    lemma_last_none(t, marker(), t.len() - marker().len());
}

/// The second `/`-separated field of the statistics that start at `s`, where
/// there is one.
pub open spec fn average_field(t: Seq<char>, s: int) -> Option<Seq<char>> {
    let e = stats_end(t, s);
    let f0 = first_char_from(t, '/', s, e);
    if f0 >= e {
        None
    } else {
        Some(t.subrange(f0 + 1, first_char_from(t, '/', f0 + 1, e)))
    }
}

/// A report whose statistics have no average field, or one that is not a
/// number, yields `MalformedNumber`.
pub proof fn lemma_bad_average_fails(t: Seq<char>, at: Timestamp)
    requires
        stats_start(t) matches Some(s) && match average_field(t, s) {
            None => true,
            Some(f) => decimal_of(f) is None,
        },
    ensures
        parse_text(t, at) == Err::<Measurement, ParseError>(ParseError::MalformedNumber),
{
}

/// The last header starts at `p`, and the first ` = ` after it at `k`.
proof fn lemma_header_then_separator(t: Seq<char>, p: int, k: int)
    requires
        0 <= p,
        p + 18 <= k,
        k + 3 <= t.len(),
        t.subrange(p, p + 18) == marker(),
        t.subrange(k, k + 3) == separator(),
        forall|i: int| p < i ==> !occurs_at(t, marker(), i),
        forall|j: int| p <= j < k ==> !occurs_at(t, separator(), j),
    ensures
        last_occurrence(t, marker()) == Some(p),
        stats_start(t) == Some(k + 3),
{
    lemma_last_skip(t, marker(), t.len() - 18, p);
    lemma_first_skip(t, separator(), p, k);
}

/// The statistics that start at `s` read `a/b/...`, with `a` ending before
/// `s1` and `b` between `s1` and `s2`.
proof fn lemma_second_field(t: Seq<char>, s: int, s1: int, s2: int)
    requires
        0 <= s <= s1 < s2 < t.len(),
        forall|j: int| s <= j < s2 ==> !occurs_at(t, separator(), j),
        forall|j: int| s <= j < s2 && j != s1 ==> t[j] != '/',
        t[s1] == '/',
        t[s2] == '/',
    ensures
        stats_end(t, s) > s2,
        first_char_from(t, '/', s, stats_end(t, s)) == s1,
        first_char_from(t, '/', s1 + 1, stats_end(t, s)) == s2,
{
    assert(!occurs_at(t, separator(), s2)) by {
        if occurs_at(t, separator(), s2) {
            assert(t.subrange(s2, s2 + 3)[0] == t[s2]);
        }
    }
    lemma_first_after(t, separator(), s, s2);
    let e = stats_end(t, s);
    lemma_char_skip(t, '/', s, s1, e);
    lemma_char_skip(t, '/', s1 + 1, s2, e);
}

/// The positions of a report `t` that reads `min/avg/max/stddev ... = a/b/...`:
/// the header at `p`, ` = ` at `k`, and the two `/` at `s1` and `s2`.
proof fn lemma_average_at(t: Seq<char>, p: int, k: int, s1: int, s2: int, at: Timestamp)
    requires
        0 <= p,
        p + 18 <= k,
        k + 3 <= s1 < s2 < t.len(),
        t.subrange(p, p + 18) == marker(),
        t.subrange(k, k + 3) == separator(),
        forall|i: int| p < i ==> !occurs_at(t, marker(), i),
        forall|j: int| p <= j < k ==> !occurs_at(t, separator(), j),
        forall|j: int| k + 3 <= j < s2 ==> !occurs_at(t, separator(), j),
        forall|j: int| k + 3 <= j < s2 && j != s1 ==> t[j] != '/',
        t[s1] == '/',
        t[s2] == '/',
        decimal_of(t.subrange(s1 + 1, s2)) is Some,
    ensures
        parse_text(t, at) == Ok::<Measurement, ParseError>(
            Measurement { latency: decimal_of(t.subrange(s1 + 1, s2))->0, observed_at: at },
        ),
{
    lemma_header_then_separator(t, p, k);
    lemma_second_field(t, k + 3, s1, s2);
}

/// Where the pieces of `x + u + v` stand.
proof fn lemma_layout(x: Seq<char>, u: Seq<char>, v: Seq<char>)
    ensures
        (x + u + v).len() == x.len() + u.len() + v.len(),
        forall|i: int| 0 <= i < u.len() ==> (x + u + v)[x.len() + i] == #[trigger] u[i],
        forall|i: int| 0 <= i < v.len() ==> (x + u + v)[x.len() + u.len() + i] == #[trigger] v[i],
{
}

/// A report that reads `min/avg/max/stddev ... = a/b/...` after any text,
/// with no later header, and no other ` = ` after the header or in `a/b`,
/// yields the number `b`, stamped `at`.
pub proof fn lemma_average_after_last_marker(
    prefix: Seq<char>,
    mid: Seq<char>,
    a: Seq<char>,
    b: Seq<char>,
    rest: Seq<char>,
    at: Timestamp,
)
    requires
        forall|j: int|
            0 <= j < marker().len() + mid.len() ==> !occurs_at(
                marker() + mid + separator(),
                separator(),
                j,
            ),
        forall|j: int|
            0 <= j < a.len() + 1 + b.len() ==> !occurs_at(
                a + seq!['/'] + b + seq!['/'] + rest,
                separator(),
                j,
            ),
        forall|i: int| 0 <= i < a.len() ==> a[i] != '/',
        forall|i: int| 0 <= i < b.len() ==> b[i] != '/',
        decimal_of(b) is Some,
        forall|i: int|
            prefix.len() < i ==> !occurs_at(
                prefix + marker() + mid + separator() + a + seq!['/'] + b + seq!['/'] + rest,
                marker(),
                i,
            ),
    ensures
        parse_text(
            prefix + marker() + mid + separator() + a + seq!['/'] + b + seq!['/'] + rest,
            at,
        ) == Ok::<Measurement, ParseError>(Measurement { latency: decimal_of(b)->0, observed_at: at }),
{
    let t = prefix + marker() + mid + separator() + a + seq!['/'] + b + seq!['/'] + rest;
    let u = marker() + mid + separator();
    let v = a + seq!['/'] + b + seq!['/'] + rest;
    let p = prefix.len() as int;
    let k = p + 18 + mid.len();
    let s = k + 3;
    let s1 = s + a.len();
    let s2 = s1 + 1 + b.len();
    assert(marker().len() == 18 && separator().len() == 3);
    assert(t =~= prefix + u + v);
    lemma_layout(prefix, u, v);
    assert(t.subrange(p, p + 18) =~= marker());
    assert(t.subrange(k, k + 3) =~= separator());
    assert forall|j: int| p <= j < k implies !occurs_at(t, separator(), j) by {
        if occurs_at(t, separator(), j) {
            assert(t.subrange(j, j + 3) =~= u.subrange(j - p, j - p + 3));
            assert(occurs_at(u, separator(), j - p));
        }
    }
    assert forall|j: int| s <= j < s2 implies !occurs_at(t, separator(), j) by {
        if occurs_at(t, separator(), j) {
            assert(t.subrange(j, j + 3) =~= v.subrange(j - s, j - s + 3));
            assert(occurs_at(v, separator(), j - s));
        }
    }
    assert forall|j: int| s <= j < s2 && j != s1 implies t[j] != '/' by {
        if j < s1 {
            assert(v[j - s] == a[j - s]);
        } else {
            assert(v[j - s] == b[j - s1 - 1]);
        }
    }
    assert(v[a.len() as int] == '/' && v[a.len() + 1 + b.len() as int] == '/');
    assert(t.subrange(s1 + 1, s2) =~= b);
    lemma_average_at(t, p, k, s1, s2, at);
}

} // verus!
