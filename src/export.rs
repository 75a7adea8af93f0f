use vstd::prelude::*;

use crate::measurement::Latency;

verus! {

/// Why an export was refused.
#[derive(PartialEq, Eq, Structural, Clone, Copy, Debug)]
pub enum ExportError {
    /// Something already stands at the destination; it is never overwritten.
    DestinationAlreadyExists,
}

pub open spec fn digit_char(d: int) -> char {
    if d == 0 {
        '0'
    } else if d == 1 {
        '1'
    } else if d == 2 {
        '2'
    } else if d == 3 {
        '3'
    } else if d == 4 {
        '4'
    } else if d == 5 {
        '5'
    } else if d == 6 {
        '6'
    } else if d == 7 {
        '7'
    } else if d == 8 {
        '8'
    } else {
        '9'
    }
}

/// The decimal digits of `n`, without leading zeros (`0` for zero).
pub open spec fn digits_of(n: nat) -> Seq<char>
    decreases n,
{
    if n < 10 {
        seq![digit_char(n as int)]
    } else {
        digits_of(n / 10).push(digit_char(n as int % 10))
    }
}

/// `s` with zeros put in front until it is `w` long.
pub open spec fn pad_zeros(s: Seq<char>, w: nat) -> Seq<char>
    decreases w - s.len(),
{
    if s.len() >= w {
        s
    } else {
        pad_zeros(seq!['0'] + s, w)
    }
}

/// `s` without its trailing zeros.
pub open spec fn strip_zeros(s: Seq<char>) -> Seq<char>
    decreases s.len(),
{
    if s.len() > 0 && s.last() == '0' {
        strip_zeros(s.drop_last())
    } else {
        s
    }
}

/// The shortest decimal text of a latency: its integer part, then, where the
/// fraction is not zero, a `.` and the fraction without trailing zeros.
pub open spec fn latency_text(l: Latency) -> Seq<char> {
    let ds = pad_zeros(digits_of(l.units as nat), (l.scale + 1) as nat);
    let cut = ds.len() - l.scale;
    let ip = ds.subrange(0, cut);
    let fp = strip_zeros(ds.subrange(cut, ds.len() as int));
    if fp.len() == 0 {
        ip
    } else {
        ip + seq!['.'] + fp
    }
}

/// The export of `vs`: one latency per line, with no newline after the last.
pub open spec fn export_text(vs: Seq<Latency>) -> Seq<char>
    decreases vs.len(),
{
    if vs.len() == 0 {
        Seq::empty()
    } else if vs.len() == 1 {
        latency_text(vs[0])
    } else {
        export_text(vs.drop_last()) + seq!['\n'] + latency_text(vs.last())
    }
}

fn digit_char_exec(d: u64) -> (r: char)
    ensures
        r == digit_char(d as int),
{
    if d == 0 {
        '0'
    } else if d == 1 {
        '1'
    } else if d == 2 {
        '2'
    } else if d == 3 {
        '3'
    } else if d == 4 {
        '4'
    } else if d == 5 {
        '5'
    } else if d == 6 {
        '6'
    } else if d == 7 {
        '7'
    } else if d == 8 {
        '8'
    } else {
        '9'
    }
}

fn digits_exec(n: u64) -> (r: Vec<char>)
    ensures
        r@ == digits_of(n as nat),
{
    let mut acc: Vec<char> = Vec::new();
    let mut cur: u64 = n;
    loop
        invariant
            digits_of(n as nat) == digits_of(cur as nat) + acc@,
        decreases cur,
    {
        let ghost before = acc@;
        acc.insert(0, digit_char_exec(cur % 10));
        if cur < 10 {
            assert(acc@ =~= digits_of(cur as nat) + before);
            return acc;
        }
        assert(digits_of(cur as nat) + before =~= digits_of((cur / 10) as nat) + acc@);
        cur = cur / 10;
    }
}

fn latency_chars(l: Latency) -> (r: Vec<char>)
    ensures
        r@ == latency_text(l),
{
    let mut ds = digits_exec(l.units);
    let ghost w = (l.scale + 1) as nat;
    let ghost d0 = ds@;
    while ds.len() <= l.scale
        invariant
            pad_zeros(ds@, w) == pad_zeros(d0, w),
            w == l.scale + 1,
        decreases w - ds@.len(),
    {
        let ghost before = ds@;
        ds.insert(0, '0');
        assert(ds@ =~= seq!['0'] + before);
    }
    let ghost padded = ds@;
    let n = ds.len();
    let cut = n - l.scale;
    let mut e: usize = n;
    while e > cut && ds[e - 1] == '0'
        invariant
            cut <= e <= n == ds@.len(),
            strip_zeros(ds@.subrange(cut as int, e as int)) == strip_zeros(
                ds@.subrange(cut as int, n as int),
            ),
        decreases e,
    {
        assert(ds@.subrange(cut as int, e as int).drop_last() =~= ds@.subrange(cut as int, e - 1));
        e -= 1;
    }
    let mut out: Vec<char> = Vec::new();
    let mut i: usize = 0;
    while i < cut
        invariant
            cut <= n == ds@.len(),
            i <= cut,
            out@ == ds@.subrange(0, i as int),
        decreases cut - i,
    {
        out.push(ds[i]);
        i += 1;
    }
    if e > cut {
        out.push('.');
        let mut j: usize = cut;
        while j < e
            invariant
                cut <= j <= e <= n == ds@.len(),
                out@ == ds@.subrange(0, cut as int) + seq!['.'] + ds@.subrange(cut as int, j as int),
            decreases e - j,
        {
            out.push(ds[j]);
            j += 1;
            assert(out@ =~= ds@.subrange(0, cut as int) + seq!['.'] + ds@.subrange(cut as int, j as int));
        }
    }
    assert(ds@.subrange(cut as int, n as int).len() > 0 && e == cut ==> strip_zeros(ds@.subrange(cut as int, e as int)).len() == 0);
    assert(e > cut ==> strip_zeros(ds@.subrange(cut as int, e as int)) == ds@.subrange(cut as int, e as int));
    out
}

/// Relies on std's `FromIterator<char>` for `String`: the string of the
/// characters handed over, in order.
#[verifier::external_body]
fn string_of_chars(v: &Vec<char>) -> (r: String)
    ensures
        r@ == v@,
{
    v.iter().collect()
}

/// The export text of `values`: one latency per line, each in its shortest
/// decimal form.
pub fn export_lines(values: &Vec<Latency>) -> (r: String)
    ensures
        r@ == export_text(values@),
{
    let mut out: Vec<char> = Vec::new();
    let mut i: usize = 0;
    while i < values.len()
        invariant
            i <= values@.len(),
            out@ == export_text(values@.subrange(0, i as int)),
        decreases values@.len() - i,
    {
        let ghost prev = values@.subrange(0, i as int);
        let ghost next = values@.subrange(0, i + 1);
        assert(next.drop_last() =~= prev);
        if i > 0 {
            out.push('\n');
        }
        let mut piece = latency_chars(values[i]);
        out.append(&mut piece);
        assert(out@ =~= export_text(next));
        i += 1;
    }
    assert(values@.subrange(0, values@.len() as int) =~= values@);
    string_of_chars(&out)
}

/// Decides an export of `values` to a destination: refused where something
/// already stands there, else the text to write.
pub fn export_to_csv(destination_exists: bool, values: &Vec<Latency>) -> (r: Result<
    String,
    ExportError,
>)
    ensures
        destination_exists ==> r == Err::<String, ExportError>(ExportError::DestinationAlreadyExists),
        !destination_exists ==> (r matches Ok(s) && s@ == export_text(values@)),
{
    if destination_exists {
        return Err(ExportError::DestinationAlreadyExists);
    }
    Ok(export_lines(values))
}

} // verus!
