//! Where the lines of a file are, and how large it is said to be.

use vstd::prelude::*;
use vstd::string::*;

use crate::text::{decimal, decimal_of};

verus! {

pub const LF: u8 = 10;

pub const CR: u8 = 13;

/// One line: the bytes from `start` up to `end`, without its newline or a
/// CRLF's carriage return.
#[derive(Debug, Clone, Copy, PartialEq, Eq, Structural)]
pub struct LineRange {
    pub start: usize,
    pub end: usize,
}

/// Where the next newline at or after `i` is, or the end where there is none.
pub open spec fn newline_from(body: Seq<u8>, i: int) -> int
    decreases body.len() - i,
{
    if i >= body.len() || body[i] == LF {
        i
    } else {
        newline_from(body, i + 1)
    }
}

pub proof fn lemma_newline_from(body: Seq<u8>, i: int)
    requires
        i <= body.len(),
    ensures
        i <= newline_from(body, i) <= body.len(),
        newline_from(body, i) < body.len() ==> body[newline_from(body, i)] == LF,
        forall|k: int| i <= k < newline_from(body, i) ==> #[trigger] body[k] != LF,
    decreases body.len() - i,
{
    if i < body.len() && body[i] != LF {
        lemma_newline_from(body, i + 1);
    }
}

/// Where a line ends that starts at `start` and whose newline is at `nl`: a
/// carriage return in front of the newline belongs to the ending.
pub open spec fn line_end(body: Seq<u8>, start: int, nl: int) -> int {
    if nl > start && body[nl - 1] == CR {
        nl - 1
    } else {
        nl
    }
}

/// The lines from `start` on, as pairs of where each starts and ends.
pub open spec fn lines_from(body: Seq<u8>, start: int) -> Seq<(int, int)>
    decreases body.len() - start,
    when 0 <= start
{
    if start >= body.len() {
        Seq::empty()
    } else {
        let nl = newline_from(body, start);
        proof {
            lemma_newline_from(body, start);
        }
        if nl >= body.len() {
            seq![(start, body.len() as int)]
        } else {
            seq![(start, line_end(body, start, nl))] + lines_from(body, nl + 1)
        }
    }
}

/// Line ranges as pairs of numbers.
pub open spec fn ranges_view(lines: Seq<LineRange>) -> Seq<(int, int)> {
    lines.map_values(|l: LineRange| (l.start as int, l.end as int))
}

/// Where each line starts and ends. A file ending in a newline does not have
/// one more line than it looks, the same rule the browser's gutter follows.
pub fn line_ranges(content: &str) -> (lines: Vec<LineRange>)
    ensures
        ranges_view(lines@) == lines_from(content.spec_bytes(), 0),
{
    let body: &[u8] = content.as_bytes();
    let mut lines: Vec<LineRange> = Vec::new();
    let mut start: usize = 0;
    let mut i: usize = 0;
    let ghost all = lines_from(body@, 0);
    assert(ranges_view(lines@) + lines_from(body@, 0) =~= all);
    while i < body.len()
        invariant
            start <= i <= body.len(),
            all == lines_from(body@, 0),
            ranges_view(lines@) + lines_from(body@, start as int) == all,
            newline_from(body@, start as int) == newline_from(body@, i as int),
        decreases body.len() - i,
    {
        if body[i] == LF {
            let mut end: usize = i;
            if end > start && body[end - 1] == CR {
                end -= 1;
            }
            let ghost before = ranges_view(lines@);
            lines.push(LineRange { start, end });
            start = i + 1;
            proof {
                assert(ranges_view(lines@) =~= before.push((lines@.last().start as int, end as int)));
                assert(ranges_view(lines@) + lines_from(body@, start as int) =~= all);
            }
        }
        i += 1;
    }
    if start < body.len() {
        let ghost before = ranges_view(lines@);
        lines.push(LineRange { start, end: body.len() });
        assert(ranges_view(lines@) =~= before.push((start as int, body@.len() as int)));
        assert(lines_from(body@, start as int) =~= seq![(start as int, body@.len() as int)]);
    }
    assert(ranges_view(lines@) =~= all);
    lines
}

/// How a line gives way to the next: nothing but its ending stands between.
pub open spec fn ends_with_break(body: Seq<u8>, end: int, next: int) -> bool {
    ||| end + 1 == next && body[end] == LF
    ||| end + 2 == next && body[end] == CR && body[end + 1] == LF
}

/// The lines are the whole text: the first starts it, each is followed by its
/// ending and then by the next, and the last one, with its ending or without,
/// is the end. No line holds a newline.
pub proof fn lemma_lines_are_the_text(body: Seq<u8>, start: int)
    requires
        0 <= start <= body.len(),
    ensures
        ({
            let lines = lines_from(body, start);
            &&& lines.len() == 0 <==> start == body.len()
            &&& lines.len() > 0 ==> lines[0].0 == start
            &&& lines.len() > 0 ==> (lines.last().1 == body.len() || ends_with_break(
                body,
                lines.last().1,
                body.len() as int,
            ))
            &&& forall|k: int|
                #![trigger lines[k]]
                0 <= k < lines.len() ==> {
                    &&& start <= lines[k].0 <= lines[k].1 <= body.len()
                    &&& forall|i: int| lines[k].0 <= i < lines[k].1 ==> #[trigger] body[i] != LF
                    &&& k + 1 < lines.len() ==> ends_with_break(body, lines[k].1, lines[k + 1].0)
                }
        }),
    decreases body.len() - start,
{
    if start < body.len() {
        lemma_newline_from(body, start);
        let nl = newline_from(body, start);
        let lines = lines_from(body, start);
        if nl < body.len() {
            let rest = lines_from(body, nl + 1);
            lemma_lines_are_the_text(body, nl + 1);
            assert(lines.drop_first() =~= rest);
            assert forall|k: int| #![trigger lines[k]] 0 <= k < lines.len() implies {
                &&& start <= lines[k].0 <= lines[k].1 <= body.len()
                &&& forall|i: int| lines[k].0 <= i < lines[k].1 ==> #[trigger] body[i] != LF
                &&& k + 1 < lines.len() ==> ends_with_break(body, lines[k].1, lines[k + 1].0)
            } by {
                if k > 0 {
                    assert(lines[k] == rest[k - 1]);
                    if k + 1 < lines.len() {
                        assert(lines[k + 1] == rest[k]);
                    }
                } else if 1 < lines.len() {
                    assert(lines[1] == rest[0]);
                }
            }
            if rest.len() > 0 {
                assert(lines.last() == rest.last());
            }
        }
    }
}

// -- sizes ----------------------------------------------------------------

/// The whole number nearest `a / b`, an exact half going to the even one.
pub open spec fn rounded(a: nat, b: nat) -> nat {
    let q = a / b;
    let r = a % b;
    if 2 * r > b || (2 * r == b && q % 2 == 1) {
        q + 1
    } else {
        q
    }
}

/// As many numbers as 53 bits can tell apart.
pub const EXACT: u64 = 0x20_0000_0000_0000;

/// How far apart numbers of the size of `n` are with 53 significant bits.
pub open spec fn grain(n: nat) -> nat
    decreases n,
{
    if n < EXACT {
        1
    } else {
        2 * grain(n / 2)
    }
}

/// A number to 53 significant bits.
pub open spec fn to_53_bits(n: nat) -> nat {
    rounded(n, grain(n)) * grain(n)
}

/// The unit a size is given in: how many bytes one is, and what it is called.
pub open spec fn unit_of(n: nat) -> (nat, Seq<char>) {
    if n < 0x400 {
        (1, "B"@)
    } else if n < 0x10_0000 {
        (0x400, "KB"@)
    } else if n < 0x4000_0000 {
        (0x10_0000, "MB"@)
    } else {
        (0x4000_0000, "GB"@)
    }
}

/// A size as it is written: bytes as they are counted, anything larger to the
/// nearest tenth.
pub open spec fn size_text(n: nat) -> Seq<char> {
    let unit = unit_of(n);
    if n < 0x400 {
        decimal(n) + " "@ + unit.1
    } else {
        let tenths = rounded(to_53_bits(n) * 10, unit.0);
        decimal(tenths / 10) + "."@ + decimal(tenths % 10) + " "@ + unit.1
    }
}

/// The whole number nearest `a / b`.
fn nearest(a: u128, b: u128) -> (q: u128)
    requires
        b > 0,
        a / b < u128::MAX,
        b <= 0x4000_0000,
    ensures
        q == rounded(a as nat, b as nat),
{
    let q: u128 = a / b;
    let r: u128 = a % b;
    if 2 * r > b || (2 * r == b && q % 2 == 1) {
        q + 1
    } else {
        q
    }
}

/// How far apart numbers of this size are with 53 significant bits.
fn grain_of(n: u64) -> (g: u64)
    ensures
        g == grain(n as nat),
        1 <= g,
        g == 1 || g * 0x10_0000_0000_0000 <= n,
    decreases n,
{
    if n < EXACT {
        1
    } else {
        2 * grain_of(n / 2)
    }
}

/// A size, in the unit that suits it.
pub fn bytes(n: u64) -> (s: String)
    ensures
        s@ == size_text(n as nat),
{
    if n < 0x400 {
        let mut s: String = decimal_of(n);
        s.append(" ");
        s.append("B");
        return s;
    }
    let g: u64 = grain_of(n);
    let q: u128 = nearest(n as u128, g as u128);
    proof {
        let d = n as int / g as int;
        assert(d * g <= n) by (nonlinear_arith)
            requires
                d == n as int / g as int,
                g > 0,
        ;
        assert((d + 1) * g == d * g + g) by (nonlinear_arith);
        assert(q * g <= (d + 1) * g) by (nonlinear_arith)
            requires
                q <= d + 1,
                g > 0,
        ;
    }
    let value: u128 = q * g as u128;
    let unit: u128;
    let name: &str;
    if n < 0x10_0000 {
        unit = 0x400;
        name = "KB";
    } else if n < 0x4000_0000 {
        unit = 0x10_0000;
        name = "MB";
    } else {
        unit = 0x4000_0000;
        name = "GB";
    }
    let tenths: u128 = nearest(value * 10, unit);
    let mut s: String = decimal_of((tenths / 10) as u64);
    s.append(".");
    s.append(decimal_of((tenths % 10) as u64).as_str());
    s.append(" ");
    s.append(name);
    s
}

// -- laws -----------------------------------------------------------------

/// A carriage return in front of a newline belongs to the ending, and never to
/// the line.
pub proof fn lemma_carriage_returns_belong_to_the_ending(body: Seq<u8>, start: int, k: int)
    requires
        0 <= start <= body.len(),
        0 <= k < lines_from(body, start).len(),
    ensures
        ({
            let line = lines_from(body, start)[k];
            &&& line.1 < body.len() && body[line.1] == 10 && line.1 > line.0 ==> body[line.1 - 1] != 13
            &&& line.1 < body.len() ==> body[line.1] == 10 || (body[line.1] == 13 && line.1 + 1 < body.len() && body[line.1 + 1] == 10)
        }),
    decreases body.len() - start,
{
    lemma_newline_from(body, start);
    let nl = newline_from(body, start);
    if nl < body.len() && k > 0 {
        assert(lines_from(body, start)[k] == lines_from(body, nl + 1)[k - 1]);
        lemma_carriage_returns_belong_to_the_ending(body, nl + 1, k - 1);
    }
}

/// What is between two whole numbers goes to the nearer one, and what is half
/// way to the even one.
pub proof fn lemma_rounding_goes_to_the_nearest(a: nat, b: nat)
    requires
        b > 0,
    ensures
        ({
            let q = rounded(a, b) as int;
            &&& 2 * (a - q * b) <= b
            &&& 2 * (q * b - a) <= b
            &&& 2 * (a - q * b) == b || 2 * (q * b - a) == b ==> q % 2 == 0
        }),
{
    let q = a / b;
    let r = a % b;
    assert(a == q * b + r && 0 <= r < b) by (nonlinear_arith)
        requires
            b > 0,
            q == a / b,
            r == a % b,
    ;
    assert((q + 1) * b == q * b + b) by (nonlinear_arith);
}

/// Numbers of fifty-three bits are taken as they are, and larger ones to a step
/// that leaves them fifty-three.
pub proof fn lemma_how_far_apart_numbers_are(n: nat)
    ensures
        n < 0x20_0000_0000_0000 ==> grain(n) == 1 && to_53_bits(n) == n,
        n >= 0x20_0000_0000_0000 ==> grain(n) >= 2 && 0x10_0000_0000_0000 * grain(n) <= n < 0x20_0000_0000_0000 * grain(n),
    decreases n,
{
    if n < 0x20_0000_0000_0000 {
        assert(n / 1 == n && n % 1 == 0);
        assert(rounded(n, 1) * 1 == rounded(n, 1));
    } else {
        lemma_how_far_apart_numbers_are(n / 2);
    }
}

/// A size is said in bytes up to a thousand and twenty-four of them, and above
/// that in the largest of kilobytes, megabytes and gigabytes that there is one
/// of, to the nearest tenth.
pub proof fn lemma_sizes_are_said_to_the_nearest_tenth(n: nat, unit: nat, name: Seq<char>)
    requires
        n < 0x20_0000_0000_0000,
        unit == 0x400 && name == "KB"@ && 0x400 <= n < 0x10_0000 || unit == 0x10_0000 && name == "MB"@ && 0x10_0000 <= n
            < 0x4000_0000 || unit == 0x4000_0000 && name == "GB"@ && 0x4000_0000 <= n,
    ensures
        exists|tenths: nat|
            {
                &&& size_text(n) == #[trigger] decimal(tenths / 10) + "."@ + decimal(tenths % 10) + " "@ + name
                &&& 2 * (10 * n - tenths * unit) <= unit
                &&& 2 * (tenths * unit - 10 * n) <= unit
            },
{
    lemma_how_far_apart_numbers_are(n);
    let tenths = rounded(n * 10, unit);
    lemma_rounding_goes_to_the_nearest(n * 10, unit);
    assert(size_text(n) == decimal(tenths / 10) + "."@ + decimal(tenths % 10) + " "@ + name);
}

/// Small sizes are said byte for byte.
pub proof fn lemma_small_sizes_are_counted(n: nat)
    requires
        n < 1024,
    ensures
        size_text(n) == decimal(n) + " B"@,
{
    reveal_strlit(" B");
    reveal_strlit(" ");
    reveal_strlit("B");
    assert(decimal(n) + " "@ + "B"@ =~= decimal(n) + " B"@);
}

} // verus!
