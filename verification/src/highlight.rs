//! Syntax coloring, by asking `bat` for it.
//!
//! treex links no highlighting engine. Whatever `bat` is already on the machine
//! is fed the file on stdin and the colors are read back out of the ANSI it
//! prints, so the user's own `bat` theme, syntax mappings and config are what
//! both views show, and a machine without `bat` simply shows plain text.
//!
//! The output is checked against the text already read: [`paint`] returns
//! `None` unless what `bat` printed is the same bytes. Anything else (a `bat`
//! that expands tabs, a config that turns on line numbers, a different program
//! called `bat`) falls back to no coloring rather than coloring the wrong
//! characters.

use vstd::prelude::*;
use vstd::string::*;
use vstd::utf8::*;

use crate::text::{lemma_split_joined, parse_uint, split_bytes, split_on, starts_with, uint_of, views};

verus! {

/// A foreground color as the terminal expresses it.
#[derive(Debug, Clone, Copy, PartialEq, Eq, Hash, Structural)]
pub enum Color {
    Rgb(u8, u8, u8),
    /// One of the terminal's own 256 colors.
    Indexed(u8),
}

#[derive(Debug, Clone, Copy, PartialEq, Eq, Hash, Structural)]
pub struct Style {
    pub fg: Option<Color>,
    pub bold: bool,
    pub dim: bool,
    pub italic: bool,
    pub underline: bool,
}

/// Nothing about the text is special.
pub open spec fn plain() -> Style {
    Style { fg: None, bold: false, dim: false, italic: false, underline: false }
}

impl Default for Style {
    fn default() -> (s: Style)
        ensures
            s == plain(),
    {
        Style { fg: None, bold: false, dim: false, italic: false, underline: false }
    }
}

/// Whether two colors are one.
fn same_color(a: Option<Color>, b: Option<Color>) -> (r: bool)
    ensures
        r == (a == b),
{
    match (a, b) {
        (None, None) => true,
        (Some(x), Some(y)) => x == y,
        _ => false,
    }
}

/// Whether two styles are one.
fn same_style(a: &Style, b: &Style) -> (r: bool)
    ensures
        r == (*a == *b),
{
    same_color(a.fg, b.fg) && a.bold == b.bold && a.dim == b.dim && a.italic == b.italic && a.underline
        == b.underline
}

impl Style {
    pub fn is_plain(&self) -> (r: bool)
        ensures
            r == (*self == plain()),
    {
        same_style(self, &Style::default())
    }
}

/// A styled stretch of the file, as a byte range into the content painted.
///
/// Ranges rather than copies: the caller already holds the text, and a second
/// copy of a megabyte to say what color it is would be the largest allocation
/// in the program.
#[derive(Debug, Clone, Copy, PartialEq, Eq)]
pub struct Run {
    pub start: usize,
    pub end: usize,
    pub style: Style,
}

/// Files above this are shown without coloring.
///
/// Measured with bat 0.24: 64 KiB takes 61 ms, 256 KiB 203 ms, 1 MiB 804 ms, and
/// the browser has to build a DOM node per run, of which a megabyte of Rust
/// produces about 240,000. The preview limit is 1 MiB, so a file between the two
/// is read but not colored.
pub const MAX_BYTES: usize = 256 * 1024;

pub const ESC: u8 = 0x1b;

// -- the palette ----------------------------------------------------------

/// How bright step `n` of the color cube is.
pub open spec fn cube_level(n: int) -> int {
    if n == 0 {
        0
    } else {
        55 + n * 40
    }
}

/// The first sixteen colors. They are a terminal's own and only ever an
/// approximation.
pub open spec fn basic_rgb(i: int) -> (int, int, int) {
    if i == 0 {
        (0, 0, 0)
    } else if i == 1 {
        (205, 49, 49)
    } else if i == 2 {
        (13, 188, 121)
    } else if i == 3 {
        (229, 229, 16)
    } else if i == 4 {
        (36, 114, 200)
    } else if i == 5 {
        (188, 63, 188)
    } else if i == 6 {
        (17, 168, 205)
    } else if i == 7 {
        (229, 229, 229)
    } else if i == 8 {
        (102, 102, 102)
    } else if i == 9 {
        (241, 76, 76)
    } else if i == 10 {
        (35, 209, 139)
    } else if i == 11 {
        (245, 245, 67)
    } else if i == 12 {
        (59, 142, 234)
    } else if i == 13 {
        (214, 112, 214)
    } else if i == 14 {
        (41, 184, 219)
    } else {
        (255, 255, 255)
    }
}

/// The xterm 256-color palette: sixteen basic colors, a cube of six levels a
/// side, and a ramp of greys.
pub open spec fn xterm_rgb(i: int) -> (int, int, int) {
    if i < 16 {
        basic_rgb(i)
    } else if i < 232 {
        (cube_level((i - 16) / 36), cube_level(((i - 16) / 6) % 6), cube_level((i - 16) % 6))
    } else {
        (8 + (i - 232) * 10, 8 + (i - 232) * 10, 8 + (i - 232) * 10)
    }
}

/// How bright step `n` of the color cube is.
fn level_of(n: u8) -> (v: u8)
    requires
        n < 6,
    ensures
        v == cube_level(n as int),
{
    if n == 0 {
        0
    } else {
        55 + n * 40
    }
}

/// The xterm 256-color palette. The first sixteen are a terminal's own and
/// only ever an approximation; the rest are defined exactly.
pub fn indexed_rgb(i: u8) -> (c: (u8, u8, u8))
    ensures
        (c.0 as int, c.1 as int, c.2 as int) == xterm_rgb(i as int),
{
    if i < 16 {
        match i {
            0 => (0, 0, 0),
            1 => (205, 49, 49),
            2 => (13, 188, 121),
            3 => (229, 229, 16),
            4 => (36, 114, 200),
            5 => (188, 63, 188),
            6 => (17, 168, 205),
            7 => (229, 229, 229),
            8 => (102, 102, 102),
            9 => (241, 76, 76),
            10 => (35, 209, 139),
            11 => (245, 245, 67),
            12 => (59, 142, 234),
            13 => (214, 112, 214),
            14 => (41, 184, 219),
            _ => (255, 255, 255),
        }
    } else if i < 232 {
        let n: u8 = i - 16;
        (level_of(n / 36), level_of((n / 6) % 6), level_of(n % 6))
    } else {
        let v: u8 = 8 + (i - 232) * 10;
        (v, v, v)
    }
}

impl Color {
    /// The color as 24-bit RGB, resolving an indexed color through the xterm
    /// palette. The browser has no notion of "color 12", so something has to.
    pub fn rgb(self) -> (c: (u8, u8, u8))
        ensures
            match self {
                Color::Rgb(r, g, b) => c == (r, g, b),
                Color::Indexed(i) => (c.0 as int, c.1 as int, c.2 as int) == xterm_rgb(i as int),
            },
    {
        match self {
            Color::Rgb(r, g, b) => (r, g, b),
            Color::Indexed(i) => indexed_rgb(i),
        }
    }
}

// -- reading ANSI ---------------------------------------------------------

/// The parameter at `k` and where the next one is; nothing, and no further on,
/// where the list is over. One that cannot be read ends the list: what comes
/// after it cannot be read positionally either.
pub open spec fn param(ps: Seq<Option<u16>>, k: int) -> (Option<u16>, int) {
    if 0 <= k < ps.len() {
        match ps[k] {
            Some(n) => (Some(n), k + 1),
            None => (None, ps.len() as int),
        }
    } else {
        (None, k)
    }
}

/// What is left of a parameter once it is one byte.
pub open spec fn low_byte(n: u16) -> u8 {
    (n % 256) as u8
}

/// The color that the parameters from `k` on spell, and where they end: `5` and
/// an index, or `2` and three levels.
pub open spec fn spelled_color(ps: Seq<Option<u16>>, k: int) -> (Option<Color>, int) {
    let (form, a) = param(ps, k);
    if form == Some(5u16) {
        let (v, b) = param(ps, a);
        match v {
            Some(v) => (Some(Color::Indexed(low_byte(v))), b),
            None => (None, b),
        }
    } else if form == Some(2u16) {
        let (red, b) = param(ps, a);
        match red {
            None => (None, b),
            Some(red) => {
                let (green, c) = param(ps, b);
                match green {
                    None => (None, c),
                    Some(green) => {
                        let (blue, d) = param(ps, c);
                        match blue {
                            None => (None, d),
                            Some(blue) => (
                                Some(Color::Rgb(low_byte(red), low_byte(green), low_byte(blue))),
                                d,
                            ),
                        }
                    },
                }
            },
        }
    } else {
        (None, a)
    }
}

/// What one parameter that takes no others does to a style.
pub open spec fn styled_by(st: Style, n: u16) -> Style {
    if n == 0 {
        plain()
    } else if n == 1 {
        Style { bold: true, ..st }
    } else if n == 2 {
        Style { dim: true, ..st }
    } else if n == 3 {
        Style { italic: true, ..st }
    } else if n == 4 {
        Style { underline: true, ..st }
    } else if n == 22 {
        Style { bold: false, dim: false, ..st }
    } else if n == 23 {
        Style { italic: false, ..st }
    } else if n == 24 {
        Style { underline: false, ..st }
    } else if 30 <= n <= 37 {
        Style { fg: Some(Color::Indexed((n - 30) as u8)), ..st }
    } else if 90 <= n <= 97 {
        Style { fg: Some(Color::Indexed((n - 90 + 8) as u8)), ..st }
    } else if n == 39 {
        Style { fg: None, ..st }
    } else {
        st
    }
}

/// What the parameters from `k` on do to a style. `38` sets the color that the
/// ones after it spell, and `48` takes such a color off the list without using
/// it; one that is not a number ends the reading, inside a color too.
pub open spec fn styled(ps: Seq<Option<u16>>, k: int, st: Style) -> Style
    decreases ps.len() - k,
{
    if k < 0 || k >= ps.len() {
        st
    } else {
        match ps[k] {
            None => st,
            Some(n) => if n == 38 {
                let (c, next) = spelled_color(ps, k + 1);
                styled(ps, next, Style { fg: c, ..st })
            } else if n == 48 {
                styled(ps, spelled_color(ps, k + 1).1, st)
            } else {
                styled(ps, k + 1, styled_by(st, n))
            },
        }
    }
}

/// One parameter: a number, or nothing at all for zero.
pub open spec fn param_of(part: Seq<u8>) -> Option<u16> {
    if part.len() == 0 {
        Some(0)
    } else {
        match uint_of(part, 65535) {
            Some(n) => Some(n as u16),
            None => None,
        }
    }
}

/// The parameters of an SGR sequence.
pub open spec fn params_of(bytes: Seq<u8>) -> Seq<Option<u16>> {
    split_on(bytes, 59).map_values(|p: Seq<u8>| param_of(p))
}

/// The first byte from `j` on that ends a control sequence, or the end.
pub open spec fn control_end(out: Seq<u8>, j: int) -> int
    decreases out.len() - j,
{
    if j >= out.len() || 0x40 <= out[j] <= 0x7e {
        j
    } else {
        control_end(out, j + 1)
    }
}

/// Where a command string that is still open at `j` ends: at BEL, or at ESC and
/// a backslash.
pub open spec fn string_end(out: Seq<u8>, j: int) -> Option<int>
    decreases out.len() - j,
{
    if j >= out.len() {
        None
    } else if out[j] == 0x07 {
        Some(j + 1)
    } else if out[j] == ESC && j + 1 < out.len() && out[j + 1] == 92 {
        Some(j + 2)
    } else {
        string_end(out, j + 1)
    }
}

/// Where the escape sequence at `i` ends, or `None` where it does not.
pub open spec fn escape_end(out: Seq<u8>, i: int) -> Option<int> {
    if i + 1 >= out.len() {
        None
    } else if out[i + 1] == 91 {
        let j = control_end(out, i + 2);
        if j < out.len() {
            Some(j + 1)
        } else {
            None
        }
    } else if out[i + 1] == 93 {
        string_end(out, i + 2)
    } else {
        Some(i + 2)
    }
}

/// What the escape sequence at `i` does to a style: nothing, unless it is an
/// SGR one.
pub open spec fn escape_style(out: Seq<u8>, i: int, st: Style) -> Style {
    let j = control_end(out, i + 2);
    if i + 1 < out.len() && out[i + 1] == 91 && j < out.len() && out[j] == 109 {
        styled(params_of(out.subrange(i + 2, j)), 0, st)
    } else {
        st
    }
}

proof fn lemma_control_end(out: Seq<u8>, j: int)
    requires
        0 <= j <= out.len(),
    ensures
        j <= control_end(out, j) <= out.len(),
    decreases out.len() - j,
{
    if j < out.len() && !(0x40 <= out[j] <= 0x7e) {
        lemma_control_end(out, j + 1);
    }
}

proof fn lemma_string_end(out: Seq<u8>, j: int)
    requires
        0 <= j <= out.len(),
    ensures
        string_end(out, j) matches Some(e) ==> j < e <= out.len(),
    decreases out.len() - j,
{
    if j < out.len() && out[j] != 0x07 && !(out[j] == ESC && j + 1 < out.len() && out[j + 1] == 92) {
        lemma_string_end(out, j + 1);
    }
}

pub proof fn lemma_escape_end(out: Seq<u8>, i: int)
    requires
        0 <= i < out.len(),
    ensures
        escape_end(out, i) matches Some(e) ==> i < e <= out.len(),
{
    if i + 1 < out.len() {
        lemma_control_end(out, i + 2);
        lemma_string_end(out, i + 2);
    }
}

/// A byte of text and the style it is printed in.
pub struct Cell {
    pub byte: u8,
    pub style: Style,
}

/// What is printed from `i` on in a terminal that is set to `st`: every byte of
/// text with its style, or `None` where an escape sequence never ends.
pub open spec fn printed(out: Seq<u8>, i: int, st: Style) -> Option<Seq<Cell>>
    decreases out.len() - i,
    when 0 <= i <= out.len()
{
    if i >= out.len() {
        Some(Seq::empty())
    } else if out[i] == ESC {
        proof {
            lemma_escape_end(out, i);
        }
        match escape_end(out, i) {
            Some(e) => printed(out, e, escape_style(out, i, st)),
            None => None,
        }
    } else {
        match printed(out, i + 1, st) {
            Some(rest) => Some(seq![Cell { byte: out[i], style: st }] + rest),
            None => None,
        }
    }
}

/// Reads one parameter.
fn read_param(part: &Vec<u8>) -> (p: Option<u16>)
    ensures
        p == param_of(part@),
{
    if part.len() == 0 {
        Some(0)
    } else {
        match parse_uint(part.as_slice(), 65535) {
            Some(n) => Some(n as u16),
            None => None,
        }
    }
}

/// Takes one parameter off the list.
fn next_param(ps: &Vec<Option<u16>>, k: &mut usize) -> (p: Option<u16>)
    requires
        *old(k) <= ps@.len(),
    ensures
        (p, *final(k) as int) == param(ps@, *old(k) as int),
        *final(k) <= ps@.len(),
{
    if *k < ps.len() {
        let p: Option<u16> = ps[*k];
        *k = if p.is_some() { *k + 1 } else { ps.len() };
        p
    } else {
        None
    }
}

fn byte_of(n: u16) -> (b: u8)
    ensures
        b == low_byte(n),
{
    (n % 256) as u8
}

/// Takes a color off the list.
fn color(ps: &Vec<Option<u16>>, k: &mut usize) -> (c: Option<Color>)
    requires
        *old(k) <= ps@.len(),
    ensures
        (c, *final(k) as int) == spelled_color(ps@, *old(k) as int),
        *old(k) <= *final(k) <= ps@.len(),
{
    match next_param(ps, k) {
        Some(5) => match next_param(ps, k) {
            Some(v) => Some(Color::Indexed(byte_of(v))),
            None => None,
        },
        Some(2) => {
            let red: u16 = match next_param(ps, k) {
                Some(v) => v,
                None => {
                    return None;
                }
            };
            let green: u16 = match next_param(ps, k) {
                Some(v) => v,
                None => {
                    return None;
                }
            };
            let blue: u16 = match next_param(ps, k) {
                Some(v) => v,
                None => {
                    return None;
                }
            };
            Some(Color::Rgb(byte_of(red), byte_of(green), byte_of(blue)))
        }
        _ => None,
    }
}

/// Applies an SGR sequence with these parameters.
fn sgr(params: &[u8], style: &mut Style)
    ensures
        *final(style) == styled(params_of(params@), 0, *old(style)),
{
    let parts: Vec<Vec<u8>> = split_bytes(params, 59);
    let mut ps: Vec<Option<u16>> = Vec::new();
    let mut i: usize = 0;
    while i < parts.len()
        invariant
            i <= parts@.len(),
            ps@.len() == i,
            forall|k: int| #![trigger ps@[k]] 0 <= k < i ==> ps@[k] == param_of(parts@[k]@),
        decreases parts.len() - i,
    {
        ps.push(read_param(&parts[i]));
        i += 1;
    }
    assert(ps@ =~= params_of(params@)) by {
        assert(views(parts@) == split_on(params@, 59));
        assert(views(parts@).len() == parts@.len());
        assert forall|k: int| 0 <= k < ps@.len() implies ps@[k] == params_of(params@)[k] by {
            assert(views(parts@)[k] == parts@[k]@);
        }
    }
    let mut k: usize = 0;
    while k < ps.len()
        invariant
            k <= ps@.len(),
            ps@ == params_of(params@),
            styled(ps@, k as int, *style) == styled(ps@, 0, *old(style)),
        decreases ps.len() - k,
    {
        let n: u16 = match ps[k] {
            Some(n) => n,
            // One that cannot be read means the rest cannot be read
            // positionally either, since 38 and 48 take theirs from this list.
            None => {
                return ;
            }
        };
        k = k + 1;
        if n == 38 {
            let c: Option<Color> = color(&ps, &mut k);
            style.fg = c;
        } else if n == 48 {
            // A background is not used, but its parameters still have to be
            // taken off the list.
            let _ = color(&ps, &mut k);
        } else if n == 0 {
            *style = Style::default();
        } else if n == 1 {
            style.bold = true;
        } else if n == 2 {
            style.dim = true;
        } else if n == 3 {
            style.italic = true;
        } else if n == 4 {
            style.underline = true;
        } else if n == 22 {
            style.bold = false;
            style.dim = false;
        } else if n == 23 {
            style.italic = false;
        } else if n == 24 {
            style.underline = false;
        } else if 30 <= n && n <= 37 {
            style.fg = Some(Color::Indexed((n - 30) as u8));
        } else if 90 <= n && n <= 97 {
            style.fg = Some(Color::Indexed((n - 90 + 8) as u8));
        } else if n == 39 {
            style.fg = None;
        }
    }
}

/// Consumes the escape sequence at `i`, applying it if it is an SGR one.
/// Returns the index just past it.
fn escape(out: &[u8], i: usize, style: &mut Style) -> (r: Option<usize>)
    requires
        i < out@.len(),
    ensures
        match r {
            Some(e) => escape_end(out@, i as int) == Some(e as int),
            None => escape_end(out@, i as int) is None,
        },
        r is Some ==> *final(style) == escape_style(out@, i as int, *old(style)),
        r matches Some(e) ==> i < e <= out@.len(),
{
    proof {
        lemma_escape_end(out@, i as int);
    }
    if out.len() - i < 2 {
        return None;
    }
    let kind: u8 = out[i + 1];
    if kind == 91 {
        let mut j: usize = i + 2;
        while j < out.len() && !(0x40 <= out[j] && out[j] <= 0x7e)
            invariant
                i + 2 <= j <= out@.len(),
                control_end(out@, i + 2) == control_end(out@, j as int),
            decreases out.len() - j,
        {
            j += 1;
        }
        if j >= out.len() {
            return None;
        }
        if out[j] == 109 {
            let params: &[u8] = vstd::slice::slice_subrange(out, i + 2, j);
            sgr(params, style);
        }
        Some(j + 1)
    } else if kind == 93 {
        let mut j: usize = i + 2;
        while j < out.len()
            invariant
                i + 2 <= j <= out@.len(),
                i + 1 < out@.len(),
                out@[i + 1] == 93,
                string_end(out@, i + 2) == string_end(out@, j as int),
                *style == *old(style),
            decreases out.len() - j,
        {
            if out[j] == 0x07 {
                return Some(j + 1);
            }
            if out[j] == ESC && out.len() - j >= 2 && out[j + 1] == 92 {
                return Some(j + 2);
            }
            j += 1;
        }
        None
    } else {
        Some(i + 2)
    }
}

// -- runs -----------------------------------------------------------------

/// The runs tile the text: they start at its beginning, each starts where the
/// one before it ends, the last ends where the text does, every byte has its
/// run's style, and no two in a row have the same one.
pub open spec fn tiles(runs: Seq<Run>, cells: Seq<Cell>) -> bool {
    &&& runs.len() == 0 <==> cells.len() == 0
    &&& runs.len() > 0 ==> runs[0].start == 0 && runs[runs.len() - 1].end == cells.len()
    &&& forall|k: int| #![trigger runs[k]] 0 <= k < runs.len() ==> runs[k].start < runs[k].end <= cells.len()
    &&& forall|k: int, p: int|
        #![trigger runs[k], cells[p]]
        0 <= k < runs.len() && runs[k].start <= p < runs[k].end ==> cells[p].style == runs[k].style
    &&& forall|a: int, b: int|
        #![trigger runs[a], runs[b]]
        0 <= a < runs.len() && b == a + 1 && b < runs.len() ==> runs[a].end == runs[b].start && runs[a].style
            != runs[b].style
}

/// Appends a run, extending the last one when the style has not changed.
/// `bat` resets and re-sets the color around every token, so without this a
/// line of ordinary punctuation is a dozen runs saying the same thing.
fn push(runs: &mut Vec<Run>, start: usize, end: usize, style: Style, Ghost(done): Ghost<Seq<Cell>>, Ghost(more): Ghost<Seq<Cell>>)
    requires
        tiles(old(runs)@, done),
        done.len() == start,
        start + more.len() == end,
        forall|p: int| #![trigger more[p]] 0 <= p < more.len() ==> more[p].style == style,
    ensures
        tiles(final(runs)@, done + more),
{
    let ghost before = runs@;
    if start == end {
        assert(done + more =~= done);
        return ;
    }
    let n: usize = runs.len();
    let joins: bool = n > 0 && same_style(&runs[n - 1].style, &style);
    if joins {
        let mut last: Run = runs[n - 1];
        last.end = end;
        runs[n - 1] = last;
    } else {
        runs.push(Run { start, end, style });
    }
    proof {
        let all = done + more;
        let now = runs@;
        assert forall|k: int, p: int| #![trigger now[k], all[p]] 0 <= k < now.len() && now[k].start <= p < now[k].end implies all[p].style
            == now[k].style by {
            if k < before.len() && p < before[k].end {
                assert(all[p] == done[p]);
                assert(before[k].start <= p < before[k].end);
            } else {
                assert(all[p] == more[p - start]);
            }
        }
        assert forall|a: int, b: int| #![trigger now[a], now[b]] 0 <= a < now.len() && b == a + 1 && b < now.len() implies now[a].end
            == now[b].start && now[a].style != now[b].style by {
            if b < before.len() {
                assert(before[a].end == before[b].start);
            }
        }
    }
}

/// The text of some cells.
pub open spec fn bytes_of(cells: Seq<Cell>) -> Seq<u8> {
    cells.map_values(|c: Cell| c.byte)
}

/// Text printed in one style.
spec fn in_style(bytes: Seq<u8>, style: Style) -> Seq<Cell> {
    bytes.map_values(|b: u8| Cell { byte: b, style })
}

proof fn lemma_print_chunk(out: Seq<u8>, i: int, j: int, st: Style)
    requires
        0 <= i <= j <= out.len(),
        forall|k: int| #![trigger out[k]] i <= k < j ==> out[k] != ESC,
    ensures
        match printed(out, j, st) {
            Some(rest) => printed(out, i, st) == Some(in_style(out.subrange(i, j), st) + rest),
            None => printed(out, i, st) is None,
        },
    decreases j - i,
{
    let chunk = out.subrange(i, j);
    if i == j {
        assert(chunk =~= Seq::<u8>::empty());
        if let Some(rest) = printed(out, j, st) {
            assert(in_style(chunk, st) + rest =~= rest);
        }
    } else {
        lemma_print_chunk(out, i + 1, j, st);
        assert(out[i] != ESC);
        let tail = out.subrange(i + 1, j);
        if let Some(rest) = printed(out, j, st) {
            assert(seq![Cell { byte: out[i], style: st }] + (in_style(tail, st) + rest) =~= in_style(chunk, st) + rest);
        }
    }
}

/// Whether the style never changes inside a character.
pub open spec fn changes_between_characters(cells: Seq<Cell>) -> bool {
    forall|p: int|
        #![trigger cells[p]]
        0 < p < cells.len() && cells[p].style != cells[p - 1].style ==> is_char_boundary(bytes_of(cells), p)
}

/// Whether every run starts and ends between characters, so that the text can
/// be sliced there.
pub open spec fn sliceable(body: Seq<u8>, runs: Seq<Run>) -> bool {
    forall|k: int|
        #![trigger runs[k]]
        0 <= k < runs.len() ==> is_char_boundary(body, runs[k].start as int) && is_char_boundary(
            body,
            runs[k].end as int,
        )
}

/// Every byte is in some run.
proof fn lemma_run_at(runs: Seq<Run>, cells: Seq<Cell>, p: int, n: int) -> (k: int)
    requires
        tiles(runs, cells),
        0 < n <= runs.len(),
        0 <= p < runs[n - 1].end,
    ensures
        0 <= k < n,
        runs[k].start <= p < runs[k].end,
    decreases n,
{
    if p >= runs[n - 1].start {
        n - 1
    } else {
        assert(runs[n - 2].end == runs[n - 1].start);
        lemma_run_at(runs, cells, p, n - 1)
    }
}

/// Runs that tile a text can be sliced exactly where the style only changes
/// between characters.
pub proof fn lemma_runs_are_sliceable(runs: Seq<Run>, cells: Seq<Cell>)
    requires
        tiles(runs, cells),
        valid_utf8(bytes_of(cells)),
    ensures
        sliceable(bytes_of(cells), runs) <==> changes_between_characters(cells),
{
    let body = bytes_of(cells);
    is_char_boundary_start_end_of_seq(body);
    if changes_between_characters(cells) {
        assert forall|k: int| #![trigger runs[k]] 0 <= k < runs.len() implies is_char_boundary(body, runs[k].start as int)
            && is_char_boundary(body, runs[k].end as int) by {
            if k > 0 {
                lemma_run_starts_at_a_change(runs, cells, k);
            }
            if k + 1 < runs.len() {
                lemma_run_starts_at_a_change(runs, cells, k + 1);
                assert(runs[k].end == runs[k + 1].start);
            }
        }
    }
    if sliceable(body, runs) {
        assert forall|p: int|
            #![trigger cells[p]]
            0 < p < cells.len() && cells[p].style != cells[p - 1].style implies is_char_boundary(body, p) by {
            let k = lemma_run_at(runs, cells, p, runs.len() as int);
            if runs[k].start < p {
                assert(cells[p - 1].style == runs[k].style);
                assert(cells[p].style == runs[k].style);
            }
        }
    }
}

proof fn lemma_run_starts_at_a_change(runs: Seq<Run>, cells: Seq<Cell>, k: int)
    requires
        tiles(runs, cells),
        0 < k < runs.len(),
    ensures
        changes_between_characters(cells) ==> is_char_boundary(bytes_of(cells), runs[k].start as int),
{
    let p = runs[k].start as int;
    assert(runs[k - 1].end == runs[k].start && runs[k - 1].style != runs[k].style);
    assert(cells[p - 1].style == runs[k - 1].style);
    assert(cells[p].style == runs[k].style);
}

/// What `bat`'s output comes to as runs over a text: the tiling of what it
/// printed, or `None` where that is not the text or a character of it was
/// printed in more than one style.
pub open spec fn is_painting(out: Seq<u8>, body: Seq<u8>, r: Option<Vec<Run>>) -> bool {
    match printed(out, 0, plain()) {
        Some(cells) if bytes_of(cells) == body && changes_between_characters(cells) => r matches Some(runs) && tiles(runs@, cells),
        _ => r is None,
    }
}

/// Turns `bat`'s output into runs over `content`, or `None` if the two are not
/// the same text or a run would end inside a character.
pub fn parse(out: &[u8], content: &str) -> (r: Option<Vec<Run>>)
    ensures
        is_painting(out@, content.spec_bytes(), r),
        r matches Some(runs) ==> sliceable(content.spec_bytes(), runs@),
{
    let body: &[u8] = content.as_bytes();
    let mut runs: Vec<Run> = Vec::new();
    let mut style: Style = Style::default();
    let mut pos: usize = 0;
    let mut i: usize = 0;
    let ghost mut done: Seq<Cell> = Seq::empty();
    let ghost all = printed(out@, 0, plain());
    proof {
        if let Some(rest) = all {
            assert(done + rest =~= rest);
        }
        assert(bytes_of(done) =~= body@.take(0));
    }
    while i < out.len()
        invariant
            i <= out@.len(),
            pos <= body@.len(),
            body@ == content.spec_bytes(),
            all == printed(out@, 0, plain()),
            done.len() == pos,
            tiles(runs@, done),
            bytes_of(done) == body@.take(pos as int),
            match printed(out@, i as int, style) {
                Some(rest) => all == Some(done + rest),
                None => all is None,
            },
        decreases out.len() - i,
    {
        if out[i] == ESC {
            match escape(out, i, &mut style) {
                Some(e) => {
                    i = e;
                }
                None => {
                    return None;
                }
            }
            continue ;
        }
        let start: usize = i;
        while i < out.len() && out[i] != ESC
            invariant
                start <= i <= out@.len(),
                forall|k: int| #![trigger out@[k]] start <= k < i ==> out@[k] != ESC,
            decreases out.len() - i,
        {
            i += 1;
        }
        let ghost chunk = out@.subrange(start as int, i as int);
        let ghost more = in_style(chunk, style);
        proof {
            lemma_print_chunk(out@, start as int, i as int, style);
        }
        let n: usize = i - start;
        let matches: bool = n <= body.len() - pos && same_text(out, start, body, pos, n);
        if !matches {
            proof {
                if let Some(cells) = all {
                    if bytes_of(cells) == body@ {
                        let rest = printed(out@, i as int, style)->0;
                        assert(cells =~= done + (more + rest));
                        assert(cells.len() == body@.len());
                        let there = body@.subrange(pos as int, pos + n);
                        assert forall|k: int| #![trigger chunk[k]] 0 <= k < n implies chunk[k] == there[k] by {
                            assert(cells[pos + k] == more[k]);
                            assert(bytes_of(cells)[pos + k] == body@[pos + k]);
                        }
                        assert(chunk =~= there);
                    }
                }
            }
            return None;
        }
        push(&mut runs, pos, pos + n, style, Ghost(done), Ghost(more));
        proof {
            let grown = done + more;
            assert(bytes_of(grown) =~= body@.take(pos + n)) by {
                assert forall|k: int| 0 <= k < pos + n implies bytes_of(grown)[k] == body@[k] by {
                    if k < pos {
                        assert(bytes_of(done)[k] == body@.take(pos as int)[k]);
                    } else {
                        assert(grown[k] == more[k - pos]);
                        assert(chunk[k - pos] == body@.subrange(pos as int, pos + n)[k - pos]);
                    }
                }
            }
            if let Some(rest) = printed(out@, i as int, style) {
                assert(done + (more + rest) =~= grown + rest);
            }
            done = grown;
        }
        pos = pos + n;
    }
    proof {
        assert(all == Some(done)) by {
            assert(done + Seq::<Cell>::empty() =~= done);
        }
        if pos == body@.len() {
            assert(body@.take(pos as int) =~= body@);
        } else {
            assert(bytes_of(done).len() == pos);
        }
    }
    if pos != body.len() {
        return None;
    }
    proof {
        encode_utf8_valid_utf8(content@);
        lemma_runs_are_sliceable(runs@, done);
    }
    if all_sliceable(content, &runs) {
        Some(runs)
    } else {
        None
    }
}

/// Whether every run starts and ends between characters.
fn all_sliceable(content: &str, runs: &Vec<Run>) -> (r: bool)
    requires
        forall|k: int| #![trigger runs@[k]] 0 <= k < runs@.len() ==> runs@[k].end <= content.spec_bytes().len(),
    ensures
        r == sliceable(content.spec_bytes(), runs@),
{
    let mut k: usize = 0;
    while k < runs.len()
        invariant
            k <= runs@.len(),
            forall|j: int|
                #![trigger runs@[j]]
                0 <= j < k ==> is_char_boundary(content.spec_bytes(), runs@[j].start as int) && is_char_boundary(
                    content.spec_bytes(),
                    runs@[j].end as int,
                ),
        decreases runs.len() - k,
    {
        if !content.is_char_boundary(runs[k].start) || !content.is_char_boundary(runs[k].end) {
            assert(!(is_char_boundary(content.spec_bytes(), runs@[k as int].start as int) && is_char_boundary(
                content.spec_bytes(),
                runs@[k as int].end as int,
            )));
            return false;
        }
        k += 1;
    }
    true
}

/// Whether `n` bytes are the same in two places.
fn same_text(a: &[u8], i: usize, b: &[u8], j: usize, n: usize) -> (r: bool)
    requires
        i + n <= a.len(),
        j + n <= b.len(),
    ensures
        r == (a@.subrange(i as int, i + n) == b@.subrange(j as int, j + n)),
{
    let ghost x = a@.subrange(i as int, i + n);
    let ghost y = b@.subrange(j as int, j + n);
    let mut k: usize = 0;
    while k < n
        invariant
            k <= n,
            i + n <= a.len(),
            j + n <= b.len(),
            x == a@.subrange(i as int, i + n),
            y == b@.subrange(j as int, j + n),
            forall|q: int| #![trigger x[q]] 0 <= q < k ==> x[q] == y[q],
        decreases n - k,
    {
        if a[i + k] != b[j + k] {
            assert(x[k as int] != y[k as int]);
            return false;
        }
        k += 1;
    }
    assert(x =~= y);
    true
}

// -- asking bat -----------------------------------------------------------

/// What `bat --version` starts with.
pub open spec fn version_banner() -> Seq<u8> {
    // "bat "
    seq![98u8, 97u8, 116u8, 32u8]
}

/// Whether what answered `--version` is `bat`. The `bat` first on someone's
/// `PATH` may be a different program entirely.
pub fn available(success: bool, stdout: &[u8]) -> (r: bool)
    ensures
        r == (success && version_banner().is_prefix_of(stdout@)),
{
    let banner: [u8; 4] = [98, 97, 116, 32];
    assert(banner@ =~= version_banner());
    success && starts_with(stdout, &banner)
}

/// Whether a file is worth running `bat` for.
pub open spec fn paintable(body: Seq<u8>) -> bool {
    0 < body.len() <= MAX_BYTES
}

/// Whether a file is worth running `bat` for: there is one, and there is
/// something to color but not too much of it.
pub fn worth_painting(bat: bool, content: &str) -> (r: bool)
    ensures
        r == (bat && paintable(content.spec_bytes())),
{
    let n: usize = content.as_bytes().len();
    bat && n > 0 && n <= MAX_BYTES
}

/// Colors `content` with what `bat` printed for it.
///
/// `None` when `bat` printed nothing usable or was not there to, when the file
/// is empty or too large to be worth it, or when anything was printed but the
/// text itself.
pub fn paint(content: &str, printed: Option<&[u8]>) -> (r: Option<Vec<Run>>)
    ensures
        match printed {
            Some(out) if paintable(content.spec_bytes()) => is_painting(out@, content.spec_bytes(), r),
            _ => r is None,
        },
{
    match printed {
        Some(out) => if worth_painting(true, content) {
            parse(out, content)
        } else {
            None
        },
        None => None,
    }
}

// -- colors for the browser -----------------------------------------------

/// A coloring as it goes to the browser: each style once, and for every run how
/// long it is and which style it has. A dozen styles name themselves once
/// instead of appearing on every span.
#[derive(Debug)]
pub struct Paint {
    pub styles: Vec<Style>,
    /// Length and style of each run. Lengths are in UTF-16 units, since that is
    /// what the browser slices text by.
    pub runs: Vec<(usize, usize)>,
}

/// How many UTF-16 units begin at a byte of UTF-8: none in the middle of a
/// character, two where one outside the basic plane begins, one otherwise.
pub open spec fn byte_units(b: u8) -> nat {
    if 0x80 <= b <= 0xbf {
        0
    } else if b >= 0xf0 {
        2
    } else {
        1
    }
}

/// How many UTF-16 units some UTF-8 takes.
pub open spec fn utf16_units(bytes: Seq<u8>) -> nat
    decreases bytes.len(),
{
    if bytes.len() == 0 {
        0
    } else {
        utf16_units(bytes.drop_last()) + byte_units(bytes.last())
    }
}

/// How many UTF-16 units a text takes.
pub open spec fn text_units(chars: Seq<char>) -> nat
    decreases chars.len(),
{
    if chars.len() == 0 {
        0
    } else {
        (if (chars[0] as u32) < 0x10000 {
            1nat
        } else {
            2nat
        }) + text_units(chars.drop_first())
    }
}

pub proof fn lemma_units_add(a: Seq<u8>, b: Seq<u8>)
    ensures
        utf16_units(a + b) == utf16_units(a) + utf16_units(b),
    decreases b.len(),
{
    if b.len() == 0 {
        assert(a + b =~= a);
    } else {
        assert((a + b).drop_last() =~= a + b.drop_last());
        lemma_units_add(a, b.drop_last());
    }
}

proof fn lemma_units_bound(bytes: Seq<u8>)
    ensures
        utf16_units(bytes) <= 2 * bytes.len(),
    decreases bytes.len(),
{
    if bytes.len() > 0 {
        lemma_units_bound(bytes.drop_last());
    }
}

proof fn lemma_scalar_units(v: u32)
    requires
        is_scalar(v),
    ensures
        utf16_units(encode_scalar(v)) == (if v < 0x10000 {
            1nat
        } else {
            2nat
        }),
{
    let e = encode_scalar(v);
    let last = last_continuation_byte(v);
    let second = second_last_continuation_byte(v);
    let third = third_last_continuation_byte(v);
    assert(0x80 <= (0x80u8 | (v & 0x3F) as u8) <= 0xbf) by (bit_vector);
    assert(0x80 <= (0x80u8 | ((v >> 6) & 0x3F) as u8) <= 0xbf) by (bit_vector);
    assert(0x80 <= (0x80u8 | ((v >> 12) & 0x3F) as u8) <= 0xbf) by (bit_vector);
    assert(((v & 0x7F) as u8) < 0x80) by (bit_vector);
    assert(0xc0 <= (0xC0u8 | ((v >> 6) & 0x1F) as u8) <= 0xdf) by (bit_vector);
    assert(0xe0 <= (0xE0u8 | ((v >> 12) & 0x0F) as u8) <= 0xef) by (bit_vector);
    assert(0xf0 <= (0xF0u8 | ((v >> 18) & 0x7) as u8) <= 0xf7) by (bit_vector);
    reveal_with_fuel(utf16_units, 5);
    if has_width_1_encoding(v) {
        assert(e.drop_last() =~= Seq::<u8>::empty());
    } else if has_width_2_encoding(v) {
        assert(e.drop_last() =~= seq![e[0]]);
        assert(e.drop_last().drop_last() =~= Seq::<u8>::empty());
    } else if has_width_3_encoding(v) {
        assert(e.drop_last() =~= seq![e[0], e[1]]);
        assert(e.drop_last().drop_last() =~= seq![e[0]]);
        assert(e.drop_last().drop_last().drop_last() =~= Seq::<u8>::empty());
    } else {
        assert(e.drop_last() =~= seq![e[0], e[1], e[2]]);
        assert(e.drop_last().drop_last() =~= seq![e[0], e[1]]);
        assert(e.drop_last().drop_last().drop_last() =~= seq![e[0]]);
        assert(e.drop_last().drop_last().drop_last().drop_last() =~= Seq::<u8>::empty());
    }
}

/// Counting over the bytes of a text counts what its characters take.
pub proof fn lemma_units_of_text(chars: Seq<char>)
    ensures
        utf16_units(encode_utf8(chars)) == text_units(chars),
    decreases chars.len(),
{
    if chars.len() > 0 {
        char_is_scalar(chars[0]);
        lemma_scalar_units(chars[0] as u32);
        lemma_units_of_text(chars.drop_first());
        lemma_units_add(encode_scalar(chars[0] as u32), encode_utf8(chars.drop_first()));
    }
}

/// The styles of some runs, each once, in the order they first come up.
pub open spec fn palette(runs: Seq<Run>) -> Seq<Style>
    decreases runs.len(),
{
    if runs.len() == 0 {
        Seq::empty()
    } else {
        let before = palette(runs.drop_last());
        if before.contains(runs.last().style) {
            before
        } else {
            before.push(runs.last().style)
        }
    }
}

/// Counts the UTF-16 units of a stretch of text.
fn count_units(body: &[u8], start: usize, end: usize) -> (n: usize)
    requires
        start <= end <= body.len(),
        2 * (end - start) <= usize::MAX,
    ensures
        n == utf16_units(body@.subrange(start as int, end as int)),
{
    let ghost part = body@.subrange(start as int, end as int);
    let mut n: usize = 0;
    let mut i: usize = start;
    assert(part.take(0) =~= Seq::<u8>::empty());
    while i < end
        invariant
            start <= i <= end <= body.len(),
            2 * (end - start) <= usize::MAX,
            part == body@.subrange(start as int, end as int),
            n == utf16_units(part.take(i - start)),
        decreases end - i,
    {
        let b: u8 = body[i];
        proof {
            assert(part.take(i + 1 - start).drop_last() =~= part.take(i - start));
            assert(part.take(i + 1 - start).last() == b);
            lemma_units_bound(part.take(i - start));
        }
        if 0x80 <= b && b <= 0xbf {
        } else if b >= 0xf0 {
            n += 2;
        } else {
            n += 1;
        }
        i += 1;
    }
    assert(part.take(end - start) =~= part);
    n
}

/// Where a style is in a list.
fn style_index(styles: &Vec<Style>, style: &Style) -> (r: Option<usize>)
    ensures
        r matches Some(k) ==> k < styles@.len() && styles@[k as int] == *style,
        r is None <==> !styles@.contains(*style),
{
    let mut i: usize = 0;
    while i < styles.len()
        invariant
            i <= styles@.len(),
            forall|k: int| #![trigger styles@[k]] 0 <= k < i ==> styles@[k] != *style,
        decreases styles.len() - i,
    {
        if same_style(&styles[i], style) {
            assert(styles@[i as int] == *style);
            return Some(i);
        }
        i += 1;
    }
    None
}

/// Turns a coloring into what the browser is sent.
pub fn paint_for_browser(content: &str, runs: &Vec<Run>) -> (p: Paint)
    requires
        content.spec_bytes().len() <= MAX_BYTES,
        forall|k: int|
            #![trigger runs@[k]]
            0 <= k < runs@.len() ==> runs@[k].start <= runs@[k].end <= content.spec_bytes().len(),
    ensures
        p.styles@ == palette(runs@),
        p.runs@.len() == runs@.len(),
        forall|k: int|
            #![trigger p.runs@[k]]
            0 <= k < runs@.len() ==> {
                &&& p.runs@[k].0 == utf16_units(
                    content.spec_bytes().subrange(runs@[k].start as int, runs@[k].end as int),
                )
                &&& p.runs@[k].1 < p.styles@.len()
                &&& p.styles@[p.runs@[k].1 as int] == runs@[k].style
            },
{
    let body: &[u8] = content.as_bytes();
    let mut styles: Vec<Style> = Vec::new();
    let mut out: Vec<(usize, usize)> = Vec::new();
    let mut i: usize = 0;
    assert(runs@.take(0) =~= Seq::<Run>::empty());
    while i < runs.len()
        invariant
            i <= runs@.len(),
            body@ == content.spec_bytes(),
            body@.len() <= MAX_BYTES,
            forall|k: int|
                #![trigger runs@[k]]
                0 <= k < runs@.len() ==> runs@[k].start <= runs@[k].end <= body@.len(),
            styles@ == palette(runs@.take(i as int)),
            out@.len() == i,
            forall|k: int|
                #![trigger out@[k]]
                0 <= k < i ==> {
                    &&& out@[k].0 == utf16_units(body@.subrange(runs@[k].start as int, runs@[k].end as int))
                    &&& out@[k].1 < styles@.len()
                    &&& styles@[out@[k].1 as int] == runs@[k].style
                },
        decreases runs.len() - i,
    {
        let run: Run = runs[i];
        proof {
            assert(runs@.take(i + 1).drop_last() =~= runs@.take(i as int));
            assert(runs@.take(i + 1).last() == run);
        }
        let n: usize = count_units(body, run.start, run.end);
        let at: usize = match style_index(&styles, &run.style) {
            Some(k) => k,
            None => {
                styles.push(run.style);
                styles.len() - 1
            }
        };
        out.push((n, at));
        i += 1;
    }
    assert(runs@.take(runs@.len() as int) =~= runs@);
    Paint { styles, runs: out }
}

/// How long some runs are together.
pub open spec fn total_units(body: Seq<u8>, runs: Seq<Run>) -> nat
    decreases runs.len(),
{
    if runs.len() == 0 {
        0
    } else {
        total_units(body, runs.drop_last()) + utf16_units(
            body.subrange(runs.last().start as int, runs.last().end as int),
        )
    }
}

/// The lengths of runs that tile a text add up to the text's own.
pub proof fn lemma_paint_covers_the_text(runs: Seq<Run>, cells: Seq<Cell>)
    requires
        tiles(runs, cells),
    ensures
        total_units(bytes_of(cells), runs) == utf16_units(bytes_of(cells)),
{
    let body = bytes_of(cells);
    if runs.len() == 0 {
        assert(body =~= Seq::<u8>::empty());
    } else {
        lemma_prefix_units(runs, cells, runs.len() as int);
        assert(runs.take(runs.len() as int) =~= runs);
        assert(body.take(body.len() as int) =~= body);
    }
}

proof fn lemma_prefix_units(runs: Seq<Run>, cells: Seq<Cell>, n: int)
    requires
        tiles(runs, cells),
        1 <= n <= runs.len(),
    ensures
        total_units(bytes_of(cells), runs.take(n)) == utf16_units(bytes_of(cells).take(runs[n - 1].end as int)),
    decreases n,
{
    let body = bytes_of(cells);
    let last = runs[n - 1];
    assert(runs.take(n).last() == last);
    assert(runs.take(n).drop_last() =~= runs.take(n - 1));
    let part = body.subrange(last.start as int, last.end as int);
    assert(total_units(body, runs.take(n)) == total_units(body, runs.take(n - 1)) + utf16_units(part));
    if n == 1 {
        assert(total_units(body, runs.take(0)) == 0);
        assert(part =~= body.take(last.end as int));
    } else {
        lemma_prefix_units(runs, cells, n - 1);
        assert(runs[n - 2].end == runs[n - 1].start);
        lemma_units_add(body.take(last.start as int), part);
        assert(body.take(last.start as int) + part =~= body.take(last.end as int));
    }
}

// -- laws -----------------------------------------------------------------

proof fn lemma_spelled_color_further_on(x: Seq<Option<u16>>, y: Seq<Option<u16>>, k: int)
    requires
        0 <= k <= y.len(),
    ensures
        spelled_color(x + y, x.len() + k).0 == spelled_color(y, k).0,
        spelled_color(x + y, x.len() + k).1 == x.len() + spelled_color(y, k).1,
        k <= spelled_color(y, k).1 <= y.len(),
{
    assert forall|j: int| #![trigger param(y, j)] 0 <= j <= y.len() implies param(x + y, x.len() + j).0 == param(y, j).0
        && param(x + y, x.len() + j).1 == x.len() + param(y, j).1 && j <= param(y, j).1 <= y.len() by {
        if j < y.len() {
            assert((x + y)[x.len() + j] == y[j]);
        }
    }
    let a = param(y, k).1;
    let b = param(y, a).1;
    let c = param(y, b).1;
    let d = param(y, c).1;
}

/// What comes before a parameter has no part in what it does.
proof fn lemma_styled_further_on(x: Seq<Option<u16>>, y: Seq<Option<u16>>, k: int, st: Style)
    requires
        0 <= k <= y.len(),
    ensures
        styled(x + y, x.len() + k, st) == styled(y, k, st),
    decreases y.len() - k,
{
    if k < y.len() {
        assert((x + y)[x.len() + k] == y[k]);
        lemma_spelled_color_further_on(x, y, k + 1);
        match y[k] {
            None => {},
            Some(n) => {
                let (c, next) = spelled_color(y, k + 1);
                lemma_styled_further_on(x, y, next, Style { fg: c, ..st });
                lemma_styled_further_on(x, y, next, st);
                lemma_styled_further_on(x, y, k + 1, styled_by(st, n));
            },
        }
    }
}

/// Parameters that are numbers and take no others with them.
pub open spec fn stand_alone(ps: Seq<Option<u16>>) -> bool {
    forall|k: int|
        #![trigger ps[k]]
        0 <= k < ps.len() ==> ps[k] is Some && ps[k] != Some(38u16) && ps[k] != Some(48u16)
}

/// Parameters are applied one after another: a list does to a style what its
/// front does and then its back, wherever the front takes nothing from the back.
pub proof fn lemma_parameters_apply_in_turn(a: Seq<Option<u16>>, b: Seq<Option<u16>>, st: Style)
    requires
        stand_alone(a),
    ensures
        styled(a + b, 0, st) == styled(b, 0, styled(a, 0, st)),
    decreases a.len(),
{
    if a.len() == 0 {
        assert(a + b =~= b);
    } else {
        let one = a.take(1);
        let rest = a.skip(1);
        let n = a[0]->0;
        assert(a =~= one + rest);
        assert((a + b)[0] == a[0]);
        assert forall|k: int| #![trigger rest[k]] 0 <= k < rest.len() implies rest[k] is Some && rest[k] != Some(38u16) && rest[k]
            != Some(48u16) by {
            assert(rest[k] == a[k + 1]);
        }
        lemma_parameters_apply_in_turn(rest, b, styled_by(st, n));
        lemma_styled_further_on(one, rest, 0, styled_by(st, n));
        assert(one + (rest + b) =~= a + b);
        lemma_styled_further_on(one, rest + b, 0, styled_by(st, n));
    }
}

/// What each parameter does by itself: `0` puts everything back, `1` to `4` turn
/// one thing on, `22` to `24` turn things off, a color is one of sixteen, `39`
/// takes it away, and nothing else about the style changes.
pub proof fn lemma_what_a_parameter_does(n: u16, st: Style)
    ensures
        n == 0 ==> styled(seq![Some(n)], 0, st) == (Style {
            fg: None,
            bold: false,
            dim: false,
            italic: false,
            underline: false,
        }),
        n != 0 ==> styled(seq![Some(n)], 0, st).bold == (n == 1 || st.bold && n != 22),
        n != 0 ==> styled(seq![Some(n)], 0, st).dim == (n == 2 || st.dim && n != 22),
        n != 0 ==> styled(seq![Some(n)], 0, st).italic == (n == 3 || st.italic && n != 23),
        n != 0 ==> styled(seq![Some(n)], 0, st).underline == (n == 4 || st.underline && n != 24),
        30 <= n <= 37 ==> styled(seq![Some(n)], 0, st).fg == Some(Color::Indexed((n - 30) as u8)),
        90 <= n <= 97 ==> styled(seq![Some(n)], 0, st).fg == Some(Color::Indexed((n - 82) as u8)),
        n == 39 ==> styled(seq![Some(n)], 0, st).fg is None,
        n != 0 && !(30 <= n <= 39) && !(90 <= n <= 97) ==> styled(seq![Some(n)], 0, st).fg == st.fg,
{
    reveal_with_fuel(styled, 3);
    let ps = seq![Some(n)];
    assert(ps[0] == Some(n));
}

/// A color takes the parameters that spell it, and what follows them is applied
/// after it: `5` and an index, or `2` and three levels, each as one byte. As a
/// foreground it is the style's color; as a background nothing comes of it.
pub proof fn lemma_a_color_takes_what_spells_it(
    ground: u16,
    i: u16,
    r: u16,
    g: u16,
    b: u16,
    rest: Seq<Option<u16>>,
    st: Style,
)
    requires
        ground == 38 || ground == 48,
    ensures
        styled(seq![Some(ground), Some(5u16), Some(i)] + rest, 0, st) == styled(
            rest,
            0,
            if ground == 38 {
                Style { fg: Some(Color::Indexed((i % 256) as u8)), ..st }
            } else {
                st
            },
        ),
        styled(seq![Some(ground), Some(2u16), Some(r), Some(g), Some(b)] + rest, 0, st) == styled(
            rest,
            0,
            if ground == 38 {
                Style { fg: Some(Color::Rgb((r % 256) as u8, (g % 256) as u8, (b % 256) as u8)), ..st }
            } else {
                st
            },
        ),
{
    let x = seq![Some(ground), Some(5u16), Some(i)];
    let y = seq![Some(ground), Some(2u16), Some(r), Some(g), Some(b)];
    assert((x + rest)[0] == Some(ground) && (x + rest)[1] == Some(5u16) && (x + rest)[2] == Some(i));
    assert((y + rest)[0] == Some(ground) && (y + rest)[1] == Some(2u16) && (y + rest)[2] == Some(r) && (y + rest)[3] == Some(g)
        && (y + rest)[4] == Some(b));
    let u = styled(x + rest, 0, st);
    let v = styled(y + rest, 0, st);
    assert(spelled_color(x + rest, 1) == (Some(Color::Indexed((i % 256) as u8)), 3int));
    assert(spelled_color(y + rest, 1) == (
        Some(Color::Rgb((r % 256) as u8, (g % 256) as u8, (b % 256) as u8)),
        5int,
    ));
    lemma_styled_further_on(x, rest, 0, Style { fg: Some(Color::Indexed((i % 256) as u8)), ..st });
    lemma_styled_further_on(x, rest, 0, st);
    lemma_styled_further_on(
        y,
        rest,
        0,
        Style { fg: Some(Color::Rgb((r % 256) as u8, (g % 256) as u8, (b % 256) as u8)), ..st },
    );
    lemma_styled_further_on(y, rest, 0, st);
}

/// Bold and a color of three levels in one sequence leave the style both bold
/// and of that color, and otherwise as it was.
pub proof fn lemma_bold_and_colored(r: u8, g: u8, b: u8, st: Style)
    ensures
        styled(
            seq![Some(1u16), Some(38u16), Some(2u16), Some(r as u16), Some(g as u16), Some(b as u16)],
            0,
            st,
        ) == (Style { bold: true, fg: Some(Color::Rgb(r, g, b)), ..st }),
{
    let one = seq![Some(1u16)];
    let none = Seq::<Option<u16>>::empty();
    let color = seq![Some(38u16), Some(2u16), Some(r as u16), Some(g as u16), Some(b as u16)];
    assert(seq![Some(1u16), Some(38u16), Some(2u16), Some(r as u16), Some(g as u16), Some(b as u16)] =~= one + color);
    assert(color =~= color + none);
    lemma_parameters_apply_in_turn(one, color, st);
    lemma_what_a_parameter_does(1, st);
    lemma_a_color_takes_what_spells_it(38, 0, r as u16, g as u16, b as u16, none, styled(one, 0, st));
}

/// A parameter that cannot be read ends the list: what comes after it is not
/// applied.
pub proof fn lemma_the_unreadable_ends_the_list(a: Seq<Option<u16>>, rest: Seq<Option<u16>>, st: Style)
    requires
        stand_alone(a),
    ensures
        styled(a.push(None) + rest, 0, st) == styled(a, 0, st),
{
    let end = seq![None::<u16>] + rest;
    assert(a.push(None) + rest =~= a + end);
    lemma_parameters_apply_in_turn(a, end, st);
    assert(end[0] is None);
}

proof fn lemma_control_end_further_on(x: Seq<u8>, y: Seq<u8>, j: int)
    requires
        0 <= j <= y.len(),
    ensures
        control_end(x + y, x.len() + j) == x.len() + control_end(y, j),
    decreases y.len() - j,
{
    if j < y.len() {
        assert((x + y)[x.len() + j] == y[j]);
        if !(0x40 <= y[j] <= 0x7e) {
            lemma_control_end_further_on(x, y, j + 1);
        }
    }
}

proof fn lemma_string_end_further_on(x: Seq<u8>, y: Seq<u8>, j: int)
    requires
        0 <= j <= y.len(),
    ensures
        string_end(x + y, x.len() + j) == (match string_end(y, j) {
            Some(e) => Some(x.len() + e),
            None => None,
        }),
    decreases y.len() - j,
{
    if j < y.len() {
        assert((x + y)[x.len() + j] == y[j]);
        if j + 1 < y.len() {
            assert((x + y)[x.len() + j + 1] == y[j + 1]);
        }
        lemma_string_end_further_on(x, y, j + 1);
    }
}

/// What has been read has no part in what is printed after it but by the style
/// it left.
proof fn lemma_printed_further_on(x: Seq<u8>, y: Seq<u8>, i: int, st: Style)
    requires
        0 <= i <= y.len(),
    ensures
        printed(x + y, x.len() + i, st) == printed(y, i, st),
    decreases y.len() - i,
{
    let all = x + y;
    if i < y.len() {
        assert(all[x.len() + i] == y[i]);
        if y[i] == ESC {
            if i + 1 < y.len() {
                assert(all[x.len() + i + 1] == y[i + 1]);
                lemma_control_end_further_on(x, y, i + 2);
                lemma_string_end_further_on(x, y, i + 2);
                lemma_control_end(y, i + 2);
                let j = control_end(y, i + 2);
                assert(all.subrange(x.len() + i + 2, x.len() + j) =~= y.subrange(i + 2, j));
                if j < y.len() {
                    assert(all[x.len() + j] == y[j]);
                }
            }
            lemma_escape_end(y, i);
            if let Some(e) = escape_end(y, i) {
                assert(escape_end(all, x.len() + i) == Some(x.len() + e));
                assert(escape_style(all, x.len() + i, st) == escape_style(y, i, st));
                lemma_printed_further_on(x, y, e, escape_style(y, i, st));
            } else {
                assert(escape_end(all, x.len() + i) is None);
            }
        } else {
            lemma_printed_further_on(x, y, i + 1, st);
        }
    }
}

/// Where the first byte that ends a control sequence is.
proof fn lemma_control_end_is(out: Seq<u8>, j: int, e: int)
    requires
        0 <= j <= e < out.len(),
        forall|k: int| #![trigger out[k]] j <= k < e ==> !(0x40 <= out[k] <= 0x7e),
        0x40 <= out[e] <= 0x7e,
    ensures
        control_end(out, j) == e,
    decreases e - j,
{
    if j < e {
        assert(!(0x40 <= out[j] <= 0x7e));
        lemma_control_end_is(out, j + 1, e);
    }
}

/// A control sequence: ESC, a bracket, what it is about, and the byte that says
/// what it does.
pub open spec fn control(about: Seq<u8>, what: u8) -> Seq<u8> {
    seq![27u8, 91u8] + about + seq![what]
}

/// A control sequence prints nothing. One that ends in `m` changes the style that
/// everything after it is printed in, as its parameters say; any other leaves it.
pub proof fn lemma_a_control_sequence_prints_nothing(about: Seq<u8>, what: u8, rest: Seq<u8>, st: Style)
    requires
        forall|k: int| #![trigger about[k]] 0 <= k < about.len() ==> !(0x40 <= about[k] <= 0x7e),
        0x40 <= what <= 0x7e,
    ensures
        printed(control(about, what) + rest, 0, st) == printed(
            rest,
            0,
            if what == 109 {
                styled(params_of(about), 0, st)
            } else {
                st
            },
        ),
{
    let front = control(about, what);
    let out = front + rest;
    let e = 2 + about.len();
    assert(out[0] == ESC && out[1] == 91 && out[e as int] == what);
    assert forall|k: int| #![trigger out[k]] 2 <= k < e implies !(0x40 <= out[k] <= 0x7e) by {
        assert(out[k] == about[k - 2]);
    }
    lemma_control_end_is(out, 2, e as int);
    assert(out.subrange(2, e as int) =~= about);
    assert(escape_end(out, 0) == Some(front.len() as int));
    lemma_printed_further_on(front, rest, 0, escape_style(out, 0, st));
}

/// One sequence with the parameters of two does what the two do one after the
/// other, whatever is printed next.
pub proof fn lemma_sequences_join(a: Seq<u8>, b: Seq<u8>, rest: Seq<u8>, st: Style)
    requires
        forall|k: int| #![trigger a[k]] 0 <= k < a.len() ==> !(0x40 <= a[k] <= 0x7e),
        forall|k: int| #![trigger b[k]] 0 <= k < b.len() ==> !(0x40 <= b[k] <= 0x7e),
        stand_alone(params_of(a)),
    ensures
        printed(control(a.push(59) + b, 109) + rest, 0, st) == printed(control(a, 109) + (control(b, 109) + rest), 0, st),
{
    let both = a.push(59) + b;
    assert forall|k: int| #![trigger both[k]] 0 <= k < both.len() implies !(0x40 <= both[k] <= 0x7e) by {
        if k < a.len() {
            assert(both[k] == a[k]);
        } else if k > a.len() {
            assert(both[k] == b[k - a.len() - 1]);
        }
    }
    lemma_split_joined(a, 59, b);
    assert(params_of(both) =~= params_of(a) + params_of(b));
    lemma_parameters_apply_in_turn(params_of(a), params_of(b), st);
    lemma_a_control_sequence_prints_nothing(both, 109, rest, st);
    lemma_a_control_sequence_prints_nothing(a, 109, control(b, 109) + rest, st);
    lemma_a_control_sequence_prints_nothing(b, 109, rest, styled(params_of(a), 0, st));
}

/// Text is printed as it stands, every byte in the style of the moment, up to
/// where the next escape sequence begins.
pub proof fn lemma_text_is_printed_as_it_stands(text: Seq<u8>, rest: Seq<u8>, st: Style)
    requires
        forall|k: int| #![trigger text[k]] 0 <= k < text.len() ==> text[k] != 27,
    ensures
        printed(text + rest, 0, st) is Some <==> printed(rest, 0, st) is Some,
        printed(rest, 0, st) matches Some(after) ==> {
            let all = printed(text + rest, 0, st)->0;
            &&& all.len() == text.len() + after.len()
            &&& forall|k: int|
                #![trigger all[k]]
                0 <= k < text.len() ==> all[k].byte == text[k] && all[k].style == st
            &&& all.skip(text.len() as int) == after
        },
{
    let out = text + rest;
    assert forall|k: int| #![trigger out[k]] 0 <= k < text.len() implies out[k] != ESC by {
        assert(out[k] == text[k]);
    }
    lemma_print_chunk(out, 0, text.len() as int, st);
    assert(out.subrange(0, text.len() as int) =~= text);
    lemma_printed_further_on(text, rest, 0, st);
    if let Some(after) = printed(rest, 0, st) {
        assert((in_style(text, st) + after).skip(text.len() as int) =~= after);
    }
}

proof fn lemma_string_end_is(out: Seq<u8>, j: int, e: int)
    requires
        0 <= j <= e < out.len(),
        forall|k: int| #![trigger out[k]] j <= k < e ==> out[k] != 7 && out[k] != 27,
        out[e] == 7 || out[e] == 27 && e + 1 < out.len() && out[e + 1] == 92,
    ensures
        string_end(out, j) == Some(if out[e] == 7 {
            e + 1
        } else {
            e + 2
        }),
    decreases e - j,
{
    if j < e {
        assert(out[j] != 7 && out[j] != 27);
        lemma_string_end_is(out, j + 1, e);
    }
}

/// A command string prints nothing and changes nothing, whichever way it ends.
pub proof fn lemma_a_command_string_prints_nothing(about: Seq<u8>, rest: Seq<u8>, st: Style)
    requires
        forall|k: int| #![trigger about[k]] 0 <= k < about.len() ==> about[k] != 7 && about[k] != 27,
    ensures
        printed(seq![27u8, 93u8] + about + seq![7u8] + rest, 0, st) == printed(rest, 0, st),
        printed(seq![27u8, 93u8] + about + seq![27u8, 92u8] + rest, 0, st) == printed(rest, 0, st),
{
    let e = (2 + about.len()) as int;
    let bell = seq![27u8, 93u8] + about + seq![7u8];
    let slash = seq![27u8, 93u8] + about + seq![27u8, 92u8];
    let x = bell + rest;
    let y = slash + rest;
    assert(x[0] == 27 && x[1] == 93 && x[e] == 7);
    assert(y[0] == 27 && y[1] == 93 && y[e] == 27 && y[e + 1] == 92);
    assert forall|k: int| #![trigger x[k]] 2 <= k < e implies x[k] != 7 && x[k] != 27 by {
        assert(x[k] == about[k - 2]);
    }
    assert forall|k: int| #![trigger y[k]] 2 <= k < e implies y[k] != 7 && y[k] != 27 by {
        assert(y[k] == about[k - 2]);
    }
    lemma_string_end_is(x, 2, e);
    lemma_string_end_is(y, 2, e);
    assert(escape_style(x, 0, st) == st && escape_style(y, 0, st) == st);
    lemma_printed_further_on(bell, rest, 0, st);
    lemma_printed_further_on(slash, rest, 0, st);
}

/// The color cube counts up to six in each of three directions, blue fastest,
/// through the same six levels; the greys after it go up in even steps.
pub proof fn lemma_the_palette_is_a_cube_and_a_ramp(r: int, g: int, b: int, k: int)
    requires
        0 <= r < 6,
        0 <= g < 6,
        0 <= b < 6,
        0 <= k < 24,
    ensures
        xterm_rgb(16 + 36 * r + 6 * g + b) == (
            seq![0int, 95, 135, 175, 215, 255][r],
            seq![0int, 95, 135, 175, 215, 255][g],
            seq![0int, 95, 135, 175, 215, 255][b],
        ),
        xterm_rgb(232 + k) == (8 + 10 * k, 8 + 10 * k, 8 + 10 * k),
{
}

/// The sixteen colors that have names, one by one: eight, and the same eight
/// brighter.
pub proof fn lemma_the_basic_colors_are_those_of_the_terminal(i: int)
    requires
        0 <= i < 16,
    ensures
        ({
            let red = seq![0int, 205, 13, 229, 36, 188, 17, 229, 102, 241, 35, 245, 59, 214, 41, 255];
            let green = seq![0int, 49, 188, 229, 114, 63, 168, 229, 102, 76, 209, 245, 142, 112, 184, 255];
            let blue = seq![0int, 49, 121, 16, 200, 188, 205, 229, 102, 76, 139, 67, 234, 214, 219, 255];
            xterm_rgb(i) == (red[i], green[i], blue[i])
        }),
{
}

/// Among the first sixteen colors the bits of the number say which of red, green
/// and blue are strong, but for the dark grey.
pub proof fn lemma_the_basic_colors_mix(i: int)
    requires
        0 <= i < 16,
        i != 8,
    ensures
        xterm_rgb(i).0 > 150 <==> i % 2 == 1,
        xterm_rgb(i).1 > 150 <==> (i / 2) % 2 == 1,
        xterm_rgb(i).2 > 150 <==> (i / 4) % 2 == 1,
        i < 8 && i != 0 ==> {
            &&& xterm_rgb(i + 8).0 > xterm_rgb(i).0
            &&& xterm_rgb(i + 8).1 > xterm_rgb(i).1
            &&& xterm_rgb(i + 8).2 > xterm_rgb(i).2
        },
{
}

/// A style is named once however many runs have it, and every style that is
/// named is some run's.
pub proof fn lemma_styles_are_named_once(runs: Seq<Run>)
    ensures
        palette(runs).no_duplicates(),
        forall|st: Style|
            #![trigger palette(runs).contains(st)]
            palette(runs).contains(st) <==> exists|k: int| 0 <= k < runs.len() && #[trigger] runs[k].style == st,
        runs.len() > 0 ==> palette(runs)[0] == runs[0].style,
    decreases runs.len(),
{
    if runs.len() > 0 {
        let front = runs.drop_last();
        let before = palette(front);
        let all = palette(runs);
        lemma_styles_are_named_once(front);
        assert forall|st: Style|
            #![trigger all.contains(st)]
            all.contains(st) <==> exists|k: int| 0 <= k < runs.len() && #[trigger] runs[k].style == st by {
            if all.contains(st) {
                if before.contains(st) {
                    let k = choose|k: int| 0 <= k < front.len() && #[trigger] front[k].style == st;
                    assert(runs[k].style == st);
                } else {
                    let j = choose|j: int| 0 <= j < all.len() && all[j] == st;
                    assert(j == before.len() || before[j] == st);
                    assert(runs[runs.len() - 1].style == st);
                }
            }
            if exists|k: int| 0 <= k < runs.len() && #[trigger] runs[k].style == st {
                let k = choose|k: int| 0 <= k < runs.len() && #[trigger] runs[k].style == st;
                if k < front.len() {
                    assert(front[k].style == st);
                    assert(before.contains(st));
                    let j = choose|j: int| 0 <= j < before.len() && before[j] == st;
                    assert(all[j] == st);
                } else if !before.contains(st) {
                    assert(all[before.len() as int] == st);
                }
            }
        }
        assert forall|a: int, b: int| 0 <= a < all.len() && 0 <= b < all.len() && a != b implies all[a] != all[b] by {
            if all.len() > before.len() {
                assert(a < before.len() ==> before.contains(before[a]));
                assert(b < before.len() ==> before.contains(before[b]));
            }
        }
        if front.len() > 0 {
            assert(front[0] == runs[0]);
            assert(before.contains(front[0].style));
        } else {
            assert(before =~= Seq::<Style>::empty());
        }
    }
}

/// A file is colored where it holds anything, up to a quarter of a megabyte.
pub proof fn lemma_what_is_worth_coloring(body: Seq<u8>)
    ensures
        paintable(body) <==> 1 <= body.len() <= 262144,
{
}

/// An escape that is neither a control sequence nor a command string is two bytes
/// long, prints nothing and changes nothing.
pub proof fn lemma_other_escapes_are_two_bytes(what: u8, rest: Seq<u8>, st: Style)
    requires
        what != 91 && what != 93,
    ensures
        printed(seq![27u8, what] + rest, 0, st) == printed(rest, 0, st),
{
    let front = seq![27u8, what];
    let out = front + rest;
    assert(out[0] == 27 && out[1] == what);
    assert(escape_end(out, 0) == Some(2int));
    assert(escape_style(out, 0, st) == st);
    lemma_printed_further_on(front, rest, 0, st);
}

/// An escape that never ends is not a printing of anything.
pub proof fn lemma_an_escape_has_to_end(about: Seq<u8>, st: Style)
    requires
        forall|k: int| #![trigger about[k]] 0 <= k < about.len() ==> !(0x40 <= about[k] <= 0x7e) && about[k] != 7 && about[k] != 27,
    ensures
        printed(seq![27u8], 0, st) is None,
        printed(seq![27u8, 91u8] + about, 0, st) is None,
        printed(seq![27u8, 93u8] + about, 0, st) is None,
{
    let x = seq![27u8, 91u8] + about;
    let y = seq![27u8, 93u8] + about;
    assert(x[0] == 27 && x[1] == 91 && y[0] == 27 && y[1] == 93);
    lemma_no_control_end(x, 2);
    lemma_no_string_end(y, 2);
    assert(seq![27u8][0] == 27);
}

proof fn lemma_no_control_end(out: Seq<u8>, j: int)
    requires
        2 <= j <= out.len(),
        forall|k: int| #![trigger out[k]] j <= k < out.len() ==> !(0x40 <= out[k] <= 0x7e),
    ensures
        control_end(out, j) == out.len(),
    decreases out.len() - j,
{
    if j < out.len() {
        assert(!(0x40 <= out[j] <= 0x7e));
        lemma_no_control_end(out, j + 1);
    }
}

proof fn lemma_no_string_end(out: Seq<u8>, j: int)
    requires
        2 <= j <= out.len(),
        forall|k: int| #![trigger out[k]] j <= k < out.len() ==> out[k] != 7 && out[k] != 27,
    ensures
        string_end(out, j) is None,
    decreases out.len() - j,
{
    if j < out.len() {
        assert(out[j] != 7 && out[j] != 27);
        lemma_no_string_end(out, j + 1);
    }
}

/// A color of a form that is not known is no color, and takes only the form with
/// it; one that is cut short is no color either.
pub proof fn lemma_a_color_that_is_none(form: u16, rest: Seq<Option<u16>>, r: u16, g: u16, st: Style)
    requires
        form != 5 && form != 2,
    ensures
        styled(seq![Some(38u16), Some(form)] + rest, 0, st) == styled(rest, 0, Style { fg: None, ..st }),
        styled(seq![Some(48u16), Some(form)] + rest, 0, st) == styled(rest, 0, st),
        styled(seq![Some(38u16)], 0, st) == (Style { fg: None, ..st }),
        styled(seq![Some(38u16), Some(5u16)], 0, st) == (Style { fg: None, ..st }),
        styled(seq![Some(38u16), Some(2u16), Some(r), Some(g)], 0, st) == (Style { fg: None, ..st }),
{
    let x = seq![Some(38u16), Some(form)];
    let y = seq![Some(48u16), Some(form)];
    assert((x + rest)[0] == Some(38u16) && (x + rest)[1] == Some(form));
    assert((y + rest)[0] == Some(48u16) && (y + rest)[1] == Some(form));
    lemma_styled_further_on(x, rest, 0, Style { fg: None, ..st });
    lemma_styled_further_on(y, rest, 0, st);
    let a = seq![Some(38u16)];
    let b = seq![Some(38u16), Some(5u16)];
    let c = seq![Some(38u16), Some(2u16), Some(r), Some(g)];
    assert(a[0] == Some(38u16) && b[0] == Some(38u16) && b[1] == Some(5u16));
    assert(c[0] == Some(38u16) && c[1] == Some(2u16) && c[2] == Some(r) && c[3] == Some(g));
    assert(spelled_color(a, 1) == (None::<Color>, 1int));
    assert(spelled_color(b, 1) == (None::<Color>, 2int));
    assert(spelled_color(c, 1) == (None::<Color>, 4int));
    reveal_with_fuel(styled, 2);
}

/// A parameter is a number that fits sixteen bits, nothing at all for zero, and
/// cannot be read where it is anything else.
pub proof fn lemma_what_a_parameter_is(part: Seq<u8>, k: int)
    ensures
        part.len() == 0 ==> param_of(part) == Some(0u16),
        0 <= k < part.len() && !(48 <= part[k] <= 57) && (k > 0 || part[0] != 43) ==> param_of(part) is None,
        param_of(part) matches Some(n) ==> part.len() == 0 || uint_of(part, 65535) == Some(n as nat),
{
    if 0 <= k < part.len() && !(48 <= part[k] <= 57) && (k > 0 || part[0] != 43) {
        if part[0] == 43 {
            assert(part.skip(1)[k - 1] == part[k]);
        }
    }
}

} // verus!
