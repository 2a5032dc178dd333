//! One line of a file as styled spans.

use vstd::prelude::*;
use vstd::string::*;
use vstd::utf8::*;

use super::area::{least, most};
use super::lines::{LineRange, CR};
use super::render::Theme;
use super::style::{
    push_span, repeat, repeated, spans_view, Color, Line,
    Modifier, Span, SpanView, Style,
};
use crate::highlight::Run;
use crate::text::chars_of;

verus! {

/// How far apart tab stops are drawn. The bytes are left alone: this is only
/// what the terminal shows, since a raw tab in a cell draws as nothing.
pub const TAB: usize = 4;

// What the invisible characters are drawn as is `bat`'s vocabulary, since that
// is what the rest of this pane already speaks.

/// What stands for a space.
pub open spec fn space_mark() -> Seq<char> {
    "·"@
}

/// What stands for the first cell of a tab.
pub open spec fn tab_mark() -> Seq<char> {
    "→"@
}

// -- a slice of the file --------------------------------------------------

/// The text between two bytes, where both are at the edge of a character.
pub open spec fn sliced(body: Seq<u8>, from: int, to: int) -> Option<Seq<char>> {
    if from <= to && is_char_boundary(body, from) && is_char_boundary(body, to) {
        Some(decode_utf8(body.subrange(from, to)))
    } else {
        None
    }
}

/// The text between two bytes.
fn slice(content: &str, from: usize, to: usize) -> (r: Option<Vec<char>>)
    ensures
        match r {
            Some(v) => sliced(content.spec_bytes(), from as int, to as int) == Some(v@),
            None => sliced(content.spec_bytes(), from as int, to as int) is None,
        },
{
    if from > to || !content.is_char_boundary(from) || !content.is_char_boundary(to) {
        return None;
    }
    let ghost body = content.spec_bytes();
    proof {
        encode_utf8_valid_utf8(content@);
        lemma_boundary_in_range(body, from as int);
        lemma_boundary_in_range(body, to as int);
        lemma_boundary_after(body, from as int, to as int);
    }
    let tail: &str = content.split_at(from).1;
    assert(tail.spec_bytes() =~= body.subrange(from as int, body.len() as int));
    let part: &str = tail.split_at(to - from).0;
    proof {
        assert(part.spec_bytes() =~= body.subrange(from as int, to as int));
        encode_utf8_decode_utf8(part@);
    }
    Some(chars_of(part))
}

proof fn lemma_boundary_in_range(body: Seq<u8>, i: int)
    requires
        valid_utf8(body),
        is_char_boundary(body, i),
    ensures
        0 <= i <= body.len(),
{
}

/// A boundary of a text is one of what follows an earlier boundary.
pub proof fn lemma_boundary_after(body: Seq<u8>, from: int, to: int)
    requires
        valid_utf8(body),
        is_char_boundary(body, from),
        is_char_boundary(body, to),
        0 <= from <= to <= body.len(),
    ensures
        is_char_boundary(body.subrange(from, body.len() as int), to - from),
{
    let tail = body.subrange(from, body.len() as int);
    valid_utf8_split(body, from);
    if to == from {
    } else if to == body.len() {
        is_char_boundary_start_end_of_seq(tail);
    } else {
        is_char_boundary_iff_not_is_continuation_byte(body, to);
        is_char_boundary_iff_not_is_continuation_byte(tail, to - from);
        assert(tail[to - from] == body[to]);
    }
}

/// The characters from `a` up to `b`, joined.
fn between(chars: &Vec<char>, a: usize, b: usize) -> (s: String)
    requires
        a <= b <= chars@.len(),
    ensures
        s@ == chars@.subrange(a as int, b as int),
{
    let mut s: String = String::new();
    let mut i: usize = a;
    while i < b
        invariant
            a <= i <= b <= chars@.len(),
            s@ == chars@.subrange(a as int, i as int),
        decreases b - i,
    {
        s.push(chars[i]);
        i += 1;
        assert(chars@.subrange(a as int, i as int) =~= chars@.subrange(a as int, i - 1).push(chars@[i - 1]));
    }
    s
}

// -- styles ---------------------------------------------------------------

/// The style of a run of the file: what it sets, on top of what code wears.
pub open spec fn run_style(style: crate::highlight::Style, theme: &Theme) -> Style {
    Style {
        fg: match style.fg {
            Some(crate::highlight::Color::Rgb(r, g, b)) => Some(Color::Rgb(r, g, b)),
            Some(crate::highlight::Color::Indexed(i)) => Some(Color::Indexed(i)),
            None => theme.code.fg,
        },
        modifier: theme.code.modifier.both(
            &Modifier {
                bold: style.bold,
                dim: style.dim,
                italic: style.italic,
                underlined: style.underline,
                crossed_out: false,
            },
        ),
        ..theme.code
    }
}

pub fn style_of(style: &crate::highlight::Style, theme: &Theme) -> (s: Style)
    ensures
        s == run_style(*style, theme),
{
    let mut out: Style = theme.code;
    match style.fg {
        Some(crate::highlight::Color::Rgb(r, g, b)) => {
            out = out.fg(Color::Rgb(r, g, b));
        }
        Some(crate::highlight::Color::Indexed(i)) => {
            out = out.fg(Color::Indexed(i));
        }
        None => {}
    }
    out.add_modifier(
        Modifier {
            bold: style.bold,
            dim: style.dim,
            italic: style.italic,
            underlined: style.underline,
            crossed_out: false,
        },
    )
}

// -- text without tabs ----------------------------------------------------

/// Where characters stop being spaces, or stop being anything else.
pub open spec fn turn_from(s: Seq<char>, i: int, spaces: bool) -> int
    decreases s.len() - i,
{
    if i >= s.len() || (s[i] == ' ') != spaces {
        i
    } else {
        turn_from(s, i + 1, spaces)
    }
}

pub proof fn lemma_turn_from(s: Seq<char>, i: int, spaces: bool)
    requires
        i <= s.len(),
    ensures
        i <= turn_from(s, i, spaces) <= s.len(),
        i < s.len() && (s[i] == ' ') == spaces ==> i < turn_from(s, i, spaces),
        forall|k: int| i <= k < turn_from(s, i, spaces) ==> (#[trigger] s[k] == ' ') == spaces,
    decreases s.len() - i,
{
    if i < s.len() && (s[i] == ' ') == spaces {
        lemma_turn_from(s, i + 1, spaces);
    }
}

/// Text from `i` on with one span per run of spaces, drawn as something you can
/// see, and one per run of anything else.
pub open spec fn segments(s: Seq<char>, i: int, style: Style, marks: Style) -> Seq<SpanView>
    decreases s.len() - i,
{
    if i >= s.len() {
        Seq::empty()
    } else {
        let spaces = s[i] == ' ';
        let j = turn_from(s, i, spaces);
        proof {
            lemma_turn_from(s, i, spaces);
        }
        let span = if spaces {
            SpanView { text: repeated(space_mark(), (j - i) as nat), style: marks }
        } else {
            SpanView { text: s.subrange(i, j), style }
        };
        seq![span] + segments(s, j, style, marks)
    }
}

/// Text without tabs. `marks` is what the marks wear, where they are drawn.
pub open spec fn body_spans(s: Seq<char>, style: Style, marks: Option<Style>) -> Seq<SpanView> {
    if s.len() == 0 {
        Seq::empty()
    } else if marks is Some && s.contains(' ') {
        segments(s, 0, style, marks->0)
    } else {
        seq![SpanView { text: s, style }]
    }
}

/// Splits ordinary text away from the spaces in it, so the spaces can be drawn
/// as something you can see.
fn push_body(spans: &mut Vec<Span>, chars: &Vec<char>, a: usize, b: usize, style: Style, marks: Option<Style>)
    requires
        a <= b <= chars@.len(),
    ensures
        spans_view(final(spans)@) == spans_view(old(spans)@) + body_spans(
            chars@.subrange(a as int, b as int),
            style,
            marks,
        ),
{
    let ghost s = chars@.subrange(a as int, b as int);
    let ghost before = spans_view(spans@);
    if a == b {
        assert(before + Seq::<SpanView>::empty() =~= before);
        return;
    }
    let mut spaced: bool = false;
    let mut k: usize = a;
    while k < b
        invariant
            a <= k <= b <= chars@.len(),
            s == chars@.subrange(a as int, b as int),
            spaced <==> exists|m: int| 0 <= m < k - a && #[trigger] s[m] == ' ',
        decreases b - k,
    {
        assert(s[k - a] == chars@[k as int]);
        if chars[k] == ' ' {
            spaced = true;
        }
        k += 1;
    }
    assert(spaced == s.contains(' ')) by {
        if s.contains(' ') {
            let m = choose|m: int| 0 <= m < s.len() && s[m] == ' ';
            assert(s[m] == ' ');
        }
    }
    let mark: Style = match marks {
        Some(mark) if spaced => mark,
        _ => {
            push_span(spans, between(chars, a, b), style);
            assert(spans_view(spans@) =~= before + body_spans(s, style, marks));
            return;
        }
    };
    let mut i: usize = a;
    assert(before + segments(s, 0, style, mark) =~= spans_view(spans@) + segments(s, 0, style, mark));
    while i < b
        invariant
            a <= i <= b <= chars@.len(),
            s == chars@.subrange(a as int, b as int),
            before + segments(s, 0, style, mark) == spans_view(spans@) + segments(s, i - a, style, mark),
        decreases b - i,
    {
        let spaces: bool = chars[i] == ' ';
        assert(s[i - a] == chars@[i as int]);
        let ghost turn = turn_from(s, i - a, spaces);
        proof {
            lemma_turn_from(s, i - a, spaces);
        }
        let mut j: usize = i + 1;
        while j < b && (chars[j] == ' ') == spaces
            invariant
                a <= i < j <= b <= chars@.len(),
                s == chars@.subrange(a as int, b as int),
                turn == turn_from(s, j - a, spaces),
            decreases b - j,
        {
            assert(s[j - a] == chars@[j as int]);
            j += 1;
        }
        assert(j < b ==> s[j - a] == chars@[j as int]);
        assert(turn == j - a);
        let ghost had = spans_view(spans@);
        if spaces {
            push_span(spans, repeat("·", j - i), mark);
        } else {
            push_span(spans, between(chars, i, j), style);
            assert(chars@.subrange(i as int, j as int) =~= s.subrange(i - a, j - a));
        }
        proof {
            let span = spans_view(spans@).last();
            assert(spans_view(spans@) =~= had.push(span));
            assert(segments(s, i - a, style, mark) =~= seq![span] + segments(s, j - a, style, mark));
            assert(had + segments(s, i - a, style, mark) =~= spans_view(spans@) + segments(s, j - a, style, mark));
        }
        i = j;
    }
    assert(spans_view(spans@) + segments(s, b - a, style, mark) =~= spans_view(spans@));
}

// -- tabs -----------------------------------------------------------------

/// Where the next tab is, or the end where there is none.
pub open spec fn tab_from(s: Seq<char>, i: int) -> int
    decreases s.len() - i,
{
    if i >= s.len() || s[i] == '\t' {
        i
    } else {
        tab_from(s, i + 1)
    }
}

pub proof fn lemma_tab_from(s: Seq<char>, i: int)
    requires
        i <= s.len(),
    ensures
        i <= tab_from(s, i) <= s.len(),
        tab_from(s, i) < s.len() ==> s[tab_from(s, i)] == '\t',
        forall|k: int| i <= k < tab_from(s, i) ==> #[trigger] s[k] != '\t',
    decreases s.len() - i,
{
    if i < s.len() && s[i] != '\t' {
        lemma_tab_from(s, i + 1);
    }
}

/// How far it is from a column to the next tab stop.
pub open spec fn to_stop(column: nat) -> nat {
    (TAB - column % TAB as nat) as nat
}

/// A tab. The arrow takes the first cell of the stop; the rest is the blank the
/// tab was always drawn as.
pub open spec fn tab_spans(pad: nat, style: Style, marks: Option<Style>) -> Seq<SpanView> {
    match marks {
        Some(mark) => seq![
            SpanView { text: tab_mark(), style: mark },
            SpanView { text: repeated(" "@, (pad - 1) as nat), style },
        ],
        None => seq![SpanView { text: repeated(" "@, pad), style }],
    }
}

/// Text from `i` on, with tabs expanded to the next stop.
pub open spec fn expanded(s: Seq<char>, i: int, column: nat, style: Style, marks: Option<Style>) -> Seq<SpanView>
    decreases s.len() - i,
{
    if i >= s.len() {
        Seq::empty()
    } else {
        let j = tab_from(s, i);
        proof {
            lemma_tab_from(s, i);
        }
        let body = body_spans(s.subrange(i, j), style, marks);
        if j >= s.len() {
            body
        } else {
            let at = (column + (j - i)) as nat;
            body + tab_spans(to_stop(at), style, marks) + expanded(s, j + 1, at + to_stop(at), style, marks)
        }
    }
}

/// The column that text from `i` on ends in.
pub open spec fn column_after(s: Seq<char>, i: int, column: nat) -> nat
    decreases s.len() - i,
{
    if i >= s.len() {
        column
    } else {
        let next = if s[i] == '\t' {
            column + to_stop(column)
        } else {
            column + 1
        };
        column_after(s, i + 1, next)
    }
}

proof fn lemma_column_over_body(s: Seq<char>, i: int, j: int, column: nat)
    requires
        0 <= i <= j <= s.len(),
        forall|k: int| i <= k < j ==> #[trigger] s[k] != '\t',
    ensures
        column_after(s, i, column) == column_after(s, j, (column + (j - i)) as nat),
    decreases j - i,
{
    if i < j {
        lemma_column_over_body(s, i + 1, j, column + 1);
    }
}

proof fn lemma_stop(stop: int, column: int, n: int)
    requires
        0 <= n,
        0 <= column,
        stop == column % 4,
    ensures
        (stop + n % 4) % 4 == (column + n) % 4,
{
}

/// Appends a tab.
fn push_tab(spans: &mut Vec<Span>, pad: usize, style: Style, marks: Option<Style>)
    requires
        pad > 0,
    ensures
        spans_view(final(spans)@) == spans_view(old(spans)@) + tab_spans(pad as nat, style, marks),
{
    let ghost before = spans_view(spans@);
    match marks {
        Some(mark) => {
            push_span(spans, "→".to_owned(), mark);
            push_span(spans, repeat(" ", pad - 1), style);
        }
        None => {
            push_span(spans, repeat(" ", pad), style);
        }
    }
    assert(spans_view(spans@) =~= before + tab_spans(pad as nat, style, marks));
}

/// Appends some text, and moves past it. Only where the column stands between
/// two stops is kept.
fn push_text(spans: &mut Vec<Span>, chars: &Vec<char>, stop: &mut usize, style: Style, marks: Option<Style>, Ghost(column): Ghost<nat>)
    requires
        *old(stop) < TAB,
        *old(stop) == column % TAB as nat,
    ensures
        *final(stop) < TAB,
        *final(stop) == column_after(chars@, 0, column) % TAB as nat,
        spans_view(final(spans)@) == spans_view(old(spans)@) + expanded(chars@, 0, column, style, marks),
{
    let ghost before = spans_view(spans@);
    let ghost whole = expanded(chars@, 0, column, style, marks);
    let ghost mut col = column;
    let mut i: usize = 0;
    assert(before + whole =~= spans_view(spans@) + expanded(chars@, 0, col, style, marks));
    while i < chars.len()
        invariant
            i <= chars@.len(),
            *stop < TAB,
            *stop == col % TAB as nat,
            before == spans_view(old(spans)@),
            whole == expanded(chars@, 0, column, style, marks),
            column_after(chars@, 0, column) == column_after(chars@, i as int, col),
            before + whole == spans_view(spans@) + expanded(chars@, i as int, col, style, marks),
        decreases chars.len() - i,
    {
        let ghost tab = tab_from(chars@, i as int);
        proof {
            lemma_tab_from(chars@, i as int);
        }
        let mut j: usize = i;
        while j < chars.len() && chars[j] != '\t'
            invariant
                i <= j <= chars@.len(),
                tab == tab_from(chars@, j as int),
            decreases chars.len() - j,
        {
            j += 1;
        }
        assert(tab == j);
        let ghost had = spans_view(spans@);
        push_body(spans, chars, i, j, style, marks);
        let ghost body = body_spans(chars@.subrange(i as int, j as int), style, marks);
        let ghost at = (col + (j - i)) as nat;
        proof {
            lemma_column_over_body(chars@, i as int, j as int, col);
        }
        let here: usize = (*stop + (j - i) % TAB) % TAB;
        proof {
            lemma_stop(*stop as int, col as int, j - i);
        }
        if j == chars.len() {
            *stop = here;
            proof {
                assert(expanded(chars@, i as int, col, style, marks) == body);
                assert(before + whole =~= spans_view(spans@));
            }
            return;
        }
        let pad: usize = TAB - here;
        push_tab(spans, pad, style, marks);
        *stop = 0;
        proof {
            let tabs = tab_spans(pad as nat, style, marks);
            let rest = expanded(chars@, j + 1, at + to_stop(at), style, marks);
            assert(pad == to_stop(at));
            assert(spans_view(spans@) =~= had + body + tabs);
            assert(expanded(chars@, i as int, col, style, marks) == body + tabs + rest);
            assert(had + (body + tabs + rest) =~= had + body + tabs + rest);
            assert(column_after(chars@, j as int, at) == column_after(chars@, j + 1, at + to_stop(at)));
            col = at + to_stop(at);
            assert(col % 4 == 0);
        }
        i = j + 1;
    }
    assert(expanded(chars@, chars@.len() as int, col, style, marks) =~= Seq::<SpanView>::empty());
    assert(spans_view(spans@) + Seq::<SpanView>::empty() =~= spans_view(spans@));
}

// -- a line ---------------------------------------------------------------

/// A file's text, with where its lines are and how it is colored.
#[derive(Debug)]
pub struct Text {
    pub content: String,
    pub lines: Vec<LineRange>,
    pub runs: Vec<Run>,
    pub size: u64,
    pub lossy: bool,
}

/// Runs follow each other in order.
pub open spec fn in_order(runs: Seq<Run>) -> bool {
    forall|i: int, j: int|
        #![trigger runs[i], runs[j]]
        0 <= i < j < runs.len() ==> runs[i].end <= runs[j].end
}

/// The first run that reaches past a byte.
pub open spec fn reaching(runs: Seq<Run>, i: int, past: int) -> int
    decreases runs.len() - i,
{
    if i >= runs.len() || runs[i].end > past {
        i
    } else {
        reaching(runs, i + 1, past)
    }
}

proof fn lemma_reaching(runs: Seq<Run>, i: int, past: int, k: int)
    requires
        0 <= i <= k <= runs.len(),
        forall|m: int| i <= m < k ==> (#[trigger] runs[m]).end <= past,
        k < runs.len() ==> runs[k].end > past,
    ensures
        reaching(runs, i, past) == k,
    decreases k - i,
{
    if i < k {
        assert(runs[i].end <= past);
        lemma_reaching(runs, i + 1, past, k);
    }
}

/// The first run that reaches past a byte.
fn first_run(runs: &Vec<Run>, past: usize) -> (k: usize)
    requires
        in_order(runs@),
    ensures
        k == reaching(runs@, 0, past as int),
        k <= runs@.len(),
{
    let mut low: usize = 0;
    let mut high: usize = runs.len();
    while low < high
        invariant
            low <= high <= runs@.len(),
            in_order(runs@),
            forall|m: int| 0 <= m < low ==> (#[trigger] runs@[m]).end <= past,
            forall|m: int| high <= m < runs@.len() ==> (#[trigger] runs@[m]).end > past,
        decreases high - low,
    {
        let mid: usize = low + (high - low) / 2;
        if runs[mid].end <= past {
            low = mid + 1;
        } else {
            high = mid;
        }
    }
    proof {
        lemma_reaching(runs@, 0, past as int, low as int);
    }
    low
}

/// How far a line has been drawn: the spans so far, the column they end in and
/// the byte they reach.
pub struct Drawn {
    pub spans: Seq<SpanView>,
    pub column: nat,
    pub at: int,
}

impl Drawn {
    /// With a slice of the file drawn after the rest, reaching `to`.
    pub open spec fn then_text(self, s: Seq<char>, to: int, style: Style, marks: Option<Style>) -> Drawn {
        Drawn {
            spans: self.spans + expanded(s, 0, self.column, style, marks),
            column: column_after(s, 0, self.column),
            at: to,
        }
    }

    /// With whatever lies before `to` and is not drawn yet drawn in `style`.
    pub open spec fn filled(self, body: Seq<u8>, to: int, style: Style, marks: Option<Style>) -> Drawn {
        match sliced(body, self.at, to) {
            Some(s) if self.at < to => self.then_text(s, to, style, marks),
            _ => self,
        }
    }

    /// With a run from `from` to `to` drawn, as far as the line has not got
    /// there yet, after whatever no run covers before it. One that starts or
    /// ends inside a character is left to be drawn without its color.
    pub open spec fn then_run(self, body: Seq<u8>, from: int, to: int, style: Style, theme: &Theme, marks: Option<Style>) -> Drawn {
        let start = most(from, self.at);
        match sliced(body, start, to) {
            Some(s) if start < to => self.filled(body, start, theme.code, marks).then_text(s, to, style, marks),
            _ => self,
        }
    }
}

/// A line from `start` to `end` with its runs from `k` on drawn.
pub open spec fn with_runs(
    body: Seq<u8>,
    runs: Seq<Run>,
    k: int,
    start: int,
    end: int,
    theme: &Theme,
    marks: Option<Style>,
    d: Drawn,
) -> Drawn
    decreases runs.len() - k,
{
    if k < 0 || k >= runs.len() || runs[k].start >= end {
        d
    } else {
        let next = d.then_run(
            body,
            most(runs[k].start as int, start),
            least(runs[k].end as int, end),
            run_style(runs[k].style, theme),
            theme,
            marks,
        );
        with_runs(body, runs, k + 1, start, end, theme, marks, next)
    }
}

/// The ending of a line that stops at `end`: `␍` where the file has one there,
/// and `␊` unless the file is at its end.
pub open spec fn ending(body: Seq<u8>, end: int, mark: Style) -> Seq<SpanView> {
    if end < body.len() {
        (if body[end] == CR {
            seq![SpanView { text: "␍"@, style: mark }]
        } else {
            Seq::empty()
        }) + seq![SpanView { text: "␊"@, style: mark }]
    } else {
        Seq::empty()
    }
}

/// What a line from `start` to `end` is drawn as: its runs, whatever they do
/// not cover (the whole line when there is no coloring at all), and its ending
/// where `marks` says what to draw one in.
pub open spec fn line_drawn(
    body: Seq<u8>,
    runs: Seq<Run>,
    start: int,
    end: int,
    theme: &Theme,
    marks: Option<Style>,
) -> Seq<SpanView> {
    let nothing = Drawn { spans: Seq::empty(), column: 0, at: start };
    let d = with_runs(body, runs, reaching(runs, 0, start), start, end, theme, marks, nothing);
    let tail = match marks {
        Some(mark) => ending(body, end, mark),
        None => Seq::empty(),
    };
    d.filled(body, end, theme.code, marks).spans + tail
}

/// What the marks are drawn in, where they are drawn.
pub open spec fn marks_style(theme: &Theme, marks: bool) -> Option<Style> {
    if marks {
        Some(theme.marks)
    } else {
        None
    }
}

/// Draws whatever lies between `at` and `to`, and says how far the line has
/// got.
fn fill_up(
    spans: &mut Vec<Span>,
    content: &str,
    at: usize,
    to: usize,
    stop: &mut usize,
    style: Style,
    marks: Option<Style>,
    Ghost(d): Ghost<Drawn>,
) -> (reached: usize)
    requires
        *old(stop) < TAB,
        *old(stop) == d.column % TAB as nat,
        at == d.at,
        spans_view(old(spans)@) == d.spans,
    ensures
        ({
            let after = d.filled(content.spec_bytes(), to as int, style, marks);
            &&& spans_view(final(spans)@) == after.spans
            &&& *final(stop) < TAB
            &&& *final(stop) == after.column % TAB as nat
            &&& reached == after.at
        }),
{
    if at < to {
        if let Some(chars) = slice(content, at, to) {
            push_text(spans, &chars, stop, style, marks, Ghost(d.column));
            return to;
        }
    }
    at
}

/// One line as styled spans, with tabs expanded to the next stop.
pub fn line_spans(text: &Text, line: &LineRange, theme: &Theme, marks: bool) -> (l: Line)
    requires
        in_order(text.runs@),
    ensures
        l@.style is None,
        l@.spans == line_drawn(
            encode_utf8(text.content@),
            text.runs@,
            line.start as int,
            line.end as int,
            theme,
            marks_style(theme, marks),
        ),
{
    let content: &str = text.content.as_str();
    let ghost body = content.spec_bytes();
    let mark: Option<Style> = if marks { Some(theme.marks) } else { None };
    let ghost start = line.start as int;
    let ghost end = line.end as int;
    let ghost nothing = Drawn { spans: Seq::empty(), column: 0, at: start };
    let ghost all = with_runs(body, text.runs@, reaching(text.runs@, 0, start), start, end, theme, mark, nothing);
    let ghost mut d = nothing;
    let mut spans: Vec<Span> = Vec::new();
    let mut stop: usize = 0;
    let mut at: usize = line.start;
    let mut k: usize = first_run(&text.runs, line.start);
    assert(spans_view(spans@) =~= Seq::<SpanView>::empty());
    while k < text.runs.len() && text.runs[k].start < line.end
        invariant
            k <= text.runs@.len(),
            start == line.start,
            end == line.end,
            content@ == text.content@,
            body == content.spec_bytes(),
            mark == marks_style(theme, marks),
            stop < TAB,
            stop == d.column % TAB as nat,
            at == d.at,
            spans_view(spans@) == d.spans,
            all == with_runs(body, text.runs@, k as int, start, end, theme, mark, d),
        decreases text.runs.len() - k,
    {
        let run: Run = text.runs[k];
        let from: usize = if run.start > line.start { run.start } else { line.start };
        let to: usize = if run.end < line.end { run.end } else { line.end };
        let style: Style = style_of(&run.style, theme);
        let ghost was = d;
        let first: usize = if from > at { from } else { at };
        if first < to {
            if let Some(chars) = slice(content, first, to) {
                let filled: usize = fill_up(&mut spans, content, at, first, &mut stop, theme.code, mark, Ghost(d));
                proof {
                    d = d.filled(body, first as int, theme.code, mark);
                }
                assert(filled == d.at);
                push_text(&mut spans, &chars, &mut stop, style, mark, Ghost(d.column));
                at = to;
                proof {
                    d = d.then_text(chars@, to as int, style, mark);
                }
            }
        }
        assert(d == was.then_run(body, from as int, to as int, style, theme, mark));
        k += 1;
    }
    assert(all == d);
    // The whole line when there is no coloring at all.
    let _ = fill_up(&mut spans, content, at, line.end, &mut stop, theme.code, mark, Ghost(d));
    proof {
        d = d.filled(body, end, theme.code, mark);
    }
    let ghost tail = match mark {
        Some(m) => ending(body, end, m),
        None => Seq::empty(),
    };
    let bytes: &[u8] = content.as_bytes();
    if marks && line.end < bytes.len() {
        if bytes[line.end] == CR {
            push_span(&mut spans, "␍".to_owned(), theme.marks);
        }
        push_span(&mut spans, "␊".to_owned(), theme.marks);
    }
    assert(spans_view(spans@) =~= d.spans + tail);
    Line { spans, style: None }
}

} // verus!
