//! The file pane: what `viewing` actually shows.
//!
//! The pane holds its own copy of the file because the session does not: the
//! shared state says *which* file is open, and each view reads it for itself.

use vstd::arithmetic::power2::{lemma2_to64, lemma_pow2_unfold, pow2};
use vstd::prelude::*;
use vstd::string::*;
use vstd::utf8::*;

use super::area::{capped, least, less, pair, paired, Rect};
use super::lines::{bytes, line_ranges, lines_from, ranges_view, size_text, LineRange};
use super::render::Theme;
use super::spans::{in_order, line_drawn, line_spans, marks_style, Text};
use super::style::{push_span, repeat, repeated, spans_view, Line, LineView, Span, SpanView, Style};
use crate::highlight::Run;
use crate::path::{PathView, TreePath};
use crate::preview::Preview;
use crate::text::{decimal, decimal_of, lossy, text_of};

verus! {

#[derive(Debug)]
pub enum Body {
    Loading,
    Text(Text),
    /// Too large, binary, or unreadable: the reason, in the reader's words.
    Notice(String),
}

#[derive(Debug)]
pub struct Viewer {
    pub path: TreePath,
    pub name: String,
    pub body: Body,
    /// First visible line.
    pub offset: usize,
}

/// What a file is called in its pane.
pub open spec fn pane_name(path: PathView) -> Seq<char> {
    match path.file_name() {
        Some(name) => text_of(name),
        None => Seq::empty(),
    }
}

/// What is said in place of a file that cannot be shown.
pub open spec fn notice(preview: Preview) -> Seq<char> {
    match preview {
        Preview::TooLarge { size, limit } => size_text(size as nat) + " is over the "@ + size_text(limit as nat)
            + " preview limit\nraise it with --max-preview-size"@,
        Preview::Binary { size } => "binary file, "@ + size_text(size as nat),
        Preview::Unreadable { reason } => reason@,
        _ => "unchanged"@,
    }
}

impl Text {
    /// The lines are those of the text, and the runs are in order.
    pub open spec fn wf(&self) -> bool {
        &&& ranges_view(self.lines@) == lines_from(encode_utf8(self.content@), 0)
        &&& in_order(self.runs@)
    }
}

impl Viewer {
    pub open spec fn wf(&self) -> bool {
        self.body matches Body::Text(text) ==> text.wf()
    }

    /// How many lines there are to show.
    pub open spec fn length(&self) -> nat {
        match self.body {
            Body::Text(text) => text.lines@.len(),
            _ => 0,
        }
    }

    /// What the header says about the file beyond its name.
    pub open spec fn measurements(&self) -> Seq<char> {
        match self.body {
            Body::Loading => " · reading…"@,
            Body::Notice(_) => ""@,
            Body::Text(text) => {
                let s = " · "@ + size_text(text.size as nat) + " · "@ + decimal(text.lines@.len()) + " lines"@;
                if text.lossy {
                    s + " · not UTF-8"@
                } else {
                    s
                }
            },
        }
    }

    /// A pane that has just been opened, with the file still to be read.
    pub fn loading(path: TreePath) -> (v: Viewer)
        ensures
            v.wf(),
            v.path@ == path@,
            v.name@ == pane_name(path@),
            v.body is Loading,
            v.offset == 0,
    {
        let name: String = match path.file_name() {
            Some(n) => lossy(n.as_slice()),
            None => String::new(),
        };
        assert(path@.file_name() is None ==> name@ =~= Seq::<char>::empty());
        Viewer { path, name, body: Body::Loading, offset: 0 }
    }

    /// Takes the result of a read, which arrived some time after the pane was
    /// opened.
    pub fn fill(&mut self, preview: Preview, runs: Vec<Run>)
        requires
            in_order(runs@),
        ensures
            final(self).wf(),
            final(self).path == old(self).path,
            final(self).name == old(self).name,
            final(self).offset == 0,
            match preview {
                Preview::Text { stamp, content, lossy } => final(self).body matches Body::Text(text) && {
                    &&& text.content == content
                    &&& text.runs == runs
                    &&& text.size == stamp.size
                    &&& text.lossy == lossy
                },
                _ => final(self).body matches Body::Notice(reason) && reason@ == notice(preview),
            },
    {
        self.offset = 0;
        self.body = match preview {
            Preview::Text { stamp, content, lossy } => {
                let lines: Vec<LineRange> = line_ranges(content.as_str());
                Body::Text(Text { content, lines, runs, size: stamp.size, lossy })
            }
            Preview::TooLarge { size, limit } => {
                let mut s: String = bytes(size);
                s.append(" is over the ");
                s.append(bytes(limit).as_str());
                s.append(" preview limit\nraise it with --max-preview-size");
                Body::Notice(s)
            }
            Preview::Binary { size } => {
                let mut s: String = "binary file, ".to_owned();
                s.append(bytes(size).as_str());
                Body::Notice(s)
            }
            Preview::Unreadable { reason } => Body::Notice(reason),
            // Only sent to a caller that said what it already held, which this
            // one never does.
            Preview::Unchanged => Body::Notice("unchanged".to_owned()),
        };
    }

    pub fn line_count(&self) -> (n: usize)
        ensures
            n == self.length(),
    {
        match &self.body {
            Body::Text(text) => text.lines.len(),
            _ => 0,
        }
    }

    /// Puts `line` at the top, as far as a pane `viewport` lines tall can.
    /// A shorter pane than the one that chose the line simply sits at its own
    /// end rather than refusing to follow.
    pub fn scroll_to(&mut self, line: usize, viewport: usize)
        ensures
            final(self).path == old(self).path,
            final(self).name == old(self).name,
            final(self).body == old(self).body,
            final(self).offset == least(
                line as int,
                less(old(self).length() as int, super::area::most(viewport as int, 1)),
            ),
    {
        let height: usize = if viewport < 1 { 1 } else { viewport };
        let last: usize = self.line_count().saturating_sub(height);
        self.offset = if line < last { line } else { last };
    }

    /// What the header says about this file beyond its name, which the header
    /// is already showing beside this.
    pub fn detail(&self) -> (s: String)
        ensures
            s@ == self.measurements(),
    {
        match &self.body {
            Body::Loading => " · reading…".to_owned(),
            // Whatever is wrong is written across the pane itself.
            Body::Notice(_) => "".to_owned(),
            Body::Text(text) => {
                let mut s: String = " · ".to_owned();
                s.append(bytes(text.size).as_str());
                s.append(" · ");
                s.append(decimal_of(text.lines.len() as u64).as_str());
                s.append(" lines");
                if text.lossy {
                    s.append(" · not UTF-8");
                }
                s
            }
        }
    }
}

// -- the header -----------------------------------------------------------

/// How many cells the fold control takes: wide enough to hit without aiming.
pub const FOLD_WIDTH: u16 = 3;

/// The fold control. The arrow points where the tree is, or where it would come
/// back to.
pub open spec fn fold_text(framed: bool) -> Seq<char> {
    if framed {
        " « "@
    } else {
        " » "@
    }
}

/// Where the header starts: framed, it is written over the top border, one
/// column in.
pub open spec fn fold_cells(area: Rect, framed: bool) -> Rect {
    let x = if framed {
        capped(area.x + 1)
    } else {
        area.x as int
    };
    (Rect { x: x as u16, y: area.y, width: FOLD_WIDTH, height: 1 }).shared(&area)
}

/// The cells the fold control occupies, which are also the cells a press on it
/// lands in.
///
/// One function for both, so the marker cannot drift from what clicking it
/// does.
pub fn fold_zone(area: Rect, framed: bool) -> (r: Rect)
    ensures
        r == fold_cells(area, framed),
{
    let x: u16 = if framed { area.x.saturating_add(1) } else { area.x };
    Rect { x, y: area.y, width: FOLD_WIDTH, height: 1 }.intersection(&area)
}

/// The fold control is drawn where it is pressed: the header starts with it, in
/// the cells that answer for it.
pub proof fn lemma_fold_is_where_it_is_drawn(area: Rect, viewer: &Viewer, theme: &Theme, look: &Look)
    ensures
        header_cells(area, look.framed).x == fold_cells(area, look.framed).x,
        header_cells(area, look.framed).y == fold_cells(area, look.framed).y,
        header_spans(viewer, theme, look)[0].text.len() == FOLD_WIDTH,
        header_spans(viewer, theme, look)[0].text == fold_text(look.framed),
        area.width >= FOLD_WIDTH + 1 && area.height > 0 && area.x + area.width <= u16::MAX && area.y + area.height
            <= u16::MAX ==> fold_cells(area, look.framed).width == FOLD_WIDTH,
{
    reveal_strlit(" « ");
    reveal_strlit(" » ");
}

/// How the pane is drawn right now: the parts that are a reader's choice, plus
/// the two the layout decides.
#[derive(Debug, Clone, Copy, PartialEq, Eq, Structural)]
pub struct Look {
    pub numbers: bool,
    pub marks: bool,
    /// There is a tree beside this, so the pane has a border to separate them.
    pub framed: bool,
    /// git would ignore this file, so its name is dimmed like its row.
    pub ignored: bool,
}

/// What the file pane shows below its header.
#[derive(Debug)]
pub enum Panel {
    /// The file has not arrived yet.
    Reading(Line),
    /// Why there is no file to show.
    Notice { reason: String, style: Style },
    /// The file, with its line numbers beside it.
    Code { gutter: Rect, numbers: String, style: Style, code: Rect, lines: Vec<Line> },
}

/// Everything the file pane is drawn from.
#[derive(Debug)]
pub struct FilePicture {
    /// What the pane's border wears, where it has one.
    pub border: Option<Style>,
    pub header: Rect,
    pub title: Line,
    /// The pane without its header.
    pub inner: Rect,
    pub panel: Panel,
}

/// The line the header is written on.
pub open spec fn header_cells(area: Rect, framed: bool) -> Rect {
    let zone = fold_cells(area, framed);
    Rect {
        x: zone.x,
        y: zone.y,
        width: less(area.width as int, zone.x - area.x + (if framed {
            1int
        } else {
            0
        })) as u16,
        height: 1,
    }
}

/// The line the header is written on.
fn header_area(area: Rect, framed: bool) -> (r: Rect)
    ensures
        r == header_cells(area, framed),
{
    let zone: Rect = fold_zone(area, framed);
    let taken: u16 = zone.x - area.x + if framed { 1u16 } else { 0u16 };
    Rect { x: zone.x, y: zone.y, width: area.width.saturating_sub(taken), height: 1 }
}

/// What the header says: the fold control, the file's name and its
/// measurements. The name wears whatever it wears in the tree, dimmed included;
/// what the border wore is dropped first, because this is written over it.
pub open spec fn header_spans(viewer: &Viewer, theme: &Theme, look: &Look) -> Seq<SpanView> {
    let name = if look.ignored {
        theme.ignored
    } else {
        theme.file
    };
    seq![
        SpanView { text: fold_text(look.framed), style: theme.status },
        SpanView { text: viewer.name@, style: Style { reset: true, ..name } },
        SpanView { text: viewer.measurements() + " "@, style: theme.status },
    ]
}

/// Where the file itself goes: inside the border, or below the header where
/// there is no border to write it on.
pub open spec fn content_cells(area: Rect, framed: bool) -> Rect {
    if framed {
        area.inside()
    } else {
        Rect { y: capped(area.y + 1) as u16, height: less(area.height as int, 1) as u16, ..area }
    }
}

/// Where the file itself goes.
pub fn content_area(area: Rect, framed: bool) -> (r: Rect)
    ensures
        r == content_cells(area, framed),
{
    if framed {
        super::render::inner(area)
    } else {
        Rect { y: area.y.saturating_add(1), height: area.height.saturating_sub(1), ..area }
    }
}

// -- the gutter -----------------------------------------------------------

proof fn lemma_decimal_len(n: nat, b: nat)
    requires
        0 < b,
        n < pow2(b),
    ensures
        0 < decimal(n).len() <= b,
    decreases b,
{
    lemma_pow2_unfold(b);
    if n >= 10 {
        if b == 1 {
            lemma2_to64();
        } else {
            lemma_decimal_len(n / 10, (b - 1) as nat);
        }
    }
}

/// How many digits a number takes.
pub fn digits(n: usize) -> (d: usize)
    ensures
        d == decimal(n as nat).len(),
        d <= 64,
    decreases n,
{
    proof {
        lemma2_to64();
        lemma_decimal_len(n as nat, 64);
    }
    if n < 10 {
        1
    } else {
        digits(n / 10) + 1
    }
}

/// A text pushed right to fill some columns.
pub open spec fn right_aligned(s: Seq<char>, width: nat) -> Seq<char> {
    repeated(" "@, less(width as int, s.len() as int) as nat) + s
}

/// The line numbers of the lines from `from` up to `to`, counted from one.
pub open spec fn gutter_text(from: int, to: int, width: nat) -> Seq<char>
    decreases to - from,
{
    if from >= to {
        Seq::empty()
    } else {
        gutter_text(from, to - 1, width) + right_aligned(decimal(to as nat), width) + "\n"@
    }
}

/// How many columns the gutter takes. Hidden, it takes none: an ordinary
/// terminal selection runs from one line into the next, so numbers left on
/// screen would be dragged in along with the code.
pub open spec fn gutter_width(lines: nat, numbers: bool) -> int {
    if numbers {
        decimal(lines).len() as int + 1
    } else {
        0
    }
}

/// The first line on screen.
pub open spec fn first_line(viewer: &Viewer) -> int {
    least(viewer.offset as int, viewer.length() as int)
}

/// The line after the last on screen.
pub open spec fn past_line(viewer: &Viewer, inner: Rect) -> int {
    least(first_line(viewer) + inner.height, viewer.length() as int)
}

/// A line of the file as it is drawn.
pub open spec fn code_line(text: Text, i: int, theme: &Theme, marks: bool) -> LineView {
    LineView {
        spans: line_drawn(
            encode_utf8(text.content@),
            text.runs@,
            text.lines@[i].start as int,
            text.lines@[i].end as int,
            theme,
            marks_style(theme, marks),
        ),
        style: None,
    }
}

/// Whether a panel shows what the pane holds.
pub open spec fn is_panel(viewer: &Viewer, theme: &Theme, look: &Look, inner: Rect, panel: Panel) -> bool {
    match viewer.body {
        Body::Loading => panel matches Panel::Reading(line) && {
            &&& line@.spans == seq![SpanView { text: "reading…"@, style: super::style::no_style() }]
            &&& line@.style == Some(theme.status)
        },
        Body::Notice(said) => panel matches Panel::Notice { reason, style } && reason@ == said@ && style
            == theme.status,
        Body::Text(text) => panel matches Panel::Code { gutter, numbers, style, code, lines } && {
            let from = first_line(viewer);
            let to = past_line(viewer, inner);
            &&& (gutter, code) == paired(inner, gutter_width(text.lines@.len(), look.numbers), 1)
            &&& numbers@ == (if look.numbers {
                gutter_text(from, to, decimal(text.lines@.len()).len())
            } else {
                Seq::empty()
            })
            &&& style == theme.status
            &&& lines@.len() == to - from
            &&& forall|k: int|
                #![trigger lines@[k]]
                0 <= k < to - from ==> lines@[k]@ == code_line(text, from + k, theme, look.marks)
        },
    }
}

/// What to draw in the file pane.
pub fn draw(area: Rect, viewer: &Viewer, theme: &Theme, look: &Look) -> (p: FilePicture)
    requires
        viewer.wf(),
    ensures
        p.border == (if look.framed {
            Some(theme.guide)
        } else {
            None::<Style>
        }),
        p.header == header_cells(area, look.framed),
        p.title@ == (LineView { spans: header_spans(viewer, theme, look), style: None }),
        p.inner == content_cells(area, look.framed),
        is_panel(viewer, theme, look, p.inner, p.panel),
{
    let framed: bool = look.framed;
    // The header: the fold control and the file's name. Framed, it is written
    // over the top border where a title would go; folded, it is the one line
    // above the file, and the only thing between the reader and a selection
    // that starts at column one.
    let header: Rect = header_area(area, framed);
    let title: Line = title_line(viewer, theme, look);
    let inner: Rect = content_area(area, framed);
    let panel: Panel = match &viewer.body {
        Body::Loading => {
            let mut spans: Vec<Span> = Vec::new();
            push_span(&mut spans, "reading…".to_owned(), Style::default());
            assert(spans_view(spans@) =~= seq![SpanView { text: "reading…"@, style: super::style::no_style() }]);
            Panel::Reading(Line { spans, style: Some(theme.status) })
        }
        Body::Notice(reason) => Panel::Notice { reason: reason.clone(), style: theme.status },
        Body::Text(text) => code_panel(viewer, text, theme, look, inner),
    };
    FilePicture { border: if framed { Some(theme.guide) } else { None }, header, title, inner, panel }
}

/// The header's own line.
fn title_line(viewer: &Viewer, theme: &Theme, look: &Look) -> (l: Line)
    ensures
        l@ == (LineView { spans: header_spans(viewer, theme, look), style: None }),
{
    let mut spans: Vec<Span> = Vec::new();
    push_span(&mut spans, if look.framed { " « ".to_owned() } else { " » ".to_owned() }, theme.status);
    let name: Style = if look.ignored { theme.ignored } else { theme.file };
    push_span(&mut spans, viewer.name.clone(), Style { reset: true, ..name });
    // Size and line count live here rather than in the footer: the file is
    // always on display, so its measurements belong with it.
    let mut detail: String = viewer.detail();
    detail.append(" ");
    push_span(&mut spans, detail, theme.status);
    assert(spans_view(spans@) =~= header_spans(viewer, theme, look));
    Line { spans, style: None }
}

/// The lines on screen, and their numbers.
///
/// One string for the whole gutter: a 30,000-line file is two widgets rather
/// than 30,000, which is the same reason the browser builds its gutter the way
/// it does.
fn code_panel(viewer: &Viewer, text: &Text, theme: &Theme, look: &Look, inner: Rect) -> (p: Panel)
    requires
        viewer.body == Body::Text(*text),
        text.wf(),
    ensures
        is_panel(viewer, theme, look, inner, p),
{
    let total: usize = text.lines.len();
    let wide: usize = digits(total);
    let from: usize = if viewer.offset < total { viewer.offset } else { total };
    let left: usize = total - from;
    let count: usize = if (inner.height as usize) < left { inner.height as usize } else { left };
    let width: u16 = if look.numbers { (wide + 1) as u16 } else { 0 };
    let mut numbers: String = String::new();
    let mut lines: Vec<Line> = Vec::new();
    let mut k: usize = 0;
    while k < count
        invariant
            k <= count,
            from + count <= total,
            total == text.lines@.len(),
            wide == decimal(total as nat).len(),
            in_order(text.runs@),
            numbers@ == (if look.numbers {
                gutter_text(from as int, from + k, wide as nat)
            } else {
                Seq::empty()
            }),
            lines@.len() == k,
            forall|j: int|
                #![trigger lines@[j]]
                0 <= j < k ==> lines@[j]@ == code_line(*text, from + j, theme, look.marks),
        decreases count - k,
    {
        if look.numbers {
            let number: String = decimal_of((from + k + 1) as u64);
            let ghost before = numbers@;
            numbers.append(pad(number, wide).as_str());
            numbers.append("\n");
            assert(numbers@ =~= before + right_aligned(decimal((from + k + 1) as nat), wide as nat) + "\n"@);
        }
        let line: Line = line_spans(text, &text.lines[from + k], theme, look.marks);
        assert(line@ =~= code_line(*text, from + k, theme, look.marks));
        lines.push(line);
        k += 1;
    }
    let (gutter, code) = pair(inner, width, 1);
    Panel::Code { gutter, numbers, style: theme.status, code, lines }
}

/// Pushes a text right to fill some columns.
fn pad(s: String, width: usize) -> (r: String)
    ensures
        r@ == right_aligned(s@, width as nat),
{
    let taken: usize = crate::text::chars_of(s.as_str()).len();
    let mut r: String = repeat(" ", width.saturating_sub(taken));
    r.append(s.as_str());
    r
}

// -- laws -----------------------------------------------------------------

/// A number pushed right ends in its digits and has blanks in front of them, as
/// many as it takes.
pub proof fn lemma_numbers_are_pushed_right(s: Seq<char>, width: nat, k: int)
    requires
        s.len() <= width,
    ensures
        right_aligned(s, width).len() == width,
        right_aligned(s, width).skip(width - s.len()) == s,
        0 <= k < width - s.len() ==> right_aligned(s, width)[k] == ' ',
{
    lemma_blanks_fill((width - s.len()) as nat, k);
    assert(right_aligned(s, width).skip(width - s.len()) =~= s);
}

proof fn lemma_blanks_fill(n: nat, k: int)
    ensures
        repeated(" "@, n).len() == n,
        0 <= k < n ==> repeated(" "@, n)[k] == ' ',
    decreases n,
{
    reveal_strlit(" ");
    if n > 0 {
        lemma_blanks_fill((n - 1) as nat, k);
    }
}

proof fn lemma_larger_numbers_are_no_shorter(n: nat, m: nat)
    requires
        n <= m,
    ensures
        decimal(n).len() <= decimal(m).len(),
    decreases m,
{
    if m >= 10 && n >= 10 {
        lemma_larger_numbers_are_no_shorter(n / 10, m / 10);
    }
}

/// The gutter has a line for every line on screen, with its number counted from
/// one, each as wide as the widest.
pub proof fn lemma_the_gutter_counts_from_one(from: int, to: int, width: nat, k: int)
    requires
        0 <= from <= to,
        decimal(to as nat).len() <= width,
    ensures
        gutter_text(from, to, width).len() == (to - from) * (width + 1),
        from <= k < to ==> gutter_text(from, to, width).subrange((k - from) * (width + 1), (k - from) * (width + 1) + width + 1)
            == right_aligned(decimal((k + 1) as nat), width).push('\n'),
    decreases to - from,
{
    reveal_strlit("\n");
    let w = (width + 1) as int;
    if from < to {
        lemma_larger_numbers_are_no_shorter((to - 1) as nat, to as nat);
        lemma_the_gutter_counts_from_one(from, to - 1, width, k);
        let before = gutter_text(from, to - 1, width);
        let last = right_aligned(decimal(to as nat), width);
        lemma_numbers_are_pushed_right(decimal(to as nat), width, 0);
        assert((to - from) * w == (to - 1 - from) * w + w) by (nonlinear_arith);
        let all = gutter_text(from, to, width);
        if from <= k < to {
            let a = (k - from) * w;
            if k < to - 1 {
                assert(0 <= a && a + w <= (to - 1 - from) * w) by (nonlinear_arith)
                    requires
                        a == (k - from) * w,
                        from <= k < to - 1,
                        w >= 0,
                ;
                assert(all.subrange(a, a + w) =~= before.subrange(a, a + w));
            } else {
                assert(all.subrange(a, a + w) =~= last.push('\n'));
            }
        }
    } else {
        assert((to - from) * w == 0) by (nonlinear_arith)
            requires
                to == from,
        ;
    }
}

/// The lines on screen are those from the offset on, as many as there is room for
/// and as there are.
pub proof fn lemma_which_lines_are_on_screen(viewer: &Viewer, inner: Rect)
    ensures
        viewer.offset <= viewer.length() ==> first_line(viewer) == viewer.offset,
        viewer.offset <= viewer.length() && viewer.offset + inner.height <= viewer.length() ==> past_line(viewer, inner)
            == viewer.offset + inner.height,
        viewer.offset <= viewer.length() && viewer.offset + inner.height > viewer.length() ==> past_line(viewer, inner)
            == viewer.length(),
        viewer.offset > viewer.length() ==> first_line(viewer) == viewer.length() && past_line(viewer, inner) == viewer.length(),
{
}

/// The gutter is as wide as the largest number and a blank, and takes nothing
/// where it is hidden.
pub proof fn lemma_how_wide_the_gutter_is(lines: nat)
    ensures
        gutter_width(lines, true) == decimal(lines).len() + 1,
        gutter_width(lines, false) == 0,
{
}

/// Framed, the file is inside the border; bare, it has everything below the
/// header. The header is the first line either way.
pub proof fn lemma_where_the_file_goes(area: Rect, column: int, row: int)
    requires
        area.x + area.width < u16::MAX,
        area.y + area.height < u16::MAX,
    ensures
        content_cells(area, true).covers(column, row) <==> area.x < column < area.x + area.width - 1 && area.y < row < area.y
            + area.height - 1,
        content_cells(area, false).covers(column, row) <==> area.covers(column, row) && row != area.y,
        header_cells(area, true).y == area.y && header_cells(area, false).y == area.y,
        header_cells(area, false).x == area.x && header_cells(area, false).width == area.width,
        area.width >= 2 && area.height > 0 ==> header_cells(area, true).x == area.x + 1 && header_cells(area, true).width
            == area.width - 2,
{
}

/// What is said in place of a file, and beside the name of one.
pub proof fn lemma_what_is_said_of_a_file(viewer: &Viewer, size: u64, limit: u64, reason: String)
    ensures
        notice(Preview::TooLarge { size, limit }) == size_text(size as nat) + " is over the "@ + size_text(limit as nat)
            + " preview limit\nraise it with --max-preview-size"@,
        notice(Preview::Binary { size }) == "binary file, "@ + size_text(size as nat),
        notice(Preview::Unreadable { reason }) == reason@,
        viewer.body matches Body::Text(text) ==> {
            let plain = " · "@ + size_text(text.size as nat) + " · "@ + decimal(text.lines@.len()) + " lines"@;
            &&& !text.lossy ==> viewer.measurements() == plain
            &&& text.lossy ==> viewer.measurements() == plain + " · not UTF-8"@
        },
{
}

/// The control points where the tree goes: away to the left, or back from there.
pub proof fn lemma_which_way_the_arrow_points()
    ensures
        fold_text(true) == seq![' ', '«', ' '],
        fold_text(false) == seq![' ', '»', ' '],
{
    reveal_strlit(" « ");
    reveal_strlit(" » ");
    assert(" « "@ =~= seq![' ', '«', ' ']);
    assert(" » "@ =~= seq![' ', '»', ' ']);
}

/// The header says the control, the name and the measurements, in that order, and
/// the name is dimmed where the row is.
pub proof fn lemma_what_the_header_says(viewer: &Viewer, theme: &Theme, look: &Look)
    ensures
        header_spans(viewer, theme, look).len() == 3,
        header_spans(viewer, theme, look)[1].text == viewer.name@,
        header_spans(viewer, theme, look)[2].text == viewer.measurements() + " "@,
        look.ignored ==> header_spans(viewer, theme, look)[1].style.fg == theme.ignored.fg,
        !look.ignored ==> header_spans(viewer, theme, look)[1].style.fg == theme.file.fg,
        header_spans(viewer, theme, look)[1].style.reset,
{
}

/// Line numbers, a notice and the word that a file is being read are all drawn
/// as the footer is, and a notice says just what it was given.
pub proof fn lemma_what_is_not_the_file_is_faint(viewer: &Viewer, theme: &Theme, look: &Look, inner: Rect, panel: Panel)
    requires
        is_panel(viewer, theme, look, inner, panel),
    ensures
        match panel {
            Panel::Code { gutter, numbers, style, code, lines } => {
                &&& viewer.body is Text
                &&& style == theme.status
                &&& !look.numbers ==> numbers@.len() == 0
            },
            Panel::Notice { reason, style } => style == theme.status && (viewer.body matches Body::Notice(said) && reason@
                == said@),
            Panel::Reading(line) => viewer.body is Loading && line@.style == Some(theme.status),
        },
{
}

/// The file pane shows the lines from the offset on, each as it stands in the
/// file, whatever it is colored in.
pub proof fn lemma_the_file_is_shown_line_by_line(
    viewer: &Viewer,
    theme: &Theme,
    look: &Look,
    inner: Rect,
    panel: Panel,
    text: Text,
    k: int,
)
    requires
        viewer.wf(),
        is_panel(viewer, theme, look, inner, panel),
        viewer.body == Body::Text(text),
        viewer.offset + k < text.lines@.len(),
        0 <= k < inner.height,
        !look.marks,
        ({
            let line = text.lines@[viewer.offset + k];
            is_char_boundary(encode_utf8(text.content@), line.start as int) && is_char_boundary(
                encode_utf8(text.content@),
                line.end as int,
            ) && line.start <= line.end
        }),
    ensures
        panel matches Panel::Code { gutter, numbers, style, code, lines } && {
            let line = text.lines@[viewer.offset + k];
            &&& k < lines@.len()
            &&& super::style::spelled(lines@[k]@.spans) == super::drawn::shown_text(
                decode_utf8(encode_utf8(text.content@).subrange(line.start as int, line.end as int)),
                0,
                0,
                false,
            )
        },
{
    let line = text.lines@[viewer.offset + k];
    let body = encode_utf8(text.content@);
    encode_utf8_valid_utf8(text.content@);
    super::drawn::lemma_coloring_keeps_the_text(body, text.runs@, line.start as int, line.end as int, theme, None);
    let shown = super::drawn::shown_text(decode_utf8(body.subrange(line.start as int, line.end as int)), 0, 0, false);
    assert(shown + Seq::<char>::empty() =~= shown);
    if let Panel::Code { gutter, numbers, style, code, lines } = panel {
        assert(lines@[k]@ == code_line(text, first_line(viewer) + k, theme, look.marks));
    }
}

} // verus!
