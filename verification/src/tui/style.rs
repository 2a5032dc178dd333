//! Styled text, as plain values.

use vstd::prelude::*;
use vstd::string::*;

verus! {

#[derive(Debug, Clone, Copy, PartialEq, Eq, Structural)]
pub enum Color {
    Red,
    Yellow,
    Blue,
    DarkGray,
    /// One of the terminal's own 256 colors.
    Indexed(u8),
    Rgb(u8, u8, u8),
}

#[derive(Debug, Clone, Copy, PartialEq, Eq, Structural)]
pub struct Modifier {
    pub bold: bool,
    pub dim: bool,
    pub italic: bool,
    pub underlined: bool,
    pub crossed_out: bool,
}

/// What a style changes about the cells it is written over.
#[derive(Debug, Clone, Copy, PartialEq, Eq, Structural)]
pub struct Style {
    pub fg: Option<Color>,
    pub bg: Option<Color>,
    pub modifier: Modifier,
    /// Whatever the cells wore before is dropped first.
    pub reset: bool,
}

/// No emphasis.
pub open spec fn plain_modifier() -> Modifier {
    Modifier { bold: false, dim: false, italic: false, underlined: false, crossed_out: false }
}

/// Changes nothing.
pub open spec fn no_style() -> Style {
    Style { fg: None, bg: None, modifier: plain_modifier(), reset: false }
}

impl Modifier {
    /// Both kinds of emphasis together.
    pub open spec fn both(&self, other: &Modifier) -> Modifier {
        Modifier {
            bold: self.bold || other.bold,
            dim: self.dim || other.dim,
            italic: self.italic || other.italic,
            underlined: self.underlined || other.underlined,
            crossed_out: self.crossed_out || other.crossed_out,
        }
    }

    pub fn union(&self, other: &Modifier) -> (m: Modifier)
        ensures
            m == self.both(other),
    {
        Modifier {
            bold: self.bold || other.bold,
            dim: self.dim || other.dim,
            italic: self.italic || other.italic,
            underlined: self.underlined || other.underlined,
            crossed_out: self.crossed_out || other.crossed_out,
        }
    }
}

impl Default for Modifier {
    fn default() -> (m: Modifier)
        ensures
            m == plain_modifier(),
    {
        Modifier { bold: false, dim: false, italic: false, underlined: false, crossed_out: false }
    }
}

impl Default for Style {
    fn default() -> (s: Style)
        ensures
            s == no_style(),
    {
        Style { fg: None, bg: None, modifier: Modifier::default(), reset: false }
    }
}

impl Style {
    /// The style with a foreground.
    pub fn fg(self, color: Color) -> (s: Style)
        ensures
            s == (Style { fg: Some(color), ..self }),
    {
        Style { fg: Some(color), ..self }
    }

    /// The style with a background.
    pub fn bg(self, color: Color) -> (s: Style)
        ensures
            s == (Style { bg: Some(color), ..self }),
    {
        Style { bg: Some(color), ..self }
    }

    /// The style with more emphasis.
    pub fn add_modifier(self, modifier: Modifier) -> (s: Style)
        ensures
            s == (Style { modifier: self.modifier.both(&modifier), ..self }),
    {
        Style { modifier: self.modifier.union(&modifier), ..self }
    }
}

/// Some text in one style.
#[derive(Debug)]
pub struct Span {
    pub text: String,
    pub style: Style,
}

/// A [`Span`] as a value.
#[verifier::ext_equal]
pub struct SpanView {
    pub text: Seq<char>,
    pub style: Style,
}

impl View for Span {
    type V = SpanView;

    open spec fn view(&self) -> SpanView {
        SpanView { text: self.text@, style: self.style }
    }
}

/// Spans as values.
pub open spec fn spans_view(spans: Seq<Span>) -> Seq<SpanView> {
    spans.map_values(|s: Span| s@)
}

/// What spans spell, one after the other.
pub open spec fn spelled(spans: Seq<SpanView>) -> Seq<char>
    decreases spans.len(),
{
    if spans.len() == 0 {
        Seq::empty()
    } else {
        spelled(spans.drop_last()) + spans.last().text
    }
}

/// What two lists of spans spell together.
pub proof fn lemma_spelled_add(a: Seq<SpanView>, b: Seq<SpanView>)
    ensures
        spelled(a + b) == spelled(a) + spelled(b),
    decreases b.len(),
{
    if b.len() == 0 {
        assert(a + b =~= a);
    } else {
        assert((a + b).drop_last() =~= a + b.drop_last());
        assert((a + b).last() == b.last());
        lemma_spelled_add(a, b.drop_last());
    }
}

/// A line of spans, with what the whole line wears.
#[derive(Debug)]
pub struct Line {
    pub spans: Vec<Span>,
    pub style: Option<Style>,
}

/// A [`Line`] as a value.
#[verifier::ext_equal]
pub struct LineView {
    pub spans: Seq<SpanView>,
    pub style: Option<Style>,
}

impl View for Line {
    type V = LineView;

    open spec fn view(&self) -> LineView {
        LineView { spans: spans_view(self.spans@), style: self.style }
    }
}

/// Appends a span.
pub fn push_span(spans: &mut Vec<Span>, text: String, style: Style)
    ensures
        spans_view(final(spans)@) == spans_view(old(spans)@).push(SpanView { text: text@, style }),
{
    let ghost before = spans@;
    spans.push(Span { text, style });
    assert(spans_view(spans@) =~= spans_view(before).push(SpanView { text: text@, style }));
}

/// A text some number of times over.
pub open spec fn repeated(text: Seq<char>, n: nat) -> Seq<char>
    decreases n,
{
    if n == 0 {
        Seq::empty()
    } else {
        repeated(text, (n - 1) as nat) + text
    }
}

pub proof fn lemma_repeated_len(text: Seq<char>, n: nat)
    requires
        text.len() == 1,
    ensures
        repeated(text, n).len() == n,
    decreases n,
{
    if n > 0 {
        lemma_repeated_len(text, (n - 1) as nat);
    }
}

/// Writes a text some number of times over.
pub fn repeat(text: &str, n: usize) -> (s: String)
    ensures
        s@ == repeated(text@, n as nat),
{
    let mut s: String = String::new();
    let mut i: usize = 0;
    while i < n
        invariant
            i <= n,
            s@ == repeated(text@, i as nat),
        decreases n - i,
    {
        s.append(text);
        i += 1;
    }
    s
}

} // verus!
