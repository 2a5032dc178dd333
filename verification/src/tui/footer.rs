//! The footer.
//!
//! Every mode indicator says what the state *is*, not what the key would do:
//! the glyph or the word is the answer, and dim means off. Each is also a
//! button, so the line is measured as it is written.

use vstd::prelude::*;
use vstd::string::*;

use super::area::{capped, nowhere, Rect};
use super::input::{Action, ActionView};
use super::render::Theme;
use super::style::{push_span, spans_view, Line, LineView, Span, SpanView};
use super::Focus;
use crate::state::{Command, CommandView};

verus! {

/// What the footer reports, and what `c` sets in one go.
#[derive(Debug, Clone, Copy, PartialEq, Eq, Structural)]
pub struct Modes {
    pub folded: bool,
    pub numbers: bool,
    pub marks: bool,
    /// Dotfiles are listed. Not a mode of this view (it is the tree's own
    /// switch, and the browser has the same one), but it reads as one.
    pub dotfiles: bool,
    /// treex has the mouse; the terminal cannot select while it does.
    pub mouse: bool,
    /// `c` is engaged, so there is a previous state to go back to.
    pub copying: bool,
}

/// Where each indicator was drawn. They are buttons as much as readouts: the
/// keys are for hands already on the keyboard, and a pointer should not have
/// to learn them.
#[derive(Debug, Clone, Copy, PartialEq, Eq, Structural)]
pub struct ModeZones {
    pub fold: Rect,
    pub numbers: Rect,
    pub marks: Rect,
    pub dotfiles: Rect,
    pub mouse: Rect,
    pub copy: Rect,
}

impl Default for ModeZones {
    /// No indicator is anywhere.
    fn default() -> (z: ModeZones)
        ensures
            z == no_zones(),
    {
        ModeZones {
            fold: Rect::default(),
            numbers: Rect::default(),
            marks: Rect::default(),
            dotfiles: Rect::default(),
            mouse: Rect::default(),
            copy: Rect::default(),
        }
    }
}

/// No indicator is anywhere.
pub open spec fn no_zones() -> ModeZones {
    ModeZones {
        fold: nowhere(),
        numbers: nowhere(),
        marks: nowhere(),
        dotfiles: nowhere(),
        mouse: nowhere(),
        copy: nowhere(),
    }
}

impl ModeZones {
    /// What pressing a cell of the footer means.
    pub open spec fn pressed(&self, column: int, row: int, show_hidden: bool) -> Option<ActionView> {
        if self.fold.covers(column, row) {
            Some(ActionView::Fold)
        } else if self.numbers.covers(column, row) {
            Some(ActionView::LineNumbers)
        } else if self.marks.covers(column, row) {
            Some(ActionView::Marks)
        } else if self.mouse.covers(column, row) {
            Some(ActionView::Mouse)
        } else if self.copy.covers(column, row) {
            Some(ActionView::Copy)
        } else if self.dotfiles.covers(column, row) {
            Some(ActionView::Run(CommandView::SetHidden { show: !show_hidden }))
        } else {
            None
        }
    }

    /// `show_hidden` because the dotfile switch is a command about the tree
    /// rather than a mode of this view, and it is phrased as where to go next.
    pub fn at(&self, column: u16, row: u16, show_hidden: bool) -> (a: Option<Action>)
        ensures
            match a {
                Some(action) => self.pressed(column as int, row as int, show_hidden) == Some(action@),
                None => self.pressed(column as int, row as int, show_hidden) is None,
            },
    {
        if self.fold.contains(column, row) {
            Some(Action::Fold)
        } else if self.numbers.contains(column, row) {
            Some(Action::LineNumbers)
        } else if self.marks.contains(column, row) {
            Some(Action::Marks)
        } else if self.mouse.contains(column, row) {
            Some(Action::Mouse)
        } else if self.copy.contains(column, row) {
            Some(Action::Copy)
        } else if self.dotfiles.contains(column, row) {
            Some(Action::Run(Command::SetHidden { show: !show_hidden }))
        } else {
            None
        }
    }
}

// -- what it says ---------------------------------------------------------

/// How many indicators there are with nothing open.
pub const ALWAYS: usize = 5;

/// How many more there are with a file open.
pub const WITH_FILE: usize = 4;

/// The indicators: the key and what the state currently is, and whether that
/// state is one doing something. Ordered by what each acts on, widest first:
/// the program itself, then the cursor, then the tree, then the file. With
/// nothing open, those about a file are left out.
pub open spec fn items_of(focus: Focus, modes: Modes, has_file: bool) -> Seq<(Seq<char>, bool)> {
    let always = seq![
        ("m mouse"@, modes.mouse),
        ("q quit"@, false),
        (
            // What `↑↓` does is the whole difference between the panes, so it is
            // said either way. `→` on a file is the deliberate open, and a
            // deliberate open is what hands the keyboard over.
            match focus {
                Focus::Viewer => "↑↓ scroll"@,
                Focus::Tree => "↑↓ move · → file"@,
            },
            false,
        ),
        (
            match focus {
                Focus::Viewer => "← tree"@,
                Focus::Tree => "← up"@,
            },
            false,
        ),
        // The tree's own switch, next to the tree's own key.
        (". dotfiles"@, modes.dotfiles),
    ];
    let file = seq![
        ("c copy"@, modes.copying),
        ("# Line#"@, modes.numbers),
        (", ·→"@, modes.marks),
        // Lit for the same reason `# Line#` is: the tree is on screen. Which
        // makes the copy arrangement three dim indicators and one lit `c`.
        (
            if modes.folded {
                "b »"@
            } else {
                "b «"@
            },
            !modes.folded,
        ),
    ];
    if has_file {
        always + file
    } else {
        always
    }
}

/// What is in front of the indicators. The URL goes first: a narrow terminal
/// truncates the tail.
pub open spec fn front_of(note: Option<Seq<char>>, theme: &Theme) -> Seq<SpanView> {
    let start = seq![SpanView { text: " "@, style: theme.status }];
    match note {
        Some(note) => start.push(SpanView { text: note + " · "@, style: theme.status }),
        None => start,
    }
}

/// The first `n` indicators, each behind what separates it from the one before.
/// Lit says "this is in effect right now", so the whole footer can be read at a
/// glance rather than word by word.
pub open spec fn indicators(items: Seq<(Seq<char>, bool)>, n: int, theme: &Theme) -> Seq<SpanView>
    decreases n,
{
    if n <= 0 {
        Seq::empty()
    } else {
        let (label, on) = items[n - 1];
        indicators(items, n - 1, theme).push(
            SpanView {
                text: if n == 1 {
                    ""@
                } else {
                    " · "@
                },
                style: theme.status,
            },
        ).push(
            SpanView {
                text: label,
                style: if on {
                    theme.status_on
                } else {
                    theme.status
                },
            },
        )
    }
}

/// The whole footer.
pub open spec fn footer_spans(
    note: Option<Seq<char>>,
    theme: &Theme,
    focus: Focus,
    modes: Modes,
    has_file: bool,
) -> Seq<SpanView> {
    let items = items_of(focus, modes, has_file);
    front_of(note, theme) + indicators(items, items.len() as int, theme)
}

// -- where it says it -----------------------------------------------------

/// What `Span::width` makes of a text.
pub uninterp spec fn display_width(text: Seq<char>) -> usize;

/// `ratatui::text::Span::width`: the display columns of a text, one for each
/// character where all of them are printable ASCII. It measures columns, not
/// characters: which others take two, or none, is Unicode's to say and only
/// named here.
#[verifier::external_body]
fn measure(text: &str) -> (n: usize)
    ensures
        n == display_width(text@),
        printable(text@) ==> n == text@.len(),
{
    ratatui::text::Span::raw(text).width()
}

/// Whether a text is printable ASCII throughout.
pub open spec fn printable(text: Seq<char>) -> bool {
    forall|k: int| #![trigger text[k]] 0 <= k < text.len() ==> 0x20 <= text[k] as u32 <= 0x7e
}

/// How many columns a text takes on a terminal.
pub open spec fn columns_of(text: Seq<char>) -> usize {
    if printable(text) {
        text.len() as usize
    } else {
        display_width(text)
    }
}

/// The widths of some spans.
pub open spec fn widths_of(spans: Seq<SpanView>) -> Seq<usize> {
    spans.map_values(|s: SpanView| columns_of(s.text))
}

/// How wide the first `k` spans are together.
pub open spec fn columns_before(widths: Seq<usize>, k: int) -> int
    decreases k,
{
    if k <= 0 {
        0
    } else {
        columns_before(widths, k - 1) + widths[k - 1]
    }
}

/// The cells span `k` takes of a footer, given how wide each span is.
pub open spec fn spot(widths: Seq<usize>, k: int, footer: Rect) -> Rect {
    (Rect {
        x: capped(footer.x + columns_before(widths, k)) as u16,
        y: footer.y,
        width: capped(widths[k] as int) as u16,
        height: 1,
    }).shared(&footer)
}

/// Which span indicator `i` is, behind `front` others.
pub open spec fn label_at(front: int, i: int) -> int {
    front + 2 * i + 1
}

/// Where the indicators are that are buttons: each in the cells its word takes.
pub open spec fn zones_of(widths: Seq<usize>, front: int, has_file: bool, footer: Rect) -> ModeZones {
    let place = |i: int| spot(widths, label_at(front, i), footer);
    let file = |i: int|
        if has_file {
            place(i)
        } else {
            nowhere()
        };
    ModeZones {
        mouse: place(0),
        dotfiles: place(4),
        copy: file(5),
        numbers: file(6),
        marks: file(7),
        fold: file(8),
    }
}

proof fn lemma_columns_grow(widths: Seq<usize>, a: int, b: int)
    requires
        a <= b,
    ensures
        0 <= columns_before(widths, a) <= columns_before(widths, b),
    decreases most_of(b),
{
    if a < b && b > 0 {
        lemma_columns_grow(widths, a, b - 1);
    } else if b > 0 {
        lemma_columns_grow(widths, a - 1, b - 1);
    }
}

spec fn most_of(b: int) -> int {
    if b > 0 {
        b
    } else {
        0
    }
}

/// The cells a span takes.
fn spot_of(widths: &Vec<usize>, k: usize, footer: Rect) -> (r: Rect)
    requires
        k < widths@.len(),
    ensures
        r == spot(widths@, k as int, footer),
{
    let mut x: u16 = footer.x;
    let mut i: usize = 0;
    while i < k
        invariant
            i <= k < widths@.len(),
            x == capped(footer.x + columns_before(widths@, i as int)),
        decreases k - i,
    {
        proof {
            lemma_columns_grow(widths@, 0, i as int);
        }
        x = x.saturating_add(column_count(widths[i]));
        i += 1;
    }
    Rect { x, y: footer.y, width: column_count(widths[k]), height: 1 }.intersection(&footer)
}

/// A number of columns, as far as there can be columns.
fn column_count(n: usize) -> (c: u16)
    ensures
        c == capped(n as int),
{
    if n > 65535 {
        65535
    } else {
        n as u16
    }
}

/// Where the indicators are, given how wide each span of the footer is and how
/// many stand in front of them.
pub fn button_zones(widths: &Vec<usize>, front: usize, has_file: bool, footer: Rect) -> (z: ModeZones)
    requires
        front <= 2,
        widths@.len() == front + 2 * ALWAYS + (if has_file {
            2 * WITH_FILE as int
        } else {
            0
        }),
    ensures
        z == zones_of(widths@, front as int, has_file, footer),
{
    let none: Rect = Rect::default();
    ModeZones {
        mouse: spot_of(widths, front + 1, footer),
        dotfiles: spot_of(widths, front + 9, footer),
        copy: if has_file { spot_of(widths, front + 11, footer) } else { none },
        numbers: if has_file { spot_of(widths, front + 13, footer) } else { none },
        marks: if has_file { spot_of(widths, front + 15, footer) } else { none },
        fold: if has_file { spot_of(widths, front + 17, footer) } else { none },
    }
}

/// Two words of the footer never share a cell.
proof fn lemma_spots_apart(widths: Seq<usize>, a: int, b: int, footer: Rect, column: int, row: int)
    requires
        0 <= a < b,
    ensures
        !(spot(widths, a, footer).covers(column, row) && spot(widths, b, footer).covers(column, row)),
{
    lemma_columns_grow(widths, 0, a);
    lemma_columns_grow(widths, a + 1, b);
    assert(columns_before(widths, a + 1) == columns_before(widths, a) + widths[a]);
}

/// A press anywhere on an indicator does what its key does: the cells its word
/// is drawn in answer for it and for nothing else, wherever they are and
/// whatever stands in front of them.
pub proof fn lemma_indicators_answer(
    widths: Seq<usize>,
    front: int,
    has_file: bool,
    footer: Rect,
    column: int,
    row: int,
    show_hidden: bool,
)
    requires
        0 <= front,
    ensures
        ({
            let zones = zones_of(widths, front, has_file, footer);
            let pressed = zones.pressed(column, row, show_hidden);
            &&& pressed == Some(ActionView::Mouse) <==> zones.mouse.covers(column, row)
            &&& pressed == Some(ActionView::Run(CommandView::SetHidden { show: !show_hidden }))
                <==> zones.dotfiles.covers(column, row)
            &&& pressed == Some(ActionView::Copy) <==> zones.copy.covers(column, row)
            &&& pressed == Some(ActionView::LineNumbers) <==> zones.numbers.covers(column, row)
            &&& pressed == Some(ActionView::Marks) <==> zones.marks.covers(column, row)
            &&& pressed == Some(ActionView::Fold) <==> zones.fold.covers(column, row)
            &&& !has_file ==> pressed is None || pressed == Some(ActionView::Mouse) || pressed == Some(
                ActionView::Run(CommandView::SetHidden { show: !show_hidden }),
            )
        }),
{
    let at = |i: int| label_at(front, i);
    lemma_spots_apart(widths, at(0), at(4), footer, column, row);
    lemma_spots_apart(widths, at(0), at(5), footer, column, row);
    lemma_spots_apart(widths, at(0), at(6), footer, column, row);
    lemma_spots_apart(widths, at(0), at(7), footer, column, row);
    lemma_spots_apart(widths, at(0), at(8), footer, column, row);
    lemma_spots_apart(widths, at(4), at(5), footer, column, row);
    lemma_spots_apart(widths, at(4), at(6), footer, column, row);
    lemma_spots_apart(widths, at(4), at(7), footer, column, row);
    lemma_spots_apart(widths, at(4), at(8), footer, column, row);
    lemma_spots_apart(widths, at(5), at(6), footer, column, row);
    lemma_spots_apart(widths, at(5), at(7), footer, column, row);
    lemma_spots_apart(widths, at(5), at(8), footer, column, row);
    lemma_spots_apart(widths, at(6), at(7), footer, column, row);
    lemma_spots_apart(widths, at(6), at(8), footer, column, row);
    lemma_spots_apart(widths, at(7), at(8), footer, column, row);
}

// -- writing it -----------------------------------------------------------

/// Appends the next indicator.
fn push_item(
    spans: &mut Vec<Span>,
    theme: &Theme,
    n: usize,
    label: &str,
    on: bool,
    Ghost(front): Ghost<Seq<SpanView>>,
    Ghost(items): Ghost<Seq<(Seq<char>, bool)>>,
)
    requires
        n < items.len(),
        items[n as int] == (label@, on),
        spans_view(old(spans)@) == front + indicators(items, n as int, theme),
    ensures
        spans_view(final(spans)@) == front + indicators(items, n + 1, theme),
{
    // Nothing to separate from, at the front.
    push_span(spans, if n == 0 { "".to_owned() } else { " · ".to_owned() }, theme.status);
    push_span(spans, label.to_owned(), if on { theme.status_on } else { theme.status });
    assert(spans_view(spans@) =~= front + indicators(items, n + 1, theme));
}

/// Writes what stands in front of the indicators.
fn push_front(spans: &mut Vec<Span>, note: Option<&str>, theme: &Theme) -> (front: usize)
    requires
        old(spans)@.len() == 0,
    ensures
        ({
            let said = match note {
                Some(note) => Some(note@),
                None => None,
            };
            &&& spans_view(final(spans)@) == front_of(said, theme)
            &&& front == front_of(said, theme).len()
        }),
{
    push_span(spans, " ".to_owned(), theme.status);
    let mut front: usize = 1;
    if let Some(note) = note {
        let mut s: String = note.to_owned();
        s.append(" · ");
        push_span(spans, s, theme.status);
        front = 2;
    }
    let ghost said = match note {
        Some(note) => Some(note@),
        None => None,
    };
    assert(spans_view(spans@) =~= front_of(said, theme));
    front
}

/// Writes the indicators that are there with or without a file.
fn push_always(
    spans: &mut Vec<Span>,
    theme: &Theme,
    focus: Focus,
    modes: Modes,
    Ghost(front): Ghost<Seq<SpanView>>,
    Ghost(items): Ghost<Seq<(Seq<char>, bool)>>,
)
    requires
        items == items_of(focus, modes, true) || items == items_of(focus, modes, false),
        spans_view(old(spans)@) == front,
    ensures
        spans_view(final(spans)@) == front + indicators(items, ALWAYS as int, theme),
{
    assert(front + indicators(items, 0, theme) =~= front);
    push_item(spans, theme, 0, "m mouse", modes.mouse, Ghost(front), Ghost(items));
    push_item(spans, theme, 1, "q quit", false, Ghost(front), Ghost(items));
    let arrows: &str = match focus {
        Focus::Viewer => "↑↓ scroll",
        Focus::Tree => "↑↓ move · → file",
    };
    push_item(spans, theme, 2, arrows, false, Ghost(front), Ghost(items));
    let left: &str = match focus {
        Focus::Viewer => "← tree",
        Focus::Tree => "← up",
    };
    push_item(spans, theme, 3, left, false, Ghost(front), Ghost(items));
    push_item(spans, theme, 4, ". dotfiles", modes.dotfiles, Ghost(front), Ghost(items));
}

/// Writes the indicators about a file, after the rest.
fn push_with_file(
    spans: &mut Vec<Span>,
    theme: &Theme,
    modes: Modes,
    Ghost(focus): Ghost<Focus>,
    Ghost(front): Ghost<Seq<SpanView>>,
)
    requires
        spans_view(old(spans)@) == front + indicators(items_of(focus, modes, true), ALWAYS as int, theme),
    ensures
        spans_view(final(spans)@) == front + indicators(items_of(focus, modes, true), ALWAYS + WITH_FILE, theme),
{
    let ghost items = items_of(focus, modes, true);
    push_item(spans, theme, 5, "c copy", modes.copying, Ghost(front), Ghost(items));
    push_item(spans, theme, 6, "# Line#", modes.numbers, Ghost(front), Ghost(items));
    push_item(spans, theme, 7, ", ·→", modes.marks, Ghost(front), Ghost(items));
    let fold: &str = if modes.folded { "b »" } else { "b «" };
    push_item(spans, theme, 8, fold, !modes.folded, Ghost(front), Ghost(items));
}

/// Every indicator takes two spans.
proof fn lemma_two_spans_each(items: Seq<(Seq<char>, bool)>, n: int, theme: &Theme)
    requires
        0 <= n,
    ensures
        indicators(items, n, theme).len() == 2 * n,
    decreases n,
{
    if n > 0 {
        lemma_two_spans_each(items, n - 1, theme);
    }
}

/// How wide each of some spans is.
fn measured(spans: &Vec<Span>) -> (widths: Vec<usize>)
    ensures
        widths@ == widths_of(spans_view(spans@)),
{
    let ghost all = spans_view(spans@);
    let mut widths: Vec<usize> = Vec::new();
    let mut i: usize = 0;
    while i < spans.len()
        invariant
            i <= spans@.len(),
            spans_view(spans@) == all,
            widths@.len() == i,
            forall|k: int| #![trigger widths@[k]] 0 <= k < i ==> widths@[k] == columns_of(all[k].text),
        decreases spans.len() - i,
    {
        assert(all[i as int] == spans@[i as int]@);
        widths.push(measure(spans[i].text.as_str()));
        i += 1;
    }
    assert(widths@ =~= widths_of(all));
    widths
}

/// The footer, and where its buttons are.
pub fn status_line(note: Option<&str>, theme: &Theme, has_file: bool, focus: Focus, modes: Modes, footer: Rect) -> (r: (
    Line,
    ModeZones,
))
    ensures
        ({
            let said = match note {
                Some(note) => Some(note@),
                None => None,
            };
            let spans = footer_spans(said, theme, focus, modes, has_file);
            &&& r.0@ == (LineView { spans, style: None })
            &&& r.1 == zones_of(widths_of(spans), front_of(said, theme).len() as int, has_file, footer)
        }),
{
    let mut spans: Vec<Span> = Vec::new();
    let front: usize = push_front(&mut spans, note, theme);
    let ghost before = spans_view(spans@);
    push_always(&mut spans, theme, focus, modes, Ghost(before), Ghost(items_of(focus, modes, has_file)));
    if has_file {
        push_with_file(&mut spans, theme, modes, Ghost(focus), Ghost(before));
    }
    // Measured as they are written, because an indicator is also a button and
    // the two must not disagree about where it is.
    let widths: Vec<usize> = measured(&spans);
    proof {
        let items = items_of(focus, modes, has_file);
        lemma_two_spans_each(items, items.len() as int, theme);
    }
    let zones: ModeZones = button_zones(&widths, front, has_file, footer);
    (Line { spans, style: None }, zones)
}

// -- laws -----------------------------------------------------------------

/// Every button is under the word that says what it does, and the word is lit
/// exactly where what it says is in effect.
pub proof fn lemma_every_button_is_under_its_word(
    note: Option<Seq<char>>,
    theme: &Theme,
    focus: Focus,
    modes: Modes,
    has_file: bool,
    footer: Rect,
)
    ensures
        ({
            let spans = footer_spans(note, theme, focus, modes, has_file);
            let front = front_of(note, theme).len() as int;
            let zones = zones_of(widths_of(spans), front, has_file, footer);
            let worn = |on: bool|
                if on {
                    theme.status_on
                } else {
                    theme.status
                };
            &&& zones.mouse == spot(widths_of(spans), front + 1, footer)
            &&& spans[front + 1] == (SpanView { text: "m mouse"@, style: worn(modes.mouse) })
            &&& spans[front + 3] == (SpanView { text: "q quit"@, style: theme.status })
            &&& focus == Focus::Tree ==> spans[front + 5].text == "↑↓ move · → file"@ && spans[front + 7].text == "← up"@
            &&& focus == Focus::Viewer ==> spans[front + 5].text == "↑↓ scroll"@ && spans[front + 7].text == "← tree"@
            &&& zones.dotfiles == spot(widths_of(spans), front + 9, footer)
            &&& spans[front + 9] == (SpanView { text: ". dotfiles"@, style: worn(modes.dotfiles) })
            &&& has_file ==> {
                &&& zones.copy == spot(widths_of(spans), front + 11, footer)
                &&& spans[front + 11] == (SpanView { text: "c copy"@, style: worn(modes.copying) })
                &&& zones.numbers == spot(widths_of(spans), front + 13, footer)
                &&& spans[front + 13] == (SpanView { text: "# Line#"@, style: worn(modes.numbers) })
                &&& zones.marks == spot(widths_of(spans), front + 15, footer)
                &&& spans[front + 15] == (SpanView { text: ", ·→"@, style: worn(modes.marks) })
                &&& zones.fold == spot(widths_of(spans), front + 17, footer)
                &&& modes.folded ==> spans[front + 17] == (SpanView { text: "b »"@, style: theme.status })
                &&& !modes.folded ==> spans[front + 17] == (SpanView { text: "b «"@, style: theme.status_on })
            }
            &&& spans.len() == front + (if has_file {
                18int
            } else {
                10
            })
            &&& note is None ==> front == 1
            &&& note matches Some(said) ==> front == 2 && spans[1].text == said + " · "@
        }),
{
    let items = items_of(focus, modes, has_file);
    let front = front_of(note, theme);
    let n = items.len() as int;
    let spans = footer_spans(note, theme, focus, modes, has_file);
    lemma_word_of(items, n, theme, 0);
    lemma_word_of(items, n, theme, 1);
    lemma_word_of(items, n, theme, 2);
    lemma_word_of(items, n, theme, 3);
    lemma_word_of(items, n, theme, 4);
    if has_file {
        lemma_word_of(items, n, theme, 5);
        lemma_word_of(items, n, theme, 6);
        lemma_word_of(items, n, theme, 7);
        lemma_word_of(items, n, theme, 8);
    }
    assert(spans == front + indicators(items, n, theme));
}

proof fn lemma_word_of(items: Seq<(Seq<char>, bool)>, n: int, theme: &Theme, i: int)
    requires
        0 <= i < n <= items.len(),
    ensures
        indicators(items, n, theme).len() == 2 * n,
        indicators(items, n, theme)[2 * i + 1] == (SpanView {
            text: items[i].0,
            style: if items[i].1 {
                theme.status_on
            } else {
                theme.status
            },
        }),
    decreases n,
{
    reveal_with_fuel(indicators, 2);
    if i < n - 1 {
        lemma_word_of(items, n - 1, theme, i);
        assert(indicators(items, n, theme)[2 * i + 1] == indicators(items, n - 1, theme)[2 * i + 1]);
    } else if n > 1 {
        lemma_word_of(items, n - 1, theme, 0);
    }
}

/// A word's cells start where the words before it end, and are as many as it is
/// wide, so far as the footer reaches.
pub proof fn lemma_where_a_word_is(widths: Seq<usize>, k: int, footer: Rect)
    requires
        0 <= k < widths.len(),
        footer.height == 1,
        footer.y < u16::MAX,
        0 <= columns_before(widths, k),
        footer.x + columns_before(widths, k) + widths[k] <= footer.x + footer.width <= u16::MAX,
    ensures
        spot(widths, k, footer).x == footer.x + columns_before(widths, k),
        spot(widths, k, footer).width == widths[k],
        spot(widths, k, footer).y == footer.y,
        columns_before(widths, 0) == 0,
        columns_before(widths, k + 1) == columns_before(widths, k) + widths[k],
{
}

} // verus!
