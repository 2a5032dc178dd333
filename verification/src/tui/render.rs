//! Drawing one flattened tree.
//!
//! The geometry here is shared with hit-testing in [`super::hit`]: a row's
//! twistie always sits at `INDENT * depth`, which is what makes a click land on
//! the thing the user aimed at.

use vstd::prelude::*;
use vstd::string::*;

use super::area::{least, less, most, pair, paired, stack, stacked, Rect};
use super::style::{
    lemma_spelled_add, no_style, plain_modifier, push_span, repeat, repeated, spans_view, spelled, Color, Line,
    LineView, Modifier, Span, SpanView, Style,
};
use super::viewer::{content_cells, header_cells, header_spans, is_panel, FilePicture, Look, Viewer};

use crate::shown::Row;
use crate::state::Snapshot;
use crate::text::{decimal, decimal_of, lossy, text_of};
use crate::tree::Kind;

verus! {

pub const INDENT: u16 = 2;

pub const TWISTIE_WIDTH: u16 = 2;

#[derive(Debug, Clone, Copy, PartialEq, Eq, Structural)]
pub struct Theme {
    pub dir: Style,
    pub file: Style,
    pub special: Style,
    pub broken: Style,
    /// Layered on top of the kind's style when the entry is a symlink.
    pub symlink: Modifier,
    pub guide: Style,
    /// The cursor, with the keyboard in the tree.
    pub selected: Style,
    /// The cursor with the keyboard in the file, where `↑↓` scrolls what is on
    /// the right rather than moving this.
    pub reading: Style,
    pub status: Style,
    /// A mode indicator that is currently on. The dim `status` is off.
    pub status_on: Style,
    /// Space, tab and line endings, where they are drawn at all.
    pub marks: Style,
    /// What git ignores, and `.git` itself. Replaces the kind's color rather
    /// than tinting it: the point is that the row is not what you came for.
    pub ignored: Style,
    /// File contents where `bat` said nothing about them, and the base every
    /// colored run is layered onto.
    pub code: Style,
}

/// The colors treex starts with.
pub open spec fn default_theme() -> Theme {
    let none = no_style();
    let bold = Modifier { bold: true, ..plain_modifier() };
    let gray = Style { fg: Some(Color::DarkGray), ..none };
    Theme {
        dir: Style { fg: Some(Color::Blue), modifier: bold, ..none },
        file: none,
        special: Style { fg: Some(Color::Yellow), ..none },
        broken: Style {
            fg: Some(Color::Red),
            modifier: Modifier { crossed_out: true, ..plain_modifier() },
            ..none
        },
        symlink: Modifier { italic: true, ..plain_modifier() },
        guide: gray,
        selected: Style {
            bg: Some(Color::Indexed(238)),
            fg: Some(Color::Indexed(253)),
            modifier: bold,
            ..none
        },
        reading: Style {
            bg: Some(Color::Indexed(91)),
            fg: Some(Color::Indexed(231)),
            modifier: bold,
            ..none
        },
        status: gray,
        status_on: Style { fg: Some(Color::Indexed(252)), ..none },
        marks: Style { fg: Some(Color::Indexed(238)), ..none },
        ignored: gray,
        code: none,
    }
}

impl Default for Theme {
    fn default() -> (t: Theme)
        ensures
            t == default_theme(),
    {
        let plain: Modifier = Modifier::default();
        let bold: Modifier = Modifier { bold: true, ..plain };
        let none: Style = Style::default();
        let gray: Style = none.fg(Color::DarkGray);
        Theme {
            dir: none.fg(Color::Blue).add_modifier(bold),
            file: none,
            special: none.fg(Color::Yellow),
            broken: none.fg(Color::Red).add_modifier(Modifier { crossed_out: true, ..plain }),
            symlink: Modifier { italic: true, ..plain },
            guide: gray,
            // Foregrounds are set explicitly throughout: file rows carry no
            // color of their own, and a light terminal would otherwise put
            // dark text on these dark backgrounds.
            selected: none.bg(Color::Indexed(238)).fg(Color::Indexed(253)).add_modifier(bold),
            reading: none.bg(Color::Indexed(91)).fg(Color::Indexed(231)).add_modifier(bold),
            status: gray,
            status_on: none.fg(Color::Indexed(252)),
            marks: none.fg(Color::Indexed(238)),
            ignored: gray,
            code: none,
        }
    }
}

/// The rows' own rect inside a pane's border. Hit-testing needs it to turn a
/// click into a row index.
pub fn inner(area: Rect) -> (r: Rect)
    ensures
        r == area.inside(),
{
    let x: u16 = area.x.saturating_add(1);
    let y: u16 = area.y.saturating_add(1);
    Rect {
        x: if x < area.right() { x } else { area.right() },
        y: if y < area.bottom() { y } else { area.bottom() },
        width: area.width.saturating_sub(2),
        height: area.height.saturating_sub(2),
    }
}

// -- rows -----------------------------------------------------------------

/// The marker in front of a row: where a directory can be opened or shut.
pub open spec fn twistie_text(row: &Row) -> Seq<char> {
    if row.kind != Kind::Dir {
        "  "@
    } else if row.expanded {
        "▾ "@
    } else {
        "▸ "@
    }
}

/// The marker in front of a row.
pub fn twistie(row: &Row) -> (s: &'static str)
    ensures
        s@ == twistie_text(row),
{
    if !row.is_dir() {
        "  "
    } else if row.expanded {
        "▾ "
    } else {
        "▸ "
    }
}

/// What a row's name wears.
pub open spec fn name_style(row: &Row, theme: &Theme) -> Style {
    let style = if row.ignored {
        theme.ignored
    } else {
        match row.kind {
            Kind::Dir => theme.dir,
            Kind::File => theme.file,
            Kind::Broken => theme.broken,
            _ => theme.special,
        }
    };
    if row.symlink {
        Style { modifier: style.modifier.both(&theme.symlink), ..style }
    } else {
        style
    }
}

/// A row as it is drawn: a guide for every level above it, the marker, the name
/// with its `ls -F` suffix (so a socket or a fifo is not mistaken for a file),
/// and how many entries were left out where some were.
pub open spec fn row_spans(row: &Row, theme: &Theme) -> Seq<SpanView> {
    let guides = if row.depth > 0 {
        seq![SpanView { text: repeated("│ "@, row.depth as nat), style: theme.guide }]
    } else {
        Seq::empty()
    };
    let own = seq![
        SpanView { text: twistie_text(row), style: theme.guide },
        SpanView { text: row.name@ + row.kind.spec_suffix(), style: name_style(row, theme) },
    ];
    let more = if row.omitted > 0 {
        seq![SpanView { text: "  … "@ + decimal(row.omitted as nat) + " more"@, style: theme.status }]
    } else {
        Seq::empty()
    };
    guides + own + more
}

/// A row's line. One highlight, and its color says where the keyboard is.
pub open spec fn row_line(row: &Row, theme: &Theme, cursor: bool, reading: bool) -> LineView {
    LineView {
        spans: row_spans(row, theme),
        style: if !cursor {
            None
        } else if reading {
            Some(theme.reading)
        } else {
            Some(theme.selected)
        },
    }
}

/// Draws a row.
pub fn line_for(row: &Row, theme: &Theme, cursor: bool, reading: bool) -> (l: Line)
    ensures
        l@ == row_line(row, theme, cursor, reading),
{
    let mut spans: Vec<Span> = Vec::new();
    if row.depth > 0 {
        push_span(&mut spans, repeat("│ ", row.depth), theme.guide);
    }
    push_span(&mut spans, twistie(row).to_owned(), theme.guide);
    let mut style: Style = if row.ignored {
        theme.ignored
    } else {
        match row.kind {
            Kind::Dir => theme.dir,
            Kind::File => theme.file,
            Kind::Broken => theme.broken,
            _ => theme.special,
        }
    };
    if row.symlink {
        style = style.add_modifier(theme.symlink);
    }
    let mut name: String = row.name.clone();
    name.append(row.kind.suffix());
    push_span(&mut spans, name, style);
    if row.omitted > 0 {
        let mut more: String = "  … ".to_owned();
        more.append(decimal_of(row.omitted as u64).as_str());
        more.append(" more");
        push_span(&mut spans, more, theme.status);
    }
    assert(spans_view(spans@) =~= row_spans(row, theme));
    let worn: Option<Style> = if !cursor {
        None
    } else if reading {
        Some(theme.reading)
    } else {
        Some(theme.selected)
    };
    Line { spans, style: worn }
}

// -- panes ----------------------------------------------------------------

/// Where the two panes are. The tree keeps the screen to itself until a file
/// is open, and gives it up entirely when the terminal is too narrow to show
/// both: a 40-column phone-sized window reads one thing at a time.
#[derive(Debug, Clone, Copy, PartialEq, Eq, Structural)]
pub struct Panes {
    /// Absent when the file pane has taken the whole body.
    pub tree: Option<Rect>,
    pub viewer: Option<Rect>,
    pub footer: Rect,
}

/// Narrower than this and a pane is not worth drawing.
pub const TREE_MIN_WIDTH: u16 = 26;

pub const VIEWER_MIN_WIDTH: u16 = 46;

/// The most the tree is given where nobody chose.
pub const TREE_DEFAULT_MOST: u16 = 44;

/// A number kept between two others.
pub open spec fn between(n: int, low: int, high: int) -> int {
    least(most(n, low), high)
}

/// A number kept between two others.
fn clamp(n: u16, low: u16, high: u16) -> (r: u16)
    requires
        low <= high,
    ensures
        r == between(n as int, low as int, high as int),
{
    if n < low {
        low
    } else if n > high {
        high
    } else {
        n
    }
}

/// The width of the tree beside a file, out of `width` columns. A quarter: a
/// sidebar, the way an editor lays this out, since the file is what is being
/// read. A dragged width is not capped the same way, since past it is a
/// deliberate answer to what the default guessed. Either way both panes keep
/// their minimum.
pub open spec fn tree_width(width: int, split: Option<u16>) -> int {
    let wanted = match split {
        Some(dragged) => dragged as int,
        None => between(width / 4, TREE_MIN_WIDTH as int, TREE_DEFAULT_MOST as int),
    };
    between(wanted, TREE_MIN_WIDTH as int, width - VIEWER_MIN_WIDTH)
}

/// Where the panes are on a screen.
pub open spec fn panes_of(area: Rect, viewing: bool, split: Option<u16>, folded: bool) -> Panes {
    let (body, footer) = stacked(area, 1, 1);
    if !viewing {
        Panes { tree: Some(body), viewer: None, footer }
    } else if folded || body.width < TREE_MIN_WIDTH + VIEWER_MIN_WIDTH {
        Panes { tree: None, viewer: Some(body), footer }
    } else {
        let (tree, viewer) = paired(body, tree_width(body.width as int, split), 1);
        Panes { tree: Some(tree), viewer: Some(viewer), footer }
    }
}

impl Panes {
    /// The columns the divider is drawn in.
    pub open spec fn border_columns(&self) -> Option<(u16, u16)> {
        match (self.tree, self.viewer) {
            (Some(tree), Some(_)) => Some((less(tree.past_right(), 1) as u16, tree.past_right() as u16)),
            _ => None,
        }
    }

    /// The columns the divider is drawn in: the tree's right border and the
    /// file's left one, which sit next to each other. Both are grabbable: a
    /// one-column target is hard to hit with a mouse and impossible with a
    /// finger.
    pub fn divider(&self) -> (d: Option<(u16, u16)>)
        ensures
            d == self.border_columns(),
    {
        match (&self.tree, &self.viewer) {
            (Some(tree), Some(_)) => Some((tree.right().saturating_sub(1), tree.right())),
            _ => None,
        }
    }

    pub fn on_divider(&self, column: u16) -> (r: bool)
        ensures
            r == (self.border_columns() matches Some((left, right)) && (column == left || column == right)),
    {
        match self.divider() {
            Some((left, right)) => column == left || column == right,
            None => false,
        }
    }
}

/// `split` is a tree width the user dragged the divider to; `None` takes the
/// default share. Either way both panes keep their minimum.
pub fn panes(area: Rect, viewing: bool, split: Option<u16>, folded: bool) -> (p: Panes)
    ensures
        p == panes_of(area, viewing, split, folded),
{
    let (body, footer) = stack(area, 1, 1);
    if !viewing {
        return Panes { tree: Some(body), viewer: None, footer };
    }
    if folded || body.width < TREE_MIN_WIDTH + VIEWER_MIN_WIDTH {
        return Panes { tree: None, viewer: Some(body), footer };
    }
    let wanted: u16 = match split {
        Some(dragged) => dragged,
        None => clamp(body.width / 4, TREE_MIN_WIDTH, TREE_DEFAULT_MOST),
    };
    let width: u16 = clamp(wanted, TREE_MIN_WIDTH, body.width - VIEWER_MIN_WIDTH);
    let (tree, viewer) = pair(body, width, 1);
    Panes { tree: Some(tree), viewer: Some(viewer), footer }
}

/// Wherever the divider was dragged to, two panes that are both on screen keep
/// their minimum, and between them take every column there is.
pub proof fn lemma_panes_keep_their_minimum(area: Rect, viewing: bool, split: Option<u16>, folded: bool)
    requires
        area.x + area.width <= u16::MAX,
    ensures
        ({
            let p = panes_of(area, viewing, split, folded);
            &&& p.tree is Some || p.viewer is Some
            &&& p.tree is Some && p.viewer is Some <==> viewing && !folded && area.width >= TREE_MIN_WIDTH
                + VIEWER_MIN_WIDTH
            &&& p.tree is Some && p.viewer is Some ==> {
                let tree = p.tree->0;
                let file = p.viewer->0;
                &&& tree.width >= TREE_MIN_WIDTH
                &&& file.width >= VIEWER_MIN_WIDTH
                &&& tree.x == area.x
                &&& tree.past_right() == file.x
                &&& file.past_right() == area.past_right()
            }
            &&& p.viewer is None ==> p.tree->0.width == area.width
            &&& p.tree is None ==> p.viewer->0.width == area.width
        }),
{
}

// -- the screen -----------------------------------------------------------

/// What is on screen.
pub struct Scene<'a> {
    pub snapshot: &'a Snapshot,
    pub offset: usize,
    pub theme: &'a Theme,
    /// Built by the caller, because each mode indicator is colored by whether
    /// it is currently on.
    pub status: Line,
    pub viewer: Option<&'a Viewer>,
    /// Where the divider was dragged to, if it was.
    pub split: Option<u16>,
    /// The tree is folded away and the file has the window.
    pub folded: bool,
    pub numbers: bool,
    /// Draw space, tab and line endings.
    pub marks: bool,
    /// The keyboard is in the file pane, so `↑↓` scrolls it.
    pub reading: bool,
}

/// Everything the tree pane is drawn from.
#[derive(Debug)]
pub struct TreePicture {
    pub area: Rect,
    pub title: Line,
    pub rows: Rect,
    pub lines: Vec<Line>,
}

/// Everything a frame is drawn from.
#[derive(Debug)]
pub struct Picture {
    pub tree: Option<TreePicture>,
    pub file: Option<(Rect, FilePicture)>,
    pub footer: Rect,
    pub status: Line,
}

/// The tree pane's title. The count sits with the path rather than at the far
/// end of the border: it is part of what this pane is showing, not a corner
/// label.
pub open spec fn tree_title(snapshot: &Snapshot, theme: &Theme) -> Seq<SpanView> {
    seq![
        SpanView { text: " "@ + text_of(snapshot.root@.text()) + " "@, style: no_style() },
        SpanView { text: "· "@ + decimal(snapshot.rows@.len()) + " rows "@, style: theme.status },
    ]
}

/// Whether the tree pane shows the rows from `offset` on that fit it.
pub open spec fn is_tree_picture(view: &Scene, area: Rect, p: TreePicture) -> bool {
    let rows = view.snapshot.rows@;
    let from = least(view.offset as int, rows.len() as int);
    &&& p.area == area
    &&& p.rows == area.inside()
    &&& p.title@ == (LineView { spans: tree_title(view.snapshot, view.theme), style: None })
    &&& p.lines@.len() == least(rows.len() - from, area.inside().height as int)
    &&& forall|k: int|
        #![trigger p.lines@[k]]
        0 <= k < p.lines@.len() ==> p.lines@[k]@ == row_line(
            &rows[from + k],
            view.theme,
            view.snapshot.selected == Some((from + k) as usize),
            view.reading,
        )
}

/// How the file pane looks: read from the row each frame rather than remembered
/// when the file was opened, so editing a `.gitignore` moves the header's color
/// along with the tree's.
pub open spec fn look_of(view: &Scene, framed: bool) -> Look {
    Look {
        numbers: view.numbers,
        marks: view.marks,
        framed,
        ignored: view.snapshot.viewing matches Some(i) && i < view.snapshot.rows@.len()
            && view.snapshot.rows@[i as int].ignored,
    }
}

/// The file pane is dimmed with the row of the file on display, and with that of
/// no other, and has numbers and marks as they are switched.
pub proof fn lemma_the_file_looks_as_its_row_does(view: &Scene, framed: bool, i: usize)
    requires
        view.snapshot.viewing == Some(i),
        i < view.snapshot.rows@.len(),
    ensures
        look_of(view, framed).ignored == view.snapshot.rows@[i as int].ignored,
        look_of(view, framed).numbers == view.numbers,
        look_of(view, framed).marks == view.marks,
        look_of(view, framed).framed == framed,
{
}

/// Whether the file pane shows the file.
pub open spec fn is_file_picture(viewer: &Viewer, theme: &Theme, look: &Look, area: Rect, p: FilePicture) -> bool {
    &&& p.border == (if look.framed {
        Some(theme.guide)
    } else {
        None::<Style>
    })
    &&& p.header == header_cells(area, look.framed)
    &&& p.title@ == (LineView { spans: header_spans(viewer, theme, look), style: None })
    &&& p.inner == content_cells(area, look.framed)
    &&& is_panel(viewer, theme, look, p.inner, p.panel)
}

/// Draws the tree pane.
fn draw_tree(view: &Scene, area: Rect) -> (p: TreePicture)
    ensures
        is_tree_picture(view, area, p),
{
    let rows: &Vec<Row> = &view.snapshot.rows;
    let mut title: Vec<Span> = Vec::new();
    let path: Vec<u8> = view.snapshot.root.text();
    let mut name: String = " ".to_owned();
    name.append(lossy(path.as_slice()).as_str());
    name.append(" ");
    push_span(&mut title, name, Style::default());
    let mut count: String = "· ".to_owned();
    count.append(decimal_of(rows.len() as u64).as_str());
    count.append(" rows ");
    push_span(&mut title, count, view.theme.status);
    assert(spans_view(title@) =~= tree_title(view.snapshot, view.theme));

    let within: Rect = inner(area);
    let from: usize = if view.offset < rows.len() { view.offset } else { rows.len() };
    let left: usize = rows.len() - from;
    let height: usize = if (within.height as usize) < left { within.height as usize } else { left };
    let mut lines: Vec<Line> = Vec::new();
    let mut k: usize = 0;
    while k < height
        invariant
            k <= height,
            from + height <= rows.len(),
            rows@ == view.snapshot.rows@,
            lines@.len() == k,
            forall|j: int|
                #![trigger lines@[j]]
                0 <= j < k ==> lines@[j]@ == row_line(
                    &rows@[from + j],
                    view.theme,
                    view.snapshot.selected == Some((from + j) as usize),
                    view.reading,
                ),
        decreases height - k,
    {
        let cursor: bool = match view.snapshot.selected {
            Some(i) => i == from + k,
            None => false,
        };
        lines.push(line_for(&rows[from + k], view.theme, cursor, view.reading));
        k += 1;
    }
    TreePicture { area, title: Line { spans: title, style: None }, rows: within, lines }
}

/// What to draw on a screen of this size.
pub fn draw(area: Rect, view: Scene) -> (p: Picture)
    requires
        view.viewer matches Some(viewer) ==> viewer.wf(),
    ensures
        ({
            let panes = panes_of(area, view.viewer is Some, view.split, view.folded);
            &&& match panes.tree {
                Some(a) => p.tree matches Some(t) && is_tree_picture(&view, a, t),
                None => p.tree is None,
            }
            &&& match (panes.viewer, view.viewer) {
                (Some(a), Some(viewer)) => p.file matches Some((at, f)) && at == a && is_file_picture(
                    viewer,
                    view.theme,
                    &look_of(&view, panes.tree is Some),
                    a,
                    f,
                ),
                _ => p.file is None,
            }
            &&& p.footer == panes.footer
            &&& p.status == view.status
        }),
{
    let panes: Panes = panes(area, view.viewer.is_some(), view.split, view.folded);
    let tree: Option<TreePicture> = match panes.tree {
        Some(a) => Some(draw_tree(&view, a)),
        None => None,
    };
    let file: Option<(Rect, FilePicture)> = match (panes.viewer, view.viewer) {
        (Some(a), Some(viewer)) => {
            // With no tree beside it there is nothing for a border to
            // separate, and a border is one more thing a dragged selection
            // would pick up.
            let framed: bool = panes.tree.is_some();
            let ignored: bool = match view.snapshot.viewing {
                Some(i) => i < view.snapshot.rows.len() && view.snapshot.rows[i].ignored,
                None => false,
            };
            let look: Look = Look { numbers: view.numbers, marks: view.marks, framed, ignored };
            Some((a, super::viewer::draw(a, viewer, view.theme, &look)))
        }
        _ => None,
    };
    Picture { tree, file, footer: panes.footer, status: view.status }
}

// -- laws -----------------------------------------------------------------

/// What a row spells: a guide for each level it is further in, its marker, its
/// name and the mark of its kind, and how much was left out where something was.
pub proof fn lemma_how_a_row_reads(row: &Row, theme: &Theme)
    ensures
        spelled(row_spans(row, theme)) == repeated("│ "@, row.depth as nat) + twistie_text(row) + row.name@
            + row.kind.spec_suffix() + (if row.omitted > 0 {
            "  … "@ + decimal(row.omitted as nat) + " more"@
        } else {
            Seq::empty()
        }),
{
    let all = row_spans(row, theme);
    let guides = if row.depth > 0 {
        seq![SpanView { text: repeated("│ "@, row.depth as nat), style: theme.guide }]
    } else {
        Seq::empty()
    };
    let marker = SpanView { text: twistie_text(row), style: theme.guide };
    let name = SpanView { text: row.name@ + row.kind.spec_suffix(), style: name_style(row, theme) };
    let more = if row.omitted > 0 {
        seq![SpanView { text: "  … "@ + decimal(row.omitted as nat) + " more"@, style: theme.status }]
    } else {
        Seq::empty()
    };
    assert(all =~= guides + (seq![marker] + (seq![name] + more)));
    lemma_spelled_add(guides, seq![marker] + (seq![name] + more));
    lemma_spelled_add(seq![marker], seq![name] + more);
    lemma_spelled_add(seq![name], more);
    lemma_one_span(marker);
    lemma_one_span(name);
    if row.depth > 0 {
        lemma_one_span(guides[0]);
        assert(guides =~= seq![guides[0]]);
    } else {
        assert(spelled(guides) =~= repeated("│ "@, 0));
    }
    if row.omitted > 0 {
        lemma_one_span(more[0]);
        assert(more =~= seq![more[0]]);
    } else {
        assert(spelled(more) =~= Seq::<char>::empty());
    }
    assert(spelled(all) =~= repeated("│ "@, row.depth as nat) + twistie_text(row) + row.name@ + row.kind.spec_suffix() + (if row.omitted
        > 0 {
        "  … "@ + decimal(row.omitted as nat) + " more"@
    } else {
        Seq::empty()
    }));
}

proof fn lemma_one_span(span: SpanView)
    ensures
        spelled(seq![span]) == span.text,
{
    reveal_with_fuel(spelled, 2);
    assert(seq![span].drop_last() =~= Seq::<SpanView>::empty());
    assert(spelled(seq![span]) =~= span.text);
}

/// The marker says whether a directory is open, and only a directory has one.
pub proof fn lemma_what_the_marker_says(row: &Row)
    ensures
        row.kind == Kind::Dir && row.expanded ==> twistie_text(row) == seq!['▾', ' '],
        row.kind == Kind::Dir && !row.expanded ==> twistie_text(row) == seq!['▸', ' '],
        row.kind != Kind::Dir ==> twistie_text(row) == seq![' ', ' '],
{
    reveal_strlit("▾ ");
    reveal_strlit("▸ ");
    reveal_strlit("  ");
    assert("▾ "@ =~= seq!['▾', ' ']);
    assert("▸ "@ =~= seq!['▸', ' ']);
    assert("  "@ =~= seq![' ', ' ']);
}

/// What a name wears goes by what the row is, unless git would ignore it, and a
/// link is marked as one on top of either.
pub proof fn lemma_what_a_name_wears(row: &Row, theme: &Theme)
    ensures
        ({
            let worn = name_style(row, theme);
            let base = if row.ignored {
                theme.ignored
            } else if row.kind == Kind::Dir {
                theme.dir
            } else if row.kind == Kind::File {
                theme.file
            } else if row.kind == Kind::Broken {
                theme.broken
            } else {
                theme.special
            };
            &&& worn.fg == base.fg && worn.bg == base.bg && worn.reset == base.reset
            &&& !row.symlink ==> worn.modifier == base.modifier
            &&& row.symlink ==> worn.modifier.italic == (base.modifier.italic || theme.symlink.italic) && worn.modifier.bold == (
            base.modifier.bold || theme.symlink.bold)
        }),
{
}

/// One row is highlighted, the cursor's, and the highlight says which pane has
/// the keyboard.
pub proof fn lemma_one_highlight(row: &Row, theme: &Theme, cursor: bool, reading: bool)
    ensures
        !cursor ==> row_line(row, theme, cursor, reading).style is None,
        cursor && reading ==> row_line(row, theme, cursor, reading).style == Some(theme.reading),
        cursor && !reading ==> row_line(row, theme, cursor, reading).style == Some(theme.selected),
        row_line(row, theme, cursor, reading).spans == row_spans(row, theme),
{
}

/// Left alone, the tree takes a quarter of the width, no less than twenty-six
/// columns and no more than forty-four. Dragged, it takes what it was dragged
/// to. Either way the file keeps forty-six.
pub proof fn lemma_how_wide_the_tree_is(width: int, dragged: u16)
    requires
        72 <= width <= u16::MAX,
    ensures
        104 <= width <= 176 ==> tree_width(width, None) == width / 4,
        width < 104 ==> tree_width(width, None) == 26,
        width > 176 ==> tree_width(width, None) == 44,
        26 <= dragged <= width - 46 ==> tree_width(width, Some(dragged)) == dragged,
        dragged < 26 ==> tree_width(width, Some(dragged)) == 26,
        dragged > width - 46 ==> tree_width(width, Some(dragged)) == width - 46,
{
}

/// The footer is the last line of the screen, the panes are above it, and the
/// divider is where they meet.
pub proof fn lemma_where_the_panes_are(area: Rect, viewing: bool, split: Option<u16>, folded: bool)
    requires
        area.x + area.width < u16::MAX,
        area.y + area.height < u16::MAX,
        area.height >= 2,
    ensures
        ({
            let p = panes_of(area, viewing, split, folded);
            &&& p.footer == (Rect { y: (area.y + area.height - 1) as u16, height: 1, ..area })
            &&& p.tree matches Some(t) ==> t.y == area.y && t.height == area.height - 1
            &&& p.viewer matches Some(v) ==> v.y == area.y && v.height == area.height - 1
            &&& viewing <==> p.viewer is Some
            &&& viewing && (folded || area.width < 72) <==> p.tree is None
            &&& p.tree matches Some(t) ==> (p.viewer matches Some(v) ==> p.border_columns() == Some(
                ((v.x - 1) as u16, v.x),
            ) && t.x + t.width == v.x)
            &&& p.tree is None || p.viewer is None ==> p.border_columns() is None
        }),
{
}

/// The colors treex starts with: directories stand out, links slant, what is
/// broken is struck through, and the two highlights cannot be taken for each
/// other.
pub proof fn lemma_the_usual_colors()
    ensures
        default_theme().dir.fg == Some(Color::Blue) && default_theme().dir.modifier.bold,
        default_theme().file == no_style() && default_theme().code == no_style(),
        default_theme().special.fg == Some(Color::Yellow),
        default_theme().broken.fg == Some(Color::Red) && default_theme().broken.modifier.crossed_out,
        default_theme().symlink.italic && !default_theme().symlink.bold,
        default_theme().ignored.fg == Some(Color::DarkGray) && default_theme().guide == default_theme().ignored
            && default_theme().status == default_theme().ignored,
        default_theme().selected.bg == Some(Color::Indexed(238)) && default_theme().reading.bg == Some(Color::Indexed(91)),
        default_theme().selected.fg is Some && default_theme().reading.fg is Some,
        default_theme().status_on.fg != default_theme().status.fg,
{
}

/// The title is the path and how many rows there are.
pub proof fn lemma_what_the_title_says(snapshot: &Snapshot, theme: &Theme)
    ensures
        tree_title(snapshot, theme).len() == 2,
        tree_title(snapshot, theme)[0].text == " "@ + text_of(snapshot.root@.text()) + " "@,
        tree_title(snapshot, theme)[1].text == "· "@ + decimal(snapshot.rows@.len()) + " rows "@,
{
}

/// The tree pane shows the rows from the offset on, one to a line, as far as they
/// and the room go, and the cursor's is the one that is highlighted.
pub proof fn lemma_the_tree_is_shown_row_by_row(view: &Scene, area: Rect, p: TreePicture, k: int)
    requires
        is_tree_picture(view, area, p),
        view.offset <= view.snapshot.rows@.len(),
        0 <= k < p.lines@.len(),
    ensures
        ({
            let rows = view.snapshot.rows@;
            let row = rows[view.offset + k];
            &&& view.offset + k < rows.len()
            &&& k < area.inside().height
            &&& p.lines@.len() == rows.len() - view.offset || p.lines@.len() == area.inside().height
            &&& spelled(p.lines@[k]@.spans) == repeated("│ "@, row.depth as nat) + twistie_text(&row) + row.name@
                + row.kind.spec_suffix() + (if row.omitted > 0 {
                "  … "@ + decimal(row.omitted as nat) + " more"@
            } else {
                Seq::empty()
            })
            &&& p.lines@[k]@.style is Some <==> view.snapshot.selected == Some((view.offset + k) as usize)
        }),
{
    let row = view.snapshot.rows@[view.offset + k];
    lemma_how_a_row_reads(&row, view.theme);
    assert(p.lines@[k]@ == row_line(
        &row,
        view.theme,
        view.snapshot.selected == Some((view.offset + k) as usize),
        view.reading,
    ));
}

} // verus!
