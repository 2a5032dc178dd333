//! What a key or a click means.
//!
//! Returning the intent rather than applying it keeps these functions pure, and
//! leaves the event loop to decide what has to run off the runtime.

use vstd::prelude::*;

use super::area::{least, less, most, Rect};
use super::footer::ModeZones;
use super::hit::{cell_hit, hit, Hit};
use super::{Focus, TuiOptions};

use crate::shown::Row;
use crate::state::{Command, CommandView, Snapshot};
use crate::tree::Kind;

verus! {

/// The keys treex has a use for.
#[derive(Debug, Clone, Copy, PartialEq, Eq, Structural)]
pub enum KeyCode {
    Up,
    Down,
    Left,
    Right,
    PageUp,
    PageDown,
    Home,
    End,
    Enter,
    Esc,
    Tab,
    Char(char),
    /// Any other key.
    Other,
}

/// The keys held down with another.
#[derive(Debug, Clone, Copy, PartialEq, Eq, Structural)]
pub struct KeyModifiers {
    pub shift: bool,
    pub control: bool,
    pub alt: bool,
    pub logo: bool,
    pub hyper: bool,
    pub meta: bool,
}

impl KeyModifiers {
    /// Nothing is held down.
    pub open spec fn none() -> KeyModifiers {
        KeyModifiers { shift: false, control: false, alt: false, logo: false, hyper: false, meta: false }
    }

    /// Control is held down, and nothing else.
    pub open spec fn only_control(&self) -> bool {
        *self == (KeyModifiers { control: true, ..KeyModifiers::none() })
    }

    /// Held down, one of these makes a different key entirely: `Ctrl-C` is
    /// quit, not copy mode. Shift is not one of them: `#` is Shift-3 on most
    /// layouts, and some terminals say so while others do not.
    pub open spec fn chord(&self) -> bool {
        self.control || self.alt || self.logo
    }

    fn is_control(&self) -> (r: bool)
        ensures
            r == self.only_control(),
    {
        self.control && !self.shift && !self.alt && !self.logo && !self.hyper && !self.meta
    }
}

impl Default for KeyModifiers {
    fn default() -> (m: KeyModifiers)
        ensures
            m == KeyModifiers::none(),
    {
        KeyModifiers { shift: false, control: false, alt: false, logo: false, hyper: false, meta: false }
    }
}

/// A key going down.
#[derive(Debug, Clone, Copy, PartialEq, Eq, Structural)]
pub struct KeyEvent {
    pub code: KeyCode,
    pub modifiers: KeyModifiers,
}

#[derive(Debug, Clone, Copy, PartialEq, Eq, Structural)]
pub enum MouseButton {
    Left,
    Right,
    Middle,
}

#[derive(Debug, Clone, Copy, PartialEq, Eq, Structural)]
pub enum MouseEventKind {
    Down(MouseButton),
    Up(MouseButton),
    Drag(MouseButton),
    Moved,
    ScrollDown,
    ScrollUp,
    ScrollLeft,
    ScrollRight,
}

/// The pointer doing something.
#[derive(Debug, Clone, Copy, PartialEq, Eq, Structural)]
pub struct MouseEvent {
    pub kind: MouseEventKind,
    pub column: u16,
    pub row: u16,
}

// -- motions --------------------------------------------------------------

/// How far the file pane moves. Pages are in screenfuls, which only the event
/// loop knows the size of.
#[derive(Debug, Clone, Copy, PartialEq, Eq, Structural)]
pub enum Motion {
    By(i64),
    Page(i64),
    Top,
    Bottom,
}

/// The last line a pane `page` lines tall can have at its top, showing a file of
/// `lines`.
pub open spec fn last_top(lines: int, page: int) -> int {
    less(lines, most(page, 1))
}

impl Motion {
    /// The line this motion asks for, wherever that is.
    pub open spec fn aimed(self, from: int, lines: int, page: int) -> int {
        match self {
            Motion::By(by) => from + by,
            Motion::Page(pages) => from + pages * most(page, 1),
            Motion::Top => 0,
            Motion::Bottom => last_top(lines, page),
        }
    }

    /// The first visible line this motion leads to.
    pub open spec fn lands(self, from: int, lines: int, page: int) -> int {
        least(most(self.aimed(from, lines, page), 0), last_top(lines, page))
    }

    /// The line to tell the session about, or `None` when this pane cannot
    /// make the move at all.
    ///
    /// That distinction is the whole of how two views of different heights
    /// share one scroll position: a pane already showing the last line has
    /// nothing to say, so pressing `↓` against the end of a short terminal
    /// does not drag a taller browser back up to meet it.
    pub fn to_share(self, from: usize, lines: usize, page: usize) -> (r: Option<usize>)
        ensures
            match r {
                Some(line) => line == self.lands(from as int, lines as int, page as int) && line != from,
                None => self.lands(from as int, lines as int, page as int) == from,
            },
    {
        let line: usize = self.applied_to(from, lines, page);
        if line != from {
            Some(line)
        } else {
            None
        }
    }

    /// The first visible line this motion asks for, clamped to a pane `page`
    /// lines tall showing a file of `lines`.
    pub fn applied_to(self, from: usize, lines: usize, page: usize) -> (line: usize)
        ensures
            line == self.lands(from as int, lines as int, page as int),
    {
        let tall: usize = if page < 1 { 1 } else { page };
        let last: usize = lines.saturating_sub(tall);
        let wanted: i128 = match self {
            Motion::By(by) => from as i128 + by as i128,
            Motion::Page(pages) => {
                proof {
                    let p = pages as int;
                    let t = tall as int;
                    assert(-0x8000_0000_0000_0000 * 0x1_0000_0000_0000_0000 <= p * t <= 0x8000_0000_0000_0000
                        * 0x1_0000_0000_0000_0000) by (nonlinear_arith)
                        requires
                            -0x8000_0000_0000_0000 <= p <= 0x8000_0000_0000_0000,
                            0 <= t < 0x1_0000_0000_0000_0000,
                    ;
                    assert(p * t != 0x8000_0000_0000_0000 * 0x1_0000_0000_0000_0000) by (nonlinear_arith)
                        requires
                            p < 0x8000_0000_0000_0000,
                            0 <= t < 0x1_0000_0000_0000_0000,
                            -0x8000_0000_0000_0000 <= p,
                    ;
                }
                let moved: i128 = pages as i128 * tall as i128;
                if moved > 0x1_0000_0000_0000_0000 {
                    0x1_0000_0000_0000_0000
                } else {
                    from as i128 + moved
                }
            }
            Motion::Top => 0,
            Motion::Bottom => last as i128,
        };
        if wanted < 0 {
            0
        } else if wanted > last as i128 {
            last
        } else {
            wanted as usize
        }
    }
}

// -- actions --------------------------------------------------------------

/// What a key or a click means.
#[derive(Debug, PartialEq)]
pub enum Action {
    Nothing,
    Quit,
    Run(Command),
    /// Scroll the tree, which moves no cursor and so leaves the open file
    /// alone.
    Scroll(i32),
    ScrollFile(Motion),
    Focus(Focus),
    /// The pointer took hold of the divider at this column.
    GrabDivider(u16),
    /// Drag it to this column.
    Split(u16),
    /// The button came up, wherever it was.
    Release,
    /// Fold the tree away, or bring it back.
    Fold,
    /// Show or hide the file's line numbers.
    LineNumbers,
    /// Show or hide space, tab and line-ending marks.
    Marks,
    /// Take the mouse, or give it back to the terminal.
    Mouse,
    /// All of them at once: out of the way for a selection, or back as they
    /// were.
    Copy,
}

/// An [`Action`] as a value.
pub enum ActionView {
    Nothing,
    Quit,
    Run(CommandView),
    Scroll(i32),
    ScrollFile(Motion),
    Focus(Focus),
    GrabDivider(u16),
    Split(u16),
    Release,
    Fold,
    LineNumbers,
    Marks,
    Mouse,
    Copy,
}

impl View for Action {
    type V = ActionView;

    open spec fn view(&self) -> ActionView {
        match self {
            Action::Nothing => ActionView::Nothing,
            Action::Quit => ActionView::Quit,
            Action::Run(cmd) => ActionView::Run(cmd@),
            Action::Scroll(by) => ActionView::Scroll(*by),
            Action::ScrollFile(motion) => ActionView::ScrollFile(*motion),
            Action::Focus(pane) => ActionView::Focus(*pane),
            Action::GrabDivider(column) => ActionView::GrabDivider(*column),
            Action::Split(column) => ActionView::Split(*column),
            Action::Release => ActionView::Release,
            Action::Fold => ActionView::Fold,
            Action::LineNumbers => ActionView::LineNumbers,
            Action::Marks => ActionView::Marks,
            Action::Mouse => ActionView::Mouse,
            Action::Copy => ActionView::Copy,
        }
    }
}

// -- keys -----------------------------------------------------------------

/// What a key does that moves through a file, where the file has the keyboard.
pub open spec fn file_meaning(key: KeyEvent) -> Option<ActionView> {
    let ctrl = key.modifiers.only_control();
    match key.code {
        KeyCode::Down | KeyCode::Char('j') => Some(ActionView::ScrollFile(Motion::By(1))),
        KeyCode::Up | KeyCode::Char('k') => Some(ActionView::ScrollFile(Motion::By(-1 as i64))),
        KeyCode::PageDown => Some(ActionView::ScrollFile(Motion::Page(1))),
        KeyCode::PageUp => Some(ActionView::ScrollFile(Motion::Page(-1 as i64))),
        KeyCode::Char('d') if ctrl => Some(ActionView::ScrollFile(Motion::Page(1))),
        KeyCode::Char('u') if ctrl => Some(ActionView::ScrollFile(Motion::Page(-1 as i64))),
        KeyCode::Home | KeyCode::Char('g') => Some(ActionView::ScrollFile(Motion::Top)),
        KeyCode::End | KeyCode::Char('G') => Some(ActionView::ScrollFile(Motion::Bottom)),
        // Back to the tree, not out of the file. Something is always on
        // display, so there is nothing here to leave, only a keyboard to put
        // back where it came from.
        KeyCode::Left | KeyCode::Char('h') => Some(ActionView::Focus(Focus::Tree)),
        _ => None,
    }
}

/// The row the cursor is on.
pub open spec fn current_row(snapshot: &Snapshot) -> Option<Row> {
    match snapshot.selected {
        Some(i) if i < snapshot.rows@.len() => Some(snapshot.rows@[i as int]),
        _ => None,
    }
}

/// `→`: right descends.
pub open spec fn right_meaning(current: Option<Row>) -> ActionView {
    match current {
        Some(row) => if row.kind != Kind::Dir {
            ActionView::Run(CommandView::View { path: Some(row.path@) })
        } else if row.expanded {
            ActionView::Run(CommandView::MoveSelection { delta: 1 })
        } else {
            ActionView::Run(CommandView::Expand { path: row.path@ })
        },
        None => ActionView::Nothing,
    }
}

/// `←`: left ascends.
pub open spec fn left_meaning(current: Option<Row>) -> ActionView {
    match current {
        Some(row) => if row.kind == Kind::Dir && row.expanded {
            ActionView::Run(CommandView::Collapse { path: row.path@ })
        } else if row.path@.names.len() > 0 {
            ActionView::Run(CommandView::Select { path: row.path@.up() })
        } else {
            ActionView::Nothing
        },
        None => ActionView::Nothing,
    }
}

/// Enter: toggle a directory, or open a file and go to it.
pub open spec fn enter_meaning(current: Option<Row>) -> ActionView {
    match current {
        Some(row) => if row.kind == Kind::Dir {
            ActionView::Run(CommandView::Toggle { path: row.path@ })
        } else {
            ActionView::Run(CommandView::View { path: Some(row.path@) })
        },
        None => ActionView::Nothing,
    }
}

/// How many rows a screenful of the tree is, with room for `tall` of them.
pub open spec fn screenful(tall: u16) -> int {
    most(tall as int, 1)
}

/// What a key does to the tree, with room for `tall` of its rows.
pub open spec fn tree_meaning(key: KeyEvent, snapshot: &Snapshot, tall: u16) -> ActionView {
    let current = current_row(snapshot);
    let page = screenful(tall);
    let ctrl = key.modifiers.only_control();
    match key.code {
        KeyCode::Char('c') if ctrl => ActionView::Quit,
        KeyCode::Char('q') | KeyCode::Esc => ActionView::Quit,
        KeyCode::Down | KeyCode::Char('j') => ActionView::Run(CommandView::MoveSelection { delta: 1 }),
        KeyCode::Up | KeyCode::Char('k') => ActionView::Run(CommandView::MoveSelection { delta: -1 }),
        KeyCode::PageDown => ActionView::Run(CommandView::MoveSelection { delta: page }),
        KeyCode::PageUp => ActionView::Run(CommandView::MoveSelection { delta: -page }),
        KeyCode::Char('d') if ctrl => ActionView::Run(CommandView::MoveSelection { delta: page }),
        KeyCode::Char('u') if ctrl => ActionView::Run(CommandView::MoveSelection { delta: -page }),
        KeyCode::Home | KeyCode::Char('g') => ActionView::Run(CommandView::SelectRow { row: 0 }),
        KeyCode::End | KeyCode::Char('G') => ActionView::Run(
            CommandView::SelectRow { row: less(snapshot.rows@.len() as int, 1) },
        ),
        KeyCode::Right | KeyCode::Char('l') => right_meaning(current),
        KeyCode::Left | KeyCode::Char('h') => left_meaning(current),
        KeyCode::Enter | KeyCode::Char(' ') => enter_meaning(current),
        KeyCode::Char('z') => ActionView::Run(CommandView::CollapseAll),
        KeyCode::Char('E') => ActionView::Run(CommandView::ExpandDepth { depth: usize::MAX as int }),
        KeyCode::Char('2') => ActionView::Run(CommandView::ExpandDepth { depth: 2 }),
        KeyCode::Char('3') => ActionView::Run(CommandView::ExpandDepth { depth: 3 }),
        KeyCode::Char('r') => ActionView::Run(CommandView::Refresh),
        KeyCode::Char('.') => ActionView::Run(CommandView::SetHidden { show: !snapshot.show_hidden }),
        _ => ActionView::Nothing,
    }
}

/// Getting out of the way, so that the terminal's own selection lands on
/// nothing but the file. All but the mouse need a file to get out of the way
/// of.
pub open spec fn mode_meaning(key: KeyEvent, has_file: bool) -> Option<ActionView> {
    if key.modifiers.chord() {
        None
    } else {
        match key.code {
            KeyCode::Char('b') if has_file => Some(ActionView::Fold),
            KeyCode::Char('#') if has_file => Some(ActionView::LineNumbers),
            KeyCode::Char(',') if has_file => Some(ActionView::Marks),
            KeyCode::Char('m') => Some(ActionView::Mouse),
            KeyCode::Char('c') if has_file => Some(ActionView::Copy),
            _ => None,
        }
    }
}

/// What a key means: the modes first, then `Tab` between the panes, then the
/// pane that has the keyboard. The file pane claims the keys that move through
/// a file and nothing else, so `.`, `r` and the rest still reach the tree while
/// reading.
pub open spec fn key_meaning(key: KeyEvent, snapshot: &Snapshot, focus: Focus, has_file: bool, tall: u16) -> ActionView {
    match mode_meaning(key, has_file) {
        Some(action) => action,
        None => if key.code == KeyCode::Tab && has_file {
            ActionView::Focus(
                match focus {
                    Focus::Tree => Focus::Viewer,
                    Focus::Viewer => Focus::Tree,
                },
            )
        } else if focus == Focus::Viewer && file_meaning(key) is Some {
            file_meaning(key)->0
        } else {
            tree_meaning(key, snapshot, tall)
        },
    }
}

pub fn handle_key(key: KeyEvent, snapshot: &Snapshot, focus: Focus, has_file: bool, tall: u16) -> (a: Action)
    ensures
        a@ == key_meaning(key, snapshot, focus, has_file, tall),
{
    if !(key.modifiers.control || key.modifiers.alt || key.modifiers.logo) {
        match key.code {
            KeyCode::Char('b') if has_file => return Action::Fold,
            KeyCode::Char('#') if has_file => return Action::LineNumbers,
            // Not `/`: that is search everywhere else, and treex will want it.
            KeyCode::Char(',') if has_file => return Action::Marks,
            KeyCode::Char('m') => return Action::Mouse,
            KeyCode::Char('c') if has_file => return Action::Copy,
            _ => {}
        }
    }
    if key.code == KeyCode::Tab && has_file {
        return Action::Focus(
            match focus {
                Focus::Tree => Focus::Viewer,
                Focus::Viewer => Focus::Tree,
            },
        );
    }
    if focus == Focus::Viewer {
        if let Some(action) = file_key(key) {
            return action;
        }
    }
    tree_key(key, snapshot, tall)
}

fn file_key(key: KeyEvent) -> (a: Option<Action>)
    ensures
        match a {
            Some(action) => file_meaning(key) == Some(action@),
            None => file_meaning(key) is None,
        },
{
    let ctrl: bool = key.modifiers.is_control();
    match key.code {
        KeyCode::Down | KeyCode::Char('j') => Some(Action::ScrollFile(Motion::By(1))),
        KeyCode::Up | KeyCode::Char('k') => Some(Action::ScrollFile(Motion::By(-1))),
        KeyCode::PageDown => Some(Action::ScrollFile(Motion::Page(1))),
        KeyCode::PageUp => Some(Action::ScrollFile(Motion::Page(-1))),
        KeyCode::Char('d') if ctrl => Some(Action::ScrollFile(Motion::Page(1))),
        KeyCode::Char('u') if ctrl => Some(Action::ScrollFile(Motion::Page(-1))),
        KeyCode::Home | KeyCode::Char('g') => Some(Action::ScrollFile(Motion::Top)),
        KeyCode::End | KeyCode::Char('G') => Some(Action::ScrollFile(Motion::Bottom)),
        KeyCode::Left | KeyCode::Char('h') => Some(Action::Focus(Focus::Tree)),
        _ => None,
    }
}

fn tree_key(key: KeyEvent, snapshot: &Snapshot, tall: u16) -> (a: Action)
    ensures
        a@ == tree_meaning(key, snapshot, tall),
{
    let page: i64 = if tall < 1 { 1 } else { tall as i64 };
    let current: Option<&Row> = match snapshot.selected {
        Some(i) if i < snapshot.rows.len() => Some(&snapshot.rows[i]),
        _ => None,
    };
    let ctrl: bool = key.modifiers.is_control();
    match key.code {
        KeyCode::Char('c') if ctrl => Action::Quit,
        KeyCode::Char('q') | KeyCode::Esc => Action::Quit,

        KeyCode::Down | KeyCode::Char('j') => Action::Run(Command::MoveSelection { delta: 1 }),
        KeyCode::Up | KeyCode::Char('k') => Action::Run(Command::MoveSelection { delta: -1 }),
        KeyCode::PageDown => Action::Run(Command::MoveSelection { delta: page }),
        KeyCode::PageUp => Action::Run(Command::MoveSelection { delta: -page }),
        KeyCode::Char('d') if ctrl => Action::Run(Command::MoveSelection { delta: page }),
        KeyCode::Char('u') if ctrl => Action::Run(Command::MoveSelection { delta: -page }),
        KeyCode::Home | KeyCode::Char('g') => Action::Run(Command::SelectRow { row: 0 }),
        KeyCode::End | KeyCode::Char('G') => Action::Run(
            Command::SelectRow { row: snapshot.rows.len().saturating_sub(1) },
        ),

        // W3C tree semantics: right descends, left ascends.
        KeyCode::Right | KeyCode::Char('l') => match current {
            Some(row) => {
                if !row.is_dir() {
                    Action::Run(Command::View { path: Some(row.path.clone()) })
                } else if row.expanded {
                    Action::Run(Command::MoveSelection { delta: 1 })
                } else {
                    Action::Run(Command::Expand { path: row.path.clone() })
                }
            }
            None => Action::Nothing,
        },
        KeyCode::Left | KeyCode::Char('h') => match current {
            Some(row) => {
                if row.is_dir() && row.expanded {
                    Action::Run(Command::Collapse { path: row.path.clone() })
                } else {
                    match row.path.parent() {
                        Some(parent) => Action::Run(Command::Select { path: parent }),
                        None => Action::Nothing,
                    }
                }
            }
            None => Action::Nothing,
        },
        KeyCode::Enter | KeyCode::Char(' ') => match current {
            Some(row) => {
                if row.is_dir() {
                    Action::Run(Command::Toggle { path: row.path.clone() })
                } else {
                    Action::Run(Command::View { path: Some(row.path.clone()) })
                }
            }
            None => Action::Nothing,
        },

        KeyCode::Char('z') => Action::Run(Command::CollapseAll),
        // Every level there is.
        KeyCode::Char('E') => Action::Run(Command::ExpandDepth { depth: usize::MAX }),
        KeyCode::Char('2') => Action::Run(Command::ExpandDepth { depth: 2 }),
        KeyCode::Char('3') => Action::Run(Command::ExpandDepth { depth: 3 }),
        KeyCode::Char('r') => Action::Run(Command::Refresh),
        KeyCode::Char('.') => Action::Run(Command::SetHidden { show: !snapshot.show_hidden }),
        _ => Action::Nothing,
    }
}

/// The keys that move through whichever pane has the keyboard.
pub open spec fn moves(code: KeyCode) -> bool {
    match code {
        KeyCode::Up | KeyCode::Down | KeyCode::PageUp | KeyCode::PageDown | KeyCode::Home | KeyCode::End => true,
        KeyCode::Char('j') | KeyCode::Char('k') | KeyCode::Char('g') | KeyCode::Char('G') => true,
        _ => false,
    }
}

/// Moving never touches the disk: whatever is on screen and whoever has the
/// keyboard, such a key scrolls the file or runs a command that reads nothing.
pub proof fn lemma_moving_never_reads(key: KeyEvent, snapshot: &Snapshot, focus: Focus, has_file: bool, tall: u16)
    requires
        moves(key.code),
    ensures
        match key_meaning(key, snapshot, focus, has_file, tall) {
            ActionView::Run(cmd) => focus == Focus::Tree && !cmd.reads(),
            ActionView::ScrollFile(_) => focus == Focus::Viewer,
            _ => false,
        },
{
}

/// A modifier makes it a different key: no chord is a mode switch, and `Ctrl-C`
/// leaves wherever the keyboard is.
pub proof fn lemma_a_chord_is_another_key(key: KeyEvent, snapshot: &Snapshot, focus: Focus, has_file: bool, tall: u16)
    requires
        key.modifiers.chord(),
    ensures
        match key_meaning(key, snapshot, focus, has_file, tall) {
            ActionView::Fold => false,
            ActionView::LineNumbers => false,
            ActionView::Marks => false,
            ActionView::Mouse => false,
            ActionView::Copy => false,
            _ => true,
        },
        key.code == KeyCode::Char('c') && key.modifiers.only_control() ==> key_meaning(
            key,
            snapshot,
            focus,
            has_file,
            tall,
        ) == ActionView::Quit,
{
}

// -- the pointer ----------------------------------------------------------

/// Where a press means something: the inner rects of the two panes, i.e. where
/// their contents are drawn, and the columns the divider between them occupies.
#[derive(Debug, Clone, Copy, PartialEq, Eq)]
pub struct Targets {
    pub rows: Rect,
    pub file: Rect,
    pub modes: ModeZones,
    pub divider: Option<(u16, u16)>,
    /// The file header's fold control, which is a click target like any
    /// button; the `b` key is the same thing without a mouse.
    pub fold: Rect,
}

/// The pane a cell is in, if any.
pub open spec fn pane_of(rows: Rect, file: Rect, column: int, row: int) -> Option<Focus> {
    if file.covers(column, row) {
        Some(Focus::Viewer)
    } else if rows.covers(column, row) {
        Some(Focus::Tree)
    } else {
        None
    }
}

/// The pane a point is in, if any. An empty rect contains nothing, which is
/// what a missing pane is.
pub fn pane_at(rows: Rect, file: Rect, column: u16, row: u16) -> (p: Option<Focus>)
    ensures
        p == pane_of(rows, file, column as int, row as int),
{
    if file.contains(column, row) {
        Some(Focus::Viewer)
    } else if rows.contains(column, row) {
        Some(Focus::Tree)
    } else {
        None
    }
}

impl Targets {
    /// Whether a column is one of the divider's.
    pub open spec fn divides(&self, column: u16) -> bool {
        self.divider matches Some((left, right)) && (column == left || column == right)
    }

    pub fn on_divider(&self, column: u16) -> (r: bool)
        ensures
            r == self.divides(column),
    {
        match self.divider {
            Some((left, right)) => column == left || column == right,
            None => false,
        }
    }
}

/// What the left button means on a row of the tree. One click is all it takes:
/// selecting a file is what shows it, so there is no second gesture left to
/// invent.
pub open spec fn row_meaning(h: Hit, rows: Seq<Row>, click_toggles_dirs: bool) -> ActionView {
    match h {
        Hit::Twistie(i) if i < rows.len() => ActionView::Run(CommandView::Toggle { path: rows[i as int].path@ }),
        Hit::Name(i) if i < rows.len() => if rows[i as int].kind == Kind::Dir && click_toggles_dirs {
            ActionView::Run(CommandView::Toggle { path: rows[i as int].path@ })
        } else {
            ActionView::Run(CommandView::Select { path: rows[i as int].path@ })
        },
        _ => ActionView::Nothing,
    }
}

/// What the pointer means. The footer's indicators are buttons too, and they
/// belong to no pane; the header's control comes before the pane it sits in, and
/// the divider belongs to neither. The wheel scrolls whatever it is pointing at,
/// and the right button is reserved: it acts on nothing.
pub open spec fn mouse_meaning(
    mouse: MouseEvent,
    snapshot: &Snapshot,
    panes: Targets,
    offset: int,
    click_toggles_dirs: bool,
    dragging: bool,
) -> ActionView {
    let x = mouse.column as int;
    let y = mouse.row as int;
    let over_file = panes.file.covers(x, y);
    match mouse.kind {
        MouseEventKind::Down(MouseButton::Left) => {
            let button = panes.modes.pressed(x, y, snapshot.show_hidden);
            if button is Some {
                button->0
            } else if panes.fold.covers(x, y) {
                ActionView::Fold
            } else if panes.divides(mouse.column) {
                ActionView::GrabDivider(mouse.column)
            } else if over_file {
                // Working the pane is what says the file is the subject rather
                // than whatever directory the cursor was left on.
                ActionView::Focus(Focus::Viewer)
            } else {
                row_meaning(cell_hit(panes.rows, offset, snapshot.rows@, x, y), snapshot.rows@, click_toggles_dirs)
            }
        },
        MouseEventKind::Down(MouseButton::Middle) => if over_file {
            ActionView::Focus(Focus::Viewer)
        } else {
            ActionView::Nothing
        },
        MouseEventKind::Drag(MouseButton::Left) => if dragging {
            ActionView::Split(mouse.column)
        } else {
            ActionView::Nothing
        },
        MouseEventKind::Up(MouseButton::Left) | MouseEventKind::Up(MouseButton::Middle) => ActionView::Release,
        MouseEventKind::ScrollDown => if over_file {
            ActionView::ScrollFile(Motion::By(3))
        } else {
            ActionView::Scroll(3)
        },
        MouseEventKind::ScrollUp => if over_file {
            ActionView::ScrollFile(Motion::By(-3 as i64))
        } else {
            ActionView::Scroll(-3 as i32)
        },
        _ => ActionView::Nothing,
    }
}

pub fn handle_mouse(
    mouse: MouseEvent,
    snapshot: &Snapshot,
    panes: Targets,
    offset: usize,
    opts: &TuiOptions,
    dragging: bool,
) -> (a: Action)
    ensures
        a@ == mouse_meaning(mouse, snapshot, panes, offset as int, opts.click_toggles_dirs, dragging),
{
    let x: u16 = mouse.column;
    let y: u16 = mouse.row;
    let over_file: bool = panes.file.contains(x, y);
    match mouse.kind {
        MouseEventKind::Down(MouseButton::Left) => {
            if let Some(action) = panes.modes.at(x, y, snapshot.show_hidden) {
                return action;
            }
            if panes.fold.contains(x, y) {
                return Action::Fold;
            }
            if panes.on_divider(x) {
                return Action::GrabDivider(x);
            }
            if over_file {
                return Action::Focus(Focus::Viewer);
            }
            let rows: &Vec<Row> = &snapshot.rows;
            match hit(panes.rows, offset, rows.as_slice(), x, y) {
                Hit::Twistie(i) => {
                    if i < rows.len() {
                        Action::Run(Command::Toggle { path: rows[i].path.clone() })
                    } else {
                        Action::Nothing
                    }
                }
                Hit::Name(i) => {
                    if i >= rows.len() {
                        Action::Nothing
                    } else if rows[i].is_dir() && opts.click_toggles_dirs {
                        Action::Run(Command::Toggle { path: rows[i].path.clone() })
                    } else {
                        Action::Run(Command::Select { path: rows[i].path.clone() })
                    }
                }
                Hit::Nothing => Action::Nothing,
            }
        }
        MouseEventKind::Down(MouseButton::Middle) => {
            if over_file {
                Action::Focus(Focus::Viewer)
            } else {
                Action::Nothing
            }
        }
        MouseEventKind::Drag(MouseButton::Left) => {
            if dragging {
                Action::Split(x)
            } else {
                Action::Nothing
            }
        }
        MouseEventKind::Up(MouseButton::Left) | MouseEventKind::Up(MouseButton::Middle) => Action::Release,
        MouseEventKind::ScrollDown => {
            if over_file {
                Action::ScrollFile(Motion::By(3))
            } else {
                Action::Scroll(3)
            }
        }
        MouseEventKind::ScrollUp => {
            if over_file {
                Action::ScrollFile(Motion::By(-3))
            } else {
                Action::Scroll(-3)
            }
        }
        _ => Action::Nothing,
    }
}

/// The right button does nothing, wherever it goes down, is dragged or comes up.
pub proof fn lemma_the_right_button_is_inert(
    mouse: MouseEvent,
    snapshot: &Snapshot,
    panes: Targets,
    offset: int,
    click_toggles_dirs: bool,
    dragging: bool,
)
    requires
        mouse.kind == MouseEventKind::Down(MouseButton::Right) || mouse.kind == MouseEventKind::Drag(MouseButton::Right)
            || mouse.kind == MouseEventKind::Up(MouseButton::Right),
    ensures
        mouse_meaning(mouse, snapshot, panes, offset, click_toggles_dirs, dragging) == ActionView::Nothing,
{
}

// -- laws -----------------------------------------------------------------

/// With the tree focused, `Up` and `k` ask for a move of one row towards the top
/// and `Down` and `j` for one towards the bottom; a page up is as far as a page
/// down, the other way, and is what the tree has room for.
pub proof fn lemma_up_is_up_and_down_is_down(m: KeyModifiers, snapshot: &Snapshot, has_file: bool, tall: u16)
    ensures
        key_meaning(KeyEvent { code: KeyCode::Up, modifiers: m }, snapshot, Focus::Tree, has_file, tall)
            == ActionView::Run(CommandView::MoveSelection { delta: -1 }),
        key_meaning(KeyEvent { code: KeyCode::Char('k'), modifiers: m }, snapshot, Focus::Tree, has_file, tall)
            == ActionView::Run(CommandView::MoveSelection { delta: -1 }),
        key_meaning(KeyEvent { code: KeyCode::Down, modifiers: m }, snapshot, Focus::Tree, has_file, tall)
            == ActionView::Run(CommandView::MoveSelection { delta: 1 }),
        key_meaning(KeyEvent { code: KeyCode::Char('j'), modifiers: m }, snapshot, Focus::Tree, has_file, tall)
            == ActionView::Run(CommandView::MoveSelection { delta: 1 }),
        tall >= 1 ==> key_meaning(KeyEvent { code: KeyCode::PageDown, modifiers: m }, snapshot, Focus::Tree, has_file, tall)
            == ActionView::Run(CommandView::MoveSelection { delta: tall as int }),
        tall >= 1 ==> key_meaning(KeyEvent { code: KeyCode::PageUp, modifiers: m }, snapshot, Focus::Tree, has_file, tall)
            == ActionView::Run(CommandView::MoveSelection { delta: -(tall as int) }),
        tall == 0 ==> key_meaning(KeyEvent { code: KeyCode::PageDown, modifiers: m }, snapshot, Focus::Tree, has_file, tall)
            == ActionView::Run(CommandView::MoveSelection { delta: 1 }),
        tall == 0 ==> key_meaning(KeyEvent { code: KeyCode::PageUp, modifiers: m }, snapshot, Focus::Tree, has_file, tall)
            == ActionView::Run(CommandView::MoveSelection { delta: -1 }),
{
}

/// The letters are the arrows under other names, wherever the keyboard is, and
/// with control held `d` and `u` are the page keys.
pub proof fn lemma_letters_are_arrows(m: KeyModifiers, snapshot: &Snapshot, focus: Focus, has_file: bool, tall: u16)
    ensures
        key_meaning(KeyEvent { code: KeyCode::Char('j'), modifiers: m }, snapshot, focus, has_file, tall) == key_meaning(
            KeyEvent { code: KeyCode::Down, modifiers: m },
            snapshot,
            focus,
            has_file,
            tall,
        ),
        key_meaning(KeyEvent { code: KeyCode::Char('k'), modifiers: m }, snapshot, focus, has_file, tall) == key_meaning(
            KeyEvent { code: KeyCode::Up, modifiers: m },
            snapshot,
            focus,
            has_file,
            tall,
        ),
        key_meaning(KeyEvent { code: KeyCode::Char('h'), modifiers: m }, snapshot, focus, has_file, tall) == key_meaning(
            KeyEvent { code: KeyCode::Left, modifiers: m },
            snapshot,
            focus,
            has_file,
            tall,
        ),
        key_meaning(KeyEvent { code: KeyCode::Char('l'), modifiers: m }, snapshot, focus, has_file, tall) == key_meaning(
            KeyEvent { code: KeyCode::Right, modifiers: m },
            snapshot,
            focus,
            has_file,
            tall,
        ),
        key_meaning(KeyEvent { code: KeyCode::Char('g'), modifiers: m }, snapshot, focus, has_file, tall) == key_meaning(
            KeyEvent { code: KeyCode::Home, modifiers: m },
            snapshot,
            focus,
            has_file,
            tall,
        ),
        key_meaning(KeyEvent { code: KeyCode::Char('G'), modifiers: m }, snapshot, focus, has_file, tall) == key_meaning(
            KeyEvent { code: KeyCode::End, modifiers: m },
            snapshot,
            focus,
            has_file,
            tall,
        ),
        key_meaning(KeyEvent { code: KeyCode::Char(' '), modifiers: m }, snapshot, focus, has_file, tall) == key_meaning(
            KeyEvent { code: KeyCode::Enter, modifiers: m },
            snapshot,
            focus,
            has_file,
            tall,
        ),
        m.only_control() ==> key_meaning(KeyEvent { code: KeyCode::Char('d'), modifiers: m }, snapshot, focus, has_file, tall)
            == key_meaning(KeyEvent { code: KeyCode::PageDown, modifiers: m }, snapshot, focus, has_file, tall),
        m.only_control() ==> key_meaning(KeyEvent { code: KeyCode::Char('u'), modifiers: m }, snapshot, focus, has_file, tall)
            == key_meaning(KeyEvent { code: KeyCode::PageUp, modifiers: m }, snapshot, focus, has_file, tall),
{
}

/// `Home` asks for the first row there is and `End` for the last.
pub proof fn lemma_home_and_end_are_the_ends(m: KeyModifiers, snapshot: &Snapshot, has_file: bool, tall: u16)
    ensures
        key_meaning(KeyEvent { code: KeyCode::Home, modifiers: m }, snapshot, Focus::Tree, has_file, tall)
            == ActionView::Run(CommandView::SelectRow { row: 0 }),
        snapshot.rows@.len() > 0 ==> key_meaning(
            KeyEvent { code: KeyCode::End, modifiers: m },
            snapshot,
            Focus::Tree,
            has_file,
            tall,
        ) == ActionView::Run(CommandView::SelectRow { row: snapshot.rows@.len() - 1 }),
{
}

/// On the row the cursor is on, right goes in and left goes out: a shut
/// directory opens and an open one is stepped into, an open directory shuts and
/// anything else gives way to the directory it is in, and a file is shown.
/// `Enter` turns a directory over and shows a file.
pub proof fn lemma_right_goes_in_and_left_goes_out(
    m: KeyModifiers,
    snapshot: &Snapshot,
    has_file: bool,
    tall: u16,
    i: usize,
)
    requires
        snapshot.selected == Some(i),
        i < snapshot.rows@.len(),
    ensures
        ({
            let row = snapshot.rows@[i as int];
            let right = key_meaning(KeyEvent { code: KeyCode::Right, modifiers: m }, snapshot, Focus::Tree, has_file, tall);
            let left = key_meaning(KeyEvent { code: KeyCode::Left, modifiers: m }, snapshot, Focus::Tree, has_file, tall);
            let enter = key_meaning(KeyEvent { code: KeyCode::Enter, modifiers: m }, snapshot, Focus::Tree, has_file, tall);
            &&& row.kind == Kind::Dir && !row.expanded ==> right == ActionView::Run(CommandView::Expand { path: row.path@ })
            &&& row.kind == Kind::Dir && row.expanded ==> right == ActionView::Run(CommandView::MoveSelection { delta: 1 })
            &&& row.kind != Kind::Dir ==> right == ActionView::Run(CommandView::View { path: Some(row.path@) })
            &&& row.kind == Kind::Dir && row.expanded ==> left == ActionView::Run(CommandView::Collapse { path: row.path@ })
            &&& !(row.kind == Kind::Dir && row.expanded) ==> if row.path@.names.len() == 0 {
                left == ActionView::Nothing
            } else {
                left == ActionView::Run(
                    CommandView::Select {
                        path: (crate::path::PathView {
                            names: row.path@.names.take(row.path@.names.len() - 1),
                            ..row.path@
                        }),
                    },
                )
            }
            &&& row.kind == Kind::Dir ==> enter == ActionView::Run(CommandView::Toggle { path: row.path@ })
            &&& row.kind != Kind::Dir ==> enter == ActionView::Run(CommandView::View { path: Some(row.path@) })
        }),
{
    let row = snapshot.rows@[i as int];
    if row.path@.names.len() > 0 {
        assert(row.path@.names.drop_last() =~= row.path@.names.take(row.path@.names.len() - 1));
    }
}

/// The keys that mean one thing whatever the cursor is on.
pub proof fn lemma_plain_keys(m: KeyModifiers, snapshot: &Snapshot, focus: Focus, has_file: bool, tall: u16)
    ensures
        key_meaning(KeyEvent { code: KeyCode::Char('q'), modifiers: m }, snapshot, focus, has_file, tall)
            == ActionView::Quit,
        key_meaning(KeyEvent { code: KeyCode::Esc, modifiers: m }, snapshot, focus, has_file, tall) == ActionView::Quit,
        key_meaning(KeyEvent { code: KeyCode::Char('z'), modifiers: m }, snapshot, focus, has_file, tall)
            == ActionView::Run(CommandView::CollapseAll),
        key_meaning(KeyEvent { code: KeyCode::Char('2'), modifiers: m }, snapshot, focus, has_file, tall)
            == ActionView::Run(CommandView::ExpandDepth { depth: 2 }),
        key_meaning(KeyEvent { code: KeyCode::Char('3'), modifiers: m }, snapshot, focus, has_file, tall)
            == ActionView::Run(CommandView::ExpandDepth { depth: 3 }),
        key_meaning(KeyEvent { code: KeyCode::Char('E'), modifiers: m }, snapshot, focus, has_file, tall)
            == ActionView::Run(CommandView::ExpandDepth { depth: usize::MAX as int }),
        key_meaning(KeyEvent { code: KeyCode::Char('r'), modifiers: m }, snapshot, focus, has_file, tall)
            == ActionView::Run(CommandView::Refresh),
        key_meaning(KeyEvent { code: KeyCode::Char('.'), modifiers: m }, snapshot, focus, has_file, tall)
            == ActionView::Run(CommandView::SetHidden { show: !snapshot.show_hidden }),
        key_meaning(KeyEvent { code: KeyCode::Other, modifiers: m }, snapshot, focus, has_file, tall)
            == ActionView::Nothing,
{
}

/// No switch is turned with control, alt or the logo key held down, whatever key
/// it is held with.
pub proof fn lemma_chords_turn_no_switch(key: KeyEvent, snapshot: &Snapshot, focus: Focus, has_file: bool, tall: u16)
    requires
        key.modifiers.control || key.modifiers.alt || key.modifiers.logo,
    ensures
        ({
            let a = key_meaning(key, snapshot, focus, has_file, tall);
            &&& a != ActionView::Mouse
            &&& a != ActionView::Fold
            &&& a != ActionView::LineNumbers
            &&& a != ActionView::Marks
            &&& a != ActionView::Copy
        }),
{
}

/// The mode keys, with nothing held that makes another key of them: the mouse
/// can always be given back, and the rest need a file to act on.
pub proof fn lemma_mode_keys(m: KeyModifiers, snapshot: &Snapshot, focus: Focus, has_file: bool, tall: u16)
    requires
        !m.control && !m.alt && !m.logo,
    ensures
        key_meaning(KeyEvent { code: KeyCode::Char('m'), modifiers: m }, snapshot, focus, has_file, tall)
            == ActionView::Mouse,
        key_meaning(KeyEvent { code: KeyCode::Char('b'), modifiers: m }, snapshot, focus, has_file, tall) == (if has_file {
            ActionView::Fold
        } else {
            ActionView::Nothing
        }),
        key_meaning(KeyEvent { code: KeyCode::Char('#'), modifiers: m }, snapshot, focus, has_file, tall) == (if has_file {
            ActionView::LineNumbers
        } else {
            ActionView::Nothing
        }),
        key_meaning(KeyEvent { code: KeyCode::Char(','), modifiers: m }, snapshot, focus, has_file, tall) == (if has_file {
            ActionView::Marks
        } else {
            ActionView::Nothing
        }),
        key_meaning(KeyEvent { code: KeyCode::Char('c'), modifiers: m }, snapshot, focus, has_file, tall) == (if has_file {
            ActionView::Copy
        } else {
            ActionView::Nothing
        }),
{
}

/// `Tab` goes to the other pane where there are two, and does nothing where
/// there is one.
pub proof fn lemma_tab_changes_panes(m: KeyModifiers, snapshot: &Snapshot, focus: Focus, has_file: bool, tall: u16)
    ensures
        has_file ==> (key_meaning(KeyEvent { code: KeyCode::Tab, modifiers: m }, snapshot, focus, has_file, tall) matches ActionView::Focus(
            other,
        ) && other != focus),
        !has_file ==> key_meaning(KeyEvent { code: KeyCode::Tab, modifiers: m }, snapshot, focus, has_file, tall)
            == ActionView::Nothing,
{
}

/// With the file focused the same keys move through it, a line or a page or all
/// the way, up and down each the other's opposite, and left gives the keyboard
/// back.
pub proof fn lemma_the_file_moves_the_same_way(m: KeyModifiers, snapshot: &Snapshot, has_file: bool, tall: u16)
    ensures
        key_meaning(KeyEvent { code: KeyCode::Up, modifiers: m }, snapshot, Focus::Viewer, has_file, tall)
            == ActionView::ScrollFile(Motion::By(-1i64)),
        key_meaning(KeyEvent { code: KeyCode::Down, modifiers: m }, snapshot, Focus::Viewer, has_file, tall)
            == ActionView::ScrollFile(Motion::By(1)),
        key_meaning(KeyEvent { code: KeyCode::PageUp, modifiers: m }, snapshot, Focus::Viewer, has_file, tall)
            == ActionView::ScrollFile(Motion::Page(-1i64)),
        key_meaning(KeyEvent { code: KeyCode::PageDown, modifiers: m }, snapshot, Focus::Viewer, has_file, tall)
            == ActionView::ScrollFile(Motion::Page(1)),
        key_meaning(KeyEvent { code: KeyCode::Home, modifiers: m }, snapshot, Focus::Viewer, has_file, tall)
            == ActionView::ScrollFile(Motion::Top),
        key_meaning(KeyEvent { code: KeyCode::End, modifiers: m }, snapshot, Focus::Viewer, has_file, tall)
            == ActionView::ScrollFile(Motion::Bottom),
        key_meaning(KeyEvent { code: KeyCode::Left, modifiers: m }, snapshot, Focus::Viewer, has_file, tall)
            == ActionView::Focus(Focus::Tree),
{
}

/// Every other key reaches the tree while a file is read.
pub proof fn lemma_the_rest_reaches_the_tree(key: KeyEvent, snapshot: &Snapshot, has_file: bool, tall: u16)
    requires
        key.code == KeyCode::Right || key.code == KeyCode::Enter || key.code == KeyCode::Esc || key.code
            == KeyCode::Other || (key.code matches KeyCode::Char(c) && c != 'j' && c != 'k' && c != 'g' && c != 'G' && c
            != 'h' && c != 'd' && c != 'u'),
    ensures
        key_meaning(key, snapshot, Focus::Viewer, has_file, tall) == key_meaning(
            key,
            snapshot,
            Focus::Tree,
            has_file,
            tall,
        ),
{
}

/// A motion by some lines goes exactly that far where both ends leave room, stops
/// at the first line and at the last screenful, and is undone by the opposite
/// motion where it did not stop short. A page is as many lines as the pane is
/// tall.
pub proof fn lemma_motions_go_as_far_as_they_say(from: int, lines: int, page: int, by: i64, back: i64)
    requires
        page >= 1,
        0 <= from,
        lines >= 0,
        back == -by,
    ensures
        ({
            let to = Motion::By(by).lands(from, lines, page);
            &&& 0 <= from + by && from + by + page <= lines ==> to == from + by
            &&& from + by < 0 ==> to == 0
            &&& from + by + page > lines && lines >= page && from + by >= 0 ==> to + page == lines
            &&& lines <= page ==> to == 0
            &&& to == from + by && from + page <= lines ==> Motion::By(back).lands(to, lines, page) == from
        }),
        from + page + page <= lines ==> Motion::Page(1).lands(from, lines, page) == from + page,
        page <= from && from + page <= lines ==> Motion::Page(-1i64).lands(from, lines, page) == from - page,
        Motion::Top.lands(from, lines, page) == 0,
        lines >= page ==> Motion::Bottom.lands(from, lines, page) + page == lines,
        lines < page ==> Motion::Bottom.lands(from, lines, page) == 0,
{
    assert(1 * page == page && (-1) * page == -page) by (nonlinear_arith);
}

/// The wheel goes three lines the way it turns, down and up each the other's
/// opposite, and moves the file where it points at the file and the tree
/// anywhere else.
pub proof fn lemma_the_wheel_scrolls_what_it_points_at(
    column: u16,
    row: u16,
    snapshot: &Snapshot,
    panes: Targets,
    offset: int,
    click_toggles_dirs: bool,
    dragging: bool,
)
    ensures
        ({
            let down = mouse_meaning(
                MouseEvent { kind: MouseEventKind::ScrollDown, column, row },
                snapshot,
                panes,
                offset,
                click_toggles_dirs,
                dragging,
            );
            let up = mouse_meaning(
                MouseEvent { kind: MouseEventKind::ScrollUp, column, row },
                snapshot,
                panes,
                offset,
                click_toggles_dirs,
                dragging,
            );
            if panes.file.covers(column as int, row as int) {
                down == ActionView::ScrollFile(Motion::By(3)) && up == ActionView::ScrollFile(Motion::By(-3i64))
            } else {
                down == ActionView::Scroll(3) && up == ActionView::Scroll(-3i32)
            }
        }),
{
}

/// The middle button is for the file alone, and the right one, pressed or
/// dragged, for nothing.
pub proof fn lemma_what_the_other_buttons_do(
    column: u16,
    row: u16,
    snapshot: &Snapshot,
    panes: Targets,
    offset: int,
    click_toggles_dirs: bool,
    dragging: bool,
)
    ensures
        mouse_meaning(
            MouseEvent { kind: MouseEventKind::Down(MouseButton::Middle), column, row },
            snapshot,
            panes,
            offset,
            click_toggles_dirs,
            dragging,
        ) == (if panes.file.covers(column as int, row as int) {
            ActionView::Focus(Focus::Viewer)
        } else {
            ActionView::Nothing
        }),
        mouse_meaning(
            MouseEvent { kind: MouseEventKind::Down(MouseButton::Right), column, row },
            snapshot,
            panes,
            offset,
            click_toggles_dirs,
            dragging,
        ) == ActionView::Nothing,
        mouse_meaning(
            MouseEvent { kind: MouseEventKind::Drag(MouseButton::Right), column, row },
            snapshot,
            panes,
            offset,
            click_toggles_dirs,
            dragging,
        ) == ActionView::Nothing,
{
}

/// What the left button does: a drag moves the divider only where the divider was
/// taken hold of, letting go lets go, and a press belongs to the first of the
/// footer's buttons, the fold control, the divider and the file that it is on.
pub proof fn lemma_what_a_press_belongs_to(
    column: u16,
    row: u16,
    snapshot: &Snapshot,
    panes: Targets,
    offset: int,
    click_toggles_dirs: bool,
    dragging: bool,
)
    ensures
        mouse_meaning(
            MouseEvent { kind: MouseEventKind::Drag(MouseButton::Left), column, row },
            snapshot,
            panes,
            offset,
            click_toggles_dirs,
            dragging,
        ) == (if dragging {
            ActionView::Split(column)
        } else {
            ActionView::Nothing
        }),
        mouse_meaning(
            MouseEvent { kind: MouseEventKind::Up(MouseButton::Left), column, row },
            snapshot,
            panes,
            offset,
            click_toggles_dirs,
            dragging,
        ) == ActionView::Release,
        ({
            let press = mouse_meaning(
                MouseEvent { kind: MouseEventKind::Down(MouseButton::Left), column, row },
                snapshot,
                panes,
                offset,
                click_toggles_dirs,
                dragging,
            );
            let button = panes.modes.pressed(column as int, row as int, snapshot.show_hidden);
            &&& button matches Some(action) ==> press == action
            &&& button is None && panes.fold.covers(column as int, row as int) ==> press == ActionView::Fold
            &&& button is None && !panes.fold.covers(column as int, row as int) && (panes.divider matches Some((l, r)) && (l
                == column || r == column)) ==> press == ActionView::GrabDivider(column)
            &&& button is None && !panes.fold.covers(column as int, row as int) && panes.divider is None
                && panes.file.covers(column as int, row as int) ==> press == ActionView::Focus(Focus::Viewer)
        }),
{
}

/// A press on a row is about that row: its marker turns a directory over, its name
/// does too where that is wanted, and otherwise the row is selected.
pub proof fn lemma_a_press_on_a_row(
    column: u16,
    snapshot: &Snapshot,
    panes: Targets,
    offset: int,
    click_toggles_dirs: bool,
    dragging: bool,
    k: int,
    row: u16,
)
    requires
        panes.modes.pressed(column as int, row as int, snapshot.show_hidden) is None,
        !panes.fold.covers(column as int, row as int),
        panes.divider is None,
        !panes.file.covers(column as int, row as int),
        panes.rows.covers(column as int, row as int),
        row == panes.rows.y + k,
        0 <= offset,
        0 <= offset + k < snapshot.rows@.len() <= usize::MAX,
    ensures
        ({
            let hit_row = snapshot.rows@[offset + k];
            let press = mouse_meaning(
                MouseEvent { kind: MouseEventKind::Down(MouseButton::Left), column, row },
                snapshot,
                panes,
                offset,
                click_toggles_dirs,
                dragging,
            );
            let across = column - panes.rows.x;
            &&& hit_row.kind != Kind::Dir ==> press == ActionView::Run(CommandView::Select { path: hit_row.path@ })
            &&& hit_row.kind == Kind::Dir && (across == 2 * hit_row.depth || across == 2 * hit_row.depth + 1) ==> press
                == ActionView::Run(CommandView::Toggle { path: hit_row.path@ })
            &&& hit_row.kind == Kind::Dir && click_toggles_dirs ==> press == ActionView::Run(
                CommandView::Toggle { path: hit_row.path@ },
            )
            &&& hit_row.kind == Kind::Dir && !click_toggles_dirs && !(across == 2 * hit_row.depth || across == 2 * hit_row.depth + 1)
                ==> press == ActionView::Run(CommandView::Select { path: hit_row.path@ })
        }),
{
}

/// The pane a cell is in is the one drawn there, the file before the tree.
pub proof fn lemma_which_pane_a_cell_is_in(rows: Rect, file: Rect, column: int, row: int)
    ensures
        pane_of(rows, file, column, row) == Some(Focus::Viewer) <==> file.covers(column, row),
        pane_of(rows, file, column, row) == Some(Focus::Tree) <==> rows.covers(column, row) && !file.covers(column, row),
{
}

} // verus!
