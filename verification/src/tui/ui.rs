//! One terminal's own state: what it shows of the session, and how.
//!
//! The event loop draws what [`Ui::frame`] says, hands over what happened, and
//! does what comes back. Nothing here waits, reads or writes.

use vstd::prelude::*;

use super::area::{least, less, most, nowhere, Rect};
use super::footer::{footer_spans, front_of, status_line, widths_of, zones_of, ModeZones, Modes};
use super::input::{
    handle_key, handle_mouse, key_meaning, mouse_meaning, pane_at, pane_of, Action, ActionView, KeyEvent, Motion,
    MouseButton, MouseEvent, MouseEventKind, Targets,
};
use super::render::{
    draw, inner, is_file_picture, is_tree_picture, look_of, panes, panes_of, Panes, Picture, Scene, Theme,
    TREE_MIN_WIDTH, VIEWER_MIN_WIDTH,
};
use super::spans::in_order;
use super::style::{Line, LineView};
use super::viewer::{content_area, content_cells, fold_cells, fold_zone, notice, pane_name, Body, Viewer};
use super::{Focus, TuiOptions};
use crate::highlight::Run;
use crate::path::{PathView, TreePath};
use crate::preview::Preview;
use crate::state::{Command, CommandView, Snapshot};

verus! {

/// The offset nearest `offset` from which `viewport` rows fit `total`, moved no
/// further than it takes to bring `selected` into view.
pub open spec fn offset_showing(offset: int, selected: Option<usize>, viewport: int, total: int) -> int {
    let tall = most(viewport, 1);
    let at = least(offset, less(total, tall));
    match selected {
        Some(sel) if sel < at => sel as int,
        Some(sel) if sel >= at + tall => sel + 1 - tall,
        _ => at,
    }
}

pub fn clamp_offset(offset: usize, selected: Option<usize>, viewport: usize, total: usize) -> (n: usize)
    ensures
        n == offset_showing(offset as int, selected, viewport as int, total as int),
{
    let tall: usize = if viewport < 1 { 1 } else { viewport };
    let last: usize = total.saturating_sub(tall);
    let at: usize = if offset < last { offset } else { last };
    match selected {
        Some(sel) => {
            if sel < at {
                sel
            } else if sel - at >= tall {
                sel - (tall - 1)
            } else {
                at
            }
        }
        None => at,
    }
}

/// The cursor is on screen wherever it moved to, and an offset with no cursor to
/// reveal moves only where it is past the end.
pub proof fn lemma_cursor_is_brought_into_view(offset: int, selected: Option<usize>, viewport: int, total: int)
    requires
        0 <= offset,
        0 < viewport,
        0 <= total,
    ensures
        ({
            let at = offset_showing(offset, selected, viewport, total);
            &&& 0 <= at
            &&& selected matches Some(sel) ==> (sel < total ==> at <= sel < at + viewport && at <= less(
                total,
                viewport,
            ))
            &&& selected is None ==> at == least(offset, less(total, viewport))
        }),
{
}

/// How things are arranged on this screen: everything about it but the file.
#[derive(Debug, Clone, Copy, PartialEq, Eq)]
pub struct Arrangement {
    /// First visible row of the tree.
    pub offset: usize,
    pub focus: Focus,
    /// Where the divider was dragged to, and, while a drag is under way, how
    /// far the grab was from the edge, so the panes do not jump on the press.
    pub split: Option<u16>,
    pub grab: Option<u16>,
    /// Everything a reader turns off to get the terminal's own selection onto
    /// clean text: the tree, the numbers beside it, the marks in it, and
    /// treex's grip on the mouse.
    pub folded: bool,
    pub numbers: bool,
    pub marks: bool,
    pub mouse: bool,
    /// What `c` put aside, and therefore whether `c` is currently engaged.
    pub restore: Option<(bool, bool, bool, bool)>,
}

/// What the screen was when something happened on it.
#[derive(Debug)]
pub struct Frame {
    pub picture: Picture,
    pub targets: Targets,
    pub tree_width: u16,
    /// How many lines of the file there is room for.
    pub page: usize,
    pub width: u16,
}

/// What the event loop is to do.
#[derive(Debug, PartialEq)]
pub struct Effect {
    pub quit: bool,
    /// A command for the session.
    pub command: Option<Command>,
    /// Take the mouse, or give it back.
    pub capture: Option<bool>,
}

/// An [`Effect`] as a value.
pub struct EffectView {
    pub quit: bool,
    pub command: Option<CommandView>,
    pub capture: Option<bool>,
}

impl View for Effect {
    type V = EffectView;

    open spec fn view(&self) -> EffectView {
        EffectView {
            quit: self.quit,
            command: match self.command {
                Some(cmd) => Some(cmd@),
                None => None,
            },
            capture: self.capture,
        }
    }
}

#[derive(Debug)]
pub struct Ui {
    pub at: Arrangement,
    /// What the offset was last pulled to. The cursor is brought into view when
    /// it *moves*, not on every frame; otherwise the wheel scrolls the tree and
    /// the next draw yanks it straight back to the cursor.
    pub revealed: Option<usize>,
    pub viewer: Option<Viewer>,
}

/// The command that says the file is what is being worked on, which puts the
/// cursor back on it when it had been left on a directory.
pub open spec fn use_file(viewer: Option<Viewer>) -> Option<CommandView> {
    match viewer {
        Some(showing) => Some(CommandView::View { path: Some(showing.path@) }),
        None => None,
    }
}

/// Where the divider goes when it is dragged to a column. Clamped as it is
/// stored rather than only as it is drawn: a width kept past the limit would
/// have to be dragged back through the slack before anything moved.
pub open spec fn dragged_to(column: u16, grab: Option<u16>, width: u16) -> int {
    let wanted = super::area::capped(
        column + (match grab {
            Some(n) => n as int,
            None => 0,
        }),
    );
    super::render::between(wanted, TREE_MIN_WIDTH as int, less(width as int, VIEWER_MIN_WIDTH as int))
}

/// How an action leaves things arranged, on a screen `width` columns wide with
/// `rows` rows in the tree and a tree `tree_width` columns wide.
pub open spec fn arranged(a: Arrangement, action: ActionView, rows: int, tree_width: u16, width: u16) -> Arrangement {
    match action {
        ActionView::Scroll(by) => Arrangement {
            offset: least(most(a.offset + by, 0), less(rows, 1)) as usize,
            ..a
        },
        ActionView::Focus(pane) => Arrangement { focus: pane, ..a },
        ActionView::GrabDivider(column) => Arrangement {
            grab: Some(less(tree_width as int, column as int) as u16),
            ..a
        },
        ActionView::Split(column) => Arrangement { split: Some(dragged_to(column, a.grab, width) as u16), ..a },
        ActionView::Release => Arrangement { grab: None, ..a },
        // Nothing to move the keyboard to while the tree is away.
        ActionView::Fold => Arrangement {
            folded: !a.folded,
            focus: if a.folded {
                a.focus
            } else {
                Focus::Viewer
            },
            ..a
        },
        ActionView::LineNumbers => Arrangement { numbers: !a.numbers, ..a },
        ActionView::Marks => Arrangement { marks: !a.marks, ..a },
        ActionView::Mouse => Arrangement { mouse: !a.mouse, ..a },
        // One key for the whole arrangement, since wanting to copy something is
        // one thought rather than four.
        ActionView::Copy => match a.restore {
            Some((folded, numbers, marks, mouse)) => Arrangement { folded, numbers, marks, mouse, restore: None, ..a },
            None => Arrangement {
                restore: Some((a.folded, a.numbers, a.marks, a.mouse)),
                folded: true,
                numbers: false,
                marks: false,
                mouse: false,
                focus: Focus::Viewer,
                ..a
            },
        },
        // Enter and `→` are a deliberate "open this", so the keyboard goes with
        // it. The cursor merely landing on a file shows it without taking the
        // keyboard away.
        ActionView::Run(CommandView::View { path: Some(_) }) => Arrangement { focus: Focus::Viewer, ..a },
        _ => a,
    }
}

/// What an action asks of the event loop.
pub open spec fn effect_of(a: Arrangement, viewer: Option<Viewer>, action: ActionView, page: int) -> EffectView {
    let none = EffectView { quit: false, command: None, capture: None };
    match action {
        ActionView::Quit => EffectView { quit: true, ..none },
        ActionView::Run(cmd) => EffectView { command: Some(cmd), ..none },
        ActionView::ScrollFile(motion) => match viewer {
            Some(showing) => {
                let line = motion.lands(showing.offset as int, showing.length() as int, page);
                EffectView {
                    command: if line != showing.offset {
                        Some(CommandView::ScrollView { line })
                    } else {
                        None
                    },
                    ..none
                }
            },
            None => none,
        },
        ActionView::Focus(Focus::Viewer) => EffectView { command: use_file(viewer), ..none },
        ActionView::Fold if !a.folded => EffectView { command: use_file(viewer), ..none },
        ActionView::Mouse => EffectView { capture: Some(!a.mouse), ..none },
        ActionView::Copy => match a.restore {
            Some((_, _, _, mouse)) => EffectView { capture: Some(mouse), ..none },
            None => EffectView { command: use_file(viewer), capture: Some(false), ..none },
        },
        _ => none,
    }
}

/// The file the session has open, where it has a row.
pub open spec fn open_file(snapshot: &Snapshot) -> Option<PathView> {
    match snapshot.viewing {
        Some(i) if i < snapshot.rows@.len() => Some(snapshot.rows@[i as int].path@),
        _ => None,
    }
}

/// Where a press means something, on a screen with these panes.
pub open spec fn targets_of(p: Panes, zones: ModeZones) -> Targets {
    Targets {
        rows: match p.tree {
            Some(a) => a.inside(),
            None => nowhere(),
        },
        file: match p.viewer {
            Some(a) => content_cells(a, p.tree is Some),
            None => nowhere(),
        },
        modes: zones,
        divider: p.border_columns(),
        fold: match p.viewer {
            Some(a) => fold_cells(a, p.tree is Some),
            None => nowhere(),
        },
    }
}

/// Where a press means something, on a screen with these panes.
fn targets(p: Panes, zones: ModeZones) -> (t: Targets)
    ensures
        t == targets_of(p, zones),
{
    Targets {
        rows: match p.tree {
            Some(a) => inner(a),
            None => Rect::default(),
        },
        file: match p.viewer {
            Some(a) => content_area(a, p.tree.is_some()),
            None => Rect::default(),
        },
        modes: zones,
        divider: p.divider(),
        fold: match p.viewer {
            Some(a) => fold_zone(a, p.tree.is_some()),
            None => Rect::default(),
        },
    }
}

impl Ui {
    pub open spec fn wf(&self) -> bool {
        self.viewer matches Some(viewer) ==> viewer.wf()
    }

    /// What the footer reports.
    pub open spec fn modes(&self, snapshot: &Snapshot) -> Modes {
        Modes {
            folded: self.at.folded,
            numbers: self.at.numbers,
            marks: self.at.marks,
            dotfiles: snapshot.show_hidden,
            mouse: self.at.mouse,
            copying: self.at.restore is Some,
        }
    }

    pub fn new(opts: &TuiOptions) -> (ui: Ui)
        ensures
            ui.wf(),
            ui.at == (Arrangement {
                offset: 0,
                focus: Focus::Tree,
                split: None,
                grab: None,
                folded: false,
                numbers: true,
                marks: true,
                mouse: opts.mouse,
                restore: None,
            }),
            ui.revealed is None,
            ui.viewer is None,
    {
        Ui {
            at: Arrangement {
                offset: 0,
                focus: Focus::Tree,
                split: None,
                grab: None,
                folded: false,
                numbers: true,
                // On by default: a stray carriage return or a tab where spaces
                // were meant is exactly the kind of thing a file viewer should
                // not hide.
                marks: true,
                mouse: opts.mouse,
                restore: None,
            },
            revealed: None,
            viewer: None,
        }
    }

    /// Keeps up with which file is open, and says which one to start reading.
    ///
    /// `viewing` lives in the session, so the browser opening a file opens it
    /// here too. Only a change of path starts a read or moves the focus, so that
    /// a deliberate Tab back to the tree survives a redraw.
    pub fn follow(&mut self, snapshot: &Snapshot, opts: &TuiOptions) -> (read: Option<TreePath>)
        requires
            old(self).wf(),
        ensures
            final(self).wf(),
            final(self).revealed == old(self).revealed,
            match open_file(snapshot) {
                Some(path) => if opts.preview is Some && !(old(self).viewer matches Some(showing) && showing.path@
                    == path) {
                    &&& read matches Some(p) && p@ == path
                    &&& final(self).at == old(self).at
                    &&& final(self).viewer matches Some(v) && {
                        &&& v.path@ == path
                        &&& v.name@ == pane_name(path)
                        &&& v.body is Loading
                        &&& v.offset == 0
                    }
                } else {
                    read is None && *final(self) == *old(self)
                },
                None => {
                    &&& read is None
                    &&& final(self).viewer is None
                    &&& final(self).at == (if old(self).viewer is Some {
                        Arrangement { focus: Focus::Tree, ..old(self).at }
                    } else {
                        old(self).at
                    })
                },
            },
    {
        let open: Option<TreePath> = match snapshot.viewing {
            Some(i) if i < snapshot.rows.len() => Some(snapshot.rows[i].path.clone()),
            _ => None,
        };
        match open {
            Some(path) => {
                let showing: bool = match &self.viewer {
                    Some(v) => v.path.same(&path),
                    None => false,
                };
                if showing || opts.preview.is_none() {
                    return None;
                }
                self.viewer = Some(Viewer::loading(path.clone()));
                Some(path)
            }
            None => {
                if self.viewer.is_some() {
                    self.viewer = None;
                    self.at.focus = Focus::Tree;
                }
                None
            }
        }
    }

    /// Settles on what is shown, on a screen of this size, and draws it.
    pub fn frame(&mut self, snapshot: &Snapshot, opts: &TuiOptions, theme: &Theme, width: u16, height: u16) -> (f: Frame)
        requires
            old(self).wf(),
        ensures
            final(self).wf(),
            ({
                let area = Rect { x: 0, y: 0, width, height };
                let p = panes_of(area, old(self).viewer is Some, old(self).at.split, old(self).at.folded);
                let note = match opts.status_note {
                    Some(note) => Some(note@),
                    None => None,
                };
                let has_file = old(self).viewer is Some;
                let modes = old(self).modes(snapshot);
                let said = footer_spans(note, theme, old(self).at.focus, modes, has_file);
                let zones = zones_of(widths_of(said), front_of(note, theme).len() as int, has_file, p.footer);
                let targets = targets_of(p, zones);
                let moved = snapshot.selected != old(self).revealed;
                &&& f.width == width
                &&& f.targets == targets
                &&& f.page == targets.file.height
                &&& f.tree_width == (match p.tree {
                    Some(a) => a.width as int,
                    None => 0,
                })
                &&& final(self).revealed == snapshot.selected
                &&& final(self).at == (Arrangement {
                    offset: offset_showing(
                        old(self).at.offset as int,
                        if moved {
                            snapshot.selected
                        } else {
                            None
                        },
                        targets.rows.height as int,
                        snapshot.rows@.len() as int,
                    ) as usize,
                    ..old(self).at
                })
                &&& match old(self).viewer {
                    Some(before) => final(self).viewer matches Some(showing) && {
                        &&& showing.path == before.path
                        &&& showing.name == before.name
                        &&& showing.body == before.body
                        &&& showing.offset == least(
                            snapshot.view_line as int,
                            less(before.length() as int, most(f.page as int, 1)),
                        )
                    },
                    None => final(self).viewer is None,
                }
                &&& f.picture.footer == p.footer
                &&& f.picture.status@ == (LineView { spans: said, style: None })
                &&& is_picture_of(*final(self), snapshot, theme, p, f.picture)
            }),
    {
        let area: Rect = Rect::new(0, 0, width, height);
        let has_file: bool = self.viewer.is_some();
        let p: Panes = panes(area, has_file, self.at.split, self.at.folded);
        let note: Option<&str> = match &opts.status_note {
            Some(note) => Some(note.as_str()),
            None => None,
        };
        let (status, zones) = status_line(note, theme, has_file, self.at.focus, self.modes_now(snapshot), p.footer);
        let targets: Targets = targets(p, zones);
        let page: usize = targets.file.height as usize;
        self.settle(snapshot, targets.rows.height as usize, page);
        let picture: Picture = self.picture(snapshot, theme, area, status);
        let tree_width: u16 = match p.tree {
            Some(a) => a.width,
            None => 0,
        };
        Frame { picture, targets, tree_width, page, width }
    }

    fn modes_now(&self, snapshot: &Snapshot) -> (m: Modes)
        ensures
            m == self.modes(snapshot),
    {
        Modes {
            folded: self.at.folded,
            numbers: self.at.numbers,
            marks: self.at.marks,
            dotfiles: snapshot.show_hidden,
            mouse: self.at.mouse,
            copying: self.at.restore.is_some(),
        }
    }

    /// Brings the cursor into view where it moved, and the file to its line.
    fn settle(&mut self, snapshot: &Snapshot, tall: usize, page: usize)
        requires
            old(self).wf(),
        ensures
            final(self).wf(),
            final(self).revealed == snapshot.selected,
            final(self).at == (Arrangement {
                offset: offset_showing(
                    old(self).at.offset as int,
                    if snapshot.selected != old(self).revealed {
                        snapshot.selected
                    } else {
                        None
                    },
                    tall as int,
                    snapshot.rows@.len() as int,
                ) as usize,
                ..old(self).at
            }),
            match old(self).viewer {
                Some(before) => final(self).viewer matches Some(showing) && {
                    &&& showing.path == before.path
                    &&& showing.name == before.name
                    &&& showing.body == before.body
                    &&& showing.offset == least(
                        snapshot.view_line as int,
                        less(before.length() as int, most(page as int, 1)),
                    )
                },
                None => final(self).viewer is None,
            },
    {
        let moved: bool = match (snapshot.selected, self.revealed) {
            (Some(a), Some(b)) => a != b,
            (None, None) => false,
            _ => true,
        };
        self.revealed = snapshot.selected;
        self.at.offset = clamp_offset(
            self.at.offset,
            if moved { snapshot.selected } else { None },
            tall,
            snapshot.rows.len(),
        );
        if let Some(mut showing) = self.viewer.take() {
            showing.scroll_to(snapshot.view_line, page);
            self.viewer = Some(showing);
        }
    }

    /// Draws it all.
    fn picture(&self, snapshot: &Snapshot, theme: &Theme, area: Rect, status: Line) -> (picture: Picture)
        requires
            self.wf(),
        ensures
            ({
                let p = panes_of(area, self.viewer is Some, self.at.split, self.at.folded);
                &&& picture.footer == p.footer
                &&& picture.status == status
                &&& is_picture_of(*self, snapshot, theme, p, picture)
            }),
    {
        let scene: Scene = Scene {
            snapshot,
            offset: self.at.offset,
            theme,
            status,
            viewer: self.viewer.as_ref(),
            split: self.at.split,
            folded: self.at.folded,
            numbers: self.at.numbers,
            marks: self.at.marks,
            reading: self.at.focus == Focus::Viewer,
        };
        draw(area, scene)
    }

    /// What a key means here.
    pub fn key(&self, key: KeyEvent, snapshot: &Snapshot, frame: &Frame) -> (a: Action)
        ensures
            a@ == key_meaning(key, snapshot, self.at.focus, self.viewer is Some, frame.targets.rows.height),
    {
        handle_key(key, snapshot, self.at.focus, self.viewer.is_some(), frame.targets.rows.height)
    }

    /// What the pointer means here. Which pane it is over decides where the
    /// keyboard goes next, the way clicking a pane does everywhere else.
    pub fn pointer(&mut self, mouse: MouseEvent, snapshot: &Snapshot, frame: &Frame, opts: &TuiOptions) -> (a: Action)
        ensures
            final(self).viewer == old(self).viewer,
            final(self).revealed == old(self).revealed,
            final(self).at == (match pane_of(
                frame.targets.rows,
                frame.targets.file,
                mouse.column as int,
                mouse.row as int,
            ) {
                Some(pane) if mouse.kind is Down && mouse.kind != MouseEventKind::Down(MouseButton::Right) => Arrangement {
                    focus: pane,
                    ..old(self).at
                },
                _ => old(self).at,
            }),
            a@ == mouse_meaning(
                mouse,
                snapshot,
                frame.targets,
                old(self).at.offset as int,
                opts.click_toggles_dirs,
                old(self).at.grab is Some,
            ),
    {
        let pressed: bool = match mouse.kind {
            MouseEventKind::Down(MouseButton::Left) | MouseEventKind::Down(MouseButton::Middle) => true,
            _ => false,
        };
        if pressed {
            if let Some(pane) = pane_at(frame.targets.rows, frame.targets.file, mouse.column, mouse.row) {
                self.at.focus = pane;
            }
        }
        handle_mouse(mouse, snapshot, frame.targets, self.at.offset, opts, self.at.grab.is_some())
    }

    fn use_file(&self) -> (c: Option<Command>)
        ensures
            match c {
                Some(cmd) => use_file(self.viewer) == Some(cmd@),
                None => use_file(self.viewer) is None,
            },
    {
        match &self.viewer {
            Some(showing) => Some(Command::View { path: Some(showing.path.clone()) }),
            None => None,
        }
    }

    /// Carries out an action, as far as this screen goes, and says what is left
    /// to do. A drag needs a screen that both panes fit on.
    pub fn act(&mut self, action: Action, snapshot: &Snapshot, frame: &Frame) -> (e: Effect)
        requires
            old(self).wf(),
            action is Split ==> frame.width >= TREE_MIN_WIDTH + VIEWER_MIN_WIDTH,
        ensures
            final(self).wf(),
            final(self).viewer == old(self).viewer,
            final(self).revealed == old(self).revealed,
            final(self).at == arranged(
                old(self).at,
                action@,
                snapshot.rows@.len() as int,
                frame.tree_width,
                frame.width,
            ),
            e@ == effect_of(old(self).at, old(self).viewer, action@, frame.page as int),
    {
        let mut effect: Effect = Effect { quit: false, command: None, capture: None };
        match action {
            Action::Quit => {
                effect.quit = true;
            }
            Action::Nothing => {}
            Action::Scroll(by) => {
                let last: i128 = snapshot.rows.len().saturating_sub(1) as i128;
                let wanted: i128 = self.at.offset as i128 + by as i128;
                self.at.offset = if wanted < 0 {
                    0
                } else if wanted > last {
                    last as usize
                } else {
                    wanted as usize
                };
            }
            Action::ScrollFile(motion) => {
                if let Some(showing) = &self.viewer {
                    if let Some(line) = motion.to_share(showing.offset, showing.line_count(), frame.page) {
                        effect.command = Some(Command::ScrollView { line });
                    }
                }
            }
            Action::Focus(pane) => {
                self.at.focus = pane;
                if pane == Focus::Viewer {
                    effect.command = self.use_file();
                }
            }
            Action::GrabDivider(column) => {
                self.at.grab = Some(frame.tree_width.saturating_sub(column));
            }
            Action::Split(column) => {
                let wanted: u16 = column.saturating_add(match self.at.grab {
                    Some(n) => n,
                    None => 0,
                });
                let widest: u16 = frame.width - VIEWER_MIN_WIDTH;
                self.at.split = Some(if wanted < TREE_MIN_WIDTH {
                    TREE_MIN_WIDTH
                } else if wanted > widest {
                    widest
                } else {
                    wanted
                });
            }
            Action::Release => {
                self.at.grab = None;
            }
            Action::Fold => {
                self.at.folded = !self.at.folded;
                if self.at.folded {
                    self.at.focus = Focus::Viewer;
                    effect.command = self.use_file();
                }
            }
            Action::LineNumbers => {
                self.at.numbers = !self.at.numbers;
            }
            Action::Marks => {
                self.at.marks = !self.at.marks;
            }
            Action::Mouse => {
                self.at.mouse = !self.at.mouse;
                effect.capture = Some(self.at.mouse);
            }
            Action::Copy => {
                match self.at.restore {
                    Some((folded, numbers, marks, mouse)) => {
                        self.at.restore = None;
                        self.at.folded = folded;
                        self.at.numbers = numbers;
                        self.at.marks = marks;
                        self.at.mouse = mouse;
                    }
                    None => {
                        self.at.restore = Some((self.at.folded, self.at.numbers, self.at.marks, self.at.mouse));
                        self.at.folded = true;
                        self.at.numbers = false;
                        // A `·` for every space would be copied as a `·`, which
                        // is the whole thing this is getting out of the way of.
                        self.at.marks = false;
                        self.at.mouse = false;
                        self.at.focus = Focus::Viewer;
                        effect.command = self.use_file();
                    }
                }
                effect.capture = Some(self.at.mouse);
            }
            Action::Run(cmd) => {
                let deliberate: bool = match &cmd {
                    Command::View { path: Some(_) } => true,
                    _ => false,
                };
                if deliberate {
                    self.at.focus = Focus::Viewer;
                }
                effect.command = Some(cmd);
            }
        }
        effect
    }

    /// A file came back. A slow read of something the cursor has since left is
    /// dropped on the floor rather than drawn.
    pub fn arrived(&mut self, path: &TreePath, preview: Preview, runs: Vec<Run>)
        requires
            old(self).wf(),
            in_order(runs@),
        ensures
            final(self).wf(),
            final(self).at == old(self).at,
            final(self).revealed == old(self).revealed,
            match old(self).viewer {
                Some(before) => if before.path@ == path@ {
                    final(self).viewer matches Some(showing) && {
                        &&& showing.path == before.path
                        &&& showing.name == before.name
                        &&& showing.offset == 0
                        &&& match preview {
                            Preview::Text { stamp, content, lossy } => showing.body matches Body::Text(text) && {
                                &&& text.content == content
                                &&& text.runs == runs
                                &&& text.size == stamp.size
                                &&& text.lossy == lossy
                            },
                            _ => showing.body matches Body::Notice(reason) && reason@ == notice(preview),
                        }
                    }
                } else {
                    final(self).viewer == old(self).viewer
                },
                None => final(self).viewer is None,
            },
    {
        if let Some(mut showing) = self.viewer.take() {
            if showing.path.same(path) {
                showing.fill(preview, runs);
            }
            self.viewer = Some(showing);
        }
    }
}

/// Whether a picture shows what a screen with these panes is to show.
pub open spec fn is_picture_of(ui: Ui, snapshot: &Snapshot, theme: &Theme, p: Panes, picture: Picture) -> bool {
    let scene = Scene {
        snapshot,
        offset: ui.at.offset,
        theme,
        status: picture.status,
        viewer: match ui.viewer {
            Some(viewer) => Some(&viewer),
            None => None,
        },
        split: ui.at.split,
        folded: ui.at.folded,
        numbers: ui.at.numbers,
        marks: ui.at.marks,
        reading: ui.at.focus == Focus::Viewer,
    };
    &&& match p.tree {
        Some(a) => picture.tree matches Some(t) && is_tree_picture(&scene, a, t),
        None => picture.tree is None,
    }
    &&& match (p.viewer, ui.viewer) {
        (Some(a), Some(viewer)) => picture.file matches Some((at, f)) && at == a && is_file_picture(
            &viewer,
            theme,
            &look_of(&scene, p.tree is Some),
            a,
            f,
        ),
        _ => picture.file is None,
    }
}

// -- laws -----------------------------------------------------------------

/// `c` puts everything back: pressed again, whatever was done in between, the
/// tree, the numbers, the marks and the mouse are as they were before the first
/// press. In between, all four are out of the way.
pub proof fn lemma_copy_puts_everything_back(before: Arrangement, later: Arrangement, rows: int, tree_width: u16, width: u16)
    requires
        before.restore is None,
        later.restore == arranged(before, ActionView::Copy, rows, tree_width, width).restore,
    ensures
        ({
            let during = arranged(before, ActionView::Copy, rows, tree_width, width);
            let after = arranged(later, ActionView::Copy, rows, tree_width, width);
            &&& during.folded && !during.numbers && !during.marks && !during.mouse
            &&& during.focus == Focus::Viewer
            &&& after.folded == before.folded
            &&& after.numbers == before.numbers
            &&& after.marks == before.marks
            &&& after.mouse == before.mouse
            &&& after.restore is None
        }),
{
}

/// Only `c` sets aside or puts back, so nothing done while it is engaged loses
/// what it is to restore.
pub proof fn lemma_only_copy_touches_what_is_set_aside(a: Arrangement, action: ActionView, rows: int, tree_width: u16, width: u16)
    requires
        action != ActionView::Copy,
    ensures
        arranged(a, action, rows, tree_width, width).restore == a.restore,
{
}

/// Wherever the divider is dragged, the width that is kept leaves both panes
/// their minimum, so it is drawn as it is kept; and taking hold of it and
/// letting go moves nothing.
pub proof fn lemma_a_drag_is_kept_as_it_is_drawn(a: Arrangement, column: u16, rows: int, tree_width: u16, width: u16)
    requires
        width >= TREE_MIN_WIDTH + VIEWER_MIN_WIDTH,
    ensures
        ({
            let dragged = arranged(a, ActionView::Split(column), rows, tree_width, width);
            &&& dragged.split matches Some(kept) && TREE_MIN_WIDTH <= kept <= width - VIEWER_MIN_WIDTH
                && super::render::tree_width(width as int, dragged.split) == kept
            &&& TREE_MIN_WIDTH <= tree_width <= width - VIEWER_MIN_WIDTH && (column == tree_width || column + 1
                == tree_width) ==> arranged(
                arranged(a, ActionView::GrabDivider(column), rows, tree_width, width),
                ActionView::Split(column),
                rows,
                tree_width,
                width,
            ).split == Some(tree_width)
        }),
{
}

/// A pane that cannot make a move says nothing about it, so it never pulls
/// another view back: at its end a move further down comes to no command, and
/// neither does one further up at its top.
pub proof fn lemma_a_scroll_that_moves_nothing_is_not_shared(a: Arrangement, viewer: Viewer, motion: Motion, page: int)
    requires
        ({
            let aim = motion.aimed(viewer.offset as int, viewer.length() as int, page);
            ||| viewer.offset == super::input::last_top(viewer.length() as int, page) && aim >= viewer.offset
            ||| viewer.offset == 0 && aim <= 0
        }),
    ensures
        effect_of(a, Some(viewer), ActionView::ScrollFile(motion), page).command is None,
{
}

/// Each switch turns its own thing over and nothing else, and pressed twice
/// leaves everything as it was.
pub proof fn lemma_switches_turn_one_thing_over(a: Arrangement, rows: int, tree_width: u16, width: u16)
    ensures
        arranged(a, ActionView::LineNumbers, rows, tree_width, width) == (Arrangement { numbers: !a.numbers, ..a }),
        arranged(a, ActionView::Marks, rows, tree_width, width) == (Arrangement { marks: !a.marks, ..a }),
        arranged(a, ActionView::Mouse, rows, tree_width, width) == (Arrangement { mouse: !a.mouse, ..a }),
        ({
            let once = arranged(a, ActionView::Fold, rows, tree_width, width);
            let twice = arranged(once, ActionView::Fold, rows, tree_width, width);
            &&& once.folded != a.folded
            &&& once.folded ==> once.focus == Focus::Viewer
            &&& !once.folded ==> once.focus == a.focus
            &&& once == (Arrangement { folded: once.folded, focus: once.focus, ..a })
            &&& twice.folded == a.folded
        }),
        arranged(
            arranged(a, ActionView::Mouse, rows, tree_width, width),
            ActionView::Mouse,
            rows,
            tree_width,
            width,
        ) == a,
{
}

/// What is drawn and what the terminal is told agree: where the mouse is taken or
/// given back, the arrangement says the same, and nothing else touches it.
pub proof fn lemma_the_mouse_is_as_it_is_said(
    a: Arrangement,
    viewer: Option<Viewer>,
    action: ActionView,
    rows: int,
    tree_width: u16,
    width: u16,
    page: int,
)
    ensures
        match effect_of(a, viewer, action, page).capture {
            Some(taken) => arranged(a, action, rows, tree_width, width).mouse == taken,
            None => arranged(a, action, rows, tree_width, width).mouse == a.mouse,
        },
        effect_of(a, viewer, action, page).quit <==> action == ActionView::Quit,
{
}

/// Scrolling the tree goes as far as it is asked to, between the first row and
/// the last, and moves nothing else.
pub proof fn lemma_scrolling_the_tree(a: Arrangement, by: i32, rows: int, tree_width: u16, width: u16)
    requires
        1 <= rows <= usize::MAX,
    ensures
        ({
            let after = arranged(a, ActionView::Scroll(by), rows, tree_width, width);
            &&& after == (Arrangement { offset: after.offset, ..a })
            &&& 0 <= a.offset + by < rows ==> after.offset == a.offset + by
            &&& a.offset + by < 0 ==> after.offset == 0
            &&& a.offset + by >= rows ==> after.offset == rows - 1
        }),
{
}

/// The keyboard goes where it is sent: to the pane that was asked for, and to the
/// file where a file is opened on purpose. Letting go of the divider lets go.
pub proof fn lemma_where_the_keyboard_goes(a: Arrangement, pane: Focus, path: PathView, rows: int, tree_width: u16, width: u16)
    ensures
        arranged(a, ActionView::Focus(pane), rows, tree_width, width) == (Arrangement { focus: pane, ..a }),
        arranged(a, ActionView::Run(CommandView::View { path: Some(path) }), rows, tree_width, width) == (Arrangement {
            focus: Focus::Viewer,
            ..a
        }),
        arranged(a, ActionView::Run(CommandView::Select { path }), rows, tree_width, width) == a,
        arranged(a, ActionView::Release, rows, tree_width, width) == (Arrangement { grab: None, ..a }),
        arranged(a, ActionView::Nothing, rows, tree_width, width) == a,
        arranged(a, ActionView::Quit, rows, tree_width, width) == a,
{
}

/// What goes to the session: a command as it stands, a scroll as the line it
/// leads to, and work on the file as a wish to show it.
pub proof fn lemma_what_the_session_is_told(a: Arrangement, viewer: Viewer, cmd: CommandView, motion: Motion, page: int)
    ensures
        effect_of(a, Some(viewer), ActionView::Run(cmd), page).command == Some(cmd),
        effect_of(a, Some(viewer), ActionView::Focus(Focus::Viewer), page).command == Some(
            CommandView::View { path: Some(viewer.path@) },
        ),
        effect_of(a, Some(viewer), ActionView::Focus(Focus::Tree), page).command is None,
        !a.folded ==> effect_of(a, Some(viewer), ActionView::Fold, page).command == Some(
            CommandView::View { path: Some(viewer.path@) },
        ),
        a.folded ==> effect_of(a, Some(viewer), ActionView::Fold, page).command is None,
        ({
            let line = motion.lands(viewer.offset as int, viewer.length() as int, page);
            line != viewer.offset ==> effect_of(a, Some(viewer), ActionView::ScrollFile(motion), page).command == Some(
                CommandView::ScrollView { line },
            )
        }),
        effect_of(a, None, ActionView::ScrollFile(motion), page).command is None,
        effect_of(a, Some(viewer), ActionView::Nothing, page).command is None,
{
}

/// The tree moves no further than it takes: not at all for a cursor that is in
/// view, and for one that is not just until it is the first row or the last.
pub proof fn lemma_the_tree_moves_no_further_than_it_takes(offset: int, sel: usize, viewport: int, total: int)
    requires
        0 <= offset,
        1 <= viewport,
        offset + viewport <= total,
        sel < total,
    ensures
        offset <= sel < offset + viewport ==> offset_showing(offset, Some(sel), viewport, total) == offset,
        sel < offset ==> offset_showing(offset, Some(sel), viewport, total) == sel,
        sel >= offset + viewport ==> offset_showing(offset, Some(sel), viewport, total) + viewport == sel + 1,
{
}

/// A press means something where something is drawn: rows inside the tree's
/// border, the file inside its own, and the divider where the two meet.
pub proof fn lemma_a_press_lands_where_things_are(p: Panes, zones: ModeZones, column: int, row: int)
    ensures
        p.tree matches Some(a) ==> targets_of(p, zones).rows == a.inside(),
        p.tree is None ==> !targets_of(p, zones).rows.covers(column, row),
        p.viewer matches Some(a) ==> targets_of(p, zones).file == content_cells(a, p.tree is Some) && targets_of(p, zones).fold
            == fold_cells(a, p.tree is Some),
        p.viewer is None ==> !targets_of(p, zones).file.covers(column, row) && !targets_of(p, zones).fold.covers(column, row),
        targets_of(p, zones).divider == p.border_columns(),
        targets_of(p, zones).modes == zones,
{
}

/// The footer reports what is so.
pub proof fn lemma_the_footer_reports_what_is_so(ui: Ui, snapshot: &Snapshot)
    ensures
        ui.modes(snapshot).folded == ui.at.folded,
        ui.modes(snapshot).numbers == ui.at.numbers,
        ui.modes(snapshot).marks == ui.at.marks,
        ui.modes(snapshot).mouse == ui.at.mouse,
        ui.modes(snapshot).dotfiles == snapshot.show_hidden,
        ui.modes(snapshot).copying <==> ui.at.restore is Some,
{
}

} // verus!
