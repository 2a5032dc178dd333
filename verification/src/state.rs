//! The shared session. Every view (the terminal, each browser tab, the
//! filesystem watcher) drives the same `Tree` through [`Command`] and observes
//! it through [`Snapshot`]. That is what keeps the terminal and the browser in
//! step.
//!
//! A command that needs a directory read stops there: [`Session::reading`] says
//! which one, and [`Session::feed`] takes the listing and goes on.

use vstd::prelude::*;

use crate::arena::all_shut;
use crate::laws::{lemma_known_paths_are_below_root, lemma_quiet_reading_keeps_the_rows};
use crate::node::{
    at, distinct_names, is_tree, lemma_below_root, lemma_under_same_len, listing_agrees, live, reconciled, Kind, NodeId,
    Slots,
};
use crate::path::{PathView, TreePath};
use crate::redraw::{lemma_reading_shows, same_rows};
use crate::scan::Entry;
use crate::shown::{lemma_place_of, lemma_rows_distinct, place_of, row_of, rows_of, shown, Row};
use crate::tree::{
    due, kept, left_out, lemma_lookup, listing_of, lookup, only_root_open, opened, shallowest_first,
    stale, wanted, with_open, Refresh, Tree,
};
use crate::visibility::{lemma_visible_iff_open_above, open_above};

verus! {

/// Views address nodes by path rather than by `NodeId`: ids are recycled when a
/// refresh drops a subtree, and a browser tab may well send a command based on
/// a snapshot that is already one revision stale.
#[allow(inconsistent_fields)]
#[derive(Debug, PartialEq)]
pub enum Command {
    Toggle { path: TreePath },
    Expand { path: TreePath },
    Collapse { path: TreePath },
    Select { path: TreePath },
    /// Show a file, or `None` to stop. Showing one selects it too: a click in
    /// the browser goes straight to reading, with no separate step.
    View { path: Option<TreePath> },
    /// Move the first visible line of the file on display. The cursor rejoins
    /// that file.
    ScrollView { line: usize },
    SelectRow { row: usize },
    MoveSelection { delta: i64 },
    ExpandDepth { depth: usize },
    CollapseAll,
    /// Show or hide dotfiles, and re-read everything on screen.
    SetHidden { show: bool },
    Refresh,
    /// Something happened at a path, which on disk is a directory or is not.
    RefreshPath { path: TreePath, is_dir: bool },
    /// Re-read a directory and every loaded one beneath it.
    RefreshSubtree { path: TreePath },
}

/// A [`Command`] as a value.
#[allow(inconsistent_fields)]
pub enum CommandView {
    Toggle { path: PathView },
    Expand { path: PathView },
    Collapse { path: PathView },
    Select { path: PathView },
    View { path: Option<PathView> },
    ScrollView { line: int },
    SelectRow { row: int },
    MoveSelection { delta: int },
    ExpandDepth { depth: int },
    CollapseAll,
    SetHidden { show: bool },
    Refresh,
    RefreshPath { path: PathView, is_dir: bool },
    RefreshSubtree { path: PathView },
}

impl View for Command {
    type V = CommandView;

    open spec fn view(&self) -> CommandView {
        match self {
            Command::Toggle { path } => CommandView::Toggle { path: path@ },
            Command::Expand { path } => CommandView::Expand { path: path@ },
            Command::Collapse { path } => CommandView::Collapse { path: path@ },
            Command::Select { path } => CommandView::Select { path: path@ },
            Command::View { path } => CommandView::View {
                path: match path {
                    Some(p) => Some(p@),
                    None => None,
                },
            },
            Command::ScrollView { line } => CommandView::ScrollView { line: *line as int },
            Command::SelectRow { row } => CommandView::SelectRow { row: *row as int },
            Command::MoveSelection { delta } => CommandView::MoveSelection { delta: *delta as int },
            Command::ExpandDepth { depth } => CommandView::ExpandDepth { depth: *depth as int },
            Command::CollapseAll => CommandView::CollapseAll,
            Command::SetHidden { show } => CommandView::SetHidden { show: *show },
            Command::Refresh => CommandView::Refresh,
            Command::RefreshPath { path, is_dir } => CommandView::RefreshPath { path: path@, is_dir: *is_dir },
            Command::RefreshSubtree { path } => CommandView::RefreshSubtree { path: path@ },
        }
    }
}

impl CommandView {
    /// Whether applying this may read the filesystem.
    pub open spec fn reads(&self) -> bool {
        match self {
            CommandView::Toggle { .. } => true,
            CommandView::Expand { .. } => true,
            CommandView::ExpandDepth { .. } => true,
            CommandView::SetHidden { .. } => true,
            CommandView::Refresh => true,
            CommandView::RefreshPath { .. } => true,
            CommandView::RefreshSubtree { .. } => true,
            _ => false,
        }
    }
}

impl Command {
    /// Whether applying this may read the filesystem.
    pub open spec fn reads(&self) -> bool {
        self@.reads()
    }

    /// Whether applying this reads the filesystem. Callers on an async runtime
    /// use it to decide what has to go to a blocking thread; moving the cursor
    /// does not deserve a thread hop.
    pub fn may_block(&self) -> (r: bool)
        ensures
            r == self.reads(),
    {
        match self {
            Command::Toggle { .. } => true,
            Command::Expand { .. } => true,
            Command::ExpandDepth { .. } => true,
            Command::SetHidden { .. } => true,
            Command::Refresh => true,
            Command::RefreshPath { .. } => true,
            Command::RefreshSubtree { .. } => true,
            _ => false,
        }
    }
}

/// The cheap half of a [`Snapshot`]: where the cursor is, and whether the rows
/// need resending at all.
#[derive(Debug, Clone, Copy, PartialEq, Eq, Structural)]
pub struct Cursor {
    pub revision: u64,
    /// Not sent on the wire.
    pub shape: u64,
    pub selected: Option<usize>,
    pub viewing: Option<usize>,
    pub view_line: usize,
}

#[derive(Debug)]
pub struct Snapshot {
    pub revision: u64,
    /// Bumped only when `rows` or `show_hidden` differs from the previous
    /// snapshot. Not sent on the wire: it exists so a server can tell a cursor
    /// move from a reshape.
    pub shape: u64,
    pub root: TreePath,
    pub rows: Vec<Row>,
    /// Index into `rows`, absent when the selection is currently hidden.
    pub selected: Option<usize>,
    /// Index into `rows` of the file on display, which need not be `selected`.
    pub viewing: Option<usize>,
    /// First visible line of that file. Each view clamps it to its own height.
    pub view_line: usize,
    /// Whether dotfiles are currently listed, so a view can show its toggle.
    pub show_hidden: bool,
}

/// Which row the file on display has, where it has one.
pub open spec fn viewing_place(s: Slots, root: int, viewing: Option<TreePath>) -> Option<usize> {
    match viewing {
        Some(p) => match lookup(s, p@) {
            Some(id) => place_of(s, root, id),
            None => None,
        },
        None => None,
    }
}

/// Whether a path is that of a file with every directory above it open, so that
/// it has a row.
pub open spec fn shows_file(s: Slots, root: int, path: PathView) -> bool {
    match lookup(s, path) {
        Some(id) => at(s, id as int).kind != Kind::Dir && open_above(s, root, id as int),
        None => false,
    }
}

/// A command waiting for a directory to be read.
pub enum Job {
    Idle,
    Toggle(NodeId),
    Expand(NodeId),
    Depth(usize),
    Path { path: TreePath, is_dir: bool },
    Refresh(Refresh),
}

pub struct Session {
    pub tree: Tree,
    pub job: Job,
}

/// The row `delta` rows on from another, stopping at either end.
pub open spec fn stepped(from: int, delta: int, len: int) -> int {
    if from + delta < 0 {
        0
    } else if from + delta > len - 1 {
        len - 1
    } else {
        from + delta
    }
}

impl Session {
    /// The directory a waiting command needs read.
    pub open spec fn awaited(&self) -> Option<NodeId> {
        match self.job {
            Job::Idle => None,
            Job::Toggle(id) => Some(id),
            Job::Expand(id) => Some(id),
            Job::Depth(depth) => due(self.tree.slots(), self.tree.top(), depth as nat),
            Job::Path { path, is_dir } => listing_of(self.tree.slots(), path@, is_dir),
            Job::Refresh(job) => Some(job.queue@[job.next as int]),
        }
    }

    /// The tree holds together, and whatever a command waits for exists.
    pub open spec fn wf(&self) -> bool {
        &&& self.tree.wf()
        &&& match self.job {
            Job::Idle => true,
            Job::Toggle(id) => live(self.tree.slots(), id as int) && at(self.tree.slots(), id as int).kind == Kind::Dir
                && !at(self.tree.slots(), id as int).expanded,
            Job::Expand(id) => live(self.tree.slots(), id as int) && stale(self.tree.slots(), id as int),
            Job::Depth(depth) => due(self.tree.slots(), self.tree.top(), depth as nat) is Some,
            Job::Path { path, is_dir } => listing_of(self.tree.slots(), path@, is_dir) is Some,
            Job::Refresh(job) => job.wf() && job.next < job.queue@.len() && wanted(
                self.tree.slots(),
                None,
                job.queue@[job.next as int] as int,
            ),
        }
    }

    pub fn new(tree: Tree) -> (s: Session)
        requires
            tree.wf(),
        ensures
            s.wf(),
            s.tree == tree,
            s.job is Idle,
    {
        Session { tree, job: Job::Idle }
    }

    pub fn root(&self) -> (p: TreePath)
        requires
            self.wf(),
        ensures
            p@ == at(self.tree.slots(), self.tree.top()).path@,
    {
        self.tree.root_path().clone()
    }

    /// The canonical path of `path`, but only if it is a file the tree is
    /// currently showing.
    ///
    /// This is the authorization check for serving file contents: having a row
    /// already means the path is under the root and passed whatever hidden rules
    /// are in force, so no separate traversal check is needed and none can be
    /// forgotten.
    pub fn visible_file(&self, path: &TreePath) -> (r: Option<TreePath>)
        requires
            self.wf(),
        ensures
            r is Some <==> shows_file(self.tree.slots(), self.tree.top(), path@),
            r matches Some(p) ==> p@ == path@ && p@.under(at(self.tree.slots(), self.tree.top()).path@),
    {
        match self.tree.id_for_path(path) {
            Some(id) => {
                let node = self.tree.node(id);
                proof {
                    lemma_known_paths_are_below_root(self.tree.slots(), self.tree.top(), path@);
                }
                if node.is_dir() || !self.tree.on_screen(id) {
                    None
                } else {
                    Some(node.path.clone())
                }
            }
            None => None,
        }
    }

    /// Everything a view needs when the tree itself has not changed.
    ///
    /// Deliberately does not flatten: after the cursor/snapshot split this is
    /// the common case, and building the rows only to read four numbers was the
    /// remaining cost of moving the cursor on a large tree.
    pub fn cursor(&self) -> (c: Cursor)
        requires
            self.wf(),
        ensures
            c.revision == self.tree.revision,
            c.shape == self.tree.shape,
            c.selected == place_of(self.tree.slots(), self.tree.top(), self.tree.selected),
            c.viewing == viewing_place(self.tree.slots(), self.tree.top(), self.tree.viewing),
            c.view_line == self.tree.view_line,
    {
        let viewing: Option<usize> = match &self.tree.viewing {
            Some(p) => match self.tree.id_for_path(p) {
                Some(id) => self.tree.visible_index(id),
                None => None,
            },
            None => None,
        };
        Cursor {
            revision: self.tree.revision,
            shape: self.tree.shape,
            selected: self.tree.visible_index(self.tree.selected),
            viewing,
            view_line: self.tree.view_line,
        }
    }

    pub fn snapshot(&self) -> (snap: Snapshot)
        requires
            self.wf(),
        ensures
            snap.revision == self.tree.revision,
            snap.shape == self.tree.shape,
            snap.root@ == at(self.tree.slots(), self.tree.top()).path@,
            rows_of(self.tree.slots(), shown(self.tree.slots(), self.tree.top()), snap.rows@),
            snap.selected == place_of(self.tree.slots(), self.tree.top(), self.tree.selected),
            snap.viewing == viewing_place(self.tree.slots(), self.tree.top(), self.tree.viewing),
            snap.view_line == self.tree.view_line,
            snap.show_hidden == self.tree.opts.show_hidden,
    {
        let ghost s = self.tree.slots();
        let ghost root = self.tree.top();
        let rows: Vec<Row> = self.tree.rows();
        let selected: Option<usize> = self.tree.selected_row(rows.as_slice());
        proof {
            lemma_rows_distinct(s, root);
            if let Some(n) = selected {
                assert(row_of(s, shown(s, root)[n as int], rows@[n as int]));
                lemma_place_of(s, root, n as int);
            } else if place_of(s, root, self.tree.selected) is Some {
                let k = choose|k: int| 0 <= k < shown(s, root).len() && #[trigger] shown(s, root)[k].id == self.tree.selected;
                assert(row_of(s, shown(s, root)[k], rows@[k]));
            }
        }
        let viewing: Option<usize> = self.viewing_row(&rows);
        Snapshot {
            revision: self.tree.revision,
            shape: self.tree.shape,
            root: self.tree.root_path().clone(),
            rows,
            selected,
            viewing,
            view_line: self.tree.view_line,
            show_hidden: self.tree.opts.show_hidden,
        }
    }

    /// Index within `rows` of the file on display.
    fn viewing_row(&self, rows: &Vec<Row>) -> (r: Option<usize>)
        requires
            self.wf(),
            rows_of(self.tree.slots(), shown(self.tree.slots(), self.tree.top()), rows@),
        ensures
            r == viewing_place(self.tree.slots(), self.tree.top(), self.tree.viewing),
    {
        let ghost s = self.tree.slots();
        let ghost root = self.tree.top();
        match &self.tree.viewing {
            None => None,
            Some(p) => {
                proof {
                    lemma_rows_distinct(s, root);
                }
                let mut i: usize = 0;
                while i < rows.len()
                    invariant
                        i <= rows@.len(),
                        self.wf(),
                        self.tree.viewing == Some(*p),
                        s == self.tree.slots(),
                        root == self.tree.top(),
                        rows_of(s, shown(s, root), rows@),
                        forall|k: int| #![trigger rows@[k]] 0 <= k < i ==> rows@[k].path@ != p@,
                        forall|k: int| #![trigger shown(s, root)[k]] 0 <= k < shown(s, root).len() ==> live(s, shown(s, root)[k].id as int),
                    decreases rows.len() - i,
                {
                    if rows[i].path.same(p) {
                        proof {
                            assert(row_of(s, shown(s, root)[i as int], rows@[i as int]));
                            lemma_lookup(s, root, shown(s, root)[i as int].id);
                            lemma_place_of(s, root, i as int);
                        }
                        return Some(i);
                    }
                    i += 1;
                }
                proof {
                    if let Some(id) = lookup(s, p@) {
                        if place_of(s, root, id) is Some {
                            let k = choose|k: int| 0 <= k < shown(s, root).len() && #[trigger] shown(s, root)[k].id == id;
                            assert(row_of(s, shown(s, root)[k], rows@[k]));
                            assert(rows@[k].path@ == p@);
                        }
                    }
                }
                None
            }
        }
    }

    /// The directory a waiting command needs read.
    pub fn reading(&self) -> (r: Option<NodeId>)
        requires
            self.wf(),
        ensures
            r == self.awaited(),
            r matches Some(id) ==> live(self.tree.slots(), id as int) && at(self.tree.slots(), id as int).kind == Kind::Dir,
    {
        match &self.job {
            Job::Idle => None,
            Job::Toggle(id) => Some(*id),
            Job::Expand(id) => Some(*id),
            Job::Depth(depth) => self.tree.expand_due(self.tree.root(), *depth),
            Job::Path { path, is_dir } => self.tree.refresh_target(path, *is_dir),
            Job::Refresh(job) => Some(job.queue[job.next]),
        }
    }

    /// What a toggle comes to where nothing has to be read: an open directory
    /// shuts, and either way the cursor goes there.
    pub open spec fn toggled(&self, before: &Session, id: NodeId) -> bool {
        let s = before.tree.slots();
        if at(s, id as int).expanded {
            &&& self.tree.slots() == with_open(s, id as int, false)
            &&& self.tree.selecting(&(Tree { nodes: self.tree.nodes, ..before.tree }).announced(s), id)
        } else {
            self.tree.selecting(&before.tree, id)
        }
    }

    /// What starting a refresh comes to: it waits for the first of `queue` that
    /// exists, or is over at once where there is none.
    pub open spec fn refreshing(&self, before: &Tree, job: Refresh) -> bool {
        match self.job {
            Job::Refresh(now) => {
                &&& self.tree == *before
                &&& now.queue == job.queue
                &&& now.changed == job.changed
                &&& now.seen == job.seen
                &&& now.all == job.all
                &&& job.next <= now.next < job.queue@.len()
                &&& forall|k: int|
                    #![trigger job.queue@[k]]
                    job.next <= k < now.next ==> !wanted(before.slots(), None, job.queue@[k] as int)
                &&& wanted(before.slots(), None, job.queue@[now.next as int] as int)
            },
            Job::Idle => {
                &&& forall|k: int|
                    #![trigger job.queue@[k]]
                    job.next <= k < job.queue@.len() ==> !wanted(before.slots(), None, job.queue@[k] as int)
                &&& self.tree.refresh_ended(before, job)
            },
            _ => false,
        }
    }

    /// What applying a command comes to, up to where it first needs a directory
    /// read.
    pub open spec fn applied(&self, before: &Session, cmd: Command) -> bool {
        let s = before.tree.slots();
        let root = before.tree.top();
        match cmd {
            Command::Toggle { path } => match lookup(s, path@) {
                Some(id) => if at(s, id as int).kind == Kind::Dir && !at(s, id as int).expanded {
                    self.tree == before.tree && self.job == Job::Toggle(id)
                } else {
                    self.toggled(before, id) && self.job is Idle
                },
                None => self.tree == before.tree && self.job is Idle,
            },
            Command::Expand { path } => {
                &&& self.tree == before.tree
                &&& match lookup(s, path@) {
                    Some(id) if stale(s, id as int) => self.job == Job::Expand(id),
                    _ => self.job is Idle,
                }
            },
            Command::Collapse { path } => {
                &&& self.job is Idle
                &&& match lookup(s, path@) {
                    Some(id) if at(s, id as int).expanded => {
                        &&& self.tree.refolded(&before.tree)
                        &&& self.tree.slots() == with_open(s, id as int, false)
                    },
                    _ => self.tree == before.tree,
                }
            },
            Command::Select { path } => {
                &&& self.job is Idle
                &&& match lookup(s, path@) {
                    Some(id) => self.tree.selecting(&before.tree, id),
                    None => self.tree == before.tree,
                }
            },
            Command::View { path } => {
                &&& self.job is Idle
                &&& match path {
                    Some(p) => match lookup(s, p@) {
                        Some(id) => if at(s, id as int).kind != Kind::Dir {
                            self.tree.selecting(&before.tree, id)
                        } else {
                            self.tree.showing(&before.tree, None)
                        },
                        None => self.tree == before.tree,
                    },
                    None => self.tree.showing(&before.tree, None),
                }
            },
            Command::ScrollView { line } => {
                &&& self.job is Idle
                &&& self.tree == before.tree.scrolled(line).rejoined()
            },
            Command::SelectRow { row } => {
                &&& self.job is Idle
                &&& if row < shown(s, root).len() {
                    self.tree.selecting(&before.tree, shown(s, root)[row as int].id)
                } else {
                    self.tree == before.tree
                }
            },
            Command::MoveSelection { delta } => {
                let from = match place_of(s, root, before.tree.selected) {
                    Some(n) => n as int,
                    None => 0,
                };
                &&& self.job is Idle
                &&& self.tree.selecting(
                    &before.tree,
                    shown(s, root)[stepped(from, delta as int, shown(s, root).len() as int)].id,
                )
            },
            Command::ExpandDepth { depth } => {
                &&& self.tree == before.tree
                &&& if due(s, root, depth as nat) is Some {
                    self.job == Job::Depth(depth)
                } else {
                    self.job is Idle
                }
            },
            Command::CollapseAll => {
                &&& self.job is Idle
                &&& if only_root_open(s, root) {
                    self.tree == before.tree
                } else {
                    &&& self.tree.refolded(&before.tree)
                    &&& self.tree.slots() == with_open(all_shut(s), root, true)
                }
            },
            Command::SetHidden { show } => if before.tree.opts.show_hidden == show {
                self.tree == before.tree && self.job is Idle
            } else {
                // Views show the switch itself, so they are told of it whatever
                // the listings say.
                self.refreshed(&before.hiding(show), None, true, true)
            },
            Command::Refresh => self.refreshed(&before.tree, None, true, false),
            Command::RefreshPath { path, is_dir } => {
                &&& self.tree == before.tree
                &&& if listing_of(s, path@, is_dir) is Some {
                    self.job matches Job::Path { path: p, is_dir: d } && p == path && d == is_dir
                } else {
                    self.job is Idle
                }
            },
            Command::RefreshSubtree { path } => self.refreshed(&before.tree, Some(path@), false, false),
        }
    }

    /// The tree with dotfiles shown or hidden from now on.
    pub open spec fn hiding(&self, show: bool) -> Tree {
        Tree {
            opts: (crate::tree::ScanOptions { show_hidden: show, ..self.tree.opts }),
            ..self.tree
        }
    }

    /// A refresh of everything loaded, or of what is at or below a path, has
    /// begun, with something already to tell views of or not.
    pub open spec fn refreshed(&self, before: &Tree, base: Option<PathView>, all: bool, told: bool) -> bool {
        exists|queue: Vec<NodeId>|
            #![trigger shallowest_first(before.slots(), base, queue@)]
            shallowest_first(before.slots(), base, queue@) && self.refreshing(
                before,
                Refresh { queue, next: 0, changed: told, seen: told, all },
            )
    }

    /// Goes on with a refresh: waits for the next directory that exists, or
    /// ends it.
    fn go_on(&mut self, job: Refresh)
        requires
            old(self).tree.wf(),
            job.wf(),
        ensures
            final(self).wf(),
            final(self).tree.top() == old(self).tree.top(),
            final(self).refreshing(&old(self).tree, job),
    {
        let mut job: Refresh = job;
        let r: Option<NodeId> = self.tree.refresh_next(&mut job);
        if r.is_some() {
            self.job = Job::Refresh(job);
        } else {
            self.tree.refresh_done(&job);
            self.job = Job::Idle;
        }
    }

    /// Applies a command, as far as it goes without reading a directory.
    pub fn apply(&mut self, cmd: Command)
        requires
            old(self).wf(),
            old(self).job is Idle,
        ensures
            final(self).wf(),
            final(self).tree.top() == old(self).tree.top(),
            final(self).applied(old(self), cmd),
    {
        let ghost s = self.tree.slots();
        let ghost root = self.tree.top();
        match cmd {
            Command::Toggle { path } => {
                if let Some(id) = self.tree.id_for_path(&path) {
                    let node = self.tree.node(id);
                    if node.is_dir() && !node.expanded {
                        self.job = Job::Toggle(id);
                    } else {
                        self.tree.toggle(id, Vec::new());
                        assert(live(self.tree.slots(), id as int));
                        self.tree.select(id);
                    }
                }
            }
            Command::Expand { path } => {
                if let Some(id) = self.tree.id_for_path(&path) {
                    if self.tree.wants_listing(id) {
                        self.job = Job::Expand(id);
                    }
                }
            }
            Command::Collapse { path } => {
                if let Some(id) = self.tree.id_for_path(&path) {
                    self.tree.collapse(id);
                }
            }
            Command::Select { path } => {
                if let Some(id) = self.tree.id_for_path(&path) {
                    self.tree.select(id);
                }
            }
            Command::View { path } => {
                match &path {
                    Some(p) => {
                        if let Some(id) = self.tree.id_for_path(p) {
                            // A directory can never be the thing on show.
                            if self.tree.node(id).is_dir() {
                                self.tree.view(None);
                            } else {
                                self.tree.select(id);
                            }
                        }
                    }
                    None => {
                        self.tree.view(None);
                    }
                }
            }
            Command::ScrollView { line } => {
                // Working the pane says the file is the subject again.
                self.tree.scroll_view(line);
                self.tree.select_viewed();
            }
            Command::SelectRow { row } => {
                let rows: Vec<Row> = self.tree.rows();
                if row < rows.len() {
                    assert(row_of(s, shown(s, root)[row as int], rows@[row as int]));
                    self.tree.select(rows[row].id);
                }
            }
            Command::MoveSelection { delta } => {
                self.move_selection(delta);
            }
            Command::ExpandDepth { depth } => {
                let r: Option<NodeId> = self.tree.expand_due(self.tree.root(), depth);
                if r.is_some() {
                    self.job = Job::Depth(depth);
                }
            }
            Command::CollapseAll => {
                self.tree.collapse_all();
            }
            Command::SetHidden { show } => {
                if self.tree.opts.show_hidden != show {
                    self.tree.opts.show_hidden = show;
                    let ghost hid = self.tree;
                    assert(hid == old(self).hiding(show));
                    let mut job: Refresh = self.tree.refresh_all();
                    job.changed = true;
                    job.seen = true;
                    let ghost queue = job.queue;
                    self.go_on(job);
                    assert(shallowest_first(hid.slots(), None, queue@));
                }
            }
            Command::Refresh => {
                let job: Refresh = self.tree.refresh_all();
                let ghost queue = job.queue;
                self.go_on(job);
                assert(shallowest_first(s, None, queue@));
            }
            Command::RefreshPath { path, is_dir } => {
                let r: Option<NodeId> = self.tree.refresh_target(&path, is_dir);
                if r.is_some() {
                    self.job = Job::Path { path, is_dir };
                }
            }
            Command::RefreshSubtree { path } => {
                let job: Refresh = self.tree.refresh_subtree(&path);
                let ghost queue = job.queue;
                self.go_on(job);
                assert(shallowest_first(s, Some(path@), queue@));
            }
        }
    }

    /// Moves the cursor some rows on, stopping at either end.
    fn move_selection(&mut self, delta: i64)
        requires
            old(self).wf(),
        ensures
            final(self).wf(),
            final(self).job == old(self).job,
            final(self).tree.top() == old(self).tree.top(),
            ({
                let s = old(self).tree.slots();
                let root = old(self).tree.top();
                let from = match place_of(s, root, old(self).tree.selected) {
                    Some(n) => n as int,
                    None => 0,
                };
                final(self).tree.selecting(
                    &old(self).tree,
                    shown(s, root)[stepped(from, delta as int, shown(s, root).len() as int)].id,
                )
            }),
    {
        let ghost s = self.tree.slots();
        let ghost root = self.tree.top();
        let rows: Vec<Row> = self.tree.rows();
        proof {
            lemma_rows_distinct(s, root);
        }
        let cur: usize = match self.tree.visible_index(self.tree.selected) {
            Some(n) => n,
            None => 0,
        };
        proof {
            if place_of(s, root, self.tree.selected) is Some {
                let k = choose|k: int| 0 <= k < shown(s, root).len() && #[trigger] shown(s, root)[k].id == self.tree.selected;
                lemma_place_of(s, root, k);
            }
        }
        let last: i128 = rows.len() as i128 - 1;
        let there: i128 = cur as i128 + delta as i128;
        let next: i128 = if there < 0 {
            0
        } else if there > last {
            last
        } else {
            there
        };
        assert(row_of(s, shown(s, root)[next as int], rows@[next as int]));
        self.tree.select(rows[next as usize].id);
    }

    /// What handing over a listing comes to, up to where the command needs the
    /// next directory read.
    pub open spec fn fed(&self, before: &Session, listing: Seq<Entry>) -> bool {
        let s = before.tree.slots();
        let root = before.tree.top();
        let max = before.tree.max();
        match before.job {
            Job::Idle => *self == *before,
            Job::Toggle(id) => {
                &&& self.job is Idle
                &&& opened(s, self.tree.slots(), id as int, listing, max)
                &&& self.tree.selecting(&before.tree.holding(self.tree.nodes).announced(s), id)
            },
            Job::Expand(id) => {
                &&& self.job is Idle
                &&& opened(s, self.tree.slots(), id as int, listing, max)
                &&& self.tree.redrawn(&before.tree)
            },
            Job::Depth(depth) => {
                &&& opened(s, self.tree.slots(), due(s, root, depth as nat)->0 as int, listing, max)
                &&& self.tree.redrawn(&before.tree)
                &&& if due(self.tree.slots(), root, depth as nat) is Some {
                    self.job == Job::Depth(depth)
                } else {
                    self.job is Idle
                }
            },
            Job::Path { path, is_dir } => {
                let id = listing_of(s, path@, is_dir)->0 as int;
                &&& self.job is Idle
                &&& reconciled(s, self.tree.slots(), id, kept(listing, max), left_out(listing, max))
                &&& if at(s, id).omitted == left_out(listing, max) && listing_agrees(s, id, kept(listing, max)) {
                    self.tree == (Tree { nodes: self.tree.nodes, ..before.tree })
                } else {
                    self.tree.redrawn(&before.tree)
                }
            },
            Job::Refresh(job) => {
                let id = job.queue@[job.next as int] as int;
                let entries = kept(listing, max);
                let omitted = left_out(listing, max);
                let differs = !(at(s, id).omitted == omitted && listing_agrees(s, id, entries));
                let changed = job.changed || differs;
                let seen = job.seen || !same_rows(s, self.tree.slots(), root);
                let read = if differs {
                    before.tree.holding(self.tree.nodes)
                } else {
                    Tree { nodes: self.tree.nodes, ..before.tree }
                };
                &&& reconciled(s, self.tree.slots(), id, entries, omitted)
                &&& self.refreshing(&read, Refresh { next: (job.next + 1) as usize, changed, seen, ..job })
            },
        }
    }

    /// Takes in the listing a waiting command asked for and goes on with it.
    pub fn feed(&mut self, listing: Vec<Entry>)
        requires
            old(self).wf(),
            distinct_names(listing@),
        ensures
            final(self).wf(),
            final(self).tree.top() == old(self).tree.top(),
            final(self).fed(old(self), listing@),
    {
        let mut job: Job = Job::Idle;
        std::mem::swap(&mut job, &mut self.job);
        match job {
            Job::Idle => {}
            Job::Toggle(id) => {
                self.tree.toggle(id, listing);
                self.tree.select(id);
            }
            Job::Expand(id) => {
                self.tree.expand(id, listing);
            }
            Job::Depth(depth) => {
                let root: NodeId = self.tree.root();
                let next: Option<NodeId> = self.tree.expand_to_depth(root, depth, listing);
                if next.is_some() {
                    self.job = Job::Depth(depth);
                }
            }
            Job::Path { path, is_dir } => {
                self.tree.refresh_path(&path, is_dir, listing);
            }
            Job::Refresh(job) => {
                let mut job: Refresh = job;
                self.tree.refresh_step(&mut job, listing);
                self.go_on(job);
            }
        }
    }
}

// -- laws -----------------------------------------------------------------

/// Whether a command is only about the cursor and what is on display.
pub open spec fn moves_only(cmd: Command) -> bool {
    cmd is Select || cmd is View || cmd is ScrollView || cmd is SelectRow || cmd is MoveSelection
}

/// Moving the cursor, showing a file and scrolling it never touch the rows or
/// the shape, so none of them costs a view the whole tree again.
pub proof fn lemma_moving_keeps_the_shape(before: Session, after: Session, cmd: Command)
    requires
        after.applied(&before, cmd),
        moves_only(cmd),
    ensures
        after.tree.nodes == before.tree.nodes,
        after.tree.shape == before.tree.shape,
        after.job is Idle,
{
}

/// Scrolling the file on display brings the cursor back to it, wherever it was
/// left.
pub proof fn lemma_scrolling_brings_the_cursor_back(before: Session, after: Session, line: usize, p: TreePath, id: NodeId)
    requires
        after.applied(&before, Command::ScrollView { line }),
        before.tree.viewing == Some(p),
        lookup(before.tree.slots(), p@) == Some(id),
    ensures
        after.tree.selected == id,
        after.tree.viewing == Some(p),
        after.tree.view_line == line,
{
}

/// The shape tells a reshape from a mere move: where a command leaves it alone
/// the rows are what they were, and where it moves they are not, unless the
/// command was to show or hide dotfiles, a switch that views show too.
pub proof fn lemma_the_shape_follows_the_rows(before: Session, after: Session, cmd: Command)
    requires
        after.applied(&before, cmd),
        after.tree.top() == before.tree.top(),
    ensures
        after.tree.shape == before.tree.shape ==> same_rows(before.tree.slots(), after.tree.slots(), before.tree.top()),
        after.tree.shape != before.tree.shape ==> !same_rows(
            before.tree.slots(),
            after.tree.slots(),
            before.tree.top(),
        ) || after.tree.opts.show_hidden != before.tree.opts.show_hidden,
{
}

/// The same holds of a listing handed over: the shape moves exactly where the
/// rows come out different. A refresh of many directories collects that until
/// it is through.
pub proof fn lemma_a_listing_moves_the_shape_with_the_rows(before: Session, after: Session, listing: Seq<Entry>)
    requires
        before.wf(),
        distinct_names(listing),
        listing.len() <= usize::MAX,
        after.fed(&before, listing),
        after.tree.top() == before.tree.top(),
    ensures
        match before.job {
            Job::Refresh(job) => {
                let seen = job.seen || !same_rows(before.tree.slots(), after.tree.slots(), before.tree.top());
                match after.job {
                    Job::Refresh(now) => now.seen == seen && after.tree.shape == before.tree.shape,
                    _ => after.tree.shape != before.tree.shape <==> seen,
                }
            },
            _ => after.tree.shape != before.tree.shape <==> !same_rows(
                before.tree.slots(),
                after.tree.slots(),
                before.tree.top(),
            ),
        },
{
    let s = before.tree.slots();
    let max = before.tree.max();
    if before.job is Path || before.job is Refresh {
        let id = before.awaited()->0 as int;
        lemma_awaited_is_loaded(before);
        assert(distinct_names(kept(listing, max)));
        lemma_reading_shows(s, after.tree.slots(), before.tree.top(), id, kept(listing, max), left_out(listing, max));
    }
}

/// Whatever a command changes moves the revision on, so every view hears of it:
/// where the revision stays and nothing is waited for, nothing happened.
pub proof fn lemma_every_change_is_announced(before: Session, after: Session, cmd: Command)
    requires
        after.applied(&before, cmd),
        after.job is Idle,
        after.tree.revision == before.tree.revision,
    ensures
        after.tree == before.tree,
{
}

/// The same holds of a listing handed over: where the revision stays and nothing
/// more is waited for, nothing came of it but sizes.
pub proof fn lemma_every_listing_is_announced(before: Session, after: Session, listing: Seq<Entry>)
    requires
        before.wf(),
        distinct_names(listing),
        listing.len() <= usize::MAX,
        after.fed(&before, listing),
        after.tree.top() == before.tree.top(),
        after.job is Idle,
        after.tree.revision == before.tree.revision,
    ensures
        after.tree == (Tree { nodes: after.tree.nodes, ..before.tree }),
        same_rows(before.tree.slots(), after.tree.slots(), before.tree.top()),
{
    lemma_a_listing_moves_the_shape_with_the_rows(before, after, listing);
}

/// A command that does not read the filesystem never waits for a directory.
pub proof fn lemma_quick_commands_do_not_wait(before: Session, after: Session, cmd: Command)
    requires
        after.applied(&before, cmd),
        !cmd.reads(),
    ensures
        after.job is Idle,
{
}

/// A late command about something that is gone does nothing at all, so nobody
/// is told about it.
pub proof fn lemma_late_commands_are_no_ops(before: Session, after: Session, path: TreePath, cmd: Command)
    requires
        after.applied(&before, cmd),
        lookup(before.tree.slots(), path@) is None,
        cmd == (Command::Toggle { path }) || cmd == (Command::Expand { path }) || cmd == (Command::Collapse { path })
            || cmd == (Command::Select { path }) || cmd == (Command::View { path: Some(path) }),
    ensures
        after.tree == before.tree,
        after.job is Idle,
{
}

/// No view is left pointing at something gone: the row said to be on display is
/// a row, and the row of that very file; a file that is no longer in the tree
/// has none.
pub proof fn lemma_views_point_at_the_file_on_display(s: Slots, root: int, viewing: Option<TreePath>)
    requires
        is_tree(s, root),
    ensures
        match viewing_place(s, root, viewing) {
            Some(n) => {
                &&& n < shown(s, root).len()
                &&& viewing matches Some(p) && at(s, shown(s, root)[n as int].id as int).path@ == p@
            },
            None => viewing matches Some(p) ==> (lookup(s, p@) matches Some(id) ==> !open_above(s, root, id as int)),
        },
{
    lemma_rows_distinct(s, root);
    if let Some(p) = viewing {
        if let Some(id) = lookup(s, p@) {
            assert(live(s, id as int) && at(s, id as int).path@ == p@);
            lemma_visible_iff_open_above(s, root, id);
        }
    }
}

/// What can be read is what can be seen: a file is handed out exactly where it
/// has a row.
pub proof fn lemma_readable_is_visible(s: Slots, root: int, path: PathView)
    requires
        is_tree(s, root),
    ensures
        shows_file(s, root, path) <==> exists|k: int|
            0 <= k < shown(s, root).len() && at(s, (#[trigger] shown(s, root)[k]).id as int).path@ == path && at(
                s,
                shown(s, root)[k].id as int,
            ).kind != Kind::Dir,
{
    lemma_rows_distinct(s, root);
    if let Some(id) = lookup(s, path) {
        assert(live(s, id as int) && at(s, id as int).path@ == path);
        lemma_visible_iff_open_above(s, root, id);
    }
    if exists|k: int|
        0 <= k < shown(s, root).len() && at(s, (#[trigger] shown(s, root)[k]).id as int).path@ == path && at(
            s,
            shown(s, root)[k].id as int,
        ).kind != Kind::Dir {
        let k = choose|k: int|
            0 <= k < shown(s, root).len() && at(s, (#[trigger] shown(s, root)[k]).id as int).path@ == path && at(
                s,
                shown(s, root)[k].id as int,
            ).kind != Kind::Dir;
        lemma_lookup(s, root, shown(s, root)[k].id);
        lemma_place_of(s, root, k);
    }
}

/// What is on display is in the tree, where anything is.
pub open spec fn shows_what_is_there(tree: Tree) -> bool {
    tree.viewing matches Some(p) ==> lookup(tree.slots(), p@) is Some
}

/// A path that still has its node is still found.
proof fn lemma_still_found(s: Slots, t: Slots, p: PathView)
    requires
        lookup(s, p) is Some,
        forall|j: int| #![trigger live(s, j)] live(s, j) ==> live(t, j) && at(t, j).path@ == at(s, j).path@,
    ensures
        lookup(t, p) is Some,
{
    let id = choose|i: NodeId| #![trigger at(s, i as int)] live(s, i as int) && at(s, i as int).path@ == p;
    assert(live(s, id as int));
    assert(live(t, id as int) && at(t, id as int).path@ == p);
}

/// No command leaves a view pointing at something gone.
pub proof fn lemma_commands_show_what_is_there(before: Session, after: Session, cmd: Command)
    requires
        before.wf(),
        after.applied(&before, cmd),
        shows_what_is_there(before.tree),
    ensures
        shows_what_is_there(after.tree),
{
    let s = before.tree.slots();
    let t = after.tree.slots();
    if let Some(p) = before.tree.viewing {
        if forall|j: int| #![trigger live(s, j)] live(s, j) ==> live(t, j) && at(t, j).path@ == at(s, j).path@ {
            lemma_still_found(s, t, p@);
        }
    }
    lemma_rows_distinct(s, before.tree.top());
}

/// Nor does a listing: whatever it drops, a file on display that is gone with it
/// is put away.
pub proof fn lemma_listings_show_what_is_there(before: Session, after: Session, listing: Seq<Entry>)
    requires
        before.wf(),
        distinct_names(listing),
        listing.len() <= usize::MAX,
        after.fed(&before, listing),
        shows_what_is_there(before.tree),
    ensures
        shows_what_is_there(after.tree),
{
    let s = before.tree.slots();
    let t = after.tree.slots();
    let max = before.tree.max();
    if before.job is Path || before.job is Refresh {
        let id = before.awaited()->0 as int;
        lemma_awaited_is_loaded(before);
        let entries = kept(listing, max);
        assert(distinct_names(entries));
        if at(s, id).omitted == left_out(listing, max) && listing_agrees(s, id, entries) {
            lemma_quiet_reading_keeps_the_rows(s, t, before.tree.top(), id, entries, left_out(listing, max));
            if let Some(p) = before.tree.viewing {
                lemma_still_found(s, t, p@);
            }
        }
    } else if let Job::Toggle(id) = before.job {
        let mid = before.tree.holding(after.tree.nodes).announced(s);
        assert(live(mid.slots(), id as int));
        assert(at(mid.slots(), id as int).kind == Kind::Dir);
    }
}

/// What a refresh waits for is a directory that has been read.
proof fn lemma_awaited_is_loaded(session: Session)
    requires
        session.wf(),
        session.job is Path || session.job is Refresh,
    ensures
        session.awaited() is Some,
        wanted(session.tree.slots(), None, session.awaited()->0 as int),
{
    let s = session.tree.slots();
    if let Job::Path { path, is_dir } = session.job {
        let dir = if is_dir && lookup(s, path@) is Some {
            path@
        } else {
            path@.up()
        };
        assert(lookup(s, dir) == session.awaited());
    }
}

/// A refresh that redraws puts away a file that is gone.
pub proof fn lemma_a_redraw_puts_away_what_is_gone(before: Tree, after: Tree)
    requires
        after.redrawn(&before),
    ensures
        after.viewing matches Some(p) ==> lookup(after.slots(), p@) is Some,
{
}

/// Moving the cursor goes by rows: from the row it is on to the one `delta`
/// further, up for a negative `delta` and down for a positive one, and where
/// there is no such row to the end on that side. Nothing about the rows changes.
pub proof fn lemma_a_move_goes_by_rows(before: Session, after: Session, delta: i64, n: usize)
    requires
        before.wf(),
        after.applied(&before, Command::MoveSelection { delta }),
        place_of(before.tree.slots(), before.tree.top(), before.tree.selected) == Some(n),
    ensures
        ({
            let rows = shown(before.tree.slots(), before.tree.top());
            let now = place_of(after.tree.slots(), after.tree.top(), after.tree.selected);
            &&& shown(after.tree.slots(), after.tree.top()) == rows
            &&& 0 <= n < rows.len()
            &&& 0 <= n + delta < rows.len() ==> now == Some((n + delta) as usize) && after.tree.selected
                == rows[n + delta].id
            &&& n + delta < 0 ==> now == Some(0usize) && after.tree.selected == rows[0].id
            &&& n + delta >= rows.len() ==> now == Some((rows.len() - 1) as usize) && after.tree.selected == rows.last().id
        }),
{
    lemma_cursor_row(before, n);
    let s = before.tree.slots();
    let root = before.tree.top();
    let rows = shown(s, root);
    lemma_rows_distinct(s, root);
    let to = if n + delta < 0 {
        0
    } else if n + delta >= rows.len() {
        rows.len() - 1
    } else {
        n + delta
    };
    assert(live(s, rows[to].id as int));
    lemma_place_of(s, root, to);
}

/// The row that a place names is the node's own.
proof fn lemma_cursor_row(session: Session, n: usize)
    requires
        session.wf(),
        place_of(session.tree.slots(), session.tree.top(), session.tree.selected) == Some(n),
    ensures
        n < shown(session.tree.slots(), session.tree.top()).len(),
        shown(session.tree.slots(), session.tree.top())[n as int].id == session.tree.selected,
{
    let s = session.tree.slots();
    let root = session.tree.top();
    let k = choose|k: int| 0 <= k < shown(s, root).len() && #[trigger] shown(s, root)[k].id == session.tree.selected;
    assert(0 <= k < shown(s, root).len() && shown(s, root)[k].id == session.tree.selected);
    lemma_place_of(s, root, k);
    lemma_rows_distinct(s, root);
}

/// A move and the opposite one bring the cursor back, where the first met
/// neither end.
pub proof fn lemma_a_move_and_its_opposite(
    before: Session,
    between: Session,
    after: Session,
    delta: i64,
    back: i64,
    n: usize,
)
    requires
        before.wf(),
        between.wf(),
        back == -delta,
        between.applied(&before, Command::MoveSelection { delta }),
        after.applied(&between, Command::MoveSelection { delta: back }),
        place_of(before.tree.slots(), before.tree.top(), before.tree.selected) == Some(n),
        0 <= n + delta < shown(before.tree.slots(), before.tree.top()).len(),
    ensures
        after.tree.selected == before.tree.selected,
        place_of(after.tree.slots(), after.tree.top(), after.tree.selected) == Some(n),
{
    lemma_a_move_goes_by_rows(before, between, delta, n);
    lemma_rows_distinct(before.tree.slots(), before.tree.top());
    assert(before.tree.slots().len() <= usize::MAX);
    lemma_a_move_goes_by_rows(between, after, back, (n + delta) as usize);
    lemma_cursor_row(before, n);
}

/// A cursor that has no row moves as from the first one.
pub proof fn lemma_a_move_from_nowhere(before: Session, after: Session, delta: i64)
    requires
        before.wf(),
        after.applied(&before, Command::MoveSelection { delta }),
        place_of(before.tree.slots(), before.tree.top(), before.tree.selected) is None,
    ensures
        ({
            let rows = shown(before.tree.slots(), before.tree.top());
            &&& delta <= 0 ==> after.tree.selected == rows[0].id
            &&& 0 < delta < rows.len() ==> after.tree.selected == rows[delta as int].id
            &&& delta >= rows.len() ==> after.tree.selected == rows.last().id
        }),
{
    let s = before.tree.slots();
    let root = before.tree.top();
    let rows = shown(s, root);
    lemma_rows_distinct(s, root);
    let to = if delta <= 0 {
        0
    } else if delta < rows.len() {
        delta as int
    } else {
        rows.len() - 1
    };
    assert(live(s, rows[to].id as int));
}

/// What a path names is there, under that path.
proof fn lemma_found(s: Slots, p: PathView)
    ensures
        lookup(s, p) matches Some(id) ==> live(s, id as int) && at(s, id as int).path@ == p,
{
}

/// Asking for a row puts the cursor on it, and asking for one that is not there
/// does nothing.
pub proof fn lemma_a_row_is_selected_by_number(before: Session, after: Session, row: usize)
    requires
        before.wf(),
        after.applied(&before, Command::SelectRow { row }),
    ensures
        row < shown(before.tree.slots(), before.tree.top()).len() ==> place_of(
            after.tree.slots(),
            after.tree.top(),
            after.tree.selected,
        ) == Some(row),
        row >= shown(before.tree.slots(), before.tree.top()).len() ==> after.tree == before.tree,
{
    let s = before.tree.slots();
    let root = before.tree.top();
    lemma_rows_distinct(s, root);
    if row < shown(s, root).len() {
        assert(live(s, shown(s, root)[row as int].id as int));
        lemma_place_of(s, root, row as int);
    }
}

/// Selecting what a path names puts the cursor there. A file comes on display by
/// it, from its first line unless it was on display already; a directory leaves
/// on display whatever was.
pub proof fn lemma_selecting_shows_a_file(before: Session, after: Session, path: TreePath, id: NodeId)
    requires
        before.wf(),
        after.applied(&before, Command::Select { path }),
        lookup(before.tree.slots(), path@) == Some(id),
    ensures
        after.tree.selected == id,
        at(before.tree.slots(), id as int).kind == Kind::Dir ==> after.tree.viewing == before.tree.viewing
            && after.tree.view_line == before.tree.view_line,
        at(before.tree.slots(), id as int).kind != Kind::Dir ==> (after.tree.viewing matches Some(p) && p@ == path@),
        at(before.tree.slots(), id as int).kind != Kind::Dir && !(before.tree.viewing matches Some(p) && p@ == path@)
            ==> after.tree.view_line == 0,
        at(before.tree.slots(), id as int).kind != Kind::Dir && (before.tree.viewing matches Some(p) && p@ == path@)
            ==> after.tree.view_line == before.tree.view_line,
{
    lemma_found(before.tree.slots(), path@);
    assert(live(before.tree.slots(), id as int) && at(before.tree.slots(), id as int).path@ == path@);
}

/// Showing a file is selecting it, and asking for nothing or for a directory
/// takes what is on display away and leaves the cursor.
pub proof fn lemma_showing_is_selecting(before: Session, after: Session, path: Option<TreePath>)
    requires
        before.wf(),
        after.applied(&before, Command::View { path }),
    ensures
        path is None ==> after.tree.viewing is None && after.tree.selected == before.tree.selected,
        path matches Some(p) ==> (lookup(before.tree.slots(), p@) matches Some(id) ==> if at(
            before.tree.slots(),
            id as int,
        ).kind == Kind::Dir {
            after.tree.viewing is None && after.tree.selected == before.tree.selected
        } else {
            after.tree.selected == id && (after.tree.viewing matches Some(q) && q@ == p@)
        }),
        path matches Some(p) ==> (lookup(before.tree.slots(), p@) is None ==> after.tree == before.tree),
{
    if let Some(p) = path {
        lemma_found(before.tree.slots(), p@);
    }
}

/// Shutting a directory shuts that one and no other, and moves neither the cursor
/// nor what is on display.
pub proof fn lemma_collapsing_shuts_one(before: Session, after: Session, path: TreePath, id: NodeId)
    requires
        before.wf(),
        after.applied(&before, Command::Collapse { path }),
        lookup(before.tree.slots(), path@) == Some(id),
    ensures
        !at(after.tree.slots(), id as int).expanded,
        forall|j: int|
            #![trigger at(after.tree.slots(), j)]
            live(before.tree.slots(), j) && j != id ==> at(after.tree.slots(), j) == at(before.tree.slots(), j),
        after.tree.slots().len() == before.tree.slots().len(),
        after.tree.selected == before.tree.selected,
        after.tree.viewing == before.tree.viewing,
        after.job is Idle,
{
    lemma_found(before.tree.slots(), path@);
}

/// Turning a directory over shuts an open one and asks for a shut one to be read,
/// and where nothing has to be read the cursor goes there.
pub proof fn lemma_toggling_turns_over(before: Session, after: Session, path: TreePath, id: NodeId)
    requires
        before.wf(),
        after.applied(&before, Command::Toggle { path }),
        lookup(before.tree.slots(), path@) == Some(id),
    ensures
        at(before.tree.slots(), id as int).expanded ==> !at(after.tree.slots(), id as int).expanded && after.tree.selected
            == id && after.awaited() is None,
        at(before.tree.slots(), id as int).kind == Kind::Dir && !at(before.tree.slots(), id as int).expanded
            ==> after.awaited() == Some(id),
        at(before.tree.slots(), id as int).kind != Kind::Dir ==> after.tree.selected == id && after.tree.slots()
            == before.tree.slots() && after.awaited() is None,
{
    lemma_found(before.tree.slots(), path@);
    let s = before.tree.slots();
    assert(live(s, id as int));
    if at(s, id as int).expanded {
        let t = with_open(s, id as int, false);
        assert(live(t, id as int));
    }
}

/// Opening a directory asks for it to be read unless it stands open already, and
/// never moves the cursor by itself.
pub proof fn lemma_opening_reads_what_is_shut(before: Session, after: Session, path: TreePath, id: NodeId)
    requires
        before.wf(),
        after.applied(&before, Command::Expand { path }),
        lookup(before.tree.slots(), path@) == Some(id),
    ensures
        after.tree == before.tree,
        at(before.tree.slots(), id as int).kind == Kind::Dir && !at(before.tree.slots(), id as int).expanded
            ==> after.awaited() == Some(id),
        at(before.tree.slots(), id as int).kind != Kind::Dir ==> after.awaited() is None,
        at(before.tree.slots(), id as int).expanded && at(before.tree.slots(), id as int).loaded ==> after.awaited() is None,
{
}

/// Shutting everything leaves the root open and nothing else, whatever was open,
/// and every listing as it was.
pub proof fn lemma_collapsing_all_leaves_the_root(before: Session, after: Session)
    requires
        before.wf(),
        after.applied(&before, Command::CollapseAll),
        after.tree.top() == before.tree.top(),
    ensures
        at(after.tree.slots(), after.tree.top()).expanded,
        after.tree.slots().len() == before.tree.slots().len(),
        forall|j: int|
            #![trigger at(after.tree.slots(), j)]
            live(before.tree.slots(), j) && j != before.tree.top() ==> {
                &&& !at(after.tree.slots(), j).expanded
                &&& at(after.tree.slots(), j).children == at(before.tree.slots(), j).children
                &&& at(after.tree.slots(), j).path == at(before.tree.slots(), j).path
            },
        after.tree.selected == before.tree.selected,
        after.tree.viewing == before.tree.viewing,
{
}

/// Showing or hiding dotfiles leaves the switch as asked, and asking for what
/// already holds does nothing.
pub proof fn lemma_the_switch_is_as_asked(before: Session, after: Session, show: bool)
    requires
        after.applied(&before, Command::SetHidden { show }),
    ensures
        after.tree.opts.show_hidden == show,
        before.tree.opts.show_hidden == show ==> after == before || after.job is Idle && after.tree == before.tree,
        before.tree.opts.show_hidden != show && after.job is Idle ==> after.tree.revision != before.tree.revision,
        before.tree.opts.show_hidden != show ==> (after.job matches Job::Refresh(job) ==> job.changed && job.seen && job.all),
{
}

/// A directory that a command waited for is open once its listing is in, for a
/// command that opens directories, and holds what the listing says: its first
/// entries, up to the limit, in order, with the rest counted.
pub proof fn lemma_a_listing_opens_what_was_waited_for(before: Session, after: Session, listing: Seq<Entry>, id: NodeId)
    requires
        before.wf(),
        after.fed(&before, listing),
        before.job == Job::Toggle(id) || before.job == Job::Expand(id),
        listing.len() <= usize::MAX,
    ensures
        at(after.tree.slots(), id as int).expanded,
        at(after.tree.slots(), id as int).loaded,
        after.awaited() is None,
        before.job == Job::Toggle(id) ==> after.tree.selected == id,
        before.job == Job::Expand(id) ==> after.tree.selected == before.tree.selected,
        ({
            let t = after.tree.slots();
            let max = before.tree.max();
            let ids = at(t, id as int).children@;
            &&& ids.len() == (if listing.len() <= max {
                listing.len() as int
            } else {
                max
            })
            &&& at(t, id as int).omitted == listing.len() - ids.len()
            &&& forall|k: int|
                #![trigger ids[k]]
                0 <= k < ids.len() ==> {
                    let child = at(t, ids[k] as int);
                    &&& child.path@.names.last() == listing[k].name@
                    &&& child.kind == listing[k].kind
                    &&& child.symlink == listing[k].symlink
                    &&& child.ignored == listing[k].ignored
                }
        }),
{
}

/// Whatever a command waited for a directory for, the directory holds afterwards
/// what its listing says, in that order, as far as there is room.
pub proof fn lemma_what_was_waited_for_is_taken_in(before: Session, after: Session, listing: Seq<Entry>, id: NodeId, k: int)
    requires
        before.wf(),
        after.fed(&before, listing),
        before.awaited() == Some(id),
        listing.len() <= usize::MAX,
        0 <= k < listing.len(),
        k < before.tree.opts.max_entries,
    ensures
        ({
            let s = before.tree.slots();
            let t = after.tree.slots();
            let ids = at(t, id as int).children@;
            let child = at(t, ids[k] as int);
            &&& at(t, id as int).loaded
            &&& listing.len() <= before.tree.opts.max_entries ==> ids.len() == listing.len()
            &&& listing.len() > before.tree.opts.max_entries ==> ids.len() == before.tree.opts.max_entries
            &&& at(t, id as int).omitted == listing.len() - ids.len()
            &&& child.path@ == at(s, id as int).path@.child(listing[k].name@)
            &&& child.kind == listing[k].kind
            &&& child.symlink == listing[k].symlink
            &&& child.ignored == listing[k].ignored
            &&& child.size == listing[k].size
        }),
{
    let s = before.tree.slots();
    let t = after.tree.slots();
    let max = before.tree.max();
    let i = id as int;
    let u = match before.job {
        Job::Path { .. } | Job::Refresh(_) => t,
        _ => with_open(t, i, at(s, i).expanded),
    };
    assert(live(s, i)) by {
        match before.job {
            Job::Depth(depth) => {
                crate::tree::lemma_due(s, before.tree.top(), before.tree.top(), depth as nat);
            },
            Job::Path { path, is_dir } => {
                lemma_found(s, path@);
                lemma_found(s, path@.up());
            },
            _ => {},
        }
    }
    assert(kept(listing, max)[k] == listing[k]);
    crate::laws::lemma_a_listing_is_taken_over(
        s,
        u,
        before.tree.top(),
        i,
        kept(listing, max),
        left_out(listing, max),
        k,
    );
    let c = crate::node::kids(u, i)[k] as int;
    assert(at(u, c).path@.names.len() == at(s, i).path@.names.len() + 1);
    assert(c != i);
    assert(at(t, i).children == at(u, i).children);
    assert(at(t, c) == at(u, c));
}

/// Taking a listing in never takes a file off display that is still in the tree,
/// nor scrolls it, nor puts another one there.
pub proof fn lemma_a_listing_leaves_the_display(before: Session, after: Session, listing: Seq<Entry>, p: TreePath)
    requires
        before.wf(),
        after.fed(&before, listing),
        before.tree.viewing == Some(p),
        lookup(after.tree.slots(), p@) is Some,
    ensures
        after.tree.viewing == Some(p),
        after.tree.view_line == before.tree.view_line,
{
    if let Job::Toggle(id) = before.job {
        let mid = before.tree.holding(after.tree.nodes).announced(before.tree.slots());
        assert(live(mid.slots(), id as int));
        assert(at(mid.slots(), id as int).kind == Kind::Dir);
    }
}

/// Nor does it move the cursor, but to the directory that was turned over, and to
/// the root where a refresh of everything finds the cursor's own node gone.
pub proof fn lemma_where_a_listing_leaves_the_cursor(before: Session, after: Session, listing: Seq<Entry>)
    requires
        before.wf(),
        after.fed(&before, listing),
    ensures
        match before.job {
            Job::Toggle(id) => after.tree.selected == id,
            Job::Refresh(job) => {
                &&& job.all && after.job is Idle && !live(after.tree.slots(), before.tree.selected as int)
                    ==> after.tree.selected == after.tree.top()
                &&& !(job.all && after.job is Idle && !live(after.tree.slots(), before.tree.selected as int))
                    ==> after.tree.selected == before.tree.selected
            },
            _ => after.tree.selected == before.tree.selected,
        },
{
    if let Job::Toggle(id) = before.job {
        let mid = before.tree.holding(after.tree.nodes).announced(before.tree.slots());
        assert(live(mid.slots(), id as int));
        assert(at(mid.slots(), id as int).kind == Kind::Dir);
    }
}

/// With nothing on display there is nothing to scroll, and a file is scrolled to
/// the line that was asked for.
pub proof fn lemma_what_scrolling_does(before: Session, after: Session, line: usize)
    requires
        after.applied(&before, Command::ScrollView { line }),
    ensures
        before.tree.viewing is None ==> after.tree == before.tree,
        before.tree.viewing is Some ==> after.tree.view_line == line && after.tree.viewing == before.tree.viewing,
        after.tree.slots() == before.tree.slots(),
{
}

/// Opening to a depth waits for the first directory that is due, and stops once
/// none is; each listing opens the one it is of.
pub proof fn lemma_a_depth_is_reached_step_by_step(before: Session, after: Session, listing: Seq<Entry>, depth: usize, id: NodeId)
    requires
        before.wf(),
        after.fed(&before, listing),
        after.tree.top() == before.tree.top(),
        before.job == Job::Depth(depth),
        due(before.tree.slots(), before.tree.top(), depth as nat) == Some(id),
    ensures
        at(after.tree.slots(), id as int).expanded,
        after.awaited() == due(after.tree.slots(), after.tree.top(), depth as nat),
        after.awaited() is None <==> after.job is Idle,
{
}

/// Which commands may have to read a directory, and which never do.
pub proof fn lemma_which_commands_may_read(cmd: Command)
    ensures
        cmd is Select || cmd is View || cmd is ScrollView || cmd is SelectRow || cmd is MoveSelection || cmd is Collapse || cmd is CollapseAll
            <==> !cmd.reads(),
{
}

/// A refresh of everything begins with the root, and showing or hiding dotfiles
/// is such a refresh.
pub proof fn lemma_a_refresh_begins_with_the_root(before: Session, after: Session, cmd: Command)
    requires
        before.wf(),
        after.applied(&before, cmd),
        cmd == Command::Refresh || (cmd matches Command::SetHidden { show } && show != before.tree.opts.show_hidden),
    ensures
        after.awaited() == Some(before.tree.top() as usize),
{
    let base = match cmd {
        Command::SetHidden { show } => before.hiding(show),
        _ => before.tree,
    };
    let told = cmd is SetHidden;
    let s = before.tree.slots();
    let root = before.tree.top();
    assert(base.slots() == s);
    let queue = choose|queue: Vec<NodeId>|
        #![trigger shallowest_first(base.slots(), None, queue@)]
        shallowest_first(base.slots(), None, queue@) && after.refreshing(
            &base,
            Refresh { queue, next: 0, changed: told, seen: told, all: true },
        );
    let ids = queue@;
    let top = root as usize;
    assert(wanted(s, None, top as int));
    assert(ids.contains(top));
    let k = choose|k: int| 0 <= k < ids.len() && ids[k] == top;
    assert(wanted(s, None, ids[0] as int));
    assert(ids[0] == top) by {
        if k > 0 {
            assert(crate::tree::before_in_order(s, ids[0], ids[k]));
            lemma_below_root(s, root, ids[0] as int);
            let p = at(s, ids[0] as int).path@;
            let q = at(s, root).path@;
            if p.names.len() == q.names.len() {
                lemma_under_same_len(p, q);
            }
        }
    }
    let job = Refresh { queue, next: 0, changed: told, seen: told, all: true };
    assert(after.refreshing(&base, job));
    assert(job.queue@[0] == ids[0] && wanted(base.slots(), None, job.queue@[0] as int));
    if let Job::Refresh(now) = after.job {
        assert(now.next == 0);
        assert(now.queue@[now.next as int] == ids[0]);
    } else {
        assert(after.job is Idle);
    }
}

/// A refresh below a path that names a directory which was read begins with that
/// directory, reads nothing outside it, and is not one of everything.
pub proof fn lemma_a_refresh_below_a_path_stays_below_it(before: Session, after: Session, path: TreePath, id: NodeId)
    requires
        before.wf(),
        after.applied(&before, Command::RefreshSubtree { path }),
        live(before.tree.slots(), id as int),
        at(before.tree.slots(), id as int).path@ == path@,
        at(before.tree.slots(), id as int).kind == Kind::Dir,
        at(before.tree.slots(), id as int).loaded,
    ensures
        after.tree == before.tree,
        after.awaited() == Some(id),
        after.job matches Job::Refresh(job) && {
            &&& !job.all && !job.changed && !job.seen
            &&& forall|k: int|
                #![trigger job.queue@[k]]
                0 <= k < job.queue@.len() ==> at(before.tree.slots(), job.queue@[k] as int).path@.under(path@)
            &&& forall|j: NodeId|
                #![trigger job.queue@.contains(j)]
                live(before.tree.slots(), j as int) && at(before.tree.slots(), j as int).kind == Kind::Dir && at(
                    before.tree.slots(),
                    j as int,
                ).loaded && at(before.tree.slots(), j as int).path@.under(path@) ==> job.queue@.contains(j)
        },
{
    let base = before.tree;
    let s = base.slots();
    let queue = choose|queue: Vec<NodeId>|
        #![trigger shallowest_first(base.slots(), Some(path@), queue@)]
        shallowest_first(base.slots(), Some(path@), queue@) && after.refreshing(
            &base,
            Refresh { queue, next: 0, changed: false, seen: false, all: false },
        );
    let ids = queue@;
    assert(at(s, id as int).path@.under(path@));
    assert(wanted(s, Some(path@), id as int));
    assert(ids.contains(id));
    let k = choose|k: int| 0 <= k < ids.len() && ids[k] == id;
    assert(wanted(s, Some(path@), ids[0] as int));
    assert(ids[0] == id) by {
        if k > 0 {
            assert(crate::tree::before_in_order(s, ids[0], ids[k]));
            let p = at(s, ids[0] as int).path@;
            if p.names.len() == path@.names.len() {
                lemma_under_same_len(p, path@);
            }
        }
    }
    let job = Refresh { queue, next: 0, changed: false, seen: false, all: false };
    assert(after.refreshing(&base, job));
    assert(job.queue@[0] == ids[0] && wanted(base.slots(), None, job.queue@[0] as int));
    if let Job::Refresh(now) = after.job {
        assert(now.next == 0);
        assert(now.queue@[now.next as int] == ids[0]);
        assert forall|m: int| #![trigger now.queue@[m]] 0 <= m < now.queue@.len() implies at(
            s,
            now.queue@[m] as int,
        ).path@.under(path@) by {
            assert(wanted(s, Some(path@), ids[m] as int));
        }
    } else {
        assert(after.job is Idle);
    }
}

/// Opening so many levels waits for what is due first, and for nothing where
/// nothing is. No levels are none.
pub proof fn lemma_levels_are_opened_as_asked(before: Session, after: Session, depth: usize)
    requires
        before.wf(),
        after.applied(&before, Command::ExpandDepth { depth }),
    ensures
        after.tree == before.tree,
        after.awaited() == due(before.tree.slots(), before.tree.top(), depth as nat),
        after.job is Idle <==> after.awaited() is None,
        depth == 0 ==> after.job is Idle,
        depth > 0 && !at(before.tree.slots(), before.tree.top()).expanded ==> after.awaited() == Some(
            before.tree.top() as usize,
        ),
{
}

/// Of a change to a directory that was read, that directory is read again; of a
/// change to anything else, the one it is in.
pub proof fn lemma_a_change_is_looked_into(before: Session, after: Session, path: TreePath, is_dir: bool, id: NodeId)
    requires
        before.wf(),
        after.applied(&before, Command::RefreshPath { path, is_dir }),
        live(before.tree.slots(), id as int),
        at(before.tree.slots(), id as int).kind == Kind::Dir,
        at(before.tree.slots(), id as int).loaded,
    ensures
        after.tree == before.tree,
        is_dir && path@ == at(before.tree.slots(), id as int).path@ ==> after.awaited() == Some(id),
        !is_dir && path@.names.len() > 0 && path@.up() == at(before.tree.slots(), id as int).path@ ==> after.awaited()
            == Some(id),
        after.awaited() is None <==> after.job is Idle,
{
    crate::tree::lemma_whose_listing_an_event_is_about(
        before.tree.slots(),
        before.tree.top(),
        path@,
        is_dir,
        id,
    );
}

/// A refresh under way reads on in its own order and passes over nothing that is
/// still there to be read.
pub proof fn lemma_a_refresh_passes_over_nothing(before: Session, after: Session, listing: Seq<Entry>, job: Refresh, now: Refresh)
    requires
        before.wf(),
        after.fed(&before, listing),
        before.job == Job::Refresh(job),
        after.job == Job::Refresh(now),
    ensures
        now.queue == job.queue,
        job.next < now.next < job.queue@.len(),
        now.all == job.all,
        after.awaited() == Some(job.queue@[now.next as int]),
        forall|k: int|
            #![trigger job.queue@[k]]
            job.next < k < now.next ==> !(live(after.tree.slots(), job.queue@[k] as int) && at(
                after.tree.slots(),
                job.queue@[k] as int,
            ).kind == Kind::Dir && at(after.tree.slots(), job.queue@[k] as int).loaded),
{
    assert(job.next + 1 <= job.queue@.len());
    assert(job.queue.len() == job.queue@.len());
}

/// A file on display that is gone is put away, scrolled back to its start.
pub proof fn lemma_what_is_gone_is_put_away(before: Tree, after: Tree, p: TreePath)
    requires
        after.redrawn(&before),
        before.viewing == Some(p),
    ensures
        lookup(after.slots(), p@) is None ==> after.viewing is None && after.view_line == 0,
        lookup(after.slots(), p@) is Some ==> after.viewing == Some(p) && after.view_line == before.view_line,
{
}

/// Where the cursor is said to be and what the rows say are one thing, whichever
/// way a view asks.
pub proof fn lemma_cursor_and_snapshot_agree(session: &Session, c: Cursor, snap: Snapshot)
    requires
        session.wf(),
        call_ensures(Session::cursor, (session,), c),
        call_ensures(Session::snapshot, (session,), snap),
    ensures
        c.revision == snap.revision && c.shape == snap.shape && c.selected == snap.selected && c.viewing == snap.viewing
            && c.view_line == snap.view_line,
        snap.selected matches Some(n) ==> n < snap.rows@.len() && snap.rows@[n as int].id == session.tree.selected,
        snap.viewing matches Some(n) ==> n < snap.rows@.len() && (session.tree.viewing matches Some(p) && snap.rows@[n as int].path@
            == p@),
        snap.rows@.len() > 0 && snap.rows@[0].path@ == snap.root@,
        snap.show_hidden == session.tree.opts.show_hidden,
{
    let s = session.tree.slots();
    let root = session.tree.top();
    lemma_rows_distinct(s, root);
    assert(shown(s, root)[0].id == root as usize);
    assert(row_of(s, shown(s, root)[0], snap.rows@[0]));
    if let Some(n) = snap.selected {
        lemma_cursor_row(*session, n);
        assert(row_of(s, shown(s, root)[n as int], snap.rows@[n as int]));
    }
    lemma_views_point_at_the_file_on_display(s, root, session.tree.viewing);
    if let Some(n) = snap.viewing {
        assert(row_of(s, shown(s, root)[n as int], snap.rows@[n as int]));
    }
}

} // verus!
