//! The tree model: an arena of nodes plus the expansion state layered on top.
//!
//! Nothing here reads a directory. Whoever drives a [`Tree`] asks it what wants
//! reading and hands the listing over.

use vstd::prelude::*;

use crate::arena::{all_shut, Arena};
use crate::error::Error;
use crate::node::{
    at, distinct_names, is_tree, kids, lemma_above_survives, lemma_fate, lemma_parent, listing_agrees, live,
    reconciled, Slots,
};
use crate::path::{PathView, TreePath};
use crate::redraw::{
    lemma_flipping_shows, lemma_opening_shows, lemma_reading_shows, lemma_shutting_all_shows, same_rows,
    shuts_in_sight,
};
use crate::scan::Entry;
use crate::shown::{deeper, lemma_deeper_bound, lemma_deeper_step, level, place_of, rows_of, shown};
use crate::visibility::open_above;

pub use crate::node::{Kind, Node, NodeId};
pub use crate::shown::Row;

verus! {

impl Kind {
    /// Its slot in the wire's kind/flags byte.
    pub open spec fn spec_code(self) -> u8 {
        match self {
            Kind::Dir => 0,
            Kind::File => 1,
            Kind::Socket => 2,
            Kind::Fifo => 3,
            Kind::CharDevice => 4,
            Kind::BlockDevice => 5,
            Kind::Broken => 6,
        }
    }

    /// Its slot in the wire's kind/flags byte.
    pub fn code(self) -> (c: u8)
        ensures
            c == self.spec_code(),
    {
        match self {
            Kind::Dir => 0,
            Kind::File => 1,
            Kind::Socket => 2,
            Kind::Fifo => 3,
            Kind::CharDevice => 4,
            Kind::BlockDevice => 5,
            Kind::Broken => 6,
        }
    }

    /// The suffix `ls -F` would use.
    pub open spec fn spec_suffix(self) -> Seq<char> {
        match self {
            Kind::Dir => "/"@,
            Kind::Socket => "="@,
            Kind::Fifo => "|"@,
            Kind::Broken => "@"@,
            _ => ""@,
        }
    }

    /// The suffix `ls -F` would use.
    pub fn suffix(self) -> (s: &'static str)
        ensures
            s@ == self.spec_suffix(),
    {
        match self {
            Kind::Dir => "/",
            Kind::Socket => "=",
            Kind::Fifo => "|",
            Kind::Broken => "@",
            _ => "",
        }
    }
}

#[derive(Debug, Clone, Copy, PartialEq, Eq, Structural)]
pub struct ScanOptions {
    pub show_hidden: bool,
    pub dirs_only: bool,
    pub follow_links: bool,
    /// Most entries to keep from one directory. Nobody scrolls a hundred
    /// thousand rows, and pretending to offer them costs every view dearly.
    pub max_entries: usize,
    /// Ask git what it ignores, and dim those rows. Nothing is ever hidden by
    /// it; a machine without git, or a directory in no repository, simply has
    /// nothing dimmed.
    pub git_ignore: bool,
}

impl Default for ScanOptions {
    /// Hidden files are shown. treex is a tool for looking at source trees,
    /// where `.github/`, `.env` and `.gitignore` are things you came to see.
    fn default() -> (o: ScanOptions)
        ensures
            o == (ScanOptions {
                show_hidden: true,
                dirs_only: false,
                follow_links: false,
                max_entries: 5000,
                git_ignore: true,
            }),
    {
        ScanOptions {
            show_hidden: true,
            dirs_only: false,
            follow_links: false,
            max_entries: 5_000,
            git_ignore: true,
        }
    }
}

/// The third element of a row packs the kind and three flags into one number:
/// `kind << 3 | ignored << 2 | symlink << 1 | expanded`. Spelling the kind out
/// as `"d"` cost nearly a tenth of the whole message.
pub const FLAG_EXPANDED: u8 = 1;

pub const FLAG_SYMLINK: u8 = 2;

pub const FLAG_IGNORED: u8 = 4;

/// A row's kind and flags as one number.
pub open spec fn packed_of(kind: Kind, ignored: bool, symlink: bool, expanded: bool) -> int {
    kind.spec_code() * 8 + (if ignored {
        FLAG_IGNORED as int
    } else {
        0
    }) + (if symlink {
        FLAG_SYMLINK as int
    } else {
        0
    }) + (if expanded {
        FLAG_EXPANDED as int
    } else {
        0
    })
}

impl Row {
    /// The row's kind and flags as they go over the wire.
    pub fn packed(&self) -> (p: u8)
        ensures
            p == packed_of(self.kind, self.ignored, self.symlink, self.expanded),
    {
        let mut packed: u8 = self.kind.code() * 8;
        if self.expanded {
            packed = packed + FLAG_EXPANDED;
        }
        if self.symlink {
            packed = packed + FLAG_SYMLINK;
        }
        if self.ignored {
            packed = packed + FLAG_IGNORED;
        }
        packed
    }
}

/// A packed number gives back the kind and every flag: the kind is what is left
/// above three bits, and each flag has a bit of its own.
pub proof fn lemma_packed_decodes(kind: Kind, ignored: bool, symlink: bool, expanded: bool)
    ensures
        0 <= packed_of(kind, ignored, symlink, expanded) < 256,
        packed_of(kind, ignored, symlink, expanded) / 8 == kind.spec_code(),
        (packed_of(kind, ignored, symlink, expanded) / 4) % 2 == (if ignored {
            1int
        } else {
            0int
        }),
        (packed_of(kind, ignored, symlink, expanded) / 2) % 2 == (if symlink {
            1int
        } else {
            0int
        }),
        packed_of(kind, ignored, symlink, expanded) % 2 == (if expanded {
            1int
        } else {
            0int
        }),
{
}

pub struct Tree {
    pub nodes: Arena,
    pub opts: ScanOptions,
    pub selected: NodeId,
    /// The file on display. Kept here rather than in the web module so the
    /// terminal can color the row.
    pub viewing: Option<TreePath>,
    /// First visible line of the file being read. Shared for the same reason
    /// `viewing` is: two views of one file should be looking at one place.
    pub view_line: usize,
    /// Bumped on every mutation so views can tell whether they are stale.
    pub revision: u64,
    /// Bumped only when `rows()` would come out different, sizes aside, or when
    /// dotfiles are shown or hidden. Moving the cursor does not touch it, which
    /// is what lets a view skip resending the tree for what is really a
    /// two-field change.
    pub shape: u64,
}

/// A counter one on, starting over at the end of its range.
pub open spec fn bumped(n: u64) -> u64 {
    if n == u64::MAX {
        0
    } else {
        (n + 1) as u64
    }
}

/// The node a path names, where there is one.
pub open spec fn lookup(s: Slots, p: PathView) -> Option<NodeId> {
    if exists|i: NodeId| #![trigger at(s, i as int)] live(s, i as int) && at(s, i as int).path@ == p {
        Some(choose|i: NodeId| #![trigger at(s, i as int)] live(s, i as int) && at(s, i as int).path@ == p)
    } else {
        None
    }
}

/// A path names at most one node, so finding one is finding the one.
pub proof fn lemma_lookup(s: Slots, root: int, id: NodeId)
    requires
        is_tree(s, root),
        live(s, id as int),
    ensures
        lookup(s, at(s, id as int).path@) == Some(id),
{
    let p = at(s, id as int).path@;
    let j = choose|i: NodeId| #![trigger at(s, i as int)] live(s, i as int) && at(s, i as int).path@ == p;
    assert(live(s, id as int) && at(s, id as int).path@ == p);
    assert(live(s, j as int) && at(s, j as int).path@ == p);
}

/// The path on display, as plain values.
pub open spec fn shown_path(v: Option<TreePath>) -> Option<PathView> {
    match v {
        Some(p) => Some(p@),
        None => None,
    }
}

/// As much of a listing as one directory may contribute.
pub open spec fn kept(entries: Seq<Entry>, max: int) -> Seq<Entry> {
    if entries.len() <= max {
        entries
    } else {
        entries.take(max)
    }
}

/// How much of a listing is left out.
pub open spec fn left_out(entries: Seq<Entry>, max: int) -> int {
    if entries.len() <= max {
        0
    } else {
        entries.len() - max
    }
}

/// The slots with one directory open or shut.
pub open spec fn with_open(s: Slots, id: int, expanded: bool) -> Slots {
    s.update(id, Some((Node { expanded, ..at(s, id) })))
}

/// Whether opening `id` means reading it. Only expanded directories are
/// watched, so one that has been sitting collapsed may have gone stale on disk.
pub open spec fn stale(s: Slots, id: int) -> bool {
    at(s, id).kind == Kind::Dir && !(at(s, id).loaded && at(s, id).expanded)
}

/// `id` was read and opened, and nothing else changed.
pub open spec fn opened(s: Slots, t: Slots, id: int, entries: Seq<Entry>, max: int) -> bool {
    &&& live(t, id)
    &&& at(t, id).expanded
    &&& reconciled(
        s,
        with_open(t, id, at(s, id).expanded),
        id,
        kept(entries, max),
        left_out(entries, max),
    )
}

impl Tree {
    /// The nodes form a tree whose root has been read.
    pub open spec fn wf(&self) -> bool {
        self.nodes.wf() && at(self.slots(), self.top()).loaded
    }

    pub open spec fn slots(&self) -> Slots {
        self.nodes.slots()
    }

    pub open spec fn top(&self) -> int {
        self.nodes.top() as int
    }

    pub open spec fn max(&self) -> int {
        self.opts.max_entries as int
    }

    /// The tree with other nodes, and with nothing on display that is not among
    /// them.
    pub open spec fn holding(&self, nodes: Arena) -> Tree {
        if self.viewing matches Some(p) && lookup(nodes.slots(), p@) is None {
            Tree { nodes, viewing: None, view_line: 0, ..*self }
        } else {
            Tree { nodes, ..*self }
        }
    }

    /// The tree once a change is announced: the revision moves on, and the shape
    /// does too where the rows come out other than they were.
    pub open spec fn announced(&self, before: Slots) -> Tree {
        Tree {
            revision: bumped(self.revision),
            shape: if same_rows(before, self.slots(), self.top()) {
                self.shape
            } else {
                bumped(self.shape)
            },
            ..*self
        }
    }

    /// Directories were shut or opened without being read, which was announced,
    /// and nothing else changed.
    pub open spec fn refolded(&self, before: &Tree) -> bool {
        *self == (Tree { nodes: self.nodes, ..*before }).announced(before.slots())
    }

    /// A reading changed the nodes, what is on display was pruned to match, and
    /// that was announced.
    pub open spec fn redrawn(&self, before: &Tree) -> bool {
        *self == before.holding(self.nodes).announced(before.slots())
    }

    /// Records a change, and whether it alters what `rows()` produces.
    fn announce(&mut self, seen: bool)
        ensures
            *final(self) == (Tree {
                revision: bumped(old(self).revision),
                shape: if seen {
                    bumped(old(self).shape)
                } else {
                    old(self).shape
                },
                ..*old(self)
            }),
    {
        if seen {
            self.shape = self.shape.wrapping_add(1);
        }
        self.revision = self.revision.wrapping_add(1);
    }

    /// Whether every directory above a node is open, so that it has a row.
    pub fn on_screen(&self, id: NodeId) -> (r: bool)
        requires
            self.wf(),
            live(self.slots(), id as int),
        ensures
            r == open_above(self.slots(), self.top(), id as int),
    {
        let ghost s = self.slots();
        let ghost root = self.top();
        let mut cur: NodeId = id;
        while cur != self.nodes.root()
            invariant
                self.wf(),
                s == self.slots(),
                root == self.top(),
                live(s, cur as int),
                open_above(s, root, id as int) == open_above(s, root, cur as int),
            decreases level(s, cur as int),
        {
            proof {
                lemma_parent(s, root, cur as int);
            }
            let p: NodeId = self.nodes.node(cur).parent.unwrap();
            if !self.nodes.node(p).expanded {
                return false;
            }
            cur = p;
        }
        true
    }

    pub fn root(&self) -> (id: NodeId)
        ensures
            id as int == self.top(),
    {
        self.nodes.root()
    }

    pub fn root_path(&self) -> (p: &TreePath)
        requires
            self.wf(),
        ensures
            p@ == at(self.slots(), self.top()).path@,
    {
        &self.nodes.node(self.nodes.root()).path
    }

    pub fn node(&self, id: NodeId) -> (n: &Node)
        requires
            live(self.slots(), id as int),
        ensures
            *n == at(self.slots(), id as int),
    {
        self.nodes.node(id)
    }

    pub fn get(&self, id: NodeId) -> (n: Option<&Node>)
        ensures
            n is Some <==> live(self.slots(), id as int),
            n matches Some(node) ==> *node == at(self.slots(), id as int),
    {
        self.nodes.get(id)
    }

    pub fn id_for_path(&self, path: &TreePath) -> (r: Option<NodeId>)
        requires
            self.wf(),
        ensures
            r == lookup(self.slots(), path@),
            r matches Some(id) ==> live(self.slots(), id as int) && at(self.slots(), id as int).path@ == path@,
    {
        let r: Option<NodeId> = self.nodes.find(path);
        proof {
            if let Some(id) = r {
                lemma_lookup(self.slots(), self.top(), id);
            }
        }
        r
    }

    // -- mutation ---------------------------------------------------------

    /// Whether `expand` would have to read this directory.
    pub fn wants_listing(&self, id: NodeId) -> (r: bool)
        requires
            live(self.slots(), id as int),
        ensures
            r == stale(self.slots(), id as int),
    {
        let node = self.nodes.node(id);
        node.is_dir() && !(node.loaded && node.expanded)
    }

    /// The nodes changed by a reading, and what is on display pruned to match
    /// where the listing came out different.
    pub open spec fn read_into(&self, before: &Tree, changed: bool) -> bool {
        *self == if changed {
            before.holding(self.nodes)
        } else {
            Tree { nodes: self.nodes, ..*before }
        }
    }

    /// Takes in a reading of `id`'s directory entries and reconciles them
    /// against what is already there, so expansion state survives a refresh. A
    /// file on display that this drops is put away.
    ///
    /// Returns whether the listing changed in a way any view would draw. A
    /// touched mtime is not a reason to redraw every tree on screen.
    pub fn load_children(&mut self, id: NodeId, listing: Vec<Entry>) -> (changed: bool)
        requires
            old(self).wf(),
            live(old(self).slots(), id as int),
            at(old(self).slots(), id as int).kind == Kind::Dir || listing@.len() == 0,
            distinct_names(listing@),
        ensures
            final(self).wf(),
            final(self).read_into(old(self), changed),
            final(self).top() == old(self).top(),
            reconciled(
                old(self).slots(),
                final(self).slots(),
                id as int,
                kept(listing@, old(self).max()),
                left_out(listing@, old(self).max()),
            ),
            changed == !({
                &&& at(old(self).slots(), id as int).loaded
                &&& at(old(self).slots(), id as int).omitted == left_out(listing@, old(self).max())
                &&& listing_agrees(old(self).slots(), id as int, kept(listing@, old(self).max()))
            }),
    {
        let changed: bool = self.take_in(id, listing);
        if changed {
            self.prune_viewing();
        }
        changed
    }

    /// The reading itself, leaving alone what is on display.
    fn take_in(&mut self, id: NodeId, listing: Vec<Entry>) -> (changed: bool)
        requires
            old(self).wf(),
            live(old(self).slots(), id as int),
            at(old(self).slots(), id as int).kind == Kind::Dir || listing@.len() == 0,
            distinct_names(listing@),
        ensures
            final(self).wf(),
            *final(self) == (Tree { nodes: final(self).nodes, ..*old(self) }),
            final(self).top() == old(self).top(),
            reconciled(
                old(self).slots(),
                final(self).slots(),
                id as int,
                kept(listing@, old(self).max()),
                left_out(listing@, old(self).max()),
            ),
            changed == !({
                &&& at(old(self).slots(), id as int).loaded
                &&& at(old(self).slots(), id as int).omitted == left_out(listing@, old(self).max())
                &&& listing_agrees(old(self).slots(), id as int, kept(listing@, old(self).max()))
            }),
    {
        let (entries, omitted) = within_limit(listing, self.opts.max_entries);
        let changed: bool = self.nodes.differs(id, &entries, omitted);
        let ghost s = self.slots();
        self.nodes.reconcile(id, &entries, omitted);
        proof {
            lemma_root_stays_read(s, self.slots(), self.top(), id as int, entries@, omitted as int);
        }
        changed
    }

    /// Takes in another reading of a directory that has been read before, and
    /// says whether the listing changed and whether any row did.
    fn read_again(&mut self, id: NodeId, listing: Vec<Entry>) -> (r: (bool, bool))
        requires
            old(self).wf(),
            wanted(old(self).slots(), None, id as int),
            distinct_names(listing@),
        ensures
            final(self).wf(),
            final(self).read_into(old(self), r.0),
            final(self).top() == old(self).top(),
            reconciled(
                old(self).slots(),
                final(self).slots(),
                id as int,
                kept(listing@, old(self).max()),
                left_out(listing@, old(self).max()),
            ),
            r.0 == !({
                &&& at(old(self).slots(), id as int).omitted == left_out(listing@, old(self).max())
                &&& listing_agrees(old(self).slots(), id as int, kept(listing@, old(self).max()))
            }),
            r.1 == !same_rows(old(self).slots(), final(self).slots(), old(self).top()),
            r.1 ==> r.0,
    {
        let ghost s = self.slots();
        let ghost entries = kept(listing@, self.max());
        let ghost left = left_out(listing@, self.max());
        let on_screen: bool = self.on_screen(id);
        let expanded: bool = self.nodes.node(id).expanded;
        let omitted: usize = self.nodes.node(id).omitted;
        assert(listing.len() <= usize::MAX);
        let changed: bool = self.load_children(id, listing);
        proof {
            assert(distinct_names(entries));
            lemma_reading_shows(s, self.slots(), self.top(), id as int, entries, left);
        }
        let seen: bool = changed && on_screen && (expanded || omitted != self.nodes.node(id).omitted);
        (changed, seen)
    }

    /// Opens a directory, with what reading it gave. A directory that is
    /// already open, or anything that is not one, stays as it is.
    pub fn expand(&mut self, id: NodeId, listing: Vec<Entry>)
        requires
            old(self).wf(),
            live(old(self).slots(), id as int),
            distinct_names(listing@),
        ensures
            final(self).wf(),
            final(self).top() == old(self).top(),
            if stale(old(self).slots(), id as int) {
                &&& final(self).redrawn(old(self))
                &&& opened(old(self).slots(), final(self).slots(), id as int, listing@, old(self).max())
            } else {
                *final(self) == *old(self)
            },
    {
        if !self.wants_listing(id) {
            return ;
        }
        let ghost s = self.slots();
        let seen: bool = self.on_screen(id);
        self.take_in(id, listing);
        let ghost mid = self.slots();
        self.nodes.set_expanded(id, true);
        assert(with_open(self.slots(), id as int, at(s, id as int).expanded) =~= mid);
        proof {
            lemma_opening_shows(s, self.slots(), self.top(), id as int, listing@, self.max());
        }
        self.prune_viewing();
        self.announce(seen);
    }

    /// Shuts a directory. One that is shut already, or anything that is not a
    /// directory, stays as it is.
    pub fn collapse(&mut self, id: NodeId)
        requires
            old(self).wf(),
            live(old(self).slots(), id as int),
        ensures
            final(self).wf(),
            final(self).top() == old(self).top(),
            if at(old(self).slots(), id as int).expanded {
                &&& final(self).refolded(old(self))
                &&& final(self).slots() == with_open(old(self).slots(), id as int, false)
            } else {
                *final(self) == *old(self)
            },
    {
        if self.nodes.node(id).expanded {
            let ghost s = self.slots();
            let seen: bool = self.on_screen(id);
            self.nodes.set_expanded(id, false);
            proof {
                assert(self.slots() == with_open(s, id as int, false));
                lemma_flipping_shows(s, self.top(), id as int, false);
            }
            self.announce(seen);
        }
    }

    /// Shuts an open directory and opens a shut one. The listing is used only
    /// where it opens.
    pub fn toggle(&mut self, id: NodeId, listing: Vec<Entry>)
        requires
            old(self).wf(),
            live(old(self).slots(), id as int),
            distinct_names(listing@),
        ensures
            final(self).wf(),
            final(self).top() == old(self).top(),
            if at(old(self).slots(), id as int).expanded {
                &&& final(self).refolded(old(self))
                &&& final(self).slots() == with_open(old(self).slots(), id as int, false)
            } else if at(old(self).slots(), id as int).kind == Kind::Dir {
                &&& final(self).redrawn(old(self))
                &&& opened(old(self).slots(), final(self).slots(), id as int, listing@, old(self).max())
            } else {
                *final(self) == *old(self)
            },
    {
        if self.nodes.node(id).expanded {
            self.collapse(id);
        } else {
            self.expand(id, listing);
        }
    }

    /// Shuts every directory but the root, which is open from then on. Where that
    /// is how things stand already, nothing happens.
    pub fn collapse_all(&mut self)
        requires
            old(self).wf(),
        ensures
            final(self).wf(),
            final(self).top() == old(self).top(),
            if only_root_open(old(self).slots(), old(self).top()) {
                *final(self) == *old(self)
            } else {
                &&& final(self).refolded(old(self))
                &&& final(self).slots() == with_open(all_shut(old(self).slots()), old(self).top(), true)
            },
    {
        let ghost s = self.slots();
        let root: NodeId = self.nodes.root();
        let shut: bool = !self.nodes.node(root).expanded;
        let n: usize = self.nodes.len();
        // Whether any directory below the root is open, and whether one is that
        // has a row.
        let mut any: bool = false;
        let mut seen: bool = false;
        let mut i: usize = 0;
        while i < n
            invariant
                i <= n,
                self.wf(),
                s == self.slots(),
                root as int == self.top(),
                n == s.len(),
                any <==> exists|j: int| #![trigger at(s, j)] j < i && live(s, j) && j != root && at(s, j).expanded,
                seen <==> exists|j: int| j < i && #[trigger] shuts_in_sight(s, root as int, j),
            decreases n - i,
        {
            if let Some(node) = self.nodes.get(i) {
                if i != root && node.expanded {
                    assert(at(s, i as int).expanded);
                    any = true;
                    if self.on_screen(i) {
                        assert(shuts_in_sight(s, root as int, i as int));
                        seen = true;
                    }
                }
            }
            i += 1;
        }
        if !any && !shut {
            assert(only_root_open(s, root as int));
            return ;
        }
        self.nodes.collapse_every();
        self.nodes.set_expanded(root, true);
        proof {
            assert(self.slots() == with_open(all_shut(s), root as int, true));
            lemma_shutting_all_shows(s, root as int);
        }
        self.announce(seen || shut);
    }
}

/// No directory is open but the root, which is.
pub open spec fn only_root_open(s: Slots, root: int) -> bool {
    at(s, root).expanded && forall|j: int| #![trigger at(s, j)] live(s, j) && j != root ==> !at(s, j).expanded
}

/// Cuts a listing to what one directory may contribute, and says how much that
/// leaves out.
fn within_limit(listing: Vec<Entry>, max: usize) -> (r: (Vec<Entry>, usize))
    ensures
        r.0@ == kept(listing@, max as int),
        r.1 == left_out(listing@, max as int),
{
    let mut entries: Vec<Entry> = listing;
    let omitted: usize = if entries.len() > max {
        entries.len() - max
    } else {
        0
    };
    entries.truncate(max);
    assert(entries@ =~= kept(listing@, max as int));
    (entries, omitted)
}

/// Reading any directory leaves the root a directory that has been read.
proof fn lemma_root_stays_read(s: Slots, t: Slots, root: int, id: int, entries: Seq<Entry>, omitted: int)
    requires
        is_tree(s, root),
        is_tree(t, root),
        live(s, id),
        reconciled(s, t, id, entries, omitted),
        id == root || at(s, root).loaded,
    ensures
        at(t, root).loaded,
{
    if id != root {
        lemma_fate(s, t, root, id, entries, omitted, root);
        if kids(t, id).contains(root as usize) {
            let k = choose|k: int| 0 <= k < kids(t, id).len() && kids(t, id)[k] == root as usize;
            assert(at(t, kids(t, id)[k] as int).parent == Some(id as usize));
        }
        assert(at(t, root) == at(s, root));
    }
}

// -- what is on display ---------------------------------------------------

impl Tree {
    /// What showing `p` comes to, starting from `before`. Showing what is
    /// already up is nothing; another file starts at its own top.
    pub open spec fn showing(&self, before: &Tree, p: Option<PathView>) -> bool {
        if shown_path(before.viewing) == p {
            *self == *before
        } else {
            &&& shown_path(self.viewing) == p
            &&& *self == (Tree {
                viewing: self.viewing,
                view_line: 0,
                revision: bumped(before.revision),
                ..*before
            })
        }
    }

    /// What selecting `id` comes to, starting from `before`. A file is
    /// displayed by being selected. A directory has nothing to display, so the
    /// file already on screen stays there.
    pub open spec fn selecting(&self, before: &Tree, id: NodeId) -> bool {
        let moved = Tree { selected: id, revision: bumped(before.revision), ..*before };
        if !live(before.slots(), id as int) {
            *self == *before
        } else if at(before.slots(), id as int).kind == Kind::Dir {
            *self == moved
        } else {
            self.showing(&moved, Some(at(before.slots(), id as int).path@))
        }
    }

    /// The tree with the file on display scrolled to a line.
    pub open spec fn scrolled(&self, line: usize) -> Tree {
        if self.viewing is Some && self.view_line != line {
            Tree { view_line: line, revision: bumped(self.revision), ..*self }
        } else {
            *self
        }
    }

    /// The tree with the cursor on the file on display.
    pub open spec fn rejoined(&self) -> Tree {
        match self.viewing {
            Some(path) => match lookup(self.slots(), path@) {
                Some(id) if id != self.selected => Tree {
                    selected: id,
                    revision: bumped(self.revision),
                    ..*self
                },
                _ => *self,
            },
            None => *self,
        }
    }

    /// `None` stops showing anything.
    pub fn view(&mut self, path: Option<TreePath>)
        ensures
            final(self).showing(old(self), shown_path(path)),
    {
        let same: bool = match (&self.viewing, &path) {
            (Some(a), Some(b)) => a.same(b),
            (None, None) => true,
            _ => false,
        };
        if !same {
            self.viewing = path;
            self.view_line = 0;
            self.revision = self.revision.wrapping_add(1);
        }
    }

    /// Moves the first visible line of the file being read.
    ///
    /// Views clamp this against their own height rather than being told what
    /// they can show, which is what lets a phone and a terminal of different
    /// sizes follow each other: the shorter one simply sits at its own end.
    /// Nothing about the rows changes, so this rides the cursor message.
    pub fn scroll_view(&mut self, line: usize)
        ensures
            *final(self) == old(self).scrolled(line),
    {
        if self.viewing.is_some() && self.view_line != line {
            self.view_line = line;
            self.revision = self.revision.wrapping_add(1);
        }
    }

    /// Drops `viewing` if the file is no longer in the tree, and says whether it
    /// did.
    fn prune_viewing(&mut self) -> (gone: bool)
        requires
            old(self).wf(),
        ensures
            *final(self) == old(self).holding(old(self).nodes),
            gone <==> *final(self) != *old(self),
    {
        let gone: bool = match &self.viewing {
            Some(path) => self.id_for_path(path).is_none(),
            None => false,
        };
        if gone {
            self.viewing = None;
            self.view_line = 0;
        }
        gone
    }

    /// Moves the cursor, and shows whatever the cursor can show.
    pub fn select(&mut self, id: NodeId)
        ensures
            final(self).selecting(old(self), id),
    {
        let file: Option<TreePath> = match self.nodes.get(id) {
            Some(node) => if node.is_dir() {
                None
            } else {
                Some(node.path.clone())
            },
            None => {
                return ;
            }
        };
        self.selected = id;
        self.revision = self.revision.wrapping_add(1);
        if let Some(path) = file {
            self.view(Some(path));
        }
    }

    /// Puts the cursor back on the file being displayed.
    ///
    /// The cursor and the pane part company only over a directory, which shows
    /// nothing of its own. Touching the pane at that point (scrolling it,
    /// clicking its title) says the file is what is being worked on, so the
    /// cursor rejoins it.
    pub fn select_viewed(&mut self)
        requires
            old(self).wf(),
        ensures
            *final(self) == old(self).rejoined(),
    {
        let found: Option<NodeId> = match &self.viewing {
            Some(path) => self.id_for_path(path),
            None => None,
        };
        if let Some(id) = found {
            if self.selected != id {
                self.selected = id;
                self.revision = self.revision.wrapping_add(1);
            }
        }
    }
}

// -- opening several at once ----------------------------------------------

/// The first directory, depth first, within `depth` levels of `i` that is not
/// open yet.
pub open spec fn due(s: Slots, i: int, depth: nat) -> Option<NodeId>
    decreases depth, 1nat, 0nat,
{
    if depth == 0 || at(s, i).kind != Kind::Dir {
        None
    } else if stale(s, i) {
        Some(i as usize)
    } else {
        due_below(s, i, kids(s, i).len(), depth)
    }
}

/// The first one due among the first `n` children of `i`.
pub open spec fn due_below(s: Slots, i: int, n: nat, depth: nat) -> Option<NodeId>
    decreases depth, 0nat, n,
{
    if n == 0 || depth == 0 {
        None
    } else {
        match due_below(s, i, (n - 1) as nat, depth) {
            Some(id) => Some(id),
            None => due(s, kids(s, i)[n - 1] as int, (depth - 1) as nat),
        }
    }
}

/// Whether `j` is a directory within `depth` levels of `i`, counting `i` itself
/// as the first.
pub open spec fn within(s: Slots, i: int, depth: nat, j: int) -> bool
    decreases depth,
{
    depth > 0 && at(s, i).kind == Kind::Dir && (j == i || exists|k: int|
        #![trigger kids(s, i)[k]]
        0 <= k < kids(s, i).len() && within(s, kids(s, i)[k] as int, (depth - 1) as nat, j))
}

/// Once nothing is due, every directory within reach is read and open.
pub proof fn lemma_nothing_due(s: Slots, i: int, depth: nat, j: int)
    requires
        due(s, i, depth) is None,
        within(s, i, depth, j),
        at(s, j).kind == Kind::Dir,
    ensures
        at(s, j).loaded,
        at(s, j).expanded,
    decreases depth,
{
    if j != i {
        let k = choose|k: int|
            #![trigger kids(s, i)[k]]
            0 <= k < kids(s, i).len() && within(s, kids(s, i)[k] as int, (depth - 1) as nat, j);
        lemma_due_below(s, i, kids(s, i).len(), depth, k);
        lemma_nothing_due(s, kids(s, i)[k] as int, (depth - 1) as nat, j);
    }
}

proof fn lemma_due_below(s: Slots, i: int, n: nat, depth: nat, k: int)
    requires
        depth > 0,
        0 <= k < n,
        due_below(s, i, n, depth) is None,
    ensures
        due(s, kids(s, i)[k] as int, (depth - 1) as nat) is None,
    decreases n,
{
    if k < n - 1 {
        lemma_due_below(s, i, (n - 1) as nat, depth, k);
    }
}

/// Whatever is due exists and wants reading.
pub proof fn lemma_due(s: Slots, root: int, i: int, depth: nat)
    requires
        is_tree(s, root),
        live(s, i),
    ensures
        due(s, i, depth) matches Some(id) ==> live(s, id as int) && stale(s, id as int) && level(s, id as int)
            >= level(s, i),
    decreases depth, 1nat, 0nat,
{
    if depth > 0 && at(s, i).kind == Kind::Dir && !stale(s, i) {
        lemma_due_in_below(s, root, i, kids(s, i).len(), depth);
    }
}

proof fn lemma_due_in_below(s: Slots, root: int, i: int, n: nat, depth: nat)
    requires
        is_tree(s, root),
        live(s, i),
        n <= kids(s, i).len(),
    ensures
        due_below(s, i, n, depth) matches Some(id) ==> live(s, id as int) && stale(s, id as int) && level(
            s,
            id as int,
        ) >= level(s, i),
    decreases depth, 0nat, n,
{
    if n > 0 && depth > 0 {
        lemma_due_in_below(s, root, i, (n - 1) as nat, depth);
        assert(live(s, kids(s, i)[n - 1] as int));
        lemma_due(s, root, kids(s, i)[n - 1] as int, (depth - 1) as nat);
    }
}

/// The outermost directory above `i` that is not open yet.
pub open spec fn shut_above(s: Slots, root: int, i: int) -> Option<NodeId>
    decreases level(s, i),
    when is_tree(s, root) && live(s, i)
{
    if i == root {
        None
    } else {
        proof {
            lemma_parent(s, root, i);
        }
        let p = at(s, i).parent->0;
        match shut_above(s, root, p as int) {
            Some(id) => Some(id),
            None => if stale(s, p as int) {
                Some(p)
            } else {
                None
            },
        }
    }
}

impl Tree {
    /// The next directory to read on the way to having every directory open
    /// down to `depth` levels below `id`.
    pub fn expand_due(&self, id: NodeId, depth: usize) -> (r: Option<NodeId>)
        requires
            self.wf(),
            live(self.slots(), id as int),
        ensures
            r == due(self.slots(), id as int, depth as nat),
            r matches Some(next) ==> live(self.slots(), next as int) && stale(self.slots(), next as int),
        decreases depth,
    {
        let ghost s = self.slots();
        proof {
            lemma_due(s, self.top(), id as int, depth as nat);
        }
        if depth == 0 || !self.nodes.node(id).is_dir() {
            return None;
        }
        if self.wants_listing(id) {
            return Some(id);
        }
        let node = self.nodes.node(id);
        let mut i: usize = 0;
        while i < node.children.len()
            invariant
                i <= node.children@.len(),
                depth > 0,
                s == self.slots(),
                self.wf(),
                live(s, id as int),
                *node == at(s, id as int),
                node.kind == Kind::Dir,
                !stale(s, id as int),
                due_below(s, id as int, i as nat, depth as nat) is None,
                due(s, id as int, depth as nat) == due_below(s, id as int, kids(s, id as int).len(), depth as nat),
                due(s, id as int, depth as nat) matches Some(next) ==> live(s, next as int) && stale(s, next as int),
            decreases node.children.len() - i,
        {
            assert(live(s, kids(s, id as int)[i as int] as int));
            let r: Option<NodeId> = self.expand_due(node.children[i], depth - 1);
            assert(due_below(s, id as int, (i + 1) as nat, depth as nat) == r);
            if r.is_some() {
                proof {
                    lemma_due_sticks(s, id as int, (i + 1) as nat, kids(s, id as int).len(), depth as nat);
                }
                return r;
            }
            i += 1;
        }
        None
    }

    /// Expands every directory down to `depth` levels below `id`, one step at a
    /// time: opens the directory that is due with what reading it gave, and
    /// says which one is due after it.
    pub fn expand_to_depth(&mut self, id: NodeId, depth: usize, listing: Vec<Entry>) -> (next: Option<NodeId>)
        requires
            old(self).wf(),
            live(old(self).slots(), id as int),
            distinct_names(listing@),
        ensures
            final(self).wf(),
            final(self).top() == old(self).top(),
            match due(old(self).slots(), id as int, depth as nat) {
                Some(now) => {
                    &&& final(self).redrawn(old(self))
                    &&& opened(old(self).slots(), final(self).slots(), now as int, listing@, old(self).max())
                    &&& next == due(final(self).slots(), id as int, depth as nat)
                    &&& next matches Some(n) ==> live(final(self).slots(), n as int) && n != now
                },
                None => *final(self) == *old(self) && next is None,
            },
    {
        let ghost s = self.slots();
        match self.expand_due(id, depth) {
            Some(now) => {
                self.expand(now, listing);
                proof {
                    lemma_due_keeps_start(s, self.slots(), self.top(), id as int, depth as nat, listing@, old(self).max());
                }
                self.expand_due(id, depth)
            }
            None => None,
        }
    }

    /// Reveals `id` by expanding every ancestor, then selects it, one step at a
    /// time: says which ancestor to expand first, outermost first, and selects
    /// once there is none left.
    pub fn reveal_node(&mut self, id: NodeId) -> (first: Option<NodeId>)
        requires
            old(self).wf(),
        ensures
            final(self).wf(),
            if live(old(self).slots(), id as int) {
                &&& first == shut_above(old(self).slots(), old(self).top(), id as int)
                &&& first is Some ==> *final(self) == *old(self)
                &&& first is None ==> final(self).selecting(old(self), id)
            } else {
                first is None && *final(self) == *old(self)
            },
    {
        let ghost s = self.slots();
        let ghost root = self.top();
        if self.nodes.get(id).is_none() {
            return None;
        }
        let mut found: Option<NodeId> = None;
        let mut cur: NodeId = id;
        while cur != self.nodes.root()
            invariant
                self.wf(),
                s == self.slots(),
                root == self.top(),
                live(s, cur as int),
                live(s, id as int),
                shut_above(s, root, id as int) == (match shut_above(s, root, cur as int) {
                    Some(x) => Some(x),
                    None => found,
                }),
            decreases level(s, cur as int),
        {
            proof {
                lemma_parent(s, root, cur as int);
            }
            let p: NodeId = self.nodes.node(cur).parent.unwrap();
            if self.wants_listing(p) {
                found = Some(p);
            }
            cur = p;
        }
        if found.is_none() {
            self.select(id);
        }
        found
    }
}

proof fn lemma_due_sticks(s: Slots, i: int, n: nat, m: nat, depth: nat)
    requires
        n <= m,
        due_below(s, i, n, depth) is Some,
    ensures
        due_below(s, i, m, depth) == due_below(s, i, n, depth),
    decreases m,
{
    if n < m {
        lemma_due_sticks(s, i, n, (m - 1) as nat, depth);
    }
}

/// Opening what is due below a directory leaves that directory in place.
proof fn lemma_due_keeps_start(
    s: Slots,
    t: Slots,
    root: int,
    id: int,
    depth: nat,
    listing: Seq<Entry>,
    max: int,
)
    requires
        is_tree(s, root),
        live(s, id),
        due(s, id, depth) is Some,
        opened(s, t, due(s, id, depth)->0 as int, listing, max),
    ensures
        live(t, id),
{
    lemma_due(s, root, id, depth);
    let now = due(s, id, depth)->0 as int;
    let mid = with_open(t, now, at(s, now).expanded);
    lemma_above_survives(s, mid, root, now, kept(listing, max), left_out(listing, max), id);
}

// -- projection -----------------------------------------------------------

/// Whether the listing of a directory is on screen: it is open, and so is every
/// directory above it.
pub open spec fn lists_on_screen(s: Slots, root: int, i: int) -> bool {
    live(s, i) && at(s, i).expanded && open_above(s, root, i)
}

/// The directories whose listing is on screen, among the first `n` slots.
pub open spec fn live_dir_paths(s: Slots, root: int, n: int) -> Seq<PathView>
    decreases n,
{
    if n <= 0 {
        Seq::empty()
    } else {
        let before = live_dir_paths(s, root, n - 1);
        let i = n - 1;
        if lists_on_screen(s, root, i) {
            before.push(at(s, i).path@)
        } else {
            before
        }
    }
}

/// The directories to watch are exactly those whose listing is on screen.
pub proof fn lemma_live_dirs_list_on_screen(s: Slots, root: int, n: int, p: PathView)
    requires
        0 <= n <= s.len(),
    ensures
        live_dir_paths(s, root, n).contains(p) <==> exists|i: int|
            0 <= i < n && #[trigger] lists_on_screen(s, root, i) && at(s, i).path@ == p,
    decreases n,
{
    if n > 0 {
        let before = live_dir_paths(s, root, n - 1);
        lemma_live_dirs_list_on_screen(s, root, n - 1, p);
        if lists_on_screen(s, root, n - 1) {
            let all = before.push(at(s, n - 1).path@);
            assert(all.last() == at(s, n - 1).path@);
            if before.contains(p) {
                let k = choose|k: int| 0 <= k < before.len() && before[k] == p;
                assert(all[k] == p);
            }
        }
    }
}

/// Some paths as plain values.
pub open spec fn path_views(paths: Seq<TreePath>) -> Seq<PathView> {
    paths.map_values(|p: TreePath| p@)
}

/// Whether `i` is a loaded directory, at or below `base` where there is one.
pub open spec fn wanted(s: Slots, base: Option<PathView>, i: int) -> bool {
    &&& live(s, i)
    &&& at(s, i).kind == Kind::Dir
    &&& at(s, i).loaded
    &&& base matches Some(p) ==> at(s, i).path@.under(p)
}

/// Shallower first, and in slot order where equally deep.
pub open spec fn before_in_order(s: Slots, a: NodeId, b: NodeId) -> bool {
    level(s, a as int) < level(s, b as int) || (level(s, a as int) == level(s, b as int) && a < b)
}

/// Exactly the wanted directories, shallowest first.
pub open spec fn shallowest_first(s: Slots, base: Option<PathView>, ids: Seq<NodeId>) -> bool {
    &&& forall|k: int| #![trigger ids[k]] 0 <= k < ids.len() ==> wanted(s, base, ids[k] as int)
    &&& forall|i: NodeId| #![trigger ids.contains(i)] wanted(s, base, i as int) ==> ids.contains(i)
    &&& forall|a: int, b: int|
        #![trigger ids[a], ids[b]]
        0 <= a < b < ids.len() ==> before_in_order(s, ids[a], ids[b])
}

/// How far a node is below the root is fewer than there are slots.
proof fn lemma_level_bound(s: Slots, root: int, i: int)
    requires
        is_tree(s, root),
        live(s, i),
    ensures
        level(s, root) <= level(s, i),
        level(s, i) - level(s, root) + deeper(s, level(s, i)) <= deeper(s, level(s, root)),
        deeper(s, level(s, root)) < s.len(),
    decreases level(s, i),
{
    lemma_root_not_deeper(s, root);
    if i == root {
    } else {
        lemma_parent(s, root, i);
        let p = at(s, i).parent->0 as int;
        lemma_level_bound(s, root, p);
        lemma_deeper_step(s, level(s, p), i);
    }
}

proof fn lemma_root_not_deeper(s: Slots, root: int)
    requires
        live(s, root),
    ensures
        deeper(s, level(s, root)) < s.len(),
    decreases s.len(),
{
    let t = s.drop_last();
    if root < s.len() - 1 {
        assert(t[root] == s[root]);
        lemma_root_not_deeper(t, root);
    } else {
        lemma_deeper_bound(t, level(s, root));
    }
}

impl Tree {
    /// Depth-first flattening of everything currently visible.
    pub fn rows(&self) -> (rows: Vec<Row>)
        requires
            self.wf(),
        ensures
            rows_of(self.slots(), shown(self.slots(), self.top()), rows@),
    {
        let mut out: Vec<Row> = Vec::new();
        proof {
            lemma_deeper_bound(self.slots(), level(self.slots(), self.top()));
        }
        self.nodes.push_rows(self.nodes.root(), 0, true, &mut out);
        assert(out@.skip(0) =~= out@);
        out
    }

    /// Directories whose listing is on screen right now, and therefore the
    /// exact set worth watching for changes. A collapsed directory is not in
    /// here: nothing under it is drawn, and [`expand`](Self::expand) re-reads
    /// it on the way open.
    pub fn live_dirs(&self) -> (dirs: Vec<TreePath>)
        requires
            self.wf(),
        ensures
            path_views(dirs@) == live_dir_paths(self.slots(), self.top(), self.slots().len() as int),
    {
        let ghost s = self.slots();
        let ghost root = self.top();
        let mut dirs: Vec<TreePath> = Vec::new();
        let n: usize = self.nodes.len();
        let mut i: usize = 0;
        assert(path_views(dirs@) =~= live_dir_paths(s, root, 0));
        while i < n
            invariant
                i <= n,
                self.wf(),
                s == self.slots(),
                root == self.top(),
                n == s.len(),
                path_views(dirs@) == live_dir_paths(s, root, i as int),
            decreases n - i,
        {
            if let Some(node) = self.nodes.get(i) {
                if node.expanded && self.on_screen(i) {
                    let ghost before = dirs@;
                    dirs.push(node.path.clone());
                    assert(path_views(dirs@) =~= path_views(before).push(node.path@));
                }
            }
            i += 1;
        }
        dirs
    }

    /// Index of `selected` within `rows()`, if it is currently visible.
    pub fn selected_row(&self, rows: &[Row]) -> (r: Option<usize>)
        ensures
            r matches Some(n) ==> n < rows@.len() && rows@[n as int].id == self.selected && forall|k: int|
                #![trigger rows@[k]]
                0 <= k < n ==> rows@[k].id != self.selected,
            r is None ==> forall|k: int| #![trigger rows@[k]] 0 <= k < rows@.len() ==> rows@[k].id != self.selected,
    {
        let mut i: usize = 0;
        while i < rows.len()
            invariant
                i <= rows@.len(),
                forall|k: int| #![trigger rows@[k]] 0 <= k < i ==> rows@[k].id != self.selected,
            decreases rows.len() - i,
        {
            if rows[i].id == self.selected {
                return Some(i);
            }
            i += 1;
        }
        None
    }

    /// Where `target` would land in `rows()`, without building them.
    ///
    /// The same depth-first walk, counting instead of cloning a name and a path
    /// per row, which matters because it runs on every cursor move.
    pub fn visible_index(&self, target: NodeId) -> (r: Option<usize>)
        requires
            self.wf(),
        ensures
            r == place_of(self.slots(), self.top(), target),
    {
        self.nodes.row_index(target)
    }

    /// How many steps a node is below the root.
    fn steps_down(&self, id: NodeId) -> (n: usize)
        requires
            self.wf(),
            live(self.slots(), id as int),
        ensures
            n == level(self.slots(), id as int) - level(self.slots(), self.top()),
            n < self.slots().len(),
    {
        let ghost s = self.slots();
        let ghost root = self.top();
        let mut n: usize = 0;
        let mut cur: NodeId = id;
        proof {
            lemma_level_bound(s, root, id as int);
        }
        while cur != self.nodes.root()
            invariant
                self.wf(),
                s == self.slots(),
                root == self.top(),
                live(s, cur as int),
                n + level(s, cur as int) == level(s, id as int),
                level(s, id as int) - level(s, root) < s.len(),
            decreases level(s, cur as int),
        {
            proof {
                lemma_parent(s, root, cur as int);
                lemma_level_bound(s, root, at(s, cur as int).parent->0 as int);
            }
            cur = self.nodes.node(cur).parent.unwrap();
            n += 1;
        }
        n
    }

    /// Loaded directories, at or below `base` where there is one, shallowest
    /// first.
    ///
    /// The order is the point: a node's `ignored` is decided by reading its
    /// parent, and its own children are then read against it, so a child
    /// refreshed before its parent would be judged against a stale answer.
    fn loaded_dirs(&self, base: Option<&TreePath>) -> (ids: Vec<NodeId>)
        requires
            self.wf(),
        ensures
            shallowest_first(
                self.slots(),
                match base {
                    Some(p) => Some(p@),
                    None => None,
                },
                ids@,
            ),
    {
        let ghost s = self.slots();
        let ghost root = self.top();
        let ghost under = match base {
            Some(p) => Some(p@),
            None => None,
        };
        let n: usize = self.nodes.len();
        // Where each wanted directory is, counted from the root.
        let mut found: Vec<(NodeId, usize)> = Vec::new();
        let mut deepest: usize = 0;
        let mut i: usize = 0;
        while i < n
            invariant
                i <= n,
                self.wf(),
                s == self.slots(),
                root == self.top(),
                n == s.len(),
                under == (match base {
                    Some(p) => Some(p@),
                    None => None,
                }),
                deepest < n || (i == 0 && deepest == 0),
                forall|k: int|
                    #![trigger found@[k]]
                    0 <= k < found@.len() ==> {
                        &&& wanted(s, under, found@[k].0 as int)
                        &&& found@[k].0 < i
                        &&& found@[k].1 == level(s, found@[k].0 as int) - level(s, root)
                        &&& found@[k].1 <= deepest
                    },
                forall|a: int, b: int|
                    #![trigger found@[a], found@[b]]
                    0 <= a < b < found@.len() ==> found@[a].0 < found@[b].0,
                forall|j: NodeId|
                    #![trigger wanted(s, under, j as int)]
                    j < i && wanted(s, under, j as int) ==> exists|k: int|
                        0 <= k < found@.len() && #[trigger] found@[k].0 == j,
            decreases n - i,
        {
            let ghost before = found@;
            if let Some(node) = self.nodes.get(i) {
                let inside: bool = match base {
                    Some(p) => node.path.starts_with(p),
                    None => true,
                };
                if node.is_dir() && node.loaded && inside {
                    let steps: usize = self.steps_down(i);
                    found.push((i, steps));
                    if steps > deepest {
                        deepest = steps;
                    }
                    assert(found@[before.len() as int].0 == i);
                }
            }
            proof {
                assert forall|j: NodeId| #![trigger wanted(s, under, j as int)] j < i + 1 && wanted(s, under, j as int) implies exists|k: int|
                    0 <= k < found@.len() && #[trigger] found@[k].0 == j by {
                    if j < i {
                        let k = choose|k: int| 0 <= k < before.len() && #[trigger] before[k].0 == j;
                        assert(found@[k].0 == j);
                    }
                }
            }
            i += 1;
        }
        let mut ids: Vec<NodeId> = Vec::new();
        let mut d: usize = 0;
        assert(live(s, root));
        while d <= deepest
            invariant
                d <= deepest + 1,
                deepest < n,
                n == s.len(),
                n <= usize::MAX,
                forall|k: int|
                    #![trigger found@[k]]
                    0 <= k < found@.len() ==> {
                        &&& wanted(s, under, found@[k].0 as int)
                        &&& found@[k].1 == level(s, found@[k].0 as int) - level(s, root)
                        &&& found@[k].1 <= deepest
                    },
                forall|a: int, b: int|
                    #![trigger found@[a], found@[b]]
                    0 <= a < b < found@.len() ==> found@[a].0 < found@[b].0,
                forall|k: int|
                    #![trigger ids@[k]]
                    0 <= k < ids@.len() ==> wanted(s, under, ids@[k] as int) && level(s, ids@[k] as int) - level(s, root) < d,
                forall|a: int, b: int|
                    #![trigger ids@[a], ids@[b]]
                    0 <= a < b < ids@.len() ==> before_in_order(s, ids@[a], ids@[b]),
                forall|k: int| #![trigger found@[k]] 0 <= k < found@.len() && found@[k].1 < d ==> ids@.contains(found@[k].0),
            decreases deepest + 1 - d,
        {
            let mut k: usize = 0;
            while k < found.len()
                invariant
                    k <= found@.len(),
                    forall|q: int|
                        #![trigger found@[q]]
                        0 <= q < found@.len() ==> {
                            &&& wanted(s, under, found@[q].0 as int)
                            &&& found@[q].1 == level(s, found@[q].0 as int) - level(s, root)
                        },
                    forall|a: int, b: int|
                        #![trigger found@[a], found@[b]]
                        0 <= a < b < found@.len() ==> found@[a].0 < found@[b].0,
                    forall|q: int|
                        #![trigger ids@[q]]
                        0 <= q < ids@.len() ==> {
                            &&& wanted(s, under, ids@[q] as int)
                            &&& level(s, ids@[q] as int) - level(s, root) < d || (level(s, ids@[q] as int) - level(s, root) == d && exists|x: int|
                                0 <= x < k && #[trigger] found@[x].0 == ids@[q])
                        },
                    forall|a: int, b: int|
                        #![trigger ids@[a], ids@[b]]
                        0 <= a < b < ids@.len() ==> before_in_order(s, ids@[a], ids@[b]),
                    forall|q: int|
                        #![trigger found@[q]]
                        0 <= q < found@.len() && (found@[q].1 < d || (found@[q].1 == d && q < k)) ==> ids@.contains(found@[q].0),
                decreases found.len() - k,
            {
                let ghost before = ids@;
                if found[k].1 == d {
                    let id: NodeId = found[k].0;
                    ids.push(id);
                    proof {
                        assert(ids@[before.len() as int] == id);
                        assert forall|a: int, b: int| #![trigger ids@[a], ids@[b]] 0 <= a < b < ids@.len() implies before_in_order(s, ids@[a], ids@[b]) by {
                            if b == before.len() {
                                assert(before[a] == ids@[a]);
                                if level(s, before[a] as int) - level(s, root) == d {
                                    let x = choose|x: int| 0 <= x < k && #[trigger] found@[x].0 == before[a];
                                    assert(found@[x].0 < found@[k as int].0);
                                }
                            } else {
                                assert(before[a] == ids@[a] && before[b] == ids@[b]);
                            }
                        }
                        assert forall|q: int| #![trigger found@[q]] 0 <= q < found@.len() && (found@[q].1 < d || (found@[q].1 == d && q < k + 1)) implies ids@.contains(
                            found@[q].0,
                        ) by {
                            if q != k {
                                assert(before.contains(found@[q].0));
                                let x = choose|x: int| 0 <= x < before.len() && before[x] == found@[q].0;
                                assert(ids@[x] == found@[q].0);
                            }
                        }
                        assert forall|q: int| #![trigger ids@[q]] 0 <= q < ids@.len() implies {
                            &&& wanted(s, under, ids@[q] as int)
                            &&& level(s, ids@[q] as int) - level(s, root) < d || (level(s, ids@[q] as int) - level(s, root) == d && exists|x: int|
                                0 <= x < k + 1 && #[trigger] found@[x].0 == ids@[q])
                        } by {
                            if q < before.len() {
                                assert(before[q] == ids@[q]);
                            } else {
                                assert(found@[k as int].0 == ids@[q]);
                            }
                        }
                    }
                }
                k += 1;
            }
            d += 1;
        }
        proof {
            assert forall|j: NodeId| #![trigger ids@.contains(j)] wanted(s, under, j as int) implies ids@.contains(j) by {
                let k = choose|k: int| 0 <= k < found@.len() && #[trigger] found@[k].0 == j;
                assert(found@[k].1 <= deepest);
            }
        }
        ids
    }
}

// -- refreshing -----------------------------------------------------------

/// The directory whose listing a change at `path` could have altered, where it
/// is one that has been read. A path the tree does not know may still be a new
/// entry in a parent it does; anything further out is ignored outright, or
/// every write under an unlisted directory would redraw every view.
pub open spec fn listing_of(s: Slots, path: PathView, is_dir: bool) -> Option<NodeId> {
    let dir = if is_dir && lookup(s, path) is Some {
        Some(path)
    } else if path.names.len() > 0 {
        Some(path.up())
    } else {
        None
    };
    match dir {
        Some(d) => match lookup(s, d) {
            Some(id) if at(s, id as int).kind == Kind::Dir && at(s, id as int).loaded => Some(id),
            _ => None,
        },
        None => None,
    }
}

/// Directories being read again, one after another.
pub struct Refresh {
    /// What was loaded when this began, shallowest first.
    pub queue: Vec<NodeId>,
    /// The next of them to read.
    pub next: usize,
    /// Whether anything read so far came out different.
    pub changed: bool,
    /// Whether any row did.
    pub seen: bool,
    /// Whether this is all of the tree, and not only what is below a path.
    pub all: bool,
}

impl Refresh {
    /// No row came out different without something having.
    pub open spec fn wf(&self) -> bool {
        self.seen ==> self.changed
    }
}

impl Tree {
    /// Which directory to read again for a change at `path`.
    pub fn refresh_target(&self, path: &TreePath, is_dir: bool) -> (r: Option<NodeId>)
        requires
            self.wf(),
        ensures
            r == listing_of(self.slots(), path@, is_dir),
            r matches Some(id) ==> live(self.slots(), id as int),
    {
        let id: Option<NodeId> = if is_dir && self.id_for_path(path).is_some() {
            self.id_for_path(path)
        } else {
            match path.parent() {
                Some(parent) => self.id_for_path(&parent),
                None => None,
            }
        };
        match id {
            Some(id) => {
                let node = self.nodes.node(id);
                if node.is_dir() && node.loaded {
                    Some(id)
                } else {
                    None
                }
            }
            None => None,
        }
    }

    /// Takes in a new reading of the directory listing that a change at `path`
    /// could have altered.
    pub fn refresh_path(&mut self, path: &TreePath, is_dir: bool, listing: Vec<Entry>)
        requires
            old(self).wf(),
            distinct_names(listing@),
        ensures
            final(self).wf(),
            final(self).top() == old(self).top(),
            match listing_of(old(self).slots(), path@, is_dir) {
                Some(id) => {
                    &&& reconciled(
                        old(self).slots(),
                        final(self).slots(),
                        id as int,
                        kept(listing@, old(self).max()),
                        left_out(listing@, old(self).max()),
                    )
                    &&& if at(old(self).slots(), id as int).omitted == left_out(listing@, old(self).max()) && listing_agrees(
                        old(self).slots(),
                        id as int,
                        kept(listing@, old(self).max()),
                    ) {
                        *final(self) == (Tree { nodes: final(self).nodes, ..*old(self) })
                    } else {
                        final(self).redrawn(old(self))
                    }
                },
                None => *final(self) == *old(self),
            },
    {
        if let Some(id) = self.refresh_target(path, is_dir) {
            let (changed, seen) = self.read_again(id, listing);
            if changed {
                self.announce(seen);
            }
        }
    }

    /// Begins reading every loaded directory again.
    pub fn refresh_all(&self) -> (job: Refresh)
        requires
            self.wf(),
        ensures
            shallowest_first(self.slots(), None, job.queue@),
            job.next == 0,
            !job.changed,
            !job.seen,
            job.all,
    {
        Refresh { queue: self.loaded_dirs(None), next: 0, changed: false, seen: false, all: true }
    }

    /// Begins reading `dir` and every loaded directory beneath it again.
    ///
    /// This is what a changed `.gitignore` needs: it alters what git says about
    /// everything below it and nothing about any listing, so `refresh_path`,
    /// which redraws only when a listing actually changed, would see nothing
    /// to do.
    pub fn refresh_subtree(&self, dir: &TreePath) -> (job: Refresh)
        requires
            self.wf(),
        ensures
            shallowest_first(self.slots(), Some(dir@), job.queue@),
            job.next == 0,
            !job.changed,
            !job.seen,
            !job.all,
    {
        Refresh { queue: self.loaded_dirs(Some(dir)), next: 0, changed: false, seen: false, all: false }
    }

    /// The next directory to read, passing over those that went away meanwhile. A
    /// slot that has been given to something else since does not hold one either:
    /// nothing that was never opened is read here.
    pub fn refresh_next(&self, job: &mut Refresh) -> (r: Option<NodeId>)
        ensures
            final(job).queue == old(job).queue,
            final(job).changed == old(job).changed,
            final(job).seen == old(job).seen,
            final(job).all == old(job).all,
            old(job).next <= final(job).next,
            forall|k: int|
                #![trigger old(job).queue@[k]]
                old(job).next <= k < final(job).next && k < old(job).queue@.len() ==> !wanted(
                    self.slots(),
                    None,
                    old(job).queue@[k] as int,
                ),
            match r {
                Some(id) => {
                    &&& final(job).next < old(job).queue@.len()
                    &&& id == old(job).queue@[final(job).next as int]
                    &&& wanted(self.slots(), None, id as int)
                },
                None => final(job).next >= old(job).queue@.len(),
            },
    {
        while job.next < job.queue.len()
            invariant
                job.queue == old(job).queue,
                job.changed == old(job).changed,
                job.seen == old(job).seen,
                job.all == old(job).all,
                old(job).next <= job.next,
                forall|k: int|
                    #![trigger old(job).queue@[k]]
                    old(job).next <= k < job.next && k < old(job).queue@.len() ==> !wanted(
                        self.slots(),
                        None,
                        old(job).queue@[k] as int,
                    ),
            decreases job.queue.len() - job.next,
        {
            let id: NodeId = job.queue[job.next];
            if let Some(node) = self.nodes.get(id) {
                if node.is_dir() && node.loaded {
                    return Some(id);
                }
            }
            job.next = job.next + 1;
        }
        None
    }

    /// Takes in the reading of the directory whose turn it is.
    pub fn refresh_step(&mut self, job: &mut Refresh, listing: Vec<Entry>)
        requires
            old(self).wf(),
            old(job).wf(),
            old(job).next < old(job).queue@.len(),
            wanted(old(self).slots(), None, old(job).queue@[old(job).next as int] as int),
            distinct_names(listing@),
        ensures
            final(self).wf(),
            final(job).wf(),
            final(self).top() == old(self).top(),
            *final(job) == (Refresh {
                next: (old(job).next + 1) as usize,
                changed: final(job).changed,
                seen: old(job).seen || !same_rows(old(self).slots(), final(self).slots(), old(self).top()),
                ..*old(job)
            }),
            ({
                let id = old(job).queue@[old(job).next as int] as int;
                let s = old(self).slots();
                let entries = kept(listing@, old(self).max());
                let omitted = left_out(listing@, old(self).max());
                let changed = !(at(s, id).omitted == omitted && listing_agrees(s, id, entries));
                &&& reconciled(s, final(self).slots(), id, entries, omitted)
                &&& final(self).read_into(old(self), changed)
                &&& final(job).changed == (old(job).changed || changed)
            }),
    {
        let id: NodeId = job.queue[job.next];
        assert(job.next < job.queue.len());
        let (changed, seen) = self.read_again(id, listing);
        job.changed = job.changed || changed;
        job.seen = job.seen || seen;
        job.next = job.next + 1;
    }

    /// What the end of a refresh comes to: one of the whole tree puts the cursor
    /// on the root where its node went away, what is on display is pruned, and
    /// whatever came of it is announced.
    pub open spec fn refresh_ended(&self, before: &Tree, job: Refresh) -> bool {
        let lost = job.all && !live(before.slots(), before.selected as int);
        let moved = if lost {
            Tree { selected: before.nodes.top(), ..*before }
        } else {
            *before
        };
        let held = if job.all || job.changed {
            moved.holding(before.nodes)
        } else {
            moved
        };
        *self == if job.changed || held != *before {
            Tree {
                revision: bumped(before.revision),
                shape: if job.seen {
                    bumped(before.shape)
                } else {
                    before.shape
                },
                ..held
            }
        } else {
            *before
        }
    }

    /// Ends a refresh. Views are told only if something is actually different: a
    /// rule file is read far more often than it is edited, and a reshape resends
    /// the whole tree to every one of them.
    pub fn refresh_done(&mut self, job: &Refresh)
        requires
            old(self).wf(),
            job.wf(),
        ensures
            final(self).wf(),
            final(self).top() == old(self).top(),
            final(self).nodes == old(self).nodes,
            final(self).refresh_ended(old(self), *job),
    {
        let mut told: bool = job.changed;
        if job.all && self.nodes.get(self.selected).is_none() {
            self.selected = self.nodes.root();
            told = true;
        }
        if job.all || job.changed {
            if self.prune_viewing() {
                told = true;
            }
        }
        if told {
            self.announce(job.seen);
        }
    }
}

// -- opening --------------------------------------------------------------

/// What looking a path up on disk came to.
pub enum Resolved {
    /// It could not be resolved, for the reason given.
    Missing(String),
    /// It resolves to a path that cannot be looked at.
    Unreadable(TreePath, String),
    Found { path: TreePath, is_dir: bool, size: u64 },
}

impl Tree {
    /// Opens `given`, which must be a directory, with what reading it gave.
    pub fn new(given: &[u8], found: Resolved, opts: ScanOptions, listing: Vec<Entry>) -> (r: Result<Tree, Error>)
        requires
            distinct_names(listing@),
        ensures
            found matches Resolved::Missing(reason) ==> r matches Err(Error::Open { path, source }) && path@ == given@
                && source == reason,
            found matches Resolved::Unreadable(place, reason) ==> r matches Err(Error::Open { path, source })
                && path@ == place@.text() && source == reason,
            found matches Resolved::Found { path, is_dir, size } ==> if is_dir {
                r matches Ok(tree) && tree.is_opened(path@, size, opts, listing@)
            } else {
                r matches Err(Error::NotADirectory(p)) && p == path
            },
    {
        match found {
            Resolved::Missing(reason) => {
                let mut path: Vec<u8> = Vec::new();
                path.extend_from_slice(given);
                assert(path@ =~= given@);
                Err(Error::Open { path, source: reason })
            }
            Resolved::Unreadable(path, reason) => Err(Error::Open { path: path.text(), source: reason }),
            Resolved::Found { path, is_dir, size } => {
                // Without this, pointing treex at a file yields a one-row tree
                // that cannot be expanded and looks like success.
                if !is_dir {
                    return Err(Error::NotADirectory(path));
                }
                let root: Node = Node::new(path, None, Kind::Dir, false, size);
                let ghost node = root;
                let mut nodes: Arena = Arena::new(root);
                let ghost s = nodes.slots();
                let (entries, omitted) = within_limit(listing, opts.max_entries);
                nodes.reconcile(0, &entries, omitted);
                let ghost mid = nodes.slots();
                nodes.set_expanded(0, true);
                proof {
                    assert(with_open(nodes.slots(), 0, false) =~= mid);
                    assert(is_bare_root(node, path@, size));
                }
                Ok(Tree { nodes, opts, selected: 0, viewing: None, view_line: 0, revision: 1, shape: 1 })
            }
        }
    }

    /// A tree just opened: one directory, read and open, with the cursor on it
    /// and nothing on display.
    pub open spec fn is_opened(&self, path: PathView, size: u64, opts: ScanOptions, listing: Seq<Entry>) -> bool {
        &&& self.wf()
        &&& self.top() == 0
        &&& self.opts == opts
        &&& self.selected == 0
        &&& self.viewing is None
        &&& self.view_line == 0
        &&& self.revision == 1
        &&& self.shape == 1
        &&& exists|bare: Node| #[trigger]
            is_bare_root(bare, path, size) && opened(
                seq![Some(bare)],
                self.slots(),
                0,
                listing,
                opts.max_entries as int,
            )
    }
}

/// A root nothing has been read of yet.
pub open spec fn is_bare_root(n: Node, path: PathView, size: u64) -> bool {
    &&& n.path@ == path
    &&& n.name@ == path.title()
    &&& n.parent is None
    &&& n.kind == Kind::Dir
    &&& !n.symlink
    &&& n.size == size
    &&& !n.expanded
    &&& !n.ignored
    &&& !n.loaded
    &&& n.omitted == 0
    &&& n.children@.len() == 0
}

// -- laws -----------------------------------------------------------------

/// The kinds are numbered as they stand in this list, and marked as `ls -F` marks
/// them.
pub proof fn lemma_kinds_on_the_wire(k: int)
    requires
        0 <= k < 7,
    ensures
        seq![Kind::Dir, Kind::File, Kind::Socket, Kind::Fifo, Kind::CharDevice, Kind::BlockDevice, Kind::Broken][k].spec_code() == k,
        Kind::Dir.spec_suffix() == seq!['/'],
        Kind::Socket.spec_suffix() == seq!['='],
        Kind::Fifo.spec_suffix() == seq!['|'],
        Kind::Broken.spec_suffix() == seq!['@'],
        k == 1 || k == 4 || k == 5 ==> seq![
            Kind::Dir,
            Kind::File,
            Kind::Socket,
            Kind::Fifo,
            Kind::CharDevice,
            Kind::BlockDevice,
            Kind::Broken,
        ][k].spec_suffix().len() == 0,
{
    reveal_strlit("/");
    reveal_strlit("=");
    reveal_strlit("|");
    reveal_strlit("@");
    reveal_strlit("");
    assert("/"@ =~= seq!['/']);
    assert("="@ =~= seq!['=']);
    assert("|"@ =~= seq!['|']);
    assert("@"@ =~= seq!['@']);
}

/// A directory contributes its first entries up to the limit, and what it does
/// not contribute is counted.
pub proof fn lemma_a_listing_is_cut_at_the_limit(entries: Seq<Entry>, max: int)
    requires
        max >= 0,
    ensures
        kept(entries, max).len() + left_out(entries, max) == entries.len(),
        kept(entries, max).len() <= max,
        left_out(entries, max) > 0 ==> kept(entries, max).len() == max,
        forall|k: int| #![trigger kept(entries, max)[k]] 0 <= k < kept(entries, max).len() ==> kept(entries, max)[k] == entries[k],
{
}

proof fn lemma_within_step(s: Slots, i: int, depth: nat, p: int, k: int)
    requires
        within(s, i, depth, p),
        0 <= k < kids(s, p).len(),
        at(s, kids(s, p)[k] as int).kind == Kind::Dir,
    ensures
        within(s, i, depth + 1, kids(s, p)[k] as int),
    decreases depth,
{
    let c = kids(s, p)[k] as int;
    if p == i {
        assert(within(s, kids(s, i)[k] as int, depth, c));
    } else {
        let m = choose|m: int|
            #![trigger kids(s, i)[m]]
            0 <= m < kids(s, i).len() && within(s, kids(s, i)[m] as int, (depth - 1) as nat, p);
        lemma_within_step(s, kids(s, i)[m] as int, (depth - 1) as nat, p, k);
        assert(within(s, kids(s, i)[m] as int, depth, c));
    }
}

proof fn lemma_within_levels(s: Slots, root: int, depth: nat, j: int)
    requires
        is_tree(s, root),
        live(s, j),
        at(s, j).kind == Kind::Dir,
        level(s, j) < level(s, root) + depth,
    ensures
        within(s, root, depth, j),
        level(s, root) <= level(s, j),
    decreases level(s, j),
{
    if j == root {
    } else {
        lemma_parent(s, root, j);
        let p = at(s, j).parent->0 as int;
        let k = choose|k: int| 0 <= k < kids(s, p).len() && kids(s, p)[k] == j as usize;
        assert(kids(s, p)[k] as int == j);
        assert(at(s, p).kind == Kind::Dir);
        lemma_within_levels(s, root, (depth - 1) as nat, p);
        lemma_within_step(s, root, (depth - 1) as nat, p, k);
    }
}

/// Opening to a depth opens every directory fewer levels below the root than
/// that: as long as one is due it is such a directory and not open, and once
/// none is they all are.
pub proof fn lemma_depth_counts_levels(s: Slots, root: int, depth: nat, j: int)
    requires
        is_tree(s, root),
    ensures
        due(s, root, depth) matches Some(id) ==> {
            &&& live(s, id as int)
            &&& at(s, id as int).kind == Kind::Dir
            &&& !(at(s, id as int).expanded && at(s, id as int).loaded)
            &&& level(s, root) <= level(s, id as int) < level(s, root) + depth
        },
        due(s, root, depth) is None && live(s, j) && at(s, j).kind == Kind::Dir && level(s, j) < level(s, root) + depth
            ==> at(s, j).expanded && at(s, j).loaded,
{
    lemma_due(s, root, root, depth);
    lemma_due_levels(s, root, root, depth);
    if due(s, root, depth) is None && live(s, j) && at(s, j).kind == Kind::Dir && level(s, j) < level(s, root) + depth {
        lemma_within_levels(s, root, depth, j);
        lemma_nothing_due(s, root, depth, j);
    }
}

proof fn lemma_due_levels(s: Slots, root: int, i: int, depth: nat)
    requires
        is_tree(s, root),
        live(s, i),
    ensures
        due(s, i, depth) matches Some(id) ==> level(s, id as int) < level(s, i) + depth,
    decreases depth, 1nat, 0nat,
{
    if depth > 0 && at(s, i).kind == Kind::Dir && !stale(s, i) {
        lemma_due_levels_below(s, root, i, kids(s, i).len(), depth);
    }
}

proof fn lemma_due_levels_below(s: Slots, root: int, i: int, n: nat, depth: nat)
    requires
        is_tree(s, root),
        live(s, i),
        n <= kids(s, i).len(),
    ensures
        due_below(s, i, n, depth) matches Some(id) ==> level(s, id as int) < level(s, i) + depth,
    decreases depth, 0nat, n,
{
    if n > 0 && depth > 0 {
        lemma_due_levels_below(s, root, i, (n - 1) as nat, depth);
        let c = kids(s, i)[n - 1] as int;
        assert(live(s, c) && crate::node::one_below(at(s, c).path@, at(s, i).path@));
        lemma_due_levels(s, root, c, (depth - 1) as nat);
    }
}

/// On the way to showing a node the outermost directory that is shut comes first:
/// it is above the node, it is shut, and nothing above it is.
pub proof fn lemma_the_outermost_comes_first(s: Slots, root: int, i: int)
    requires
        is_tree(s, root),
        live(s, i),
    ensures
        shut_above(s, root, i) matches Some(a) ==> {
            &&& live(s, a as int)
            &&& a != i
            &&& at(s, i).path@.under(at(s, a as int).path@)
            &&& at(s, a as int).kind == Kind::Dir && !(at(s, a as int).expanded && at(s, a as int).loaded)
            &&& shut_above(s, root, a as int) is None
        },
    decreases level(s, i),
{
    if i != root {
        lemma_parent(s, root, i);
        let p = at(s, i).parent->0;
        lemma_the_outermost_comes_first(s, root, p as int);
        crate::node::lemma_below_under(at(s, i).path@, at(s, p as int).path@);
        if let Some(a) = shut_above(s, root, p as int) {
            crate::node::lemma_under_trans(at(s, i).path@, at(s, p as int).path@, at(s, a as int).path@);
            assert(level(s, a as int) <= level(s, p as int));
        }
    }
}

/// A refresh reads every loaded directory it is about once, and none before one
/// that is above it.
pub proof fn lemma_parents_are_read_first(s: Slots, base: Option<PathView>, ids: Seq<NodeId>, a: int, b: int)
    requires
        shallowest_first(s, base, ids),
        0 <= a < b < ids.len(),
    ensures
        ids[a] != ids[b],
        level(s, ids[a] as int) <= level(s, ids[b] as int),
        at(s, ids[a] as int).path@.under(at(s, ids[b] as int).path@) ==> at(s, ids[a] as int).path@ == at(
            s,
            ids[b] as int,
        ).path@,
{
    let p = at(s, ids[a] as int).path@;
    let q = at(s, ids[b] as int).path@;
    assert(before_in_order(s, ids[a], ids[b]));
    if p.under(q) {
        crate::node::lemma_under_same_len(p, q);
    }
}

/// What a refresh is about: every directory that has been read, of those at or
/// below a path where it is about one.
pub proof fn lemma_what_a_refresh_is_about(s: Slots, base: Option<PathView>, ids: Seq<NodeId>, i: NodeId)
    requires
        shallowest_first(s, base, ids),
    ensures
        ids.contains(i) <==> {
            &&& live(s, i as int)
            &&& at(s, i as int).kind == Kind::Dir
            &&& at(s, i as int).loaded
            &&& base matches Some(p) ==> at(s, i as int).path@.absolute == p.absolute && p.names.is_prefix_of(
                at(s, i as int).path@.names,
            )
        },
{
    if ids.contains(i) {
        let k = choose|k: int| 0 <= k < ids.len() && ids[k] == i;
        assert(wanted(s, base, ids[k] as int));
    }
    if wanted(s, base, i as int) {
        assert(ids.contains(i));
    }
}

/// Something that happened to a directory the tree has read is about its own
/// listing, and something that happened to anything else about the listing of
/// the directory it is in, where the tree has read that.
pub proof fn lemma_whose_listing_an_event_is_about(s: Slots, root: int, path: PathView, is_dir: bool, id: NodeId)
    requires
        is_tree(s, root),
        live(s, id as int),
        at(s, id as int).kind == Kind::Dir,
        at(s, id as int).loaded,
    ensures
        is_dir && path == at(s, id as int).path@ ==> listing_of(s, path, is_dir) == Some(id),
        !is_dir && path.names.len() > 0 && path.up() == at(s, id as int).path@ ==> listing_of(s, path, is_dir) == Some(id),
        is_dir && lookup(s, path) is None && path.names.len() > 0 && path.up() == at(s, id as int).path@ ==> listing_of(
            s,
            path,
            is_dir,
        ) == Some(id),
        listing_of(s, path, is_dir) matches Some(d) ==> live(s, d as int) && at(s, d as int).kind == Kind::Dir && at(s, d as int).loaded,
{
    lemma_lookup(s, root, id);
}

/// Every change moves a counter on, and by one, until its range is over.
pub proof fn lemma_counters_move_on(n: u64)
    ensures
        bumped(n) != n,
        n < u64::MAX ==> bumped(n) == n + 1,
{
}

} // verus!
