//! The nodes behind a tree, and what it means for them to form one.

use vstd::prelude::*;

use crate::path::{PathView, TreePath};
use crate::scan::Entry;

verus! {

pub type NodeId = usize;

/// What an entry actually is.
///
/// Two booleans could not say this. A socket is not a file, a symlink to a
/// directory is not the same as a directory, and a dangling symlink is neither.
#[derive(Debug, Clone, Copy, PartialEq, Eq, Structural)]
pub enum Kind {
    Dir,
    File,
    Socket,
    Fifo,
    CharDevice,
    BlockDevice,
    /// A symlink whose target could not be resolved.
    Broken,
}

#[derive(Debug)]
pub struct Node {
    pub name: String,
    pub path: TreePath,
    pub parent: Option<NodeId>,
    pub kind: Kind,
    /// Whether this entry was reached through a symlink. Orthogonal to `kind`,
    /// which describes what the link points at.
    pub symlink: bool,
    pub size: u64,
    pub expanded: bool,
    /// Whether git would ignore this path. Display only: an ignored entry is
    /// dimmed, never hidden.
    pub ignored: bool,
    /// Whether `children` reflects the filesystem. Directories start unloaded.
    pub loaded: bool,
    /// Entries left out of `children` because of `ScanOptions::max_entries`.
    pub omitted: usize,
    pub children: Vec<NodeId>,
}

impl Node {
    pub fn is_dir(&self) -> (r: bool)
        ensures
            r == (self.kind == Kind::Dir),
    {
        self.kind == Kind::Dir
    }

    /// A node nothing is known about beyond its directory entry.
    pub(crate) fn new(path: TreePath, parent: Option<NodeId>, kind: Kind, symlink: bool, size: u64) -> (n: Node)
        ensures
            n.path@ == path@,
            n.name@ == path@.title(),
            n.parent == parent,
            n.kind == kind,
            n.symlink == symlink,
            n.size == size,
            !n.ignored,
            !n.expanded,
            !n.loaded,
            n.omitted == 0,
            n.children@.len() == 0,
    {
        let name: String = path.title();
        Node {
            name,
            path,
            parent,
            kind,
            symlink,
            size,
            expanded: false,
            ignored: false,
            loaded: false,
            omitted: 0,
            children: Vec::new(),
        }
    }
}

/// The slots nodes live in; a freed slot is empty until it is used again.
pub type Slots = Seq<Option<Node>>;

pub open spec fn live(s: Slots, i: int) -> bool {
    0 <= i < s.len() && s[i] is Some
}

pub open spec fn at(s: Slots, i: int) -> Node {
    s[i]->0
}

pub open spec fn kids(s: Slots, i: int) -> Seq<NodeId> {
    at(s, i).children@
}

/// `c` is one name below `p`.
pub open spec fn one_below(c: PathView, p: PathView) -> bool {
    c.absolute == p.absolute && c.names.len() == p.names.len() + 1 && c.names.drop_last() == p.names
}

/// Every child a node lists exists, points back, and is one name below it.
pub open spec fn links_down(s: Slots) -> bool {
    forall|i: int, k: int|
        #![trigger kids(s, i)[k]]
        live(s, i) && 0 <= k < kids(s, i).len() ==> {
            let c = kids(s, i)[k] as int;
            &&& live(s, c)
            &&& at(s, c).parent == Some(i as usize)
            &&& one_below(at(s, c).path@, at(s, i).path@)
        }
}

/// A node's parent exists and lists it.
pub open spec fn listed(s: Slots, i: int) -> bool {
    &&& at(s, i).parent is Some
    &&& live(s, at(s, i).parent->0 as int)
    &&& kids(s, at(s, i).parent->0 as int).contains(i as usize)
}

/// Every node but the root is listed by a parent that exists.
pub open spec fn links_up(s: Slots, root: int) -> bool {
    forall|i: int| #![trigger listed(s, i)] live(s, i) && i != root ==> listed(s, i)
}

/// No node lists a child twice.
pub open spec fn no_twins(s: Slots) -> bool {
    forall|i: int| #![trigger kids(s, i)] live(s, i) ==> kids(s, i).no_duplicates()
}

/// A path names at most one node.
pub open spec fn one_per_path(s: Slots) -> bool {
    forall|i: int, j: int|
        #![trigger at(s, i).path@, at(s, j).path@]
        live(s, i) && live(s, j) && at(s, i).path@ == at(s, j).path@ ==> i == j
}

/// Only directories that have been read are ever open.
pub open spec fn open_dirs(s: Slots) -> bool {
    forall|i: int|
        #![trigger at(s, i)]
        live(s, i) && at(s, i).expanded ==> at(s, i).kind == Kind::Dir && at(s, i).loaded
}

/// Only directories that have been read hold anything.
pub open spec fn dirs_hold(s: Slots) -> bool {
    forall|i: int|
        #![trigger kids(s, i)]
        live(s, i) && kids(s, i).len() > 0 ==> at(s, i).kind == Kind::Dir && at(s, i).loaded
}

/// Every node is called after its path.
pub open spec fn titled(s: Slots) -> bool {
    forall|i: int| #![trigger at(s, i).name@] live(s, i) ==> at(s, i).name@ == at(s, i).path@.title()
}

/// The slots form one tree under `root`.
pub open spec fn is_tree(s: Slots, root: int) -> bool {
    &&& s.len() <= usize::MAX
    &&& live(s, root)
    &&& at(s, root).parent is None
    &&& at(s, root).kind == Kind::Dir
    &&& links_down(s)
    &&& links_up(s, root)
    &&& no_twins(s)
    &&& one_per_path(s)
    &&& open_dirs(s)
    &&& titled(s)
    &&& dirs_hold(s)
}

/// The free list holds empty slots, each once.
pub open spec fn free_ok(s: Slots, free: Seq<NodeId>) -> bool {
    &&& free.no_duplicates()
    &&& forall|k: int| #![trigger free[k]] 0 <= k < free.len() ==> free[k] < s.len() && s[free[k] as int] is None
}

// -- reconciling a listing ------------------------------------------------

/// `c` is the child of `id` that the entry `e` describes: the same name, and
/// still the same kind of thing.
pub open spec fn keeps(s: Slots, id: int, e: Entry, c: NodeId) -> bool {
    &&& kids(s, id).contains(c)
    &&& at(s, c as int).path@ == at(s, id).path@.child(e.name@)
    &&& at(s, c as int).kind == e.kind
}

/// No entry describes the child `c` of `id` any more.
pub open spec fn dropped(s: Slots, id: int, entries: Seq<Entry>, c: NodeId) -> bool {
    &&& kids(s, id).contains(c)
    &&& forall|k: int| #![trigger entries[k]] 0 <= k < entries.len() ==> !keeps(s, id, entries[k], c)
}

/// `j` is a dropped child of `id`, or sits somewhere below one.
pub open spec fn doomed(s: Slots, id: int, entries: Seq<Entry>, j: int) -> bool {
    exists|c: NodeId|
        #![trigger kids(s, id).contains(c)]
        dropped(s, id, entries, c) && at(s, j).path@.under(at(s, c as int).path@)
}

/// A node as it is when its entry is first seen.
pub open spec fn is_fresh(n: Node, id: int, path: PathView, e: Entry) -> bool {
    &&& n.path@ == path
    &&& n.name@ == path.title()
    &&& n.parent == Some(id as usize)
    &&& n.kind == e.kind
    &&& n.symlink == e.symlink
    &&& n.size == e.size
    &&& n.ignored == e.ignored
    &&& !n.expanded
    &&& !n.loaded
    &&& n.omitted == 0
    &&& n.children@.len() == 0
}

/// Slot `c` holds what the entry `e` of `id` describes: the node that was
/// there already, refreshed, or else a new one in a slot that was empty.
pub open spec fn entry_applied(old_s: Slots, new_s: Slots, id: int, e: Entry, c: NodeId) -> bool {
    &&& live(new_s, c as int)
    &&& if keeps(old_s, id, e, c) {
        at(new_s, c as int) == (Node {
            size: e.size,
            symlink: e.symlink,
            ignored: e.ignored,
            ..at(old_s, c as int)
        })
    } else {
        &&& forall|d: NodeId| #![trigger kids(old_s, id).contains(d)] !keeps(old_s, id, e, d)
        &&& !live(old_s, c as int)
        &&& is_fresh(at(new_s, c as int), id, at(old_s, id).path@.child(e.name@), e)
    }
}

/// The listing of `id` became `entries`, and nothing else changed.
pub open spec fn reconciled(
    old_s: Slots,
    new_s: Slots,
    id: int,
    entries: Seq<Entry>,
    omitted: int,
) -> bool {
    &&& live(new_s, id)
    &&& at(new_s, id) == (Node {
        children: at(new_s, id).children,
        loaded: true,
        omitted: omitted as usize,
        ..at(old_s, id)
    })
    &&& kids(new_s, id).len() == entries.len()
    &&& forall|k: int|
        #![trigger kids(new_s, id)[k]]
        0 <= k < entries.len() ==> entry_applied(old_s, new_s, id, entries[k], kids(new_s, id)[k])
    &&& forall|j: int|
        #![trigger at(new_s, j)]
        #![trigger live(new_s, j)]
        live(old_s, j) && j != id && !kids(new_s, id).contains(j as usize) ==> if doomed(
            old_s,
            id,
            entries,
            j,
        ) {
            !live(new_s, j)
        } else {
            new_s[j] == old_s[j]
        }
    &&& forall|j: int|
        #![trigger live(new_s, j)]
        live(new_s, j) ==> live(old_s, j) || kids(new_s, id).contains(j as usize)
    &&& old_s.len() <= new_s.len() <= usize::MAX
}

/// Whether an entry says the same of a node that a row would show.
pub open spec fn reads_alike(n: Node, e: Entry) -> bool {
    &&& n.path@.names.last() == e.name@
    &&& n.kind == e.kind
    &&& n.symlink == e.symlink
    &&& n.ignored == e.ignored
}

/// Whether a listing says what the children of `id` already say, in the same
/// order.
pub open spec fn listing_agrees(s: Slots, id: int, entries: Seq<Entry>) -> bool {
    &&& kids(s, id).len() == entries.len()
    &&& forall|k: int|
        #![trigger entries[k]]
        0 <= k < entries.len() ==> reads_alike(at(s, kids(s, id)[k] as int), entries[k])
}

/// A listing names each entry once.
pub open spec fn distinct_names(entries: Seq<Entry>) -> bool {
    forall|a: int, b: int|
        #![trigger entries[a], entries[b]]
        0 <= a < entries.len() && 0 <= b < entries.len() && entries[a].name@ == entries[b].name@ ==> a == b
}

// -- lemmas ---------------------------------------------------------------

pub proof fn lemma_under_trans(a: PathView, b: PathView, c: PathView)
    requires
        a.under(b),
        b.under(c),
    ensures
        a.under(c),
{
}

pub proof fn lemma_below_under(c: PathView, p: PathView)
    requires
        one_below(c, p),
    ensures
        c.under(p),
{
    assert(c.names.drop_last().is_prefix_of(c.names));
}

/// A path below `d` other than `d` itself has its parent below `d` too.
pub proof fn lemma_under_parent(c: PathView, p: PathView, d: PathView)
    requires
        one_below(c, p),
        c.under(d),
        c.names.len() != d.names.len(),
    ensures
        p.under(d),
{
    assert(d.names.is_prefix_of(p.names)) by {
        assert(d.names =~= p.names.take(d.names.len() as int));
    }
}

pub proof fn lemma_under_same_len(a: PathView, b: PathView)
    requires
        a.under(b),
        a.names.len() == b.names.len(),
    ensures
        a == b,
{
    assert(a.names =~= b.names);
}

/// Two paths at the same depth with a common path below both are one path.
pub proof fn lemma_under_both(x: PathView, a: PathView, b: PathView)
    requires
        x.under(a),
        x.under(b),
        a.names.len() == b.names.len(),
    ensures
        a == b,
{
    assert(a.names =~= b.names);
}

/// What a live child knows about its parent.
pub proof fn lemma_parent(s: Slots, root: int, i: int)
    requires
        is_tree(s, root),
        live(s, i),
        i != root,
    ensures
        at(s, i).parent is Some,
        live(s, at(s, i).parent->0 as int),
        kids(s, at(s, i).parent->0 as int).contains(i as usize),
        one_below(at(s, i).path@, at(s, at(s, i).parent->0 as int).path@),
{
    assert(listed(s, i));
    let p = at(s, i).parent->0 as int;
    let k = choose|k: int| 0 <= k < kids(s, p).len() && kids(s, p)[k] == i as usize;
    assert(kids(s, p)[k] as int == i);
}

/// Every node is at or below the root.
pub proof fn lemma_below_root(s: Slots, root: int, i: int)
    requires
        is_tree(s, root),
        live(s, i),
    ensures
        at(s, i).path@.under(at(s, root).path@),
    decreases at(s, i).path@.names.len(),
{
    if i != root {
        lemma_parent(s, root, i);
        let p = at(s, i).parent->0 as int;
        lemma_below_root(s, root, p);
        lemma_below_under(at(s, i).path@, at(s, p).path@);
        lemma_under_trans(at(s, i).path@, at(s, p).path@, at(s, root).path@);
    }
}

/// A node one name below `id` is one of its children.
pub proof fn lemma_is_child(s: Slots, root: int, id: int, j: int)
    requires
        is_tree(s, root),
        live(s, id),
        live(s, j),
        one_below(at(s, j).path@, at(s, id).path@),
    ensures
        kids(s, id).contains(j as usize),
        at(s, j).parent == Some(id as usize),
        j != root,
{
    lemma_below_root(s, root, id);
    lemma_parent(s, root, j);
    let p = at(s, j).parent->0 as int;
    assert(at(s, p).path@ == at(s, id).path@);
    assert(p == id);
}

/// Two entries of one listing never share a slot.
proof fn lemma_kids_distinct(old_s: Slots, new_s: Slots, root: int, id: int, entries: Seq<Entry>, omitted: int)
    requires
        is_tree(old_s, root),
        live(old_s, id),
        distinct_names(entries),
        reconciled(old_s, new_s, id, entries, omitted),
    ensures
        kids(new_s, id).no_duplicates(),
{
    let ks = kids(new_s, id);
    assert forall|a: int, b: int| 0 <= a < ks.len() && 0 <= b < ks.len() && a != b implies ks[a] != ks[b] by {
        if ks[a] == ks[b] {
            assert(entry_applied(old_s, new_s, id, entries[a], ks[a]));
            assert(entry_applied(old_s, new_s, id, entries[b], ks[b]));
            let p = at(old_s, id).path@;
            let c = ks[a];
            if keeps(old_s, id, entries[a], c) {
                let k = choose|k: int| 0 <= k < kids(old_s, id).len() && kids(old_s, id)[k] == c;
                assert(live(old_s, kids(old_s, id)[k] as int));
            }
            if keeps(old_s, id, entries[b], c) {
                let k = choose|k: int| 0 <= k < kids(old_s, id).len() && kids(old_s, id)[k] == c;
                assert(live(old_s, kids(old_s, id)[k] as int));
            }
            assert(p.child(entries[a].name@) == p.child(entries[b].name@));
            assert(p.child(entries[a].name@).names.last() == entries[a].name@);
            assert(p.child(entries[b].name@).names.last() == entries[b].name@);
            assert(entries[a].name@ == entries[b].name@);
        }
    }
}

/// What became of a slot.
pub proof fn lemma_fate(
    old_s: Slots,
    new_s: Slots,
    root: int,
    id: int,
    entries: Seq<Entry>,
    omitted: int,
    j: int,
)
    requires
        is_tree(old_s, root),
        live(old_s, id),
        reconciled(old_s, new_s, id, entries, omitted),
        live(new_s, j),
    ensures
        live(old_s, j) ==> at(new_s, j).path@ == at(old_s, j).path@,
        live(old_s, j) ==> at(new_s, j).parent == at(old_s, j).parent,
        live(old_s, j) ==> at(new_s, j).kind == at(old_s, j).kind,
        live(old_s, j) ==> at(new_s, j).expanded == at(old_s, j).expanded,
        live(old_s, j) ==> at(new_s, j).name@ == at(old_s, j).name@,
        live(old_s, j) && j != id ==> kids(new_s, j) == kids(old_s, j),
        live(old_s, j) && j != id ==> !doomed(old_s, id, entries, j),
        !live(old_s, j) ==> exists|k: int|
            0 <= k < entries.len() && kids(new_s, id)[k] as int == j && is_fresh(
                at(new_s, j),
                id,
                at(old_s, id).path@.child(entries[k].name@),
                #[trigger] entries[k],
            ) && (forall|d: NodeId| #![trigger kids(old_s, id).contains(d)] !keeps(old_s, id, entries[k], d)),
{
    let ks = kids(new_s, id);
    if ks.contains(j as usize) {
        let k = choose|k: int| 0 <= k < ks.len() && ks[k] == j as usize;
        assert(entry_applied(old_s, new_s, id, entries[k], ks[k]));
        assert(ks[k] as int == j);
        if live(old_s, j) {
            assert(keeps(old_s, id, entries[k], ks[k]));
            // A child is one name further down than `id`, so it is not `id`.
            let m = choose|m: int| 0 <= m < kids(old_s, id).len() && kids(old_s, id)[m] == j as usize;
            assert(one_below(at(old_s, kids(old_s, id)[m] as int).path@, at(old_s, id).path@));
            if doomed(old_s, id, entries, j) {
                let c = choose|c: NodeId|
                    #![trigger kids(old_s, id).contains(c)]
                    dropped(old_s, id, entries, c) && at(old_s, j).path@.under(at(old_s, c as int).path@);
                let n = choose|n: int| 0 <= n < kids(old_s, id).len() && kids(old_s, id)[n] == c;
                assert(one_below(at(old_s, kids(old_s, id)[n] as int).path@, at(old_s, id).path@));
                lemma_under_same_len(at(old_s, j).path@, at(old_s, c as int).path@);
                assert(j == c as int);
                assert(!keeps(old_s, id, entries[k], c));
            }
        }
    } else if j != id {
        assert(live(old_s, j));
    }
}

/// Reconciling a listing leaves one tree.
pub proof fn lemma_reconciled(
    old_s: Slots,
    new_s: Slots,
    root: int,
    id: int,
    entries: Seq<Entry>,
    omitted: int,
)
    requires
        is_tree(old_s, root),
        live(old_s, id),
        at(old_s, id).kind == Kind::Dir || entries.len() == 0,
        distinct_names(entries),
        reconciled(old_s, new_s, id, entries, omitted),
    ensures
        is_tree(new_s, root),
{
    let ks = kids(new_s, id);
    lemma_kids_distinct(old_s, new_s, root, id, entries, omitted);
    lemma_survives(old_s, new_s, root, id, entries, omitted, root);
    lemma_fate(old_s, new_s, root, id, entries, omitted, root);
    lemma_fate(old_s, new_s, root, id, entries, omitted, id);
    assert(live(new_s, root));
    assert forall|i: int, k: int| #![trigger kids(new_s, i)[k]] live(new_s, i) && 0 <= k < kids(new_s, i).len() implies {
        let c = kids(new_s, i)[k] as int;
        &&& live(new_s, c)
        &&& at(new_s, c).parent == Some(i as usize)
        &&& one_below(at(new_s, c).path@, at(new_s, i).path@)
    } by {
        let c = kids(new_s, i)[k] as int;
        lemma_fate(old_s, new_s, root, id, entries, omitted, i);
        if i == id {
            assert(entry_applied(old_s, new_s, id, entries[k], kids(new_s, id)[k]));
            lemma_fate(old_s, new_s, root, id, entries, omitted, c);
            if keeps(old_s, id, entries[k], c as usize) {
                let m = choose|m: int| 0 <= m < kids(old_s, id).len() && kids(old_s, id)[m] == c as usize;
                assert(one_below(at(old_s, kids(old_s, id)[m] as int).path@, at(old_s, id).path@));
            } else {
                let p = at(old_s, id).path@;
                assert(p.child(entries[k].name@).names.drop_last() =~= p.names);
            }
        } else {
            assert(live(old_s, i));
            assert(kids(old_s, i)[k] as int == c);
            lemma_child_survives(old_s, new_s, root, id, entries, omitted, i, c);
            lemma_fate(old_s, new_s, root, id, entries, omitted, c);
        }
    }
    assert forall|i: int| #![trigger listed(new_s, i)] live(new_s, i) && i != root implies listed(new_s, i) by {
        lemma_fate(old_s, new_s, root, id, entries, omitted, i);
        if live(old_s, i) {
            lemma_parent(old_s, root, i);
            let p = at(old_s, i).parent->0 as int;
            if p == id {
                lemma_kept_listed(old_s, new_s, root, id, entries, omitted, i);
            } else {
                if i != id {
                    lemma_parent_survives(old_s, new_s, root, id, entries, omitted, i);
                } else {
                    lemma_above_survives(old_s, new_s, root, id, entries, omitted, p);
                }
                lemma_fate(old_s, new_s, root, id, entries, omitted, p);
            }
        } else {
            let k = choose|k: int|
                0 <= k < entries.len() && kids(new_s, id)[k] as int == i && is_fresh(
                    at(new_s, i),
                    id,
                    at(old_s, id).path@.child(entries[k].name@),
                    #[trigger] entries[k],
                ) && (forall|d: NodeId| #![trigger kids(old_s, id).contains(d)] !keeps(old_s, id, entries[k], d));
            assert(kids(new_s, id)[k] == i as usize);
        }
    }
    assert forall|i: int| #![trigger kids(new_s, i)] live(new_s, i) implies kids(new_s, i).no_duplicates() by {
        lemma_fate(old_s, new_s, root, id, entries, omitted, i);
        if i != id && live(old_s, i) {
            assert(kids(old_s, i).no_duplicates());
        }
    }
    assert forall|i: int, j: int| #![trigger at(new_s, i).path@, at(new_s, j).path@] live(new_s, i) && live(new_s, j) && at(
        new_s,
        i,
    ).path@ == at(new_s, j).path@ implies i == j by {
        lemma_one_per_path(old_s, new_s, root, id, entries, omitted, i, j);
    }
    assert forall|i: int| #![trigger at(new_s, i)] live(new_s, i) && at(new_s, i).expanded implies at(new_s, i).kind == Kind::Dir by {
        lemma_fate(old_s, new_s, root, id, entries, omitted, i);
        if live(old_s, i) {
            assert(at(old_s, i).expanded);
        }
    }
    assert forall|i: int| #![trigger kids(new_s, i)] live(new_s, i) && kids(new_s, i).len() > 0 implies at(new_s, i).kind
        == Kind::Dir && at(new_s, i).loaded by {
        lemma_fate(old_s, new_s, root, id, entries, omitted, i);
        if live(old_s, i) && i != id {
            assert(kids(old_s, i).len() > 0);
        }
    }
    assert forall|i: int| #![trigger at(new_s, i).name@] live(new_s, i) implies at(new_s, i).name@ == at(new_s, i).path@.title() by {
        lemma_fate(old_s, new_s, root, id, entries, omitted, i);
        if live(old_s, i) {
            assert(at(old_s, i).name@ == at(old_s, i).path@.title());
        }
    }
}

/// A node at or above `id` is not under anything `id` lists.
pub proof fn lemma_above_survives(
    old_s: Slots,
    new_s: Slots,
    root: int,
    id: int,
    entries: Seq<Entry>,
    omitted: int,
    j: int,
)
    requires
        is_tree(old_s, root),
        live(old_s, id),
        reconciled(old_s, new_s, id, entries, omitted),
        live(old_s, j),
        at(old_s, j).path@.names.len() <= at(old_s, id).path@.names.len(),
    ensures
        live(new_s, j),
{
    if j != id && !kids(new_s, id).contains(j as usize) {
        if doomed(old_s, id, entries, j) {
            let c = choose|c: NodeId|
                #![trigger kids(old_s, id).contains(c)]
                dropped(old_s, id, entries, c) && at(old_s, j).path@.under(at(old_s, c as int).path@);
            let n = choose|n: int| 0 <= n < kids(old_s, id).len() && kids(old_s, id)[n] == c;
            assert(one_below(at(old_s, kids(old_s, id)[n] as int).path@, at(old_s, id).path@));
        }
    } else if j != id {
        let k = choose|k: int| 0 <= k < kids(new_s, id).len() && kids(new_s, id)[k] == j as usize;
        assert(entry_applied(old_s, new_s, id, entries[k], kids(new_s, id)[k]));
    }
}

proof fn lemma_survives(
    old_s: Slots,
    new_s: Slots,
    root: int,
    id: int,
    entries: Seq<Entry>,
    omitted: int,
    j: int,
)
    requires
        is_tree(old_s, root),
        live(old_s, id),
        reconciled(old_s, new_s, id, entries, omitted),
        j == root,
    ensures
        live(new_s, j),
{
    lemma_below_root(old_s, root, id);
    lemma_above_survives(old_s, new_s, root, id, entries, omitted, root);
}

/// A node that stays and is not `id` keeps its children.
proof fn lemma_child_survives(
    old_s: Slots,
    new_s: Slots,
    root: int,
    id: int,
    entries: Seq<Entry>,
    omitted: int,
    i: int,
    c: int,
)
    requires
        is_tree(old_s, root),
        live(old_s, id),
        reconciled(old_s, new_s, id, entries, omitted),
        live(old_s, i),
        live(new_s, i),
        i != id,
        kids(old_s, i).contains(c as usize),
        0 <= c <= usize::MAX,
    ensures
        live(new_s, c),
        live(old_s, c),
{
    let m = choose|m: int| 0 <= m < kids(old_s, i).len() && kids(old_s, i)[m] == c as usize;
    assert(kids(old_s, i)[m] as int == c);
    lemma_fate(old_s, new_s, root, id, entries, omitted, i);
    if c != id && !kids(new_s, id).contains(c as usize) {
        if doomed(old_s, id, entries, c) {
            let d = choose|d: NodeId|
                #![trigger kids(old_s, id).contains(d)]
                dropped(old_s, id, entries, d) && at(old_s, c).path@.under(at(old_s, d as int).path@);
            let n = choose|n: int| 0 <= n < kids(old_s, id).len() && kids(old_s, id)[n] == d;
            assert(one_below(at(old_s, kids(old_s, id)[n] as int).path@, at(old_s, id).path@));
            let pc = at(old_s, c).path@;
            let pd = at(old_s, d as int).path@;
            if pc.names.len() == pd.names.len() {
                lemma_under_same_len(pc, pd);
                assert(c == d as int);
                assert(at(old_s, kids(old_s, id)[n] as int).parent == Some(id as usize));
            } else {
                lemma_under_parent(pc, at(old_s, i).path@, pd);
                assert(doomed(old_s, id, entries, i));
            }
        }
    } else if c != id {
        let k = choose|k: int| 0 <= k < kids(new_s, id).len() && kids(new_s, id)[k] == c as usize;
        assert(entry_applied(old_s, new_s, id, entries[k], kids(new_s, id)[k]));
    }
}

/// A node that stays keeps its parent.
proof fn lemma_parent_survives(
    old_s: Slots,
    new_s: Slots,
    root: int,
    id: int,
    entries: Seq<Entry>,
    omitted: int,
    i: int,
)
    requires
        is_tree(old_s, root),
        live(old_s, id),
        reconciled(old_s, new_s, id, entries, omitted),
        live(old_s, i),
        live(new_s, i),
        i != root,
        i != id,
        at(old_s, i).parent->0 as int != id,
    ensures
        live(new_s, at(old_s, i).parent->0 as int),
{
    lemma_parent(old_s, root, i);
    lemma_fate(old_s, new_s, root, id, entries, omitted, i);
    let p = at(old_s, i).parent->0 as int;
    if !kids(new_s, id).contains(p as usize) {
        if doomed(old_s, id, entries, p) {
            let d = choose|d: NodeId|
                #![trigger kids(old_s, id).contains(d)]
                dropped(old_s, id, entries, d) && at(old_s, p).path@.under(at(old_s, d as int).path@);
            lemma_below_under(at(old_s, i).path@, at(old_s, p).path@);
            lemma_under_trans(at(old_s, i).path@, at(old_s, p).path@, at(old_s, d as int).path@);
            assert(doomed(old_s, id, entries, i));
        }
    } else {
        let k = choose|k: int| 0 <= k < kids(new_s, id).len() && kids(new_s, id)[k] == p as usize;
        assert(entry_applied(old_s, new_s, id, entries[k], kids(new_s, id)[k]));
    }
}

/// A child of `id` that stays is still listed.
proof fn lemma_kept_listed(
    old_s: Slots,
    new_s: Slots,
    root: int,
    id: int,
    entries: Seq<Entry>,
    omitted: int,
    i: int,
)
    requires
        is_tree(old_s, root),
        live(old_s, id),
        reconciled(old_s, new_s, id, entries, omitted),
        live(old_s, i),
        live(new_s, i),
        i != root,
        at(old_s, i).parent == Some(id as usize),
    ensures
        kids(new_s, id).contains(i as usize),
        exists|k: int| 0 <= k < entries.len() && keeps(old_s, id, #[trigger] entries[k], i as usize),
{
    lemma_parent(old_s, root, i);
    lemma_fate(old_s, new_s, root, id, entries, omitted, i);
    assert(at(old_s, i).path@.under(at(old_s, i).path@));
    assert(!dropped(old_s, id, entries, i as usize));
    let k = choose|k: int| 0 <= k < entries.len() && keeps(old_s, id, #[trigger] entries[k], i as usize);
    let c = kids(new_s, id)[k];
    assert(entry_applied(old_s, new_s, id, entries[k], c));
    assert(keeps(old_s, id, entries[k], c));
    let m = choose|m: int| 0 <= m < kids(old_s, id).len() && kids(old_s, id)[m] == c;
    assert(live(old_s, kids(old_s, id)[m] as int));
    assert(at(old_s, c as int).path@ == at(old_s, i).path@);
    assert(c as int == i);
}

proof fn lemma_one_per_path(
    old_s: Slots,
    new_s: Slots,
    root: int,
    id: int,
    entries: Seq<Entry>,
    omitted: int,
    i: int,
    j: int,
)
    requires
        is_tree(old_s, root),
        live(old_s, id),
        distinct_names(entries),
        reconciled(old_s, new_s, id, entries, omitted),
        live(new_s, i),
        live(new_s, j),
        at(new_s, i).path@ == at(new_s, j).path@,
    ensures
        i == j,
{
    lemma_fate(old_s, new_s, root, id, entries, omitted, i);
    lemma_fate(old_s, new_s, root, id, entries, omitted, j);
    if live(old_s, i) && live(old_s, j) {
        assert(at(old_s, i).path@ == at(old_s, j).path@);
    } else if !live(old_s, i) && !live(old_s, j) {
        let a = lemma_fresh_entry(old_s, new_s, root, id, entries, omitted, i);
        let b = lemma_fresh_entry(old_s, new_s, root, id, entries, omitted, j);
        let p = at(old_s, id).path@;
        assert(p.child(entries[a].name@).names.last() == entries[a].name@);
        assert(p.child(entries[b].name@).names.last() == entries[b].name@);
    } else if live(old_s, i) {
        lemma_fresh_clash(old_s, new_s, root, id, entries, omitted, j, i);
    } else {
        lemma_fresh_clash(old_s, new_s, root, id, entries, omitted, i, j);
    }
}

proof fn lemma_fresh_entry(
    old_s: Slots,
    new_s: Slots,
    root: int,
    id: int,
    entries: Seq<Entry>,
    omitted: int,
    f: int,
) -> (k: int)
    requires
        is_tree(old_s, root),
        live(old_s, id),
        reconciled(old_s, new_s, id, entries, omitted),
        live(new_s, f),
        !live(old_s, f),
    ensures
        0 <= k < entries.len(),
        kids(new_s, id)[k] as int == f,
        is_fresh(at(new_s, f), id, at(old_s, id).path@.child(entries[k].name@), entries[k]),
        forall|d: NodeId| #![trigger kids(old_s, id).contains(d)] !keeps(old_s, id, entries[k], d),
{
    lemma_fate(old_s, new_s, root, id, entries, omitted, f);
    choose|k: int|
        0 <= k < entries.len() && kids(new_s, id)[k] as int == f && is_fresh(
            at(new_s, f),
            id,
            at(old_s, id).path@.child(entries[k].name@),
            #[trigger] entries[k],
        ) && (forall|d: NodeId| #![trigger kids(old_s, id).contains(d)] !keeps(old_s, id, entries[k], d))
}

/// A new node is never where a surviving one already was.
proof fn lemma_fresh_clash(
    old_s: Slots,
    new_s: Slots,
    root: int,
    id: int,
    entries: Seq<Entry>,
    omitted: int,
    f: int,
    j: int,
)
    requires
        is_tree(old_s, root),
        live(old_s, id),
        distinct_names(entries),
        reconciled(old_s, new_s, id, entries, omitted),
        live(new_s, f),
        !live(old_s, f),
        live(new_s, j),
        live(old_s, j),
    ensures
        at(new_s, f).path@ != at(new_s, j).path@,
{
    if at(new_s, f).path@ == at(new_s, j).path@ {
        let a = lemma_fresh_entry(old_s, new_s, root, id, entries, omitted, f);
        lemma_fate(old_s, new_s, root, id, entries, omitted, j);
        let p = at(old_s, id).path@;
        assert(p.child(entries[a].name@).names.drop_last() =~= p.names);
        lemma_is_child(old_s, root, id, j);
        lemma_kept_listed(old_s, new_s, root, id, entries, omitted, j);
        let k = choose|k: int| 0 <= k < entries.len() && keeps(old_s, id, #[trigger] entries[k], j as usize);
        assert(p.child(entries[a].name@).names.last() == entries[a].name@);
        assert(p.child(entries[k].name@).names.last() == entries[k].name@);
        assert(entries[a].name@ == entries[k].name@);
        assert(a == k);
        assert(kids(old_s, id).contains(j as usize));
    }
}

} // verus!
