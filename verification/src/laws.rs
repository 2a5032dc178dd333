//! What can be relied on about a tree across changes.

use vstd::prelude::*;

use crate::node::{
    at, distinct_names, doomed, dropped, entry_applied, is_tree, keeps, kids, lemma_below_root,
    lemma_fate, lemma_parent, lemma_reconciled, lemma_under_both, lemma_under_parent,
    lemma_under_same_len, listing_agrees, live, one_below, reads_alike, reconciled, Kind, NodeId, Slots,
};
use crate::path::PathView;
use crate::scan::Entry;
use crate::shown::{deeper, lemma_deeper_step, level, shown, shown_below, shown_from};
use crate::tree::{kept, left_out, listing_of, lookup};

verus! {

/// What a listing still describes stays: the same node, open or shut as it was,
/// with the same children and everything below it untouched.
pub proof fn lemma_expansion_survives(
    s: Slots,
    t: Slots,
    root: int,
    id: int,
    entries: Seq<Entry>,
    omitted: int,
    k: int,
    c: NodeId,
)
    requires
        is_tree(s, root),
        live(s, id),
        distinct_names(entries),
        reconciled(s, t, id, entries, omitted),
        0 <= k < entries.len(),
        keeps(s, id, entries[k], c),
    ensures
        kids(t, id)[k] == c,
        live(t, c as int),
        at(t, c as int).expanded == at(s, c as int).expanded,
        at(t, c as int).loaded == at(s, c as int).loaded,
        kids(t, c as int) == kids(s, c as int),
        forall|j: int|
            #![trigger t[j]]
            live(s, j) && j != c && at(s, j).path@.under(at(s, c as int).path@) ==> t[j] == s[j],
{
    let d = kids(t, id)[k];
    assert(entry_applied(s, t, id, entries[k], d));
    let a = choose|a: int| 0 <= a < kids(s, id).len() && kids(s, id)[a] == c;
    let p = at(s, id).path@;
    let pc = at(s, c as int).path@;
    assert(live(s, kids(s, id)[a] as int) && one_below(pc, p));
    assert(keeps(s, id, entries[k], d));
    let b = choose|b: int| 0 <= b < kids(s, id).len() && kids(s, id)[b] == d;
    assert(live(s, kids(s, id)[b] as int));
    assert(at(s, d as int).path@ == pc);
    assert(c == d);
    assert forall|j: int| #![trigger t[j]] live(s, j) && j != c && at(s, j).path@.under(pc) implies t[j] == s[j] by {
        let pj = at(s, j).path@;
        if pj.names.len() == pc.names.len() {
            lemma_under_same_len(pj, pc);
        }
        assert(j != id);
        assert(!kids(t, id).contains(j as usize)) by {
            if kids(t, id).contains(j as usize) {
                let m = choose|m: int| 0 <= m < kids(t, id).len() && kids(t, id)[m] == j as usize;
                assert(entry_applied(s, t, id, entries[m], kids(t, id)[m]));
                assert(keeps(s, id, entries[m], j as usize));
                let n = choose|n: int| 0 <= n < kids(s, id).len() && kids(s, id)[n] == j as usize;
                assert(one_below(at(s, kids(s, id)[n] as int).path@, p));
            }
        }
        if doomed(s, id, entries, j) {
            let x = choose|x: NodeId|
                #![trigger kids(s, id).contains(x)]
                dropped(s, id, entries, x) && pj.under(at(s, x as int).path@);
            let n = choose|n: int| 0 <= n < kids(s, id).len() && kids(s, id)[n] == x;
            assert(one_below(at(s, kids(s, id)[n] as int).path@, p));
            lemma_under_both(pj, at(s, x as int).path@, pc);
            assert(x == c);
            assert(!keeps(s, id, entries[k], c));
        }
        assert(at(t, j) == at(s, j));
    }
}

/// What a listing no longer names is gone with everything below it: no node is
/// left there.
pub proof fn lemma_unlisted_is_gone(
    s: Slots,
    t: Slots,
    root: int,
    id: int,
    entries: Seq<Entry>,
    omitted: int,
    name: Seq<u8>,
    i: int,
)
    requires
        is_tree(s, root),
        live(s, id),
        at(s, id).kind == Kind::Dir || entries.len() == 0,
        distinct_names(entries),
        reconciled(s, t, id, entries, omitted),
        forall|k: int| #![trigger entries[k]] 0 <= k < entries.len() ==> entries[k].name@ != name,
        live(t, i),
    ensures
        !at(t, i).path@.under(at(s, id).path@.child(name)),
    decreases at(t, i).path@.names.len(),
{
    let p = at(s, id).path@;
    let gone = p.child(name);
    let pi = at(t, i).path@;
    if pi.under(gone) {
        lemma_reconciled(s, t, root, id, entries, omitted);
        lemma_fate(s, t, root, id, entries, omitted, id);
        lemma_fate(s, t, root, id, entries, omitted, root);
        if pi.names.len() == gone.names.len() {
            lemma_under_same_len(pi, gone);
            assert(pi.names.drop_last() =~= p.names);
            crate::node::lemma_is_child(t, root, id, i);
            let k = choose|k: int| 0 <= k < kids(t, id).len() && kids(t, id)[k] == i as usize;
            assert(entry_applied(s, t, id, entries[k], kids(t, id)[k]));
            assert(p.child(entries[k].name@).names.last() == entries[k].name@);
            assert(gone.names.last() == name);
        } else {
            if i == root {
                lemma_below_root(t, root, id);
            }
            crate::node::lemma_parent(t, root, i);
            let q = at(t, i).parent->0 as int;
            crate::node::lemma_under_parent(pi, at(t, q).path@, gone);
            lemma_unlisted_is_gone(s, t, root, id, entries, omitted, name, q);
        }
    }
}

/// A directory never contributes more rows than its limit, and says how many it
/// left out.
pub proof fn lemma_contribution_is_bounded(s: Slots, t: Slots, id: int, listing: Seq<Entry>, max: int)
    requires
        0 <= max <= usize::MAX,
        listing.len() <= usize::MAX,
        reconciled(s, t, id, kept(listing, max), left_out(listing, max)),
    ensures
        kids(t, id).len() <= max,
        kids(t, id).len() + at(t, id).omitted == listing.len(),
{
}

/// Reading again what has just been read is no change, whatever became of the
/// sizes: only names, kinds, links and dimming are drawn.
pub proof fn lemma_reread_is_quiet(
    s: Slots,
    t: Slots,
    root: int,
    id: int,
    entries: Seq<Entry>,
    again: Seq<Entry>,
    omitted: int,
)
    requires
        is_tree(s, root),
        live(s, id),
        reconciled(s, t, id, entries, omitted),
        0 <= omitted <= usize::MAX,
        again.len() == entries.len(),
        forall|k: int|
            #![trigger again[k]]
            0 <= k < again.len() ==> again[k].name@ == entries[k].name@ && again[k].kind == entries[k].kind && again[k].symlink
                == entries[k].symlink && again[k].ignored == entries[k].ignored,
    ensures
        at(t, id).loaded,
        at(t, id).omitted == omitted,
        listing_agrees(t, id, again),
{
    assert forall|k: int| #![trigger again[k]] 0 <= k < again.len() implies reads_alike(at(t, kids(t, id)[k] as int), again[k]) by {
        let c = kids(t, id)[k];
        assert(entry_applied(s, t, id, entries[k], c));
        let p = at(s, id).path@;
        assert(p.child(entries[k].name@).names.last() == entries[k].name@);
    }
}

/// A change somewhere the tree does not list is nobody's business: neither the
/// path nor its parent is known, so there is nothing to read again.
pub proof fn lemma_unknown_paths_are_ignored(s: Slots, path: PathView, is_dir: bool)
    requires
        lookup(s, path) is None,
        path.names.len() == 0 || lookup(s, path.up()) is None,
    ensures
        listing_of(s, path, is_dir) is None,
{
}

/// Every path the tree answers to is at or below its root.
pub proof fn lemma_known_paths_are_below_root(s: Slots, root: int, path: PathView)
    requires
        is_tree(s, root),
        lookup(s, path) is Some,
    ensures
        path.under(at(s, root).path@),
{
    let id = choose|i: NodeId| #![trigger at(s, i as int)] live(s, i as int) && at(s, i as int).path@ == path;
    lemma_below_root(s, root, id as int);
}

/// A node with anything below it lists something.
proof fn lemma_something_is_listed(s: Slots, root: int, id: int, j: int)
    requires
        is_tree(s, root),
        live(s, id),
        live(s, j),
        j != id,
        at(s, j).path@.under(at(s, id).path@),
    ensures
        kids(s, id).len() > 0,
    decreases at(s, j).path@.names.len(),
{
    let top = at(s, id).path@;
    if at(s, j).path@.names.len() == top.names.len() {
        lemma_under_same_len(at(s, j).path@, top);
    }
    if j == root {
        lemma_below_root(s, root, id);
    }
    lemma_parent(s, root, j);
    let p = at(s, j).parent->0 as int;
    if p != id {
        lemma_under_parent(at(s, j).path@, at(s, p).path@, top);
        lemma_something_is_listed(s, root, id, p);
    }
}

/// Nothing below a directory that was never opened is in the tree, so nothing
/// below it can be read either, until it is.
pub proof fn lemma_unopened_directories_hold_nothing(s: Slots, root: int, id: int, path: PathView)
    requires
        is_tree(s, root),
        live(s, id),
        !at(s, id).loaded,
        path.under(at(s, id).path@),
        path != at(s, id).path@,
    ensures
        lookup(s, path) is None,
{
    if let Some(j) = lookup(s, path) {
        assert(live(s, j as int) && at(s, j as int).path@ == path);
        lemma_something_is_listed(s, root, id, j as int);
    }
}

/// Whether two states of a tree differ in nothing that decides which rows there
/// are.
spec fn same_outline(s: Slots, t: Slots) -> bool {
    forall|j: int|
        #![trigger live(t, j)]
        #![trigger at(t, j)]
        (live(t, j) <==> live(s, j)) && (live(s, j) ==> {
            &&& kids(t, j) == kids(s, j)
            &&& at(t, j).expanded == at(s, j).expanded
            &&& at(t, j).path@ == at(s, j).path@
        })
}

proof fn lemma_same_outline_from(s: Slots, t: Slots, root: int, i: int, depth: nat, last: bool)
    requires
        is_tree(s, root),
        is_tree(t, root),
        same_outline(s, t),
        live(s, i),
    ensures
        shown_from(t, i, depth, last) == shown_from(s, i, depth, last),
    decreases deeper(s, level(s, i)), 1nat, 0nat,
{
    assert(live(t, i));
    if at(s, i).expanded {
        lemma_same_outline_below(s, t, root, i, kids(s, i).len(), depth);
    }
}

proof fn lemma_same_outline_below(s: Slots, t: Slots, root: int, i: int, n: nat, depth: nat)
    requires
        is_tree(s, root),
        is_tree(t, root),
        same_outline(s, t),
        live(s, i),
        n <= kids(s, i).len(),
    ensures
        shown_below(t, i, n, depth) == shown_below(s, i, n, depth),
    decreases deeper(s, level(s, i)), 0nat, n,
{
    assert(live(t, i));
    if n > 0 {
        let c = kids(s, i)[n - 1] as int;
        assert(live(s, c) && one_below(at(s, c).path@, at(s, i).path@));
        lemma_deeper_step(s, level(s, i), c);
        lemma_same_outline_below(s, t, root, i, (n - 1) as nat, depth);
        lemma_same_outline_from(s, t, root, c, depth + 1, n == kids(s, i).len());
    }
}

/// A reading that reports no change really leaves the rows as they were: the
/// same nodes in the same order, and of each the same name, kind, link and
/// dimming.
pub proof fn lemma_quiet_reading_keeps_the_rows(
    s: Slots,
    t: Slots,
    root: int,
    id: int,
    entries: Seq<Entry>,
    omitted: int,
)
    requires
        is_tree(s, root),
        live(s, id),
        at(s, id).kind == Kind::Dir || entries.len() == 0,
        distinct_names(entries),
        0 <= omitted <= usize::MAX,
        reconciled(s, t, id, entries, omitted),
        at(s, id).loaded,
        at(s, id).omitted == omitted,
        listing_agrees(s, id, entries),
    ensures
        shown(t, root) == shown(s, root),
        forall|j: int| #![trigger live(s, j)] live(s, j) ==> live(t, j),
        forall|j: int|
            #![trigger at(t, j)]
            live(t, j) ==> {
                &&& live(s, j)
                &&& at(t, j).name@ == at(s, j).name@
                &&& at(t, j).path@ == at(s, j).path@
                &&& at(t, j).kind == at(s, j).kind
                &&& at(t, j).symlink == at(s, j).symlink
                &&& at(t, j).expanded == at(s, j).expanded
                &&& at(t, j).ignored == at(s, j).ignored
                &&& at(t, j).omitted == at(s, j).omitted
            },
{
    lemma_reconciled(s, t, root, id, entries, omitted);
    let p = at(s, id).path@;
    assert forall|k: int| #![trigger kids(t, id)[k]] 0 <= k < entries.len() implies kids(t, id)[k] == kids(s, id)[k] && keeps(
        s,
        id,
        entries[k],
        kids(s, id)[k],
    ) by {
        let c = kids(s, id)[k];
        assert(live(s, kids(s, id)[k] as int) && one_below(at(s, c as int).path@, p));
        assert(reads_alike(at(s, kids(s, id)[k] as int), entries[k]));
        assert(at(s, c as int).path@.names =~= p.names.push(entries[k].name@));
        assert(kids(s, id).contains(c));
        assert(keeps(s, id, entries[k], c));
        lemma_expansion_survives(s, t, root, id, entries, omitted, k, c);
    }
    assert(kids(t, id) =~= kids(s, id));
    assert forall|j: int| live(s, j) implies !doomed(s, id, entries, j) by {
        if doomed(s, id, entries, j) {
            let c = choose|c: NodeId|
                #![trigger kids(s, id).contains(c)]
                dropped(s, id, entries, c) && at(s, j).path@.under(at(s, c as int).path@);
            let k = choose|k: int| 0 <= k < kids(s, id).len() && kids(s, id)[k] == c;
            assert(kids(t, id)[k] == c);
            assert(!keeps(s, id, entries[k], c));
        }
    }
    assert forall|j: int| #![trigger at(t, j)] #![trigger live(t, j)] (live(t, j) <==> live(s, j)) && (live(s, j) ==> {
        &&& kids(t, j) == kids(s, j)
        &&& at(t, j).name@ == at(s, j).name@
        &&& at(t, j).path@ == at(s, j).path@
        &&& at(t, j).kind == at(s, j).kind
        &&& at(t, j).symlink == at(s, j).symlink
        &&& at(t, j).expanded == at(s, j).expanded
        &&& at(t, j).ignored == at(s, j).ignored
        &&& at(t, j).omitted == at(s, j).omitted
    }) by {
        if kids(t, id).contains(j as usize) && 0 <= j <= usize::MAX {
            let k = choose|k: int| 0 <= k < kids(t, id).len() && kids(t, id)[k] == j as usize;
            assert(kids(t, id)[k] as int == j);
            assert(entry_applied(s, t, id, entries[k], kids(t, id)[k]));
            assert(reads_alike(at(s, kids(s, id)[k] as int), entries[k]));
            assert(live(s, kids(s, id)[k] as int));
        } else if j == id {
        } else if live(s, j) {
            assert(t[j] == s[j]);
        } else if live(t, j) {
        }
    }
    lemma_same_outline_from(s, t, root, root, 0, true);
}

/// Taking a listing in leaves a directory with exactly what is listed, in that
/// order, each entry as the listing says it is, and with the rest counted. What
/// is new is shut and unread.
pub proof fn lemma_a_listing_is_taken_over(
    s: Slots,
    t: Slots,
    root: int,
    id: int,
    entries: Seq<Entry>,
    omitted: int,
    k: int,
)
    requires
        is_tree(s, root),
        live(s, id),
        reconciled(s, t, id, entries, omitted),
        0 <= k < entries.len(),
        0 <= omitted <= usize::MAX,
    ensures
        ({
            let c = kids(t, id)[k] as int;
            &&& kids(t, id).len() == entries.len()
            &&& at(t, id).omitted == omitted
            &&& at(t, id).loaded
            &&& at(t, id).expanded == at(s, id).expanded
            &&& live(t, c)
            &&& at(t, c).path@ == at(s, id).path@.child(entries[k].name@)
            &&& at(t, c).kind == entries[k].kind
            &&& at(t, c).size == entries[k].size
            &&& at(t, c).symlink == entries[k].symlink
            &&& at(t, c).ignored == entries[k].ignored
            &&& at(t, c).parent == Some(id as usize)
            &&& !live(s, c) ==> !at(t, c).expanded && !at(t, c).loaded && kids(t, c).len() == 0
        }),
{
    let c = kids(t, id)[k];
    assert(entry_applied(s, t, id, entries[k], c));
    if keeps(s, id, entries[k], c) {
        let a = choose|a: int| 0 <= a < kids(s, id).len() && kids(s, id)[a] == c;
        assert(live(s, kids(s, id)[a] as int));
    }
}

} // verus!
