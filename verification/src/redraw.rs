//! Which changes to a tree views have to draw.

use vstd::prelude::*;

use crate::arena::all_shut;
use crate::laws::lemma_quiet_reading_keeps_the_rows;
use crate::node::{
    at, distinct_names, doomed, dropped, entry_applied, is_tree, keeps, kids, lemma_below_root,
    lemma_below_under, lemma_is_child, lemma_parent, lemma_reconciled, lemma_under_parent,
    lemma_under_same_len, lemma_under_trans, listing_agrees, live, one_below, reads_alike, reconciled,
    Kind, Node, NodeId, Slots,
};
use crate::scan::Entry;
use crate::shown::{
    deeper, lemma_deeper_step, lemma_place_of, lemma_rows_distinct, level, shown, shown_below, shown_from,
    Shown,
};
use crate::tree::{kept, left_out, opened, with_open};
use crate::visibility::{
    lemma_child_first, lemma_children_shown_from, lemma_visible_iff_open_above, open_above,
};

verus! {

/// Whether two nodes look the same in a row. How large a file is never shows in
/// the tree, so sizes do not count.
pub open spec fn drawn_alike(a: Node, b: Node) -> bool {
    &&& a.name@ == b.name@
    &&& a.path@ == b.path@
    &&& a.kind == b.kind
    &&& a.symlink == b.symlink
    &&& a.expanded == b.expanded
    &&& a.ignored == b.ignored
    &&& a.omitted == b.omitted
}

/// Whether the rows of two states of a tree come out the same.
pub open spec fn same_rows(s: Slots, t: Slots, root: int) -> bool {
    &&& shown(t, root) == shown(s, root)
    &&& forall|k: int|
        #![trigger shown(s, root)[k]]
        0 <= k < shown(s, root).len() ==> drawn_alike(
            at(s, shown(s, root)[k].id as int),
            at(t, shown(s, root)[k].id as int),
        )
}

// -- rows that stay -------------------------------------------------------

/// `j` is still there, open or shut as it was, and lists what it listed where
/// that shows.
spec fn steady(s: Slots, t: Slots, j: int) -> bool {
    &&& live(t, j)
    &&& at(t, j).expanded == at(s, j).expanded
    &&& at(s, j).expanded ==> kids(t, j) == kids(s, j)
}

proof fn lemma_steady_from(s: Slots, t: Slots, root: int, i: int, depth: nat, last: bool)
    requires
        is_tree(s, root),
        is_tree(t, root),
        live(s, i),
        forall|k: int|
            #![trigger shown_from(s, i, depth, last)[k]]
            0 <= k < shown_from(s, i, depth, last).len() ==> steady(s, t, shown_from(s, i, depth, last)[k].id as int),
    ensures
        shown_from(t, i, depth, last) == shown_from(s, i, depth, last),
    decreases deeper(s, level(s, i)), 1nat, 0nat,
{
    let all = shown_from(s, i, depth, last);
    assert(steady(s, t, all[0].id as int));
    if at(s, i).expanded {
        let below = shown_below(s, i, kids(s, i).len(), depth);
        assert forall|k: int| #![trigger below[k]] 0 <= k < below.len() implies steady(s, t, below[k].id as int) by {
            assert(all[k + 1] == below[k]);
        }
        lemma_steady_below(s, t, root, i, kids(s, i).len(), depth);
    }
}

proof fn lemma_steady_below(s: Slots, t: Slots, root: int, i: int, n: nat, depth: nat)
    requires
        is_tree(s, root),
        is_tree(t, root),
        live(s, i),
        live(t, i),
        kids(t, i) == kids(s, i),
        n <= kids(s, i).len(),
        forall|k: int|
            #![trigger shown_below(s, i, n, depth)[k]]
            0 <= k < shown_below(s, i, n, depth).len() ==> steady(s, t, shown_below(s, i, n, depth)[k].id as int),
    ensures
        shown_below(t, i, n, depth) == shown_below(s, i, n, depth),
    decreases deeper(s, level(s, i)), 0nat, n,
{
    if n > 0 {
        let all = shown_below(s, i, n, depth);
        let front = shown_below(s, i, (n - 1) as nat, depth);
        let c = kids(s, i)[n - 1] as int;
        let is_last = n == kids(s, i).len();
        let back = shown_from(s, c, depth + 1, is_last);
        assert(live(s, c) && one_below(at(s, c).path@, at(s, i).path@));
        lemma_deeper_step(s, level(s, i), c);
        assert(all == front + back);
        assert forall|k: int| #![trigger front[k]] 0 <= k < front.len() implies steady(s, t, front[k].id as int) by {
            assert(all[k] == front[k]);
        }
        assert forall|k: int| #![trigger back[k]] 0 <= k < back.len() implies steady(s, t, back[k].id as int) by {
            assert(all[front.len() + k] == back[k]);
        }
        lemma_steady_below(s, t, root, i, (n - 1) as nat, depth);
        lemma_steady_from(s, t, root, c, depth + 1, is_last);
    }
}

/// Where every row's node stays as it was, so do the rows.
proof fn lemma_steady_rows(s: Slots, t: Slots, root: int)
    requires
        is_tree(s, root),
        is_tree(t, root),
        forall|k: int|
            #![trigger shown(s, root)[k]]
            0 <= k < shown(s, root).len() ==> {
                let j = shown(s, root)[k].id as int;
                steady(s, t, j) && drawn_alike(at(s, j), at(t, j))
            },
    ensures
        same_rows(s, t, root),
{
    assert forall|k: int| #![trigger shown_from(s, root, 0, true)[k]] 0 <= k < shown_from(s, root, 0, true).len() implies steady(
        s,
        t,
        shown_from(s, root, 0, true)[k].id as int,
    ) by {
        assert(shown(s, root)[k] == shown_from(s, root, 0, true)[k]);
    }
    lemma_steady_from(s, t, root, root, 0, true);
}

/// Every row's node exists, with every directory above it open.
proof fn lemma_row_is_open_above(s: Slots, root: int, k: int)
    requires
        is_tree(s, root),
        0 <= k < shown(s, root).len(),
    ensures
        live(s, shown(s, root)[k].id as int),
        open_above(s, root, shown(s, root)[k].id as int),
{
    lemma_rows_distinct(s, root);
    lemma_place_of(s, root, k);
    lemma_visible_iff_open_above(s, root, shown(s, root)[k].id);
}

/// A node with every directory above it open has a row.
proof fn lemma_open_above_has_a_row(s: Slots, root: int, id: int) -> (k: int)
    requires
        is_tree(s, root),
        live(s, id),
        open_above(s, root, id),
    ensures
        0 <= k < shown(s, root).len(),
        shown(s, root)[k].id as int == id,
{
    lemma_visible_iff_open_above(s, root, id as usize);
    choose|k: int| 0 <= k < shown(s, root).len() && #[trigger] shown(s, root)[k].id == id as usize
}

/// Nothing below a directory that does not show its listing has a row.
proof fn lemma_hidden_below(s: Slots, root: int, id: int, j: int)
    requires
        is_tree(s, root),
        live(s, id),
        live(s, j),
        j != id,
        at(s, j).path@.under(at(s, id).path@),
        !(open_above(s, root, id) && at(s, id).expanded),
    ensures
        !open_above(s, root, j),
    decreases level(s, j),
{
    let top = at(s, id).path@;
    if at(s, j).path@.names.len() == top.names.len() {
        lemma_under_same_len(at(s, j).path@, top);
    }
    if j == root {
        lemma_below_root(s, root, id);
    }
    lemma_parent(s, root, j);
    let p = at(s, j).parent->0 as int;
    if p != id {
        lemma_under_parent(at(s, j).path@, at(s, p).path@, top);
        lemma_hidden_below(s, root, id, p);
    }
}

/// A reading of `id` leaves alone whatever is not at or below it.
proof fn lemma_untouched(s: Slots, t: Slots, root: int, id: int, entries: Seq<Entry>, omitted: int, j: int)
    requires
        is_tree(s, root),
        live(s, id),
        reconciled(s, t, id, entries, omitted),
        live(s, j),
        !at(s, j).path@.under(at(s, id).path@),
    ensures
        t[j] == s[j],
        live(t, j),
{
    let p = at(s, id).path@;
    assert(p.under(p));
    assert forall|c: NodeId| #![trigger kids(s, id).contains(c)] kids(s, id).contains(c) implies at(s, c as int).path@.under(p) by {
        let a = choose|a: int| 0 <= a < kids(s, id).len() && kids(s, id)[a] == c;
        assert(one_below(at(s, kids(s, id)[a] as int).path@, p));
        lemma_below_under(at(s, c as int).path@, p);
    }
    if kids(t, id).contains(j as usize) {
        let k = choose|k: int| 0 <= k < kids(t, id).len() && kids(t, id)[k] == j as usize;
        assert(entry_applied(s, t, id, entries[k], kids(t, id)[k]));
        assert(keeps(s, id, entries[k], j as usize));
    }
    if doomed(s, id, entries, j) {
        let c = choose|c: NodeId|
            #![trigger kids(s, id).contains(c)]
            dropped(s, id, entries, c) && at(s, j).path@.under(at(s, c as int).path@);
        lemma_under_trans(at(s, j).path@, at(s, c as int).path@, p);
    }
    assert(at(t, j) == at(s, j) || !live(t, j));
}

// -- rows that tell -------------------------------------------------------

/// Whether `a` has a row before one of `b`.
pub open spec fn comes_before(rows: Seq<Shown>, a: NodeId, b: NodeId) -> bool {
    exists|x: int, y: int| 0 <= x < y < rows.len() && #[trigger] rows[x].id == a && #[trigger] rows[y].id == b
}

proof fn lemma_siblings_first(s: Slots, root: int, i: int, n: nat, depth: nat, a: int, b: int)
    requires
        is_tree(s, root),
        live(s, i),
        0 <= a < b < n <= kids(s, i).len(),
    ensures
        comes_before(shown_below(s, i, n, depth), kids(s, i)[a], kids(s, i)[b]),
    decreases n,
{
    let all = shown_below(s, i, n, depth);
    let front = shown_below(s, i, (n - 1) as nat, depth);
    let c = kids(s, i)[n - 1] as int;
    assert(live(s, c));
    let back = shown_from(s, c, depth + 1, n == kids(s, i).len());
    assert(all == front + back);
    if b < n - 1 {
        lemma_siblings_first(s, root, i, (n - 1) as nat, depth, a, b);
        let (x, y) = choose|x: int, y: int|
            0 <= x < y < front.len() && #[trigger] front[x].id == kids(s, i)[a] && #[trigger] front[y].id == kids(s, i)[b];
        assert(all[x].id == kids(s, i)[a] && all[y].id == kids(s, i)[b]);
    } else {
        lemma_child_first(s, root, i, (n - 1) as nat, depth, a);
        let x = choose|x: int| 0 <= x < front.len() && #[trigger] front[x].id == kids(s, i)[a];
        assert(back[0].id == c as usize);
        assert(all[x].id == kids(s, i)[a] && all[front.len() as int].id == kids(s, i)[b]);
    }
}

/// The children of an open node that has a row have theirs in the order it lists
/// them.
pub proof fn lemma_siblings_from(s: Slots, root: int, i: int, depth: nat, last: bool, p: NodeId, a: int, b: int)
    requires
        is_tree(s, root),
        live(s, i),
        live(s, p as int),
        at(s, p as int).expanded,
        0 <= a < b < kids(s, p as int).len(),
        exists|k: int| 0 <= k < shown_from(s, i, depth, last).len() && #[trigger] shown_from(s, i, depth, last)[k].id == p,
    ensures
        comes_before(shown_from(s, i, depth, last), kids(s, p as int)[a], kids(s, p as int)[b]),
    decreases deeper(s, level(s, i)), 1nat, 0nat,
{
    let all = shown_from(s, i, depth, last);
    let k = choose|k: int| 0 <= k < all.len() && #[trigger] all[k].id == p;
    let below = shown_below(s, i, kids(s, i).len(), depth);
    if k == 0 {
        lemma_siblings_first(s, root, i, kids(s, i).len(), depth, a, b);
    } else {
        assert(all[k] == below[k - 1]);
        lemma_siblings_below(s, root, i, kids(s, i).len(), depth, p, a, b);
    }
    let (x, y) = choose|x: int, y: int|
        0 <= x < y < below.len() && #[trigger] below[x].id == kids(s, p as int)[a] && #[trigger] below[y].id == kids(
            s,
            p as int,
        )[b];
    assert(all[x + 1] == below[x] && all[y + 1] == below[y]);
}

proof fn lemma_siblings_below(s: Slots, root: int, i: int, n: nat, depth: nat, p: NodeId, a: int, b: int)
    requires
        is_tree(s, root),
        live(s, i),
        n <= kids(s, i).len(),
        live(s, p as int),
        at(s, p as int).expanded,
        0 <= a < b < kids(s, p as int).len(),
        exists|k: int| 0 <= k < shown_below(s, i, n, depth).len() && #[trigger] shown_below(s, i, n, depth)[k].id == p,
    ensures
        comes_before(shown_below(s, i, n, depth), kids(s, p as int)[a], kids(s, p as int)[b]),
    decreases deeper(s, level(s, i)), 0nat, n,
{
    let all = shown_below(s, i, n, depth);
    if n > 0 {
        let k = choose|k: int| 0 <= k < all.len() && #[trigger] all[k].id == p;
        let front = shown_below(s, i, (n - 1) as nat, depth);
        let c = kids(s, i)[n - 1] as int;
        let is_last = n == kids(s, i).len();
        let back = shown_from(s, c, depth + 1, is_last);
        let first = kids(s, p as int)[a];
        let second = kids(s, p as int)[b];
        assert(live(s, c) && one_below(at(s, c).path@, at(s, i).path@));
        lemma_deeper_step(s, level(s, i), c);
        assert(all == front + back);
        if k < front.len() {
            assert(front[k].id == p);
            lemma_siblings_below(s, root, i, (n - 1) as nat, depth, p, a, b);
            let (x, y) = choose|x: int, y: int|
                0 <= x < y < front.len() && #[trigger] front[x].id == first && #[trigger] front[y].id == second;
            assert(all[x] == front[x] && all[y] == front[y]);
        } else {
            assert(back[k - front.len()].id == p);
            lemma_siblings_from(s, root, c, depth + 1, is_last, p, a, b);
            let (x, y) = choose|x: int, y: int|
                0 <= x < y < back.len() && #[trigger] back[x].id == first && #[trigger] back[y].id == second;
            assert(all[front.len() + x] == back[x] && all[front.len() + y] == back[y]);
        }
    }
}

/// Two lists of the same nodes, each in the order of the rows, are one list.
proof fn lemma_one_order(rows: Seq<Shown>, a: Seq<NodeId>, b: Seq<NodeId>)
    requires
        a.no_duplicates(),
        b.no_duplicates(),
        forall|k: int| #![trigger a[k]] 0 <= k < a.len() ==> b.contains(a[k]),
        forall|k: int| #![trigger b[k]] 0 <= k < b.len() ==> a.contains(b[k]),
        forall|x: int, y: int| #![trigger a[x], a[y]] 0 <= x < y < a.len() ==> comes_before(rows, a[x], a[y]),
        forall|x: int, y: int| #![trigger b[x], b[y]] 0 <= x < y < b.len() ==> comes_before(rows, b[x], b[y]),
        forall|x: int, y: int| #![trigger rows[x], rows[y]] 0 <= x < y < rows.len() ==> rows[x].id != rows[y].id,
    ensures
        a == b,
{
    assert forall|k: int| 0 <= k < a.len() && k < b.len() implies a[k] == b[k] by {
        lemma_one_order_at(rows, a, b, k);
    }
    if a.len() > b.len() {
        let k = b.len() as int;
        assert(b.contains(a[k]));
        let m = choose|m: int| 0 <= m < b.len() && b[m] == a[k];
        assert(a[m] == b[m]);
    } else if b.len() > a.len() {
        let k = a.len() as int;
        assert(a.contains(b[k]));
        let m = choose|m: int| 0 <= m < a.len() && a[m] == b[k];
        assert(a[m] == b[m]);
    }
    assert(a =~= b);
}

proof fn lemma_one_order_at(rows: Seq<Shown>, a: Seq<NodeId>, b: Seq<NodeId>, k: int)
    requires
        a.no_duplicates(),
        b.no_duplicates(),
        forall|k: int| #![trigger a[k]] 0 <= k < a.len() ==> b.contains(a[k]),
        forall|k: int| #![trigger b[k]] 0 <= k < b.len() ==> a.contains(b[k]),
        forall|x: int, y: int| #![trigger a[x], a[y]] 0 <= x < y < a.len() ==> comes_before(rows, a[x], a[y]),
        forall|x: int, y: int| #![trigger b[x], b[y]] 0 <= x < y < b.len() ==> comes_before(rows, b[x], b[y]),
        forall|x: int, y: int| #![trigger rows[x], rows[y]] 0 <= x < y < rows.len() ==> rows[x].id != rows[y].id,
        0 <= k < a.len(),
        k < b.len(),
    ensures
        a[k] == b[k],
    decreases k,
{
    assert forall|j: int| 0 <= j < k implies a[j] == b[j] by {
        lemma_one_order_at(rows, a, b, j);
    }
    assert(b.contains(a[k]));
    assert(a.contains(b[k]));
    let m = choose|m: int| 0 <= m < b.len() && b[m] == a[k];
    let j = choose|j: int| 0 <= j < a.len() && a[j] == b[k];
    if m < k {
        assert(a[m] == b[m]);
    } else if j < k {
        assert(a[j] == b[j]);
    } else if m > k && j > k {
        assert(comes_before(rows, b[k], b[m]));
        assert(comes_before(rows, a[k], a[j]));
        let (x, y) = choose|x: int, y: int|
            0 <= x < y < rows.len() && #[trigger] rows[x].id == b[k] && #[trigger] rows[y].id == b[m];
        let (u, v) = choose|u: int, v: int|
            0 <= u < v < rows.len() && #[trigger] rows[u].id == a[k] && #[trigger] rows[v].id == a[j];
        if x < v {
            assert(rows[x].id != rows[v].id);
        } else if v < x {
            assert(rows[v].id != rows[x].id);
        }
        if y < u {
            assert(rows[y].id != rows[u].id);
        } else if u < y {
            assert(rows[u].id != rows[y].id);
        }
    }
}

/// The children of an open node that has a row have rows of their own.
proof fn lemma_children_have_rows(s: Slots, t: Slots, root: int, p: int)
    requires
        is_tree(s, root),
        is_tree(t, root),
        live(s, p),
        open_above(s, root, p),
        at(s, p).expanded,
        shown(t, root) == shown(s, root),
        live(t, p),
        at(t, p).path@ == at(s, p).path@,
        forall|k: int|
            #![trigger shown(s, root)[k]]
            0 <= k < shown(s, root).len() ==> at(t, shown(s, root)[k].id as int).path@ == at(
                s,
                shown(s, root)[k].id as int,
            ).path@,
    ensures
        forall|a: int|
            #![trigger kids(s, p)[a]]
            0 <= a < kids(s, p).len() ==> kids(t, p).contains(kids(s, p)[a]) && exists|k: int|
                0 <= k < shown(s, root).len() && #[trigger] shown(s, root)[k].id == kids(s, p)[a],
{
    let rows = shown(s, root);
    let k0 = lemma_open_above_has_a_row(s, root, p);
    assert(shown_from(s, root, 0, true)[k0].id == p as usize);
    assert forall|a: int| #![trigger kids(s, p)[a]] 0 <= a < kids(s, p).len() implies kids(t, p).contains(kids(s, p)[a])
        && exists|k: int| 0 <= k < rows.len() && #[trigger] rows[k].id == kids(s, p)[a] by {
        let c = kids(s, p)[a];
        assert(one_below(at(s, c as int).path@, at(s, p).path@));
        lemma_children_shown_from(s, root, root, 0, true, p as usize, a);
        let x = choose|x: int|
            0 <= x < shown_from(s, root, 0, true).len() && #[trigger] shown_from(s, root, 0, true)[x].id == c;
        assert(rows[x].id == c);
        lemma_rows_distinct(t, root);
        assert(shown(t, root)[x].id == c);
        lemma_is_child(t, root, p, c as int);
    }
}

/// Rows that come out the same say that an open directory lists what it listed.
proof fn lemma_rows_fix_the_children(s: Slots, t: Slots, root: int, p: int)
    requires
        is_tree(s, root),
        is_tree(t, root),
        live(s, p),
        open_above(s, root, p),
        at(s, p).expanded,
        same_rows(s, t, root),
    ensures
        kids(t, p) == kids(s, p),
{
    let rows = shown(s, root);
    let k0 = lemma_open_above_has_a_row(s, root, p);
    assert(drawn_alike(at(s, p), at(t, p)));
    lemma_rows_distinct(s, root);
    lemma_rows_distinct(t, root);
    assert(shown(t, root)[k0].id == p as usize);
    lemma_row_is_open_above(t, root, k0);
    assert forall|k: int| #![trigger shown(t, root)[k]] 0 <= k < shown(t, root).len() implies at(
        s,
        shown(t, root)[k].id as int,
    ).path@ == at(t, shown(t, root)[k].id as int).path@ by {
        assert(drawn_alike(at(s, rows[k].id as int), at(t, rows[k].id as int)));
    }
    lemma_children_have_rows(s, t, root, p);
    lemma_children_have_rows(t, s, root, p);
    let a = kids(s, p);
    let b = kids(t, p);
    assert(shown_from(s, root, 0, true)[k0].id == p as usize);
    assert(shown_from(t, root, 0, true)[k0].id == p as usize);
    assert forall|x: int, y: int| #![trigger a[x], a[y]] 0 <= x < y < a.len() implies comes_before(rows, a[x], a[y]) by {
        lemma_siblings_from(s, root, root, 0, true, p as usize, x, y);
    }
    assert forall|x: int, y: int| #![trigger b[x], b[y]] 0 <= x < y < b.len() implies comes_before(rows, b[x], b[y]) by {
        lemma_siblings_from(t, root, root, 0, true, p as usize, x, y);
    }
    lemma_one_order(rows, a, b);
}

// -- what each change comes to --------------------------------------------

/// Opening or shutting a directory shows exactly where the directory does.
pub proof fn lemma_flipping_shows(s: Slots, root: int, id: int, expanded: bool)
    requires
        is_tree(s, root),
        live(s, id),
        at(s, id).expanded != expanded,
        is_tree(with_open(s, id, expanded), root),
    ensures
        same_rows(s, with_open(s, id, expanded), root) <==> !open_above(s, root, id),
{
    let t = with_open(s, id, expanded);
    if open_above(s, root, id) {
        let k = lemma_open_above_has_a_row(s, root, id);
        assert(shown(s, root)[k].id as int == id);
    } else {
        assert forall|k: int| #![trigger shown(s, root)[k]] 0 <= k < shown(s, root).len() implies {
            let j = shown(s, root)[k].id as int;
            steady(s, t, j) && drawn_alike(at(s, j), at(t, j))
        } by {
            lemma_row_is_open_above(s, root, k);
        }
        lemma_steady_rows(s, t, root);
    }
}

/// A directory that shutting every one of them would shut in front of a viewer.
pub open spec fn shuts_in_sight(s: Slots, root: int, j: int) -> bool {
    live(s, j) && j != root && at(s, j).expanded && open_above(s, root, j)
}

/// Shutting every directory but the root shows exactly where one of them stands
/// open in sight, or the root itself was shut.
pub proof fn lemma_shutting_all_shows(s: Slots, root: int)
    requires
        is_tree(s, root),
        is_tree(with_open(all_shut(s), root, true), root),
    ensures
        same_rows(s, with_open(all_shut(s), root, true), root) <==> at(s, root).expanded && forall|j: int|
            !#[trigger] shuts_in_sight(s, root, j),
{
    let t = with_open(all_shut(s), root, true);
    if !at(s, root).expanded {
        let k = lemma_open_above_has_a_row(s, root, root);
        assert(shown(s, root)[k].id as int == root);
    } else if exists|j: int| #[trigger] shuts_in_sight(s, root, j) {
        let j = choose|j: int| #[trigger] shuts_in_sight(s, root, j);
        let k = lemma_open_above_has_a_row(s, root, j);
        assert(shown(s, root)[k].id as int == j);
        assert(t[j] == all_shut(s)[j]);
    } else {
        assert forall|k: int| #![trigger shown(s, root)[k]] 0 <= k < shown(s, root).len() implies {
            let j = shown(s, root)[k].id as int;
            steady(s, t, j) && drawn_alike(at(s, j), at(t, j))
        } by {
            let j = shown(s, root)[k].id as int;
            lemma_row_is_open_above(s, root, k);
            assert(!shuts_in_sight(s, root, j));
            assert(j != root ==> t[j] == all_shut(s)[j]);
        }
        lemma_steady_rows(s, t, root);
    }
}

/// A reading of a directory shows exactly where the directory does, and either
/// leaves out another number of entries or, where the directory is open, says
/// something else of one of them.
pub open spec fn reading_shows(s: Slots, root: int, id: int, entries: Seq<Entry>, omitted: int) -> bool {
    &&& open_above(s, root, id)
    &&& at(s, id).omitted != omitted || (at(s, id).expanded && !listing_agrees(s, id, entries))
}

pub proof fn lemma_reading_shows(s: Slots, t: Slots, root: int, id: int, entries: Seq<Entry>, omitted: int)
    requires
        is_tree(s, root),
        live(s, id),
        at(s, id).kind == Kind::Dir || entries.len() == 0,
        distinct_names(entries),
        0 <= omitted <= usize::MAX,
        reconciled(s, t, id, entries, omitted),
    ensures
        is_tree(t, root),
        same_rows(s, t, root) <==> !reading_shows(s, root, id, entries, omitted),
{
    lemma_reconciled(s, t, root, id, entries, omitted);
    let rows = shown(s, root);
    if !open_above(s, root, id) || (at(s, id).omitted == omitted && !at(s, id).expanded) {
        assert forall|k: int| #![trigger shown(s, root)[k]] 0 <= k < shown(s, root).len() implies {
            let j = shown(s, root)[k].id as int;
            steady(s, t, j) && drawn_alike(at(s, j), at(t, j))
        } by {
            let j = shown(s, root)[k].id as int;
            lemma_row_is_open_above(s, root, k);
            if j != id {
                if at(s, j).path@.under(at(s, id).path@) {
                    lemma_hidden_below(s, root, id, j);
                }
                lemma_untouched(s, t, root, id, entries, omitted, j);
            }
        }
        lemma_steady_rows(s, t, root);
    } else if at(s, id).omitted != omitted {
        let k = lemma_open_above_has_a_row(s, root, id);
        assert(rows[k].id as int == id);
    } else if listing_agrees(s, id, entries) {
        lemma_quiet_reading_keeps_the_rows(s, t, root, id, entries, omitted);
        lemma_rows_distinct(t, root);
        assert forall|k: int| #![trigger shown(s, root)[k]] 0 <= k < shown(s, root).len() implies drawn_alike(
            at(s, shown(s, root)[k].id as int),
            at(t, shown(s, root)[k].id as int),
        ) by {
            assert(live(t, shown(t, root)[k].id as int));
            assert(at(t, shown(t, root)[k].id as int).path@ == at(s, shown(t, root)[k].id as int).path@);
        }
    } else if same_rows(s, t, root) {
        lemma_rows_fix_the_children(s, t, root, id);
        lemma_same_children_agree(s, t, root, id, entries, omitted);
    }
}

/// A reading that leaves the rows and the children as they were said nothing
/// new.
proof fn lemma_same_children_agree(s: Slots, t: Slots, root: int, id: int, entries: Seq<Entry>, omitted: int)
    requires
        is_tree(s, root),
        is_tree(t, root),
        live(s, id),
        open_above(s, root, id),
        at(s, id).expanded,
        reconciled(s, t, id, entries, omitted),
        same_rows(s, t, root),
        kids(t, id) == kids(s, id),
    ensures
        listing_agrees(s, id, entries),
{
    let rows = shown(s, root);
    let k0 = lemma_open_above_has_a_row(s, root, id);
    assert(shown_from(s, root, 0, true)[k0].id == id as usize);
    assert forall|k: int| #![trigger entries[k]] 0 <= k < entries.len() implies reads_alike(
        at(s, kids(s, id)[k] as int),
        entries[k],
    ) by {
        let c = kids(s, id)[k];
        assert(entry_applied(s, t, id, entries[k], kids(t, id)[k]));
        assert(live(s, kids(s, id)[k] as int));
        assert(keeps(s, id, entries[k], c));
        lemma_children_shown_from(s, root, root, 0, true, id as usize, k);
        let x = choose|x: int|
            0 <= x < shown_from(s, root, 0, true).len() && #[trigger] shown_from(s, root, 0, true)[x].id == c;
        assert(rows[x].id == c);
        assert(drawn_alike(at(s, c as int), at(t, c as int)));
        let p = at(s, id).path@;
        assert(p.child(entries[k].name@).names.last() == entries[k].name@);
    }
}

/// Reading a shut directory and opening it shows exactly where the directory
/// does.
pub proof fn lemma_opening_shows(s: Slots, t: Slots, root: int, id: int, listing: Seq<Entry>, max: int)
    requires
        is_tree(s, root),
        is_tree(t, root),
        live(s, id),
        !at(s, id).expanded,
        opened(s, t, id, listing, max),
    ensures
        same_rows(s, t, root) <==> !open_above(s, root, id),
{
    let mid = with_open(t, id, false);
    let entries = kept(listing, max);
    let omitted = left_out(listing, max);
    if open_above(s, root, id) {
        let k = lemma_open_above_has_a_row(s, root, id);
        assert(shown(s, root)[k].id as int == id);
    } else {
        assert forall|k: int| #![trigger shown(s, root)[k]] 0 <= k < shown(s, root).len() implies {
            let j = shown(s, root)[k].id as int;
            steady(s, t, j) && drawn_alike(at(s, j), at(t, j))
        } by {
            let j = shown(s, root)[k].id as int;
            lemma_row_is_open_above(s, root, k);
            if at(s, j).path@.under(at(s, id).path@) {
                lemma_hidden_below(s, root, id, j);
            }
            lemma_untouched(s, mid, root, id, entries, omitted, j);
            assert(mid[j] == t[j]);
        }
        lemma_steady_rows(s, t, root);
    }
}

/// Shutting a directory and opening it again, with nothing new in it, gives back
/// the rows there were.
pub proof fn lemma_collapse_then_expand(s: Slots, t: Slots, root: int, id: int, listing: Seq<Entry>, max: int)
    requires
        is_tree(s, root),
        live(s, id),
        at(s, id).expanded,
        0 <= max,
        listing.len() <= usize::MAX,
        distinct_names(listing),
        opened(with_open(s, id, false), t, id, listing, max),
        at(s, id).omitted == left_out(listing, max),
        listing_agrees(s, id, kept(listing, max)),
    ensures
        same_rows(s, t, root),
{
    let mid = with_open(s, id, false);
    let end = with_open(t, id, false);
    let entries = kept(listing, max);
    let omitted = left_out(listing, max);
    assert(reconciled(mid, end, id, entries, omitted));
    assert(kids(mid, id) == kids(s, id));
    assert(kids(end, id) == kids(t, id));
    assert forall|c: NodeId| #![trigger kids(s, id).contains(c)] kids(s, id).contains(c) implies c as int != id by {
        let a = choose|a: int| 0 <= a < kids(s, id).len() && kids(s, id)[a] == c;
        assert(one_below(at(s, kids(s, id)[a] as int).path@, at(s, id).path@));
    }
    assert forall|e: Entry, c: NodeId| #![trigger keeps(s, id, e, c)] #![trigger keeps(mid, id, e, c)] keeps(s, id, e, c) == keeps(
        mid,
        id,
        e,
        c,
    ) by {}
    assert forall|k: int| #![trigger kids(t, id)[k]] 0 <= k < entries.len() implies entry_applied(
        s,
        t,
        id,
        entries[k],
        kids(t, id)[k],
    ) by {
        let c = kids(end, id)[k];
        assert(entry_applied(mid, end, id, entries[k], kids(end, id)[k]));
        if !keeps(s, id, entries[k], c) {
            assert forall|d: NodeId| #![trigger kids(s, id).contains(d)] !keeps(s, id, entries[k], d) by {
                assert(kids(mid, id).contains(d) == kids(s, id).contains(d));
                assert(!keeps(mid, id, entries[k], d));
            }
        }
    }
    assert forall|j: int| #![trigger doomed(s, id, entries, j)] live(s, j) && j != id implies doomed(s, id, entries, j) == doomed(
        mid,
        id,
        entries,
        j,
    ) by {
        assert forall|c: NodeId| #![trigger kids(s, id).contains(c)] kids(s, id).contains(c) implies dropped(s, id, entries, c) == dropped(
            mid,
            id,
            entries,
            c,
        ) by {}
    }
    assert forall|j: int|
        #![trigger live(s, j)]
        live(s, j) && j != id && !kids(t, id).contains(j as usize) implies if doomed(s, id, entries, j) {
        !live(t, j)
    } else {
        t[j] == s[j]
    } by {
        assert(live(mid, j));
        assert(at(end, j) == at(t, j));
        assert(live(end, j) == live(t, j));
    }
    assert forall|j: int| #![trigger live(t, j)] live(t, j) implies live(s, j) || kids(t, id).contains(j as usize) by {
        assert(live(end, j));
        assert(live(mid, j) == live(s, j));
    }
    assert(at(end, id) == (Node { expanded: false, ..at(t, id) }));
    assert(at(t, id) == (Node {
        children: at(t, id).children,
        loaded: true,
        omitted: omitted as usize,
        ..at(s, id)
    }));
    assert(reconciled(s, t, id, entries, omitted));
    assert(distinct_names(entries));
    lemma_reading_shows(s, t, root, id, entries, omitted);
}

} // verus!
