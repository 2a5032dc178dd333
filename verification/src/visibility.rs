//! What can be relied on about which nodes are visible, and where.

use vstd::prelude::*;

use crate::node::{at, is_tree, kids, lemma_parent, live, one_below, NodeId, Slots};
use crate::shown::{
    deeper, lemma_deeper_step, lemma_shown_below, lemma_shown_from, level, place_of, placed_below, shown,
    shown_below, shown_from, Shown,
};
use crate::tree::shut_above;

verus! {

/// `j` is the row of `k`'s parent: open, one step out, and with nothing in
/// between that is not further in.
pub open spec fn parent_row(s: Slots, rows: Seq<Shown>, k: int, j: int) -> bool {
    &&& 0 <= j < k < rows.len()
    &&& at(s, rows[k].id as int).parent == Some(rows[j].id)
    &&& at(s, rows[j].id as int).expanded
    &&& rows[j].depth + 1 == rows[k].depth
    &&& forall|m: int| #![trigger rows[m]] j < m < k ==> rows[m].depth >= rows[k].depth
}

spec fn has_parent_row(s: Slots, rows: Seq<Shown>, k: int) -> bool {
    exists|j: int| parent_row(s, rows, k, j)
}

/// Every row but the first has its parent's among them.
spec fn nested(s: Slots, rows: Seq<Shown>) -> bool {
    forall|k: int| #![trigger has_parent_row(s, rows, k)] 0 < k < rows.len() ==> has_parent_row(s, rows, k)
}

/// Whether a row has `i` for a parent, one step further out than these rows
/// start.
spec fn child_row(s: Slots, i: int, depth: nat, sh: Shown) -> bool {
    at(s, sh.id as int).parent == Some(i as usize) && sh.depth == depth + 1
}

/// Every row is a child of `i` or has its parent's row among them.
spec fn nested_below(s: Slots, i: int, depth: nat, rows: Seq<Shown>) -> bool {
    forall|k: int|
        #![trigger has_parent_row(s, rows, k)]
        0 <= k < rows.len() ==> child_row(s, i, depth, rows[k]) || has_parent_row(s, rows, k)
}

proof fn lemma_parent_rows_from(s: Slots, root: int, i: int, depth: nat, last: bool)
    requires
        is_tree(s, root),
        live(s, i),
    ensures
        nested(s, shown_from(s, i, depth, last)),
    decreases deeper(s, level(s, i)), 1nat, 0nat,
{
    let all = shown_from(s, i, depth, last);
    if at(s, i).expanded {
        let below = shown_below(s, i, kids(s, i).len(), depth);
        lemma_parent_rows_below(s, root, i, kids(s, i).len(), depth);
        lemma_shown_below(s, root, i, kids(s, i).len(), depth);
        assert(all == seq![Shown { id: i as usize, depth, last }] + below);
        assert forall|k: int| #![trigger has_parent_row(s, all, k)] 0 < k < all.len() implies has_parent_row(s, all, k) by {
            assert(all[k] == below[k - 1]);
            assert(child_row(s, i, depth, below[k - 1]) || has_parent_row(s, below, k - 1));
            if child_row(s, i, depth, below[k - 1]) {
                assert forall|m: int| #![trigger all[m]] 0 < m < k implies all[m].depth >= all[k].depth by {
                    assert(all[m] == below[m - 1]);
                    assert(placed_below(s, i, depth, below[m - 1]));
                }
                assert(parent_row(s, all, k, 0));
            } else {
                let b = k - 1;
                let j = choose|j: int| parent_row(s, below, b, j);
                assert(all[j + 1] == below[j]);
                assert forall|m: int| #![trigger all[m]] j + 1 < m < k implies all[m].depth >= all[k].depth by {
                    assert(all[m] == below[m - 1]);
                }
                assert(parent_row(s, all, k, j + 1));
            }
        }
    } else {
        assert(all.len() == 1);
    }
}

proof fn lemma_parent_rows_below(s: Slots, root: int, i: int, n: nat, depth: nat)
    requires
        is_tree(s, root),
        live(s, i),
        n <= kids(s, i).len(),
    ensures
        nested_below(s, i, depth, shown_below(s, i, n, depth)),
    decreases deeper(s, level(s, i)), 0nat, n,
{
    if n > 0 {
        let all = shown_below(s, i, n, depth);
        let front = shown_below(s, i, (n - 1) as nat, depth);
        let c = kids(s, i)[n - 1] as int;
        let back = shown_from(s, c, depth + 1, n == kids(s, i).len());
        assert(live(s, c) && one_below(at(s, c).path@, at(s, i).path@));
        lemma_deeper_step(s, level(s, i), c);
        lemma_parent_rows_below(s, root, i, (n - 1) as nat, depth);
        lemma_parent_rows_from(s, root, c, depth + 1, n == kids(s, i).len());
        assert(all == front + back);
        assert forall|k: int| #![trigger has_parent_row(s, all, k)] 0 <= k < all.len() implies child_row(s, i, depth, all[k])
            || has_parent_row(s, all, k) by {
            let f = front.len() as int;
            if k < f {
                assert(all[k] == front[k]);
                assert(child_row(s, i, depth, front[k]) || has_parent_row(s, front, k));
                if !child_row(s, i, depth, front[k]) {
                    let j = choose|j: int| parent_row(s, front, k, j);
                    assert(all[j] == front[j]);
                    assert forall|m: int| #![trigger all[m]] j < m < k implies all[m].depth >= all[k].depth by {
                        assert(all[m] == front[m]);
                    }
                    assert(parent_row(s, all, k, j));
                }
            } else if k == f {
                assert(all[k] == back[0]);
            } else {
                assert(all[k] == back[k - f]);
                assert(has_parent_row(s, back, k - f));
                let b = k - f;
                let j = choose|j: int| parent_row(s, back, b, j);
                assert(all[f + j] == back[j]);
                assert forall|m: int| #![trigger all[m]] f + j < m < k implies all[m].depth >= all[k].depth by {
                    assert(all[m] == back[m - f]);
                }
                assert(parent_row(s, all, k, f + j));
            }
        }
    }
}

/// The last row before a row that is one step further out is its parent's, so
/// a client that knows depths and names alone can rebuild every path.
pub proof fn lemma_rows_rebuild_paths(s: Slots, root: int, k: int) -> (j: int)
    requires
        is_tree(s, root),
        0 < k < shown(s, root).len(),
    ensures
        parent_row(s, shown(s, root), k, j),
        at(s, shown(s, root)[k].id as int).path@ == at(s, shown(s, root)[j].id as int).path@.child(
            at(s, shown(s, root)[k].id as int).path@.names.last(),
        ),
{
    lemma_parent_rows_from(s, root, root, 0, true);
    lemma_shown_from(s, root, root, 0, true);
    let rows = shown(s, root);
    assert(has_parent_row(s, rows, k));
    let j = choose|j: int| parent_row(s, rows, k, j);
    let c = rows[k].id as int;
    assert(live(s, c)) by {
        assert(crate::shown::placed(s, root, 0, shown_from(s, root, 0, true)[k]));
    }
    assert(c != root) by {
        assert(at(s, c).parent is Some);
    }
    lemma_parent(s, root, c);
    let p = at(s, rows[j].id as int).path@;
    let pc = at(s, c).path@;
    assert(pc.names =~= p.names.push(pc.names.last()));
    j
}

/// A child of an open node that has a row has one too.
pub proof fn lemma_children_shown_from(s: Slots, root: int, i: int, depth: nat, last: bool, p: NodeId, m: int)
    requires
        is_tree(s, root),
        live(s, i),
        live(s, p as int),
        at(s, p as int).expanded,
        0 <= m < kids(s, p as int).len(),
        exists|k: int| 0 <= k < shown_from(s, i, depth, last).len() && #[trigger] shown_from(s, i, depth, last)[k].id == p,
    ensures
        exists|k: int|
            0 <= k < shown_from(s, i, depth, last).len() && #[trigger] shown_from(s, i, depth, last)[k].id == kids(
                s,
                p as int,
            )[m],
    decreases deeper(s, level(s, i)), 1nat, 0nat,
{
    let all = shown_from(s, i, depth, last);
    let k = choose|k: int| 0 <= k < all.len() && #[trigger] all[k].id == p;
    let below = shown_below(s, i, kids(s, i).len(), depth);
    if k == 0 {
        lemma_child_first(s, root, i, kids(s, i).len(), depth, m);
        let x = choose|x: int| 0 <= x < below.len() && #[trigger] below[x].id == kids(s, i)[m];
        assert(all[x + 1] == below[x]);
    } else {
        assert(all[k] == below[k - 1]);
        lemma_children_shown_below(s, root, i, kids(s, i).len(), depth, p, m);
        let x = choose|x: int| 0 <= x < below.len() && #[trigger] below[x].id == kids(s, p as int)[m];
        assert(all[x + 1] == below[x]);
    }
}

proof fn lemma_children_shown_below(s: Slots, root: int, i: int, n: nat, depth: nat, p: NodeId, m: int)
    requires
        is_tree(s, root),
        live(s, i),
        n <= kids(s, i).len(),
        live(s, p as int),
        at(s, p as int).expanded,
        0 <= m < kids(s, p as int).len(),
        exists|k: int| 0 <= k < shown_below(s, i, n, depth).len() && #[trigger] shown_below(s, i, n, depth)[k].id == p,
    ensures
        exists|k: int|
            0 <= k < shown_below(s, i, n, depth).len() && #[trigger] shown_below(s, i, n, depth)[k].id == kids(s, p as int)[m],
    decreases deeper(s, level(s, i)), 0nat, n,
{
    let all = shown_below(s, i, n, depth);
    if n > 0 {
        let k = choose|k: int| 0 <= k < all.len() && #[trigger] all[k].id == p;
        let front = shown_below(s, i, (n - 1) as nat, depth);
        let c = kids(s, i)[n - 1] as int;
        let is_last = n == kids(s, i).len();
        let back = shown_from(s, c, depth + 1, is_last);
        assert(live(s, c) && one_below(at(s, c).path@, at(s, i).path@));
        lemma_deeper_step(s, level(s, i), c);
        assert(all == front + back);
        if k < front.len() {
            assert(front[k].id == p);
            lemma_children_shown_below(s, root, i, (n - 1) as nat, depth, p, m);
            let x = choose|x: int| 0 <= x < front.len() && #[trigger] front[x].id == kids(s, p as int)[m];
            assert(all[x] == front[x]);
        } else {
            assert(back[k - front.len()].id == p);
            lemma_children_shown_from(s, root, c, depth + 1, is_last, p, m);
            let x = choose|x: int| 0 <= x < back.len() && #[trigger] back[x].id == kids(s, p as int)[m];
            assert(all[front.len() + x] == back[x]);
        }
    }
}

/// Every child is among what is visible below its parent.
pub proof fn lemma_child_first(s: Slots, root: int, i: int, n: nat, depth: nat, m: int)
    requires
        is_tree(s, root),
        live(s, i),
        0 <= m < n <= kids(s, i).len(),
    ensures
        exists|k: int|
            0 <= k < shown_below(s, i, n, depth).len() && #[trigger] shown_below(s, i, n, depth)[k].id == kids(s, i)[m],
    decreases n,
{
    let all = shown_below(s, i, n, depth);
    let front = shown_below(s, i, (n - 1) as nat, depth);
    let c = kids(s, i)[n - 1] as int;
    assert(live(s, c));
    let back = shown_from(s, c, depth + 1, n == kids(s, i).len());
    assert(all == front + back);
    if m < n - 1 {
        lemma_child_first(s, root, i, (n - 1) as nat, depth, m);
        let x = choose|x: int| 0 <= x < front.len() && #[trigger] front[x].id == kids(s, i)[m];
        assert(all[x] == front[x]);
    } else {
        assert(back[0].id == c as usize);
        assert(all[front.len() as int] == back[0]);
    }
}

/// Every directory above `j` is open.
pub open spec fn open_above(s: Slots, root: int, j: int) -> bool
    decreases level(s, j),
    when is_tree(s, root) && live(s, j)
{
    j == root || {
        proof {
            if j != root {
                lemma_parent(s, root, j);
            }
        }
        at(s, at(s, j).parent->0 as int).expanded && open_above(s, root, at(s, j).parent->0 as int)
    }
}

/// A node has a row exactly when every directory above it is open.
pub proof fn lemma_visible_iff_open_above(s: Slots, root: int, id: NodeId)
    requires
        is_tree(s, root),
        live(s, id as int),
    ensures
        place_of(s, root, id) is Some <==> open_above(s, root, id as int),
    decreases level(s, id as int),
{
    let rows = shown(s, root);
    if id as int == root {
        assert(rows[0].id == id);
    } else {
        lemma_parent(s, root, id as int);
        let p = at(s, id as int).parent->0;
        lemma_visible_iff_open_above(s, root, p);
        if place_of(s, root, id) is Some {
            let k = choose|k: int| 0 <= k < rows.len() && #[trigger] rows[k].id == id;
            if k == 0 {
                assert(rows[0].id as int == root);
            }
            let j = lemma_rows_rebuild_paths(s, root, k);
            assert(rows[j].id == p);
        }
        if open_above(s, root, id as int) {
            let k = choose|k: int| 0 <= k < rows.len() && #[trigger] rows[k].id == p;
            let m = choose|m: int| 0 <= m < kids(s, p as int).len() && kids(s, p as int)[m] == id;
            assert(shown_from(s, root, 0, true)[k].id == p);
            lemma_children_shown_from(s, root, root, 0, true, p, m);
            let x = choose|x: int|
                0 <= x < shown_from(s, root, 0, true).len() && #[trigger] shown_from(s, root, 0, true)[x].id == kids(s, p as int)[m];
            assert(rows[x].id == id);
        }
    }
}

/// Once no ancestor is left to expand, a node is on screen.
pub proof fn lemma_revealed_is_visible(s: Slots, root: int, id: NodeId)
    requires
        is_tree(s, root),
        live(s, id as int),
        shut_above(s, root, id as int) is None,
    ensures
        place_of(s, root, id) is Some,
{
    lemma_open_above(s, root, id as int);
    lemma_visible_iff_open_above(s, root, id);
}

proof fn lemma_open_above(s: Slots, root: int, j: int)
    requires
        is_tree(s, root),
        live(s, j),
        shut_above(s, root, j) is None,
    ensures
        open_above(s, root, j),
    decreases level(s, j),
{
    if j != root {
        lemma_parent(s, root, j);
        lemma_open_above(s, root, at(s, j).parent->0 as int);
    }
}

} // verus!
